//! Compacts a MessagePack stream by interning the keys of its maps, and turns
//! a compacted stream straight into JSON text.
//!
//! Packing reads a stream value by value and writes it again with every key
//! of a map replaced by the id that an [`Interner`] has for it, and with
//! every string escaped for JSON. Transcoding reads a packed stream and
//! writes JSON text, with the names of the fields looked up in a
//! [`Resolver`].

pub mod encode;
pub mod endian;
pub mod error;
pub mod escape;
pub mod intern;
pub mod json;
pub mod laws;
pub mod msgpack;
pub mod pack;
pub mod prefix;
pub mod reread;
pub mod rodeo;
pub mod unpack;

pub use crate::error::{PackError, ReadValueError, UnpackError};
pub use crate::intern::{Interner, Resolver};
pub use crate::json::Float;
pub use crate::pack::{pack_msgpack_stream, Packer};
pub use crate::unpack::{
    compacted_stream_to_json, raw_msgpack_to_json, NoOpInterner, NonInternedRmpToJson, RmpToJson,
};
