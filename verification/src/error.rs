//! What can go wrong while reading a value, packing and transcoding.

use crate::intern::{Interner, Resolver};
use vstd::prelude::*;

verus! {

/// `core::str::Utf8Error`, what the check of a string's bytes reports.
#[verifier::external_type_specification]
#[verifier::external_body]
pub struct ExUtf8Error(core::str::Utf8Error);

/// Why no value could be read at the cursor.
#[derive(Debug)]
pub enum ReadValueError {
    /// The buffer ended where a marker was due.
    RmpValueRead,
    /// The buffer ended inside a length or a payload.
    IOError,
    /// The bytes of a string are not UTF-8.
    InvalidUTF8(core::str::Utf8Error),
    /// A length was asked of a marker that has none.
    InvalidCall(&'static str),
    /// The marker is one of the extension types, or the reserved one.
    UnsupportedType(&'static str),
}

/// [`ReadValueError`] as contracts speak of it.
pub enum ReadFault {
    RmpValueRead,
    IOError,
    InvalidUTF8,
    InvalidCall(Seq<char>),
    UnsupportedType(Seq<char>),
}

impl View for ReadValueError {
    type V = ReadFault;

    open spec fn view(&self) -> ReadFault {
        match self {
            ReadValueError::RmpValueRead => ReadFault::RmpValueRead,
            ReadValueError::IOError => ReadFault::IOError,
            ReadValueError::InvalidUTF8(_) => ReadFault::InvalidUTF8,
            ReadValueError::InvalidCall(what) => ReadFault::InvalidCall(what@),
            ReadValueError::UnsupportedType(what) => ReadFault::UnsupportedType(what@),
        }
    }
}

/// Why packing stopped.
pub enum PackError<I: Interner> {
    /// The input could not be read.
    ValueRead(ReadValueError),
    /// The input asks for something the packer does not do.
    Unsupported(&'static str),
    /// The interner failed.
    Interner(I::Err),
}

/// [`PackError`] as contracts speak of it.
pub enum PackFault {
    ValueRead(ReadFault),
    Unsupported(Seq<char>),
    Interner,
}

impl<I: Interner> View for PackError<I> {
    type V = PackFault;

    open spec fn view(&self) -> PackFault {
        match self {
            PackError::ValueRead(e) => PackFault::ValueRead(e@),
            PackError::Unsupported(what) => PackFault::Unsupported(what@),
            PackError::Interner(_) => PackFault::Interner,
        }
    }
}

/// Why transcoding stopped.
pub enum UnpackError<R: Resolver> {
    /// The input could not be read.
    ValueRead(ReadValueError),
    /// The resolver has no string for the id of a key.
    KeyNotFound,
    /// The input holds something that cannot be written as JSON here.
    Unsupported(&'static str),
    /// The resolver failed.
    Resolver(R::Err),
}

/// [`UnpackError`] as contracts speak of it.
pub enum UnpackFault {
    ValueRead(ReadFault),
    KeyNotFound,
    Unsupported(Seq<char>),
    Resolver,
}

impl<R: Resolver> View for UnpackError<R> {
    type V = UnpackFault;

    open spec fn view(&self) -> UnpackFault {
        match self {
            UnpackError::ValueRead(e) => UnpackFault::ValueRead(e@),
            UnpackError::KeyNotFound => UnpackFault::KeyNotFound,
            UnpackError::Unsupported(what) => UnpackFault::Unsupported(what@),
            UnpackError::Resolver(_) => UnpackFault::Resolver,
        }
    }
}

} // verus!
