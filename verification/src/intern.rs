//! The two capabilities that the packer and the transcoder ask of a key
//! table: give a string an id, and give an id its string back.

use vstd::prelude::*;

verus! {

/// The ids of a table, by string.
pub type Ids = Map<Seq<char>, usize>;

/// The strings of a table, by id.
pub type Names = Map<usize, Seq<char>>;

/// Maps strings to small integer ids. A table only grows, and a string keeps
/// the id it was first given.
pub trait Interner {
    /// What the backend reports when it cannot intern.
    type Err;

    /// The ids handed out so far, by string. This is the model that the
    /// contracts speak of; nothing ever calls it.
    spec fn ids(&self) -> Ids;

    /// Whether this table takes every string: one that says so never fails.
    /// This too is a word of the contracts that nothing ever calls.
    spec fn infallible(&self) -> bool;

    /// Returns the id of `s`, giving it one if it has none yet. A string that
    /// already has an id gets that id again and leaves the table as it was; a
    /// failed call leaves the table as it was too.
    fn intern(&mut self, s: &str) -> (r: Result<usize, Self::Err>)
        ensures
            interned(old(self).ids(), s@, r.ok(), final(self).ids()),
            final(self).infallible() == old(self).infallible(),
            old(self).infallible() ==> r is Ok,
    ;
}

/// What one call to [`Interner::intern`] on `s` may do: `id` is what it
/// returned (`None` for a failure), `before` and `after` the table around it.
pub open spec fn interned(
    before: Ids,
    s: Seq<char>,
    id: Option<usize>,
    after: Ids,
) -> bool {
    match id {
        Some(id) => {
            &&& after == before.insert(s, id)
            &&& before.contains_key(s) ==> before[s] == id
        },
        None => after == before,
    }
}

/// The read-only side of a key table: maps an id back to its string.
pub trait Resolver {
    /// What the backend reports when a lookup cannot be carried out.
    type Err;

    /// The strings of the table, by id. This is the model that the
    /// contracts speak of; nothing ever calls it.
    spec fn names(&self) -> Names;

    /// Whether every lookup in this table comes to an answer: one that says
    /// so never fails. This too is a word of the contracts that nothing ever
    /// calls.
    spec fn infallible(&self) -> bool;

    /// Looks `k` up: the string that has this id, or `None` where no string
    /// has it.
    fn resolve(&self, k: usize) -> (r: Result<Option<&str>, Self::Err>)
        ensures
            resolved(self.names(), k, r),
            self.infallible() ==> r is Ok,
    ;
}

/// What a successful [`Resolver::resolve`] of `k` says of the table `names`.
/// A failed lookup says nothing.
pub open spec fn resolved<E>(
    names: Names,
    k: usize,
    r: Result<Option<&str>, E>,
) -> bool {
    match r {
        Ok(Some(s)) => names.contains_key(k) && names[k] == s@,
        Ok(None) => !names.contains_key(k),
        Err(_) => true,
    }
}

/// `names` gives every string among `keys` back from the id that `ids` has
/// for it: a resolver made from an interner does so for all its strings.
pub open spec fn inverts(
    names: Names,
    ids: Ids,
    keys: Set<Seq<char>>,
) -> bool {
    forall|s: Seq<char>| #[trigger]
        keys.contains(s) ==> ids.contains_key(s) && names.contains_key(ids[s]) && names[ids[s]]
            == s
}

} // verus!
