//! `lasso`'s single-threaded interner and its resolver as key tables.

use crate::intern::{interned, inverts, Ids, Interner, Names, Resolver};
use lasso::Key;
use vstd::prelude::*;

verus! {

/// `lasso::Rodeo`, the interner; nothing is known of its inside.
#[verifier::external_type_specification]
#[verifier::external_body]
#[verifier::reject_recursive_types(K)]
#[verifier::reject_recursive_types(S)]
pub struct ExRodeo<K, S>(lasso::Rodeo<K, S>);

/// `lasso::RodeoResolver`, what an interner is frozen into; nothing is
/// known of its inside.
#[verifier::external_type_specification]
#[verifier::external_body]
#[verifier::reject_recursive_types(K)]
pub struct ExRodeoResolver<K>(lasso::RodeoResolver<K>);

/// `lasso::Spur`, the key that a rodeo hands out.
#[verifier::external_type_specification]
#[verifier::external_body]
pub struct ExSpur(lasso::Spur);

/// `lasso::LassoError`, why a rodeo could not intern.
#[verifier::external_type_specification]
#[verifier::external_body]
pub struct ExLassoError(lasso::LassoError);

/// The strings that a `Rodeo` holds, in the order in which it took them in:
/// the place of a string is its id.
pub uninterp spec fn rodeo_strings(
    rodeo: lasso::Rodeo<lasso::Spur, std::hash::RandomState>,
) -> Seq<Seq<char>>;

/// The strings that a `RodeoResolver` holds, by id.
pub uninterp spec fn resolver_strings(resolver: lasso::RodeoResolver<lasso::Spur>) -> Seq<
    Seq<char>,
>;

/// The first place at which `s` stands in `strings`.
pub open spec fn first_index(strings: Seq<Seq<char>>, s: Seq<char>) -> int
    decreases strings.len(),
{
    if strings.len() == 0 {
        0
    } else if strings.drop_last().contains(s) {
        first_index(strings.drop_last(), s)
    } else {
        strings.len() - 1
    }
}

/// The ids of a table that holds `strings` in this order.
pub open spec fn ids_of(strings: Seq<Seq<char>>) -> Ids {
    Map::new(|s: Seq<char>| strings.contains(s), |s: Seq<char>| first_index(strings, s) as usize)
}

/// The strings of a table that holds `strings` in this order, by id.
pub open spec fn names_of(strings: Seq<Seq<char>>) -> Names {
    Map::new(|k: usize| k < strings.len(), |k: usize| strings[k as int])
}

/// What interning `s` does to the strings of a table: one that is there
/// already is found at its place, a new one goes to the end.
pub open spec fn taken_in(
    before: Seq<Seq<char>>,
    s: Seq<char>,
    id: Option<usize>,
    after: Seq<Seq<char>>,
) -> bool {
    match id {
        Some(id) => if before.contains(s) {
            after == before && id == first_index(before, s)
        } else {
            after == before.push(s) && id == before.len()
        },
        None => after == before,
    }
}

/// What a lookup of `k` finds in a table that holds `strings`.
pub open spec fn found(strings: Seq<Seq<char>>, k: usize, r: Option<&str>) -> bool {
    match r {
        Some(s) => k < strings.len() && s@ == strings[k as int],
        None => k >= strings.len(),
    }
}

/// Calls `Rodeo::new`, which makes a rodeo that holds no string.
#[verifier::external_body]
fn rodeo_new() -> (rodeo: lasso::Rodeo<lasso::Spur, std::hash::RandomState>)
    ensures
        rodeo_strings(rodeo) == Seq::<Seq<char>>::empty(),
{
    lasso::Rodeo::new()
}

/// Calls `Rodeo::try_get_or_intern` and turns the key into its number. A
/// string that the rodeo holds keeps its key; a new one gets the count of
/// strings so far as its key and goes to the end; a failure changes nothing.
/// Only taking a new string in can fail, for want of a key or of memory: a
/// string that the rodeo holds is looked up and always found.
#[verifier::external_body]
fn rodeo_intern(rodeo: &mut lasso::Rodeo<lasso::Spur, std::hash::RandomState>, s: &str) -> (r:
    Result<usize, lasso::LassoError>)
    ensures
        taken_in(rodeo_strings(*old(rodeo)), s@, r.ok(), rodeo_strings(*final(rodeo))),
        rodeo_strings(*old(rodeo)).contains(s@) ==> r is Ok,
{
    match rodeo.try_get_or_intern(s) {
        Ok(key) => Ok(key.into_usize()),
        Err(e) => Err(e),
    }
}

/// Calls `Rodeo::try_resolve` with the key whose number is `k`, where there
/// is such a key: the string at place `k`, or `None` past the end.
#[verifier::external_body]
fn rodeo_resolve<'a>(
    rodeo: &'a lasso::Rodeo<lasso::Spur, std::hash::RandomState>,
    k: usize,
) -> (r: Option<&'a str>)
    ensures
        found(rodeo_strings(*rodeo), k, r),
{
    match lasso::Spur::try_from_usize(k) {
        Some(key) => rodeo.try_resolve(&key),
        None => None,
    }
}

/// Calls `RodeoResolver::try_resolve` with the key whose number is `k`,
/// where there is such a key: the string at place `k`, or `None` past the
/// end.
#[verifier::external_body]
fn resolver_resolve<'a>(resolver: &'a lasso::RodeoResolver<lasso::Spur>, k: usize) -> (r: Option<
    &'a str,
>)
    ensures
        found(resolver_strings(*resolver), k, r),
{
    match lasso::Spur::try_from_usize(k) {
        Some(key) => resolver.try_resolve(&key),
        None => None,
    }
}

/// Calls `Rodeo::into_resolver`, which hands its vector of strings over as
/// it is.
#[verifier::external_body]
fn rodeo_into_resolver(rodeo: lasso::Rodeo<lasso::Spur, std::hash::RandomState>) -> (r:
    lasso::RodeoResolver<lasso::Spur>)
    ensures
        resolver_strings(r) == rodeo_strings(rodeo),
        resolver_strings(r).len() <= usize::MAX,
{
    rodeo.into_resolver()
}

/// The first place of a string that occurs is a place where it stands.
pub proof fn lemma_first_index(strings: Seq<Seq<char>>, s: Seq<char>)
    requires
        strings.contains(s),
    ensures
        0 <= first_index(strings, s) < strings.len(),
        strings[first_index(strings, s)] == s,
    decreases strings.len(),
{
    if strings.drop_last().contains(s) {
        lemma_first_index(strings.drop_last(), s);
    } else {
        let i = choose|i: int| 0 <= i < strings.len() && strings[i] == s;
        if i < strings.len() - 1 {
            assert(strings.drop_last()[i] == s);
        }
    }
}

/// Taking a string in is interning it.
pub proof fn lemma_taken_in_interned(
    before: Seq<Seq<char>>,
    s: Seq<char>,
    id: Option<usize>,
    after: Seq<Seq<char>>,
)
    requires
        taken_in(before, s, id, after),
    ensures
        interned(ids_of(before), s, id, ids_of(after)),
{
    if id is Some {
        if before.contains(s) {
            assert(ids_of(after) =~= ids_of(before).insert(s, id->0));
        } else {
            assert(after.drop_last() =~= before);
            assert(after.last() == s);
            assert forall|t: Seq<char>| after.contains(t) <==> before.contains(t) || t == s by {
                if after.contains(t) {
                    let i = choose|i: int| 0 <= i < after.len() && after[i] == t;
                    if i < before.len() {
                        assert(before[i] == t);
                    }
                }
                if before.contains(t) {
                    let i = choose|i: int| 0 <= i < before.len() && before[i] == t;
                    assert(after[i] == t);
                }
                if t == s {
                    assert(after[before.len() as int] == t);
                }
            }
            assert(ids_of(after) =~= ids_of(before).insert(s, id->0));
        }
    }
}

/// The names of a table give each of its strings back from its id.
pub proof fn lemma_names_invert_ids(strings: Seq<Seq<char>>)
    requires
        strings.len() <= usize::MAX,
    ensures
        inverts(names_of(strings), ids_of(strings), ids_of(strings).dom()),
{
    assert forall|s: Seq<char>| #[trigger] ids_of(strings).dom().contains(s) implies ids_of(
        strings,
    ).contains_key(s) && names_of(strings).contains_key(ids_of(strings)[s]) && names_of(
        strings,
    )[ids_of(strings)[s]] == s by {
        lemma_first_index(strings, s);
    }
}

impl Interner for lasso::Rodeo<lasso::Spur, std::hash::RandomState> {
    type Err = lasso::LassoError;

    open spec fn ids(&self) -> Ids {
        ids_of(rodeo_strings(*self))
    }

    /// A rodeo can run out of keys or of the memory it was allowed.
    open spec fn infallible(&self) -> bool {
        false
    }

    /// A string that the rodeo holds is found with the id it has, whatever
    /// room is left; only a new string can fail to be taken in.
    fn intern(&mut self, s: &str) -> (r: Result<usize, lasso::LassoError>)
        ensures
            taken_in(rodeo_strings(*old(self)), s@, r.ok(), rodeo_strings(*final(self))),
            old(self).ids().contains_key(s@) ==> r == Ok::<usize, lasso::LassoError>(
                old(self).ids()[s@],
            ) && rodeo_strings(*final(self)) == rodeo_strings(*old(self)),
    {
        let r = rodeo_intern(self, s);
        proof {
            lemma_taken_in_interned(
                rodeo_strings(*old(self)),
                s@,
                r.ok(),
                rodeo_strings(*self),
            );
        }
        r
    }
}

impl Resolver for lasso::Rodeo<lasso::Spur, std::hash::RandomState> {
    type Err = core::convert::Infallible;

    open spec fn names(&self) -> Names {
        names_of(rodeo_strings(*self))
    }

    open spec fn infallible(&self) -> bool {
        true
    }

    fn resolve(&self, k: usize) -> (r: Result<Option<&str>, core::convert::Infallible>) {
        Ok(rodeo_resolve(self, k))
    }
}

impl Resolver for lasso::RodeoResolver<lasso::Spur> {
    type Err = core::convert::Infallible;

    open spec fn names(&self) -> Names {
        names_of(resolver_strings(*self))
    }

    open spec fn infallible(&self) -> bool {
        true
    }

    fn resolve(&self, k: usize) -> (r: Result<Option<&str>, core::convert::Infallible>) {
        Ok(resolver_resolve(self, k))
    }
}

/// An interner that holds nothing yet: the strings it takes in are numbered
/// from 0 in the order in which they come.
pub fn new_rodeo() -> (rodeo: lasso::Rodeo<lasso::Spur, std::hash::RandomState>)
    ensures
        rodeo_strings(rodeo) == Seq::<Seq<char>>::empty(),
        rodeo.ids() == Map::<Seq<char>, usize>::empty(),
{
    let rodeo = rodeo_new();
    assert(rodeo.ids() =~= Map::<Seq<char>, usize>::empty());
    rodeo
}

/// Freezes an interner into the resolver of its strings: every string that
/// the interner gave an id is what the resolver has for that id.
pub fn into_resolver(rodeo: lasso::Rodeo<lasso::Spur, std::hash::RandomState>) -> (r:
    lasso::RodeoResolver<lasso::Spur>)
    ensures
        r.names() == names_of(rodeo_strings(rodeo)),
        inverts(r.names(), rodeo.ids(), rodeo.ids().dom()),
{
    let r = rodeo_into_resolver(rodeo);
    proof {
        lemma_names_invert_ids(rodeo_strings(rodeo));
    }
    r
}

} // verus!
