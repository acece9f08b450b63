//! Two facts about the beginning of a sequence.

use vstd::prelude::*;

verus! {

/// What begins `out + a` begins `out + b` too, where `a` begins `b`.
pub proof fn lemma_begins_longer<T>(grown: Seq<T>, out: Seq<T>, a: Seq<T>, b: Seq<T>)
    requires
        grown.is_prefix_of(out + a),
        a.is_prefix_of(b),
    ensures
        grown.is_prefix_of(out + b),
{
    assert forall|i: int| 0 <= i < grown.len() implies grown[i] == (out + b)[i] by {
        assert(grown[i] == (out + a)[i]);
        if i >= out.len() {
            assert(a[i - out.len()] == b[i - out.len()]);
        }
    }
    assert(grown =~= (out + b).subrange(0, grown.len() as int));
}

/// What begins `out + a` begins `out + (a + b)`.
pub proof fn lemma_begins_more<T>(grown: Seq<T>, out: Seq<T>, a: Seq<T>, b: Seq<T>)
    requires
        grown.is_prefix_of(out + a),
    ensures
        grown.is_prefix_of(out + (a + b)),
{
    assert(a.is_prefix_of(a + b)) by {
        assert(a =~= (a + b).subrange(0, a.len() as int));
    }
    lemma_begins_longer(grown, out, a, a + b);
}

} // verus!
