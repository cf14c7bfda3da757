//! The extension order on sequences: `b` extends `a` when it only
//! appends, so every earlier entry stands unchanged at its index. The
//! inferred-type table and emitted operation sequences grow this way.

use vstd::prelude::*;

verus! {

/// `b` extends `a`: the earlier entries stand unchanged at their
/// indices.
pub open spec fn seq_ext<T>(a: Seq<T>, b: Seq<T>) -> bool {
    b.len() >= a.len() && forall|k: int| 0 <= k < a.len() ==> b[k] == #[trigger] a[k]
}

/// Extension is transitive.
pub broadcast proof fn lemma_seq_ext_trans<T>(a: Seq<T>, b: Seq<T>, c: Seq<T>)
    requires
        #[trigger] seq_ext(a, b),
        #[trigger] seq_ext(b, c),
    ensures
        seq_ext(a, c),
{
    assert forall|k: int| 0 <= k < a.len() implies c[k] == #[trigger] a[k] by {
        assert(b[k] == a[k]);
        assert(c[k] == b[k]);
    }
}

/// Appending extends.
pub broadcast proof fn lemma_seq_ext_push<T>(a: Seq<T>, e: T)
    ensures
        seq_ext(a, #[trigger] a.push(e)),
{
    assert forall|k: int| 0 <= k < a.len() implies a.push(e)[k] == #[trigger] a[k] by {}
}

} // verus!
