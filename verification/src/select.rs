//! Filtering described by positions: the records a filter keeps are exactly those at an
//! increasing list of positions, namely the positions whose records satisfy the predicate.
use vstd::prelude::*;

verus! {

/// `idx` lists, in increasing order, exactly the positions of `s` whose records satisfy `p`.
pub open spec fn selects<T>(idx: Seq<int>, s: Seq<T>, p: spec_fn(T) -> bool) -> bool {
    &&& forall|k: int| 0 <= k < idx.len() ==> 0 <= #[trigger] idx[k] < s.len() && p(s[idx[k]])
    &&& forall|k1: int, k2: int| 0 <= k1 < k2 < idx.len() ==> idx[k1] < idx[k2]
    &&& forall|i: int| 0 <= i < s.len() && p(#[trigger] s[i]) ==> exists|k: int| 0 <= k < idx.len() && idx[k] == i
}

/// A filter keeps, in order, the records at exactly the positions whose records satisfy
/// the predicate.
pub proof fn lemma_filter_selects<T>(s: Seq<T>, p: spec_fn(T) -> bool) -> (idx: Seq<int>)
    ensures
        selects(idx, s, p),
        idx.len() == s.filter(p).len(),
        forall|k: int| 0 <= k < idx.len() ==> s.filter(p)[k] == s[#[trigger] idx[k]],
    decreases s.len(),
{
    reveal(Seq::filter);
    if s.len() == 0 {
        Seq::empty()
    } else {
        let s2 = s.drop_last();
        let idx2 = lemma_filter_selects(s2, p);
        let n = s.len() - 1;
        assert forall|k: int| 0 <= k < idx2.len() implies 0 <= #[trigger] idx2[k] < n && s[idx2[k]] == s2[idx2[k]] by {}
        if p(s.last()) {
            let idx = idx2.push(n);
            assert forall|i: int| 0 <= i < s.len() && p(#[trigger] s[i]) implies exists|k: int|
                0 <= k < idx.len() && idx[k] == i by {
                if i < n {
                    assert(s2[i] == s[i]);
                    let k = choose|k: int| 0 <= k < idx2.len() && idx2[k] == i;
                    assert(idx[k] == i);
                } else {
                    assert(idx[idx2.len() as int] == i);
                }
            }
            assert forall|k: int| 0 <= k < idx.len() implies s.filter(p)[k] == s[#[trigger] idx[k]] by {
                if k < idx2.len() {
                    assert(idx[k] == idx2[k]);
                }
            }
            idx
        } else {
            assert forall|i: int| 0 <= i < s.len() && p(#[trigger] s[i]) implies exists|k: int|
                0 <= k < idx2.len() && idx2[k] == i by {
                assert(s2[i] == s[i]);
            }
            idx2
        }
    }
}

/// An increasing list of positions that selects by `p` also selects by any `q` that agrees
/// with `p` on every record of `s`.
pub proof fn lemma_selects_same_predicate<T>(idx: Seq<int>, s: Seq<T>, p: spec_fn(T) -> bool, q: spec_fn(T) -> bool)
    requires
        selects(idx, s, p),
        forall|i: int| 0 <= i < s.len() ==> p(#[trigger] s[i]) == q(s[i]),
    ensures
        selects(idx, s, q),
{
    assert forall|k: int| 0 <= k < idx.len() implies 0 <= #[trigger] idx[k] < s.len() && q(s[idx[k]]) by {
        assert(p(s[idx[k]]));
    }
}

} // verus!
