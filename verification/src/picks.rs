//! What is picked out of a list, place by place.

use vstd::prelude::*;

verus! {

/// Whether some places, ascending, are just those of a list's items that are
/// wanted.
pub open spec fn are_places<A>(s: Seq<A>, want: spec_fn(A) -> bool, at: Seq<int>) -> bool {
    &&& forall|k: int| 0 <= k < at.len() ==> 0 <= #[trigger] at[k] < s.len() && want(s[at[k]])
    &&& forall|k: int, l: int| 0 <= k < l < at.len() ==> #[trigger] at[k] < #[trigger] at[l]
    &&& forall|i: int| 0 <= i < s.len() && want(#[trigger] s[i]) ==> at.contains(i)
}

/// Where the items stand that a filter leaves.
pub proof fn lemma_filter_places<A>(s: Seq<A>, want: spec_fn(A) -> bool) -> (at: Seq<int>)
    ensures
        are_places(s, want, at),
        at.len() == s.filter(want).len(),
        forall|k: int| 0 <= k < at.len() ==> s.filter(want)[k] == s[#[trigger] at[k]],
    decreases s.len(),
{
    reveal(Seq::filter);
    if s.len() == 0 {
        Seq::empty()
    } else {
        let front = s.drop_last();
        let before = lemma_filter_places(front, want);
        let n = s.len() - 1;
        let at = if want(s.last()) {
            before.push(n)
        } else {
            before
        };
        assert forall|k: int| 0 <= k < at.len() implies 0 <= #[trigger] at[k] < s.len() && want(s[at[k]])
            && s.filter(want)[k] == s[at[k]] by {
            if k < before.len() {
                assert(at[k] == before[k]);
                assert(front[before[k]] == s[before[k]]);
            }
        }
        assert forall|i: int| 0 <= i < s.len() && want(#[trigger] s[i]) implies at.contains(i) by {
            if i < n {
                assert(want(front[i]));
                let k = before.index_of(i);
                assert(at[k] == i);
            } else {
                assert(at[before.len() as int] == n);
            }
        }
        at
    }
}

} // verus!
