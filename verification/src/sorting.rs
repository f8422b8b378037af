//! A verified ascending sort for index vectors.

use vstd::prelude::*;
use vstd::multiset::Multiset;

verus! {

broadcast use vstd::seq_lib::group_to_multiset_ensures;

/// The sequence is ascending (not necessarily strictly).
pub open spec fn sorted(s: Seq<usize>) -> bool {
    forall|a: int, b: int| 0 <= a < b < s.len() ==> s[a] <= s[b]
}

/// Sorts the given indices ascending.  The result holds exactly the same
/// values, multiplicities included.
pub fn sort_ascending(v: Vec<usize>) -> (r: Vec<usize>)
    ensures
        sorted(r@),
        r@.to_multiset() == v@.to_multiset(),
{
    let ghost orig = v@;
    let mut src = v;
    let mut out: Vec<usize> = Vec::new();
    proof {
        assert(out@.to_multiset().add(src@.to_multiset()) =~= orig.to_multiset());
    }
    while src.len() > 0
        invariant
            out@.to_multiset().add(src@.to_multiset()) == orig.to_multiset(),
            sorted(out@),
            forall|a: int, t: int|
                0 <= a < out@.len() && 0 <= t < src@.len() ==> out@[a] <= src@[t],
        decreases src@.len(),
    {
        let mut m: usize = 0;
        let mut t: usize = 1;
        while t < src.len()
            invariant
                src@.len() > 0,
                (m as int) < src@.len(),
                t <= src@.len(),
                forall|u: int| 0 <= u < t ==> src@[m as int] <= src@[u],
            decreases src@.len() - t,
        {
            if src[t] < src[m] {
                m = t;
            }
            t = t + 1;
        }
        let ghost src_before = src@;
        let ghost out_before = out@;
        let x = src.remove(m);
        out.push(x);
        proof {
            assert(src_before[m as int] == x);
            assert(src_before.contains(x));
            assert(src@ == src_before.remove(m as int));
            assert(src@.to_multiset() == src_before.to_multiset().remove(x));
            assert(out@.to_multiset() == out_before.to_multiset().insert(x));
            assert(src_before.to_multiset().count(x) >= 1);
            assert(out@.to_multiset().add(src@.to_multiset()) =~= orig.to_multiset());
            // every element left in `src` is at least `x`
            assert forall|u: int| 0 <= u < src@.len() implies x <= src@[u] by {
                if u < m {
                    assert(src@[u] == src_before[u]);
                } else {
                    assert(src@[u] == src_before[u + 1]);
                }
            }
        }
    }
    proof {
        assert(src@.to_multiset() =~= Multiset::<usize>::empty());
        assert(out@.to_multiset() =~= orig.to_multiset());
    }
    out
}

} // verus!
