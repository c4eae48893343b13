//! Position sets handed to callers, as `BTreeSet`s.
use vstd::prelude::*;

use std::collections::BTreeSet;

verus! {

broadcast use vstd::laws_cmp::group_laws_cmp;

/// The positions of `v`, as a set.
pub fn set_of(v: &Vec<usize>) -> (r: BTreeSet<usize>)
    ensures
        r@ == v@.to_set(),
{
    let mut r: BTreeSet<usize> = BTreeSet::new();
    let mut k: usize = 0;
    while k < v.len()
        invariant
            k <= v@.len(),
            r@ == v@.subrange(0, k as int).to_set(),
        decreases v.len() - k,
    {
        r.insert(v[k]);
        proof {
            let t = v@.subrange(0, k + 1);
            let p = v@.subrange(0, k as int);
            assert forall|a: usize| r@.contains(a) <==> #[trigger] t.contains(a) by {
                if t.contains(a) {
                    let q = choose|q: int| 0 <= q < t.len() && t[q] == a;
                    if q < k {
                        assert(p[q] == a);
                    }
                }
                if p.contains(a) {
                    let q = choose|q: int| 0 <= q < p.len() && p[q] == a;
                    assert(t[q] == a);
                }
                if a == v@[k as int] {
                    assert(t[k as int] == a);
                }
            }
            assert(r@ =~= t.to_set());
        }
        k = k + 1;
    }
    assert(v@.subrange(0, v@.len() as int) =~= v@);
    r
}

/// Whether `s` holds `x`.
pub fn set_has(s: &BTreeSet<usize>, x: usize) -> (b: bool)
    ensures
        b == s@.contains(x),
{
    s.contains(&x)
}

} // verus!
