//! Sets of input positions, kept as strictly increasing vectors.
//!
//! The recognizer answers with *every* end position an element can reach, so its working
//! values are sets; a sorted vector holds one compactly, and merges, differences and
//! comparisons are linear walks over it.
use vstd::prelude::*;

verus! {

/// Whether `v` is strictly increasing, which makes it a set without repeats.
pub open spec fn increasing(v: Seq<usize>) -> bool {
    forall|a: int, b: int| 0 <= a < b < v.len() ==> v[a] < v[b]
}

/// The set of positions `v` holds.
pub open spec fn pset(v: Seq<usize>) -> Set<int> {
    Set::new(|x: int| exists|i: int| 0 <= i < v.len() && #[trigger] v[i] as int == x)
}

/// Whether every position of `v` is at most `hi`.
pub open spec fn all_at_most(v: Seq<usize>, hi: int) -> bool {
    forall|i: int| 0 <= i < v.len() ==> #[trigger] v[i] <= hi
}

/// The one-position set.
pub fn single(p: usize) -> (r: Vec<usize>)
    ensures
        increasing(r@),
        pset(r@) == Set::<int>::empty().insert(p as int),
        r@.len() == 1,
        r@[0] == p,
{
    let r = vec![p];
    assert(pset(r@) =~= Set::<int>::empty().insert(p as int)) by {
        assert(r@[0] == p);
    }
    r
}

/// A copy of `v`.
pub fn copy_of(v: &Vec<usize>) -> (r: Vec<usize>)
    ensures
        r@ == v@,
{
    let mut r: Vec<usize> = Vec::new();
    let mut i: usize = 0;
    while i < v.len()
        invariant
            i <= v@.len(),
            r@ == v@.subrange(0, i as int),
        decreases v@.len() - i,
    {
        r.push(v[i]);
        i = i + 1;
        assert(r@ =~= v@.subrange(0, i as int));
    }
    assert(v@.subrange(0, v@.len() as int) =~= v@);
    r
}

/// Whether `v` holds `x`.
pub fn holds(v: &Vec<usize>, x: usize) -> (r: bool)
    requires
        increasing(v@),
    ensures
        r == pset(v@).contains(x as int),
{
    let mut i: usize = 0;
    while i < v.len()
        invariant
            i <= v@.len(),
            forall|k: int| 0 <= k < i ==> #[trigger] v@[k] != x,
        decreases v@.len() - i,
    {
        if v[i] == x {
            assert(pset(v@).contains(x as int)) by {
                assert(v@[i as int] as int == x as int);
            }
            return true;
        }
        i = i + 1;
    }
    false
}

/// Whether `a` and `b` hold the same positions, tested element by element.
pub fn same(a: &Vec<usize>, b: &Vec<usize>) -> (r: bool)
    ensures
        r ==> pset(a@) == pset(b@),
        r <==> a@ == b@,
{
    if a.len() != b.len() {
        return false;
    }
    let mut i: usize = 0;
    while i < a.len()
        invariant
            a@.len() == b@.len(),
            i <= a@.len(),
            forall|k: int| 0 <= k < i ==> #[trigger] a@[k] == b@[k],
        decreases a@.len() - i,
    {
        if a[i] != b[i] {
            return false;
        }
        i = i + 1;
    }
    assert(a@ =~= b@);
    true
}

/// The positions of `a` and of `b`, merged.
pub fn union(a: &Vec<usize>, b: &Vec<usize>) -> (r: Vec<usize>)
    requires
        increasing(a@),
        increasing(b@),
    ensures
        increasing(r@),
        pset(r@) == pset(a@).union(pset(b@)),
        pset(a@).disjoint(pset(b@)) ==> r@.len() == a@.len() + b@.len(),
{
    let mut r: Vec<usize> = Vec::new();
    let mut i: usize = 0;
    let mut j: usize = 0;
    let ghost mut shared: nat = 0;
    while i < a.len() || j < b.len()
        invariant
            increasing(a@),
            increasing(b@),
            increasing(r@),
            i <= a@.len(),
            j <= b@.len(),
            r@.len() + shared == i + j,
            shared > 0 ==> !pset(a@).disjoint(pset(b@)),
            forall|x: int|
                pset(r@).contains(x) <==> (exists|k: int| 0 <= k < i && #[trigger] a@[k] as int == x)
                    || (exists|k: int| 0 <= k < j && #[trigger] b@[k] as int == x),
            r@.len() > 0 && i < a@.len() ==> r@[r@.len() - 1] < a@[i as int],
            r@.len() > 0 && j < b@.len() ==> r@[r@.len() - 1] < b@[j as int],
        decreases a@.len() + b@.len() - i - j,
    {
        let ghost before = r@;
        let take_a = j >= b.len() || (i < a.len() && a[i] <= b[j]);
        let x;
        if take_a {
            x = a[i];
            if j < b.len() && b[j] == x {
                j = j + 1;
                proof {
                    shared = shared + 1;
                    assert(pset(a@).contains(x as int) && pset(b@).contains(x as int)) by {
                        assert(a@[i as int] as int == x as int);
                        assert(b@[j - 1] as int == x as int);
                    }
                }
            }
            i = i + 1;
        } else {
            x = b[j];
            j = j + 1;
        }
        r.push(x);
        proof {
            assert forall|y: int|
                pset(r@).contains(y) <==> (exists|k: int| 0 <= k < i && #[trigger] a@[k] as int == y)
                    || (exists|k: int| 0 <= k < j && #[trigger] b@[k] as int == y) by {
                if pset(r@).contains(y) {
                    let t = choose|t: int| 0 <= t < r@.len() && #[trigger] r@[t] as int == y;
                    if t < before.len() {
                        assert(before[t] as int == y);
                        assert(pset(before).contains(y));
                    }
                }
                if (exists|k: int| 0 <= k < i && #[trigger] a@[k] as int == y)
                    || (exists|k: int| 0 <= k < j && #[trigger] b@[k] as int == y) {
                    if y == x as int {
                        assert(r@[r@.len() - 1] as int == y);
                    } else {
                        assert(pset(before).contains(y));
                        let t = choose|t: int| 0 <= t < before.len() && #[trigger] before[t] as int == y;
                        assert(r@[t] as int == y);
                    }
                }
            }
        }
    }
    proof {
        assert forall|x: int| pset(r@).contains(x) == pset(a@).union(pset(b@)).contains(x) by {
            if pset(a@).contains(x) {
                let k = choose|k: int| 0 <= k < a@.len() && #[trigger] a@[k] as int == x;
            }
            if pset(b@).contains(x) {
                let k = choose|k: int| 0 <= k < b@.len() && #[trigger] b@[k] as int == x;
            }
        }
        assert(pset(r@) =~= pset(a@).union(pset(b@)));
    }
    r
}

/// The positions of `a` that are not in `b`.
pub fn minus(a: &Vec<usize>, b: &Vec<usize>) -> (r: Vec<usize>)
    requires
        increasing(a@),
        increasing(b@),
    ensures
        increasing(r@),
        pset(r@) == pset(a@).difference(pset(b@)),
{
    let mut r: Vec<usize> = Vec::new();
    let mut i: usize = 0;
    let mut j: usize = 0;
    while i < a.len()
        invariant
            increasing(a@),
            increasing(b@),
            increasing(r@),
            i <= a@.len(),
            j <= b@.len(),
            forall|k: int| 0 <= k < j ==> #[trigger] b@[k] < (if i < a@.len() { a@[i as int] } else { usize::MAX }) || i == a@.len(),
            forall|x: int|
                pset(r@).contains(x) <==> (exists|k: int| 0 <= k < i && #[trigger] a@[k] as int == x)
                    && !pset(b@).contains(x),
            r@.len() > 0 && i < a@.len() ==> r@[r@.len() - 1] < a@[i as int],
        decreases a@.len() - i,
    {
        let x = a[i];
        while j < b.len() && b[j] < x
            invariant
                increasing(b@),
                j <= b@.len(),
                forall|k: int| 0 <= k < j ==> #[trigger] b@[k] < x,
            decreases b@.len() - j,
        {
            j = j + 1;
        }
        let found = j < b.len() && b[j] == x;
        let ghost before = r@;
        if !found {
            r.push(x);
        }
        proof {
            assert(found <==> pset(b@).contains(x as int)) by {
                if pset(b@).contains(x as int) {
                    let k = choose|k: int| 0 <= k < b@.len() && #[trigger] b@[k] as int == x as int;
                    if k < j {
                        assert(b@[k] < x);
                    } else if k > j {
                        assert(b@[j as int] < b@[k]);
                    }
                }
                if found {
                    assert(b@[j as int] as int == x as int);
                }
            }
        }
        i = i + 1;
        proof {
            assert forall|y: int|
                pset(r@).contains(y) <==> (exists|k: int| 0 <= k < i && #[trigger] a@[k] as int == y)
                    && !pset(b@).contains(y) by {
                if pset(r@).contains(y) {
                    let t = choose|t: int| 0 <= t < r@.len() && #[trigger] r@[t] as int == y;
                    if t < before.len() {
                        assert(before[t] as int == y);
                        assert(pset(before).contains(y));
                    } else {
                        assert(a@[i - 1] as int == y);
                    }
                }
                if (exists|k: int| 0 <= k < i && #[trigger] a@[k] as int == y) && !pset(b@).contains(y) {
                    let k = choose|k: int| 0 <= k < i && #[trigger] a@[k] as int == y;
                    if k == i - 1 {
                        assert(r@[r@.len() - 1] as int == y);
                    } else {
                        assert(pset(before).contains(y));
                        let t = choose|t: int| 0 <= t < before.len() && #[trigger] before[t] as int == y;
                        assert(r@[t] as int == y);
                    }
                }
            }
            assert forall|k: int| 0 <= k < j implies #[trigger] b@[k] < (if i < a@.len() { a@[i as int] } else { usize::MAX }) || i == a@.len() by {
                if i < a@.len() {
                    assert(a@[i - 1] < a@[i as int]);
                }
            }
        }
    }
    proof {
        assert forall|x: int| pset(r@).contains(x) == pset(a@).difference(pset(b@)).contains(x) by {
            if pset(a@).contains(x) {
                let k = choose|k: int| 0 <= k < a@.len() && #[trigger] a@[k] as int == x;
            }
        }
        assert(pset(r@) =~= pset(a@).difference(pset(b@)));
    }
    r
}

/// An increasing sequence of positions in `lo..=hi` has at most `hi - lo + 1` of them.
pub proof fn lemma_increasing_len(v: Seq<usize>, lo: int, hi: int)
    requires
        increasing(v),
        forall|i: int| 0 <= i < v.len() ==> lo <= #[trigger] v[i] <= hi,
    ensures
        v.len() <= hi - lo + 1 || v.len() == 0,
    decreases v.len(),
{
    if v.len() > 0 {
        assert(lo <= v[0] <= hi);
    }
    if v.len() > 1 {
        let w = v.subrange(1, v.len() as int);
        assert forall|i: int| 0 <= i < w.len() implies v[0] + 1 <= #[trigger] w[i] <= hi by {
            assert(w[i] == v[i + 1]);
        }
        assert(increasing(w)) by {
            assert forall|a: int, b: int| 0 <= a < b < w.len() implies w[a] < w[b] by {
                assert(w[a] == v[a + 1] && w[b] == v[b + 1]);
            }
        }
        lemma_increasing_len(w, v[0] + 1, hi);
    }
}

} // verus!
