//! Sorting a range of a slice with a caller's comparison, moving elements
//! only by swapping them.
use vstd::prelude::*;
use vstd::seq_lib::to_multiset_update;
use std::cmp::Ordering;

verus! {

/// Whether `cmp` puts `x` after `y`.
pub open spec fn greater<T, F: Fn(&T, &T) -> Ordering>(cmp: F, x: T, y: T) -> bool {
    cmp.ensures((&x, &y), Ordering::Greater)
}

/// `cmp` accepts every pair, answers `Greater` for a pair always or never,
/// and never puts each of two values after the other.
pub open spec fn consistent_order<T, F: Fn(&T, &T) -> Ordering>(cmp: F) -> bool {
    &&& forall|x: T, y: T| #[trigger] cmp.requires((&x, &y))
    &&& forall|x: T, y: T, o: Ordering|
        #[trigger] cmp.ensures((&x, &y), o) ==> ((o == Ordering::Greater) == greater(cmp, x, y))
    &&& forall|x: T, y: T| #[trigger] greater(cmp, x, y) ==> !greater(cmp, y, x)
}

/// No element of `s[a..b]` comes after its successor.
pub open spec fn sorted_run<T, F: Fn(&T, &T) -> Ordering>(cmp: F, s: Seq<T>, a: int, b: int) -> bool {
    forall|k: int| a <= k && k + 1 < b ==> !#[trigger] greater(cmp, s[k], s[k + 1])
}

/// `s` and `t` agree outside `[a, b)`.
pub open spec fn same_outside<T>(s: Seq<T>, t: Seq<T>, a: int, b: int) -> bool {
    &&& s.len() == t.len()
    &&& forall|k: int| 0 <= k < s.len() && !(a <= k < b) ==> #[trigger] s[k] == t[k]
}

/// Neither of `x` and `y` comes after the other.
pub open spec fn equivalent<T, F: Fn(&T, &T) -> Ordering>(cmp: F, x: T, y: T) -> bool {
    !greater(cmp, x, y) && !greater(cmp, y, x)
}

/// `t[a..b]` holds `s[a..b]` rearranged by `perm` (position in `t` to
/// position in `s`), and equivalent elements keep their order.
pub open spec fn stable_rearrangement<T, F: Fn(&T, &T) -> Ordering>(
    cmp: F,
    s: Seq<T>,
    t: Seq<T>,
    a: int,
    b: int,
    perm: Seq<int>,
) -> bool {
    &&& perm.len() == t.len()
    &&& forall|k: int| a <= k < b ==> a <= #[trigger] perm[k] < b && t[k] == s[perm[k]]
    &&& forall|k1: int, k2: int|
        a <= k1 < k2 < b ==> #[trigger] perm[k1] != #[trigger] perm[k2]
    &&& forall|k1: int, k2: int|
        a <= k1 < k2 < b && equivalent(cmp, t[k1], t[k2]) ==> #[trigger] perm[k1] < #[trigger] perm[k2]
}

/// Relies on `<[T]>::swap`: the elements at `i` and `j` change places.
#[verifier::external_body]
fn swap_at<T>(l: &mut [T], i: usize, j: usize)
    requires
        i < old(l)@.len(),
        j < old(l)@.len(),
    ensures
        final(l)@ == old(l)@.update(i as int, old(l)@[j as int]).update(j as int, old(l)@[i as int]),
{
    l.swap(i, j)
}

proof fn lemma_swap_multiset<T>(s: Seq<T>, i: int, j: int)
    requires
        0 <= i < s.len(),
        0 <= j < s.len(),
    ensures
        s.update(i, s[j]).update(j, s[i]).to_multiset() == s.to_multiset(),
{
    let s1 = s.update(i, s[j]);
    to_multiset_update(s, i, s[j]);
    to_multiset_update(s1, j, s[i]);
    if i == j {
        assert(s.update(i, s[j]).update(j, s[i]) =~= s);
    } else {
        vstd::seq_lib::to_multiset_contains(s, s[i]);
        assert(s1[j] == s[j]);
        assert(s.to_multiset().contains(s[i]));
        assert(s.update(i, s[j]).update(j, s[i]).to_multiset() =~= s.to_multiset());
    }
}

/// Sorts `l[a..b]`, given that `l[a..m]` is sorted, by moving each element
/// of `l[m..b]` down past the larger elements before it.
pub fn merge<T, F: Fn(&T, &T) -> Ordering>(l: &mut [T], a: usize, m: usize, b: usize, cmp: &F)
    requires
        a <= m <= b <= old(l)@.len(),
        consistent_order(*cmp),
        sorted_run(*cmp, old(l)@, a as int, m as int),
    ensures
        sorted_run(*cmp, final(l)@, a as int, b as int),
        final(l)@.to_multiset() == old(l)@.to_multiset(),
        same_outside(final(l)@, old(l)@, a as int, b as int),
        exists|perm: Seq<int>|
            stable_rearrangement(*cmp, old(l)@, final(l)@, a as int, b as int, perm),
{
    let ghost orig = l@;
    let ghost mut perm: Seq<int> = Seq::new(l@.len(), |k: int| k);
    let mut i: usize = m;
    while i < b
        invariant
            a <= m <= i <= b <= l@.len(),
            consistent_order(*cmp),
            sorted_run(*cmp, l@, a as int, i as int),
            l@.to_multiset() == orig.to_multiset(),
            same_outside(l@, orig, a as int, b as int),
            stable_rearrangement(*cmp, orig, l@, a as int, b as int, perm),
        decreases b - i,
    {
        let mut j: usize = i;
        let mut moving = true;
        while j > a && moving
            invariant
                a <= j <= i < b <= l@.len(),
                consistent_order(*cmp),
                sorted_run(*cmp, l@, a as int, j as int),
                sorted_run(*cmp, l@, j + 1, i + 1),
                j < i ==> !greater(*cmp, l@[j as int], l@[j + 1]),
                a < j < i ==> !greater(*cmp, l@[j - 1], l@[j + 1]),
                !moving ==> (j > a && !greater(*cmp, l@[j - 1], l@[j as int])),
                l@.to_multiset() == orig.to_multiset(),
                same_outside(l@, orig, a as int, b as int),
                stable_rearrangement(*cmp, orig, l@, a as int, b as int, perm),
            decreases j, if moving { 1int } else { 0int },
        {
            let o = cmp(&l[j - 1], &l[j]);
            match o {
                Ordering::Greater => {
                    let ghost s = l@;
                    proof {
                        if j - 1 > a {
                            let k = j - 2;
                            assert(a <= k && k + 1 < j);
                            assert(!greater(*cmp, s[k], s[k + 1]));
                        }
                    }
                    swap_at(l, j - 1, j);
                    proof {
                        let p0 = perm;
                        perm = p0.update(j - 1, p0[j as int]).update(j as int, p0[j - 1]);
                        lemma_swap_stable(*cmp, orig, s, l@, a as int, b as int, p0, perm, j as int);
                        lemma_swap_multiset(s, j - 1, j as int);
                        assert(!greater(*cmp, l@[j - 1], l@[j as int]));
                    }
                    j = j - 1;
                },
                _ => {
                    moving = false;
                },
            }
        }
        assert(sorted_run(*cmp, l@, a as int, i + 1)) by {
            assert forall|k: int| a <= k && k + 1 < i + 1 implies !#[trigger] greater(
                *cmp,
                l@[k],
                l@[k + 1],
            ) by {
                if k + 1 < j {
                } else if k + 1 == j {
                } else if k == j {
                } else {
                }
            }
        }
        i = i + 1;
    }
    assert(stable_rearrangement(*cmp, orig, l@, a as int, b as int, perm));
}

/// Swapping two adjacent elements that `cmp` orders the wrong way keeps a
/// rearrangement stable.
proof fn lemma_swap_stable<T, F: Fn(&T, &T) -> Ordering>(
    cmp: F,
    orig: Seq<T>,
    s: Seq<T>,
    t: Seq<T>,
    a: int,
    b: int,
    p0: Seq<int>,
    p1: Seq<int>,
    j: int,
)
    requires
        consistent_order(cmp),
        stable_rearrangement(cmp, orig, s, a, b, p0),
        0 <= a < j < b <= s.len(),
        greater(cmp, s[j - 1], s[j]),
        t == s.update(j - 1, s[j]).update(j, s[j - 1]),
        p1 == p0.update(j - 1, p0[j]).update(j, p0[j - 1]),
    ensures
        stable_rearrangement(cmp, orig, t, a, b, p1),
{
    let sigma = |k: int| if k == j - 1 { j } else if k == j { j - 1 } else { k };
    assert forall|k: int| a <= k < b implies a <= #[trigger] p1[k] < b && t[k] == orig[p1[k]] by {
        assert(p1[k] == p0[sigma(k)]);
        assert(t[k] == s[sigma(k)]);
    }
    assert forall|k1: int, k2: int| a <= k1 < k2 < b implies #[trigger] p1[k1] != #[trigger] p1[k2] by {
        assert(p1[k1] == p0[sigma(k1)]);
        assert(p1[k2] == p0[sigma(k2)]);
        if sigma(k1) < sigma(k2) {
        } else {
            assert(sigma(k2) < sigma(k1));
        }
    }
    assert forall|k1: int, k2: int|
        a <= k1 < k2 < b && equivalent(cmp, t[k1], t[k2]) implies #[trigger] p1[k1]
        < #[trigger] p1[k2] by {
        assert(p1[k1] == p0[sigma(k1)]);
        assert(p1[k2] == p0[sigma(k2)]);
        assert(t[k1] == s[sigma(k1)]);
        assert(t[k2] == s[sigma(k2)]);
        if k1 == j - 1 && k2 == j {
            assert(!equivalent(cmp, t[k1], t[k2]));
        } else {
            assert(sigma(k1) < sigma(k2));
        }
    }
}

/// A stable rearrangement of a stable rearrangement is stable.
proof fn lemma_stable_compose<T, F: Fn(&T, &T) -> Ordering>(
    cmp: F,
    s0: Seq<T>,
    s1: Seq<T>,
    s2: Seq<T>,
    a: int,
    b: int,
    p1: Seq<int>,
    p2: Seq<int>,
)
    requires
        0 <= a <= b <= s2.len(),
        s0.len() == s2.len(),
        s1.len() == s2.len(),
        stable_rearrangement(cmp, s0, s1, a, b, p1),
        stable_rearrangement(cmp, s1, s2, a, b, p2),
    ensures
        stable_rearrangement(cmp, s0, s2, a, b, Seq::new(s2.len(), |k: int| p1[p2[k]])),
{
    let pc = Seq::new(s2.len(), |k: int| p1[p2[k]]);
    assert forall|k: int| a <= k < b implies a <= #[trigger] pc[k] < b && s2[k] == s0[pc[k]] by {
        assert(a <= p2[k] < b);
    }
    assert forall|k1: int, k2: int| a <= k1 < k2 < b implies #[trigger] pc[k1] != #[trigger] pc[k2] by {
        assert(p2[k1] != p2[k2]);
        assert(a <= p2[k1] < b && a <= p2[k2] < b);
        if p2[k1] < p2[k2] {
            assert(p1[p2[k1]] != p1[p2[k2]]);
        } else {
            assert(p1[p2[k2]] != p1[p2[k1]]);
        }
    }
    assert forall|k1: int, k2: int|
        a <= k1 < k2 < b && equivalent(cmp, s2[k1], s2[k2]) implies #[trigger] pc[k1]
        < #[trigger] pc[k2] by {
        assert(p2[k1] < p2[k2]);
        assert(a <= p2[k1] < b && a <= p2[k2] < b);
        assert(s1[p2[k1]] == s2[k1] && s1[p2[k2]] == s2[k2]);
    }
}

/// Stable rearrangements of two adjacent ranges, one after the other, make a
/// stable rearrangement of both.
proof fn lemma_stable_join<T, F: Fn(&T, &T) -> Ordering>(
    cmp: F,
    s0: Seq<T>,
    s1: Seq<T>,
    s2: Seq<T>,
    a: int,
    m: int,
    b: int,
    pl: Seq<int>,
    pr: Seq<int>,
)
    requires
        0 <= a <= m <= b <= s2.len(),
        s0.len() == s2.len(),
        stable_rearrangement(cmp, s0, s1, a, m, pl),
        same_outside(s1, s0, a, m),
        stable_rearrangement(cmp, s1, s2, m, b, pr),
        same_outside(s2, s1, m, b),
    ensures
        stable_rearrangement(cmp, s0, s2, a, b, Seq::new(s2.len(), |k: int| if k < m { pl[k] } else { pr[k] })),
{
    let p = Seq::new(s2.len(), |k: int| if k < m { pl[k] } else { pr[k] });
    assert forall|k: int| a <= k < b implies a <= #[trigger] p[k] < b && s2[k] == s0[p[k]] by {
        if k < m {
            assert(s2[k] == s1[k]);
        } else {
            assert(m <= pr[k] < b);
            assert(s1[pr[k]] == s0[pr[k]]);
        }
    }
    assert forall|k1: int, k2: int| a <= k1 < k2 < b implies #[trigger] p[k1] != #[trigger] p[k2] by {
        if k1 < m && k2 >= m {
            assert(pl[k1] < m && m <= pr[k2]);
        }
    }
    assert forall|k1: int, k2: int|
        a <= k1 < k2 < b && equivalent(cmp, s2[k1], s2[k2]) implies #[trigger] p[k1]
        < #[trigger] p[k2] by {
        if k2 < m {
            assert(s2[k1] == s1[k1] && s2[k2] == s1[k2]);
        } else if k1 >= m {
        } else {
            assert(pl[k1] < m && m <= pr[k2]);
        }
    }
}

/// Sorts `l[a..b]` by insertion.
pub fn insertion_sort<T, F: Fn(&T, &T) -> Ordering>(l: &mut [T], a: usize, b: usize, cmp: &F)
    requires
        a <= b <= old(l)@.len(),
        consistent_order(*cmp),
    ensures
        sorted_run(*cmp, final(l)@, a as int, b as int),
        final(l)@.to_multiset() == old(l)@.to_multiset(),
        same_outside(final(l)@, old(l)@, a as int, b as int),
        exists|perm: Seq<int>|
            stable_rearrangement(*cmp, old(l)@, final(l)@, a as int, b as int, perm),
{
    merge(l, a, a, b, cmp);
}

/// Sorts `l[a..b]`: sorts each half, then merges them.
pub fn merge_sort_recur<T, F: Fn(&T, &T) -> Ordering>(l: &mut [T], a: usize, b: usize, cmp: &F)
    requires
        a <= b <= old(l)@.len(),
        consistent_order(*cmp),
    ensures
        sorted_run(*cmp, final(l)@, a as int, b as int),
        final(l)@.to_multiset() == old(l)@.to_multiset(),
        same_outside(final(l)@, old(l)@, a as int, b as int),
        exists|perm: Seq<int>|
            stable_rearrangement(*cmp, old(l)@, final(l)@, a as int, b as int, perm),
    decreases b - a,
{
    let ghost s0 = l@;
    let ghost id = Seq::new(l@.len(), |k: int| k);
    let len = b - a;
    if len <= 1 {
        assert(stable_rearrangement(*cmp, s0, l@, a as int, b as int, id));
        return ;
    }
    if len == 2 {
        let o = cmp(&l[a], &l[a + 1]);
        match o {
            Ordering::Greater => {
                let ghost s = l@;
                swap_at(l, a, a + 1);
                proof {
                    lemma_swap_multiset(s, a as int, a + 1);
                    assert(!greater(*cmp, l@[a as int], l@[a + 1]));
                    assert(stable_rearrangement(*cmp, s0, s, a as int, b as int, id));
                    lemma_swap_stable(
                        *cmp,
                        s0,
                        s,
                        l@,
                        a as int,
                        b as int,
                        id,
                        id.update(a as int, id[a + 1]).update(a + 1, id[a as int]),
                        a + 1,
                    );
                }
            },
            _ => {
                assert(stable_rearrangement(*cmp, s0, l@, a as int, b as int, id));
            },
        }
        return ;
    }
    let m: usize = a + len / 2;
    merge_sort_recur(l, a, m, cmp);
    let ghost s1 = l@;
    merge_sort_recur(l, m, b, cmp);
    let ghost s2 = l@;
    merge(l, a, m, b, cmp);
    proof {
        let pl = choose|perm: Seq<int>| stable_rearrangement(*cmp, s0, s1, a as int, m as int, perm);
        let pr = choose|perm: Seq<int>| stable_rearrangement(*cmp, s1, s2, m as int, b as int, perm);
        let pm = choose|perm: Seq<int>| stable_rearrangement(*cmp, s2, l@, a as int, b as int, perm);
        lemma_stable_join(*cmp, s0, s1, s2, a as int, m as int, b as int, pl, pr);
        let ph = Seq::new(s2.len(), |k: int| if k < m { pl[k] } else { pr[k] });
        lemma_stable_compose(*cmp, s0, s2, l@, a as int, b as int, ph, pm);
    }
}

/// Sorts `l[a..b]` by merge sort.
pub fn merge_sort<T, F: Fn(&T, &T) -> Ordering>(l: &mut [T], a: usize, b: usize, cmp: &F)
    requires
        a <= b <= old(l)@.len(),
        consistent_order(*cmp),
    ensures
        sorted_run(*cmp, final(l)@, a as int, b as int),
        final(l)@.to_multiset() == old(l)@.to_multiset(),
        same_outside(final(l)@, old(l)@, a as int, b as int),
        exists|perm: Seq<int>|
            stable_rearrangement(*cmp, old(l)@, final(l)@, a as int, b as int, perm),
{
    if b - a <= 1 {
        assert(stable_rearrangement(*cmp, l@, l@, a as int, b as int, Seq::new(l@.len(), |k: int| k)));
        return ;
    }
    merge_sort_recur(l, a, b, cmp);
}

} // verus!
