//! An ordered index: a map from `i64` keys to values, kept as a vector of
//! entries in strictly increasing key order.
use vstd::prelude::*;

verus! {

/// Ordered map from `i64` keys, supporting predecessor lookup and removal of
/// a closed range of keys.
pub struct OrderedIndex<V> {
    entries: Vec<(i64, V)>,
}

impl<V> OrderedIndex<V> {
    /// The entries, in storage order.
    pub closed spec fn seq(&self) -> Seq<(i64, V)> {
        self.entries@
    }

    /// Keys are strictly increasing along the storage order.
    pub closed spec fn wf(&self) -> bool {
        forall|i: int, j: int|
            0 <= i < j < self.entries@.len() ==> #[trigger] self.entries@[i].0
                < #[trigger] self.entries@[j].0
    }

    /// The map from each stored key to its value.
    pub closed spec fn view(&self) -> Map<i64, V> {
        Map::new(
            |k: i64| exists|i: int| 0 <= i < self.entries@.len() && self.entries@[i].0 == k,
            |k: i64|
                self.entries@[choose|i: int| 0 <= i < self.entries@.len() && self.entries@[i].0 == k].1,
        )
    }

    proof fn lemma_view_at(&self, i: int)
        requires
            self.wf(),
            0 <= i < self.entries@.len(),
        ensures
            self@.contains_key(self.entries@[i].0),
            self@[self.entries@[i].0] == self.entries@[i].1,
    {
        let k = self.entries@[i].0;
        assert(self@.dom().contains(k));
        let j = choose|j: int| 0 <= j < self.entries@.len() && self.entries@[j].0 == k;
        if j < i {
            assert(self.entries@[j].0 < self.entries@[i].0);
        } else if i < j {
            assert(self.entries@[i].0 < self.entries@[j].0);
        }
    }

    /// The storage order lists the keys in increasing order.
    pub proof fn lemma_seq_view(&self)
        requires
            self.wf(),
        ensures
            forall|i: int, j: int|
                0 <= i < j < self.seq().len() ==> #[trigger] self.seq()[i].0
                    < #[trigger] self.seq()[j].0,
            forall|i: int|
                0 <= i < self.seq().len() ==> #[trigger] self@.contains_key(self.seq()[i].0)
                    && self@[self.seq()[i].0] == self.seq()[i].1,
            forall|k: i64|
                #[trigger] self@.contains_key(k) ==> exists|i: int|
                    0 <= i < self.seq().len() && self.seq()[i].0 == k,
    {
        assert forall|i: int| 0 <= i < self.seq().len() implies #[trigger] self@.contains_key(
            self.seq()[i].0,
        ) && self@[self.seq()[i].0] == self.seq()[i].1 by {
            self.lemma_view_at(i);
        }
        assert forall|k: i64| #[trigger] self@.contains_key(k) implies exists|i: int|
            0 <= i < self.seq().len() && self.seq()[i].0 == k by {
            assert(self@.dom().contains(k));
            let i = choose|i: int| 0 <= i < self.entries@.len() && self.entries@[i].0 == k;
            assert(0 <= i < self.seq().len() && self.seq()[i].0 == k);
        }
    }

    pub fn new() -> (r: Self)
        ensures
            r.wf(),
            r@ == Map::<i64, V>::empty(),
    {
        let r = OrderedIndex { entries: Vec::new() };
        assert(r@ =~= Map::<i64, V>::empty());
        r
    }

    pub fn len(&self) -> (r: usize)
        ensures
            r == self.seq().len(),
    {
        self.entries.len()
    }

    /// The entry at position `i` of the storage order.
    pub fn entry(&self, i: usize) -> (r: (i64, &V))
        requires
            i < self.seq().len(),
        ensures
            r.0 == self.seq()[i as int].0,
            *r.1 == self.seq()[i as int].1,
    {
        let e = &self.entries[i];
        (e.0, &e.1)
    }

    /// Position of the first entry whose key is at least `k`.
    fn lower_bound(&self, k: i64) -> (r: usize)
        requires
            self.wf(),
        ensures
            r <= self.entries@.len(),
            forall|i: int| 0 <= i < r ==> #[trigger] self.entries@[i].0 < k,
            forall|i: int| r <= i < self.entries@.len() ==> #[trigger] self.entries@[i].0 >= k,
    {
        let mut lo: usize = 0;
        let mut hi: usize = self.entries.len();
        while lo < hi
            invariant
                self.wf(),
                lo <= hi <= self.entries@.len(),
                forall|i: int| 0 <= i < lo ==> #[trigger] self.entries@[i].0 < k,
                forall|i: int| hi <= i < self.entries@.len() ==> #[trigger] self.entries@[i].0 >= k,
            decreases hi - lo,
        {
            let mid = lo + (hi - lo) / 2;
            if self.entries[mid].0 < k {
                assert forall|i: int| 0 <= i <= mid implies #[trigger] self.entries@[i].0 < k by {
                    if i < mid {
                        assert(self.entries@[i].0 < self.entries@[mid as int].0);
                    }
                }
                lo = mid + 1;
            } else {
                assert forall|i: int|
                    mid <= i < self.entries@.len() implies #[trigger] self.entries@[i].0 >= k by {
                    if mid < i {
                        assert(self.entries@[mid as int].0 < self.entries@[i].0);
                    }
                }
                hi = mid;
            }
        }
        lo
    }

    /// The value stored under `k`.
    pub fn get(&self, k: i64) -> (r: Option<&V>)
        requires
            self.wf(),
        ensures
            r matches Some(v) ==> self@.contains_key(k) && *v == self@[k],
            r is None ==> !self@.contains_key(k),
    {
        let i = self.lower_bound(k);
        if i < self.entries.len() && self.entries[i].0 == k {
            proof {
                self.lemma_view_at(i as int);
            }
            Some(&self.entries[i].1)
        } else {
            proof {
                if self@.contains_key(k) {
                    let j = choose|j: int| 0 <= j < self.entries@.len() && self.entries@[j].0 == k;
                    if j >= i {
                        if j > i {
                            assert(self.entries@[i as int].0 < self.entries@[j].0);
                        }
                    }
                }
            }
            None
        }
    }

    /// Position of the first entry whose key is greater than `k`.
    fn upper_bound(&self, k: i64) -> (r: usize)
        requires
            self.wf(),
        ensures
            r <= self.entries@.len(),
            forall|i: int| 0 <= i < r ==> #[trigger] self.entries@[i].0 <= k,
            forall|i: int| r <= i < self.entries@.len() ==> #[trigger] self.entries@[i].0 > k,
    {
        let mut lo: usize = 0;
        let mut hi: usize = self.entries.len();
        while lo < hi
            invariant
                self.wf(),
                lo <= hi <= self.entries@.len(),
                forall|i: int| 0 <= i < lo ==> #[trigger] self.entries@[i].0 <= k,
                forall|i: int| hi <= i < self.entries@.len() ==> #[trigger] self.entries@[i].0 > k,
            decreases hi - lo,
        {
            let mid = lo + (hi - lo) / 2;
            if self.entries[mid].0 <= k {
                assert forall|i: int| 0 <= i <= mid implies #[trigger] self.entries@[i].0 <= k by {
                    if i < mid {
                        assert(self.entries@[i].0 < self.entries@[mid as int].0);
                    }
                }
                lo = mid + 1;
            } else {
                assert forall|i: int|
                    mid <= i < self.entries@.len() implies #[trigger] self.entries@[i].0 > k by {
                    if mid < i {
                        assert(self.entries@[mid as int].0 < self.entries@[i].0);
                    }
                }
                hi = mid;
            }
        }
        lo
    }

    /// Stores `v` under `k`, replacing any value stored there.
    pub fn insert(&mut self, k: i64, v: V)
        requires
            old(self).wf(),
        ensures
            final(self).wf(),
            final(self)@ == old(self)@.insert(k, v),
    {
        let ghost pre = *self;
        let i = self.lower_bound(k);
        proof {
            pre.lemma_seq_view();
        }
        if i < self.entries.len() && self.entries[i].0 == k {
            let _ = self.entries.remove(i);
            self.entries.insert(i, (k, v));
        } else {
            self.entries.insert(i, (k, v));
        }
        assert(self.entries@ =~= pre.entries@.take(i as int).push((k, v)).add(
            pre.entries@.skip(
                if i < pre.entries@.len() && pre.entries@[i as int].0 == k {
                    i as int + 1
                } else {
                    i as int
                },
            ),
        ));
        assert(self.wf()) by {
            assert forall|a: int, b: int|
                0 <= a < b < self.entries@.len() implies #[trigger] self.entries@[a].0
                < #[trigger] self.entries@[b].0 by {
                if a < i && b > i {
                    assert(pre.entries@[a].0 < k);
                }
            }
        }
        proof {
            self.lemma_seq_view();
            assert forall|x: i64| #[trigger] self@.contains_key(x) == pre@.insert(k, v).contains_key(x)
                && (self@.contains_key(x) ==> self@[x] == pre@.insert(k, v)[x]) by {
                if x != k {
                    if pre@.contains_key(x) {
                        let j = choose|j: int| 0 <= j < pre.seq().len() && pre.seq()[j].0 == x;
                        if j < i {
                            assert(self.seq()[j] == pre.seq()[j]);
                        } else {
                            assert(j > i || pre.entries@[i as int].0 != k);
                            if pre.entries@[i as int].0 == k {
                                assert(self.seq()[j] == pre.seq()[j]);
                            } else {
                                assert(self.seq()[j + 1] == pre.seq()[j]);
                            }
                        }
                    }
                    if self@.contains_key(x) {
                        let j = choose|j: int| 0 <= j < self.seq().len() && self.seq()[j].0 == x;
                        if j < i {
                            assert(pre.seq()[j] == self.seq()[j]);
                        } else if j > i {
                            if pre.entries@[i as int].0 == k {
                                assert(pre.seq()[j] == self.seq()[j]);
                            } else {
                                assert(pre.seq()[j - 1] == self.seq()[j]);
                            }
                        }
                    }
                } else {
                    assert(self.seq()[i as int] == (k, v));
                }
            }
            assert(self@ =~= pre@.insert(k, v));
        }
    }

    /// Removes the entry stored under `k`, if any, and returns its value.
    pub fn remove(&mut self, k: i64) -> (r: Option<V>)
        requires
            old(self).wf(),
        ensures
            final(self).wf(),
            final(self)@ == old(self)@.remove(k),
            r matches Some(v) ==> old(self)@.contains_key(k) && v == old(self)@[k],
            r is None ==> !old(self)@.contains_key(k),
    {
        let ghost pre = *self;
        let i = self.lower_bound(k);
        proof {
            pre.lemma_seq_view();
        }
        if i < self.entries.len() && self.entries[i].0 == k {
            let (_, v) = self.entries.remove(i);
            assert(self.entries@ =~= pre.entries@.take(i as int).add(pre.entries@.skip(i + 1)));
            assert(self.wf()) by {
                assert forall|a: int, b: int|
                    0 <= a < b < self.entries@.len() implies #[trigger] self.entries@[a].0
                    < #[trigger] self.entries@[b].0 by {
                    let a0 = if a < i { a } else { a + 1 };
                    assert(self.entries@[a] == pre.entries@[a0]);
                    let b0 = if b < i { b } else { b + 1 };
                    assert(self.entries@[b] == pre.entries@[b0]);
                }
            }
            proof {
                self.lemma_seq_view();
                assert forall|x: i64| #[trigger] self@.contains_key(x) == pre@.remove(k).contains_key(x)
                    && (self@.contains_key(x) ==> self@[x] == pre@.remove(k)[x]) by {
                    if x != k && pre@.contains_key(x) {
                        let j = choose|j: int| 0 <= j < pre.seq().len() && pre.seq()[j].0 == x;
                        if j < i {
                            assert(self.seq()[j] == pre.seq()[j]);
                        } else {
                            assert(self.seq()[j - 1] == pre.seq()[j]);
                        }
                    }
                    if self@.contains_key(x) {
                        let j = choose|j: int| 0 <= j < self.seq().len() && self.seq()[j].0 == x;
                        if j < i {
                            assert(pre.seq()[j] == self.seq()[j]);
                            assert(pre.seq()[j].0 < pre.seq()[i as int].0);
                        } else {
                            assert(pre.seq()[j + 1] == self.seq()[j]);
                            assert(pre.seq()[i as int].0 < pre.seq()[j + 1].0);
                        }
                    }
                }
                assert(self@ =~= pre@.remove(k));
            }
            Some(v)
        } else {
            proof {
                if pre@.contains_key(k) {
                    let j = choose|j: int| 0 <= j < pre.seq().len() && pre.seq()[j].0 == k;
                    if j > i {
                        assert(pre.seq()[i as int].0 < pre.seq()[j].0);
                    }
                }
                assert(self@ =~= pre@.remove(k));
            }
            None
        }
    }

    /// The entry with the greatest key not above `k`.
    pub fn predecessor(&self, k: i64) -> (r: Option<(i64, &V)>)
        requires
            self.wf(),
        ensures
            r matches Some((pk, pv)) ==> {
                &&& self@.contains_key(pk)
                &&& pk <= k
                &&& *pv == self@[pk]
                &&& forall|x: i64| #[trigger] self@.contains_key(x) && x <= k ==> x <= pk
            },
            r is None ==> forall|x: i64| #[trigger] self@.contains_key(x) ==> x > k,
    {
        let i = self.upper_bound(k);
        proof {
            self.lemma_seq_view();
        }
        if i == 0 {
            None
        } else {
            let e = &self.entries[i - 1];
            proof {
                assert forall|x: i64| #[trigger] self@.contains_key(x) && x <= k implies x <= e.0 by {
                    let j = choose|j: int| 0 <= j < self.seq().len() && self.seq()[j].0 == x;
                    if j > i - 1 {
                        assert(self.seq()[i - 1].0 < self.seq()[j].0);
                    }
                }
            }
            Some((e.0, &e.1))
        }
    }

    /// Removes every entry whose key lies in `[lo, hi]`.
    pub fn remove_range(&mut self, lo: i64, hi: i64)
        requires
            old(self).wf(),
        ensures
            final(self).wf(),
            final(self)@ == old(self)@.remove_keys(Set::new(|x: i64| lo <= x <= hi)),
    {
        let ghost pre = *self;
        let a = self.lower_bound(lo);
        let b = self.upper_bound(hi);
        proof {
            pre.lemma_seq_view();
        }
        if a < b {
            let mut tail = self.entries.split_off(b);
            let _mid = self.entries.split_off(a);
            self.entries.append(&mut tail);
            assert(self.entries@ =~= pre.entries@.take(a as int).add(pre.entries@.skip(b as int)));
        } else {
            assert forall|j: int| 0 <= j < pre.seq().len() implies !(lo <= #[trigger] pre.seq()[j].0
                <= hi) by {
                if j < a {
                } else if j >= b {
                }
            }
            assert(self.entries@ =~= pre.entries@.take(a as int).add(pre.entries@.skip(a as int)));
        }
        let ghost c: int = if a < b { b as int } else { a as int };
        assert(self.entries@ =~= pre.entries@.take(a as int).add(pre.entries@.skip(c)));
        assert(self.wf()) by {
            assert forall|x: int, y: int|
                0 <= x < y < self.entries@.len() implies #[trigger] self.entries@[x].0
                < #[trigger] self.entries@[y].0 by {
                let x0 = if x < a { x } else { x - a + c };
                let y0 = if y < a { y } else { y - a + c };
                assert(self.entries@[x] == pre.entries@[x0]);
                assert(self.entries@[y] == pre.entries@[y0]);
            }
        }
        proof {
            let del = Set::new(|x: i64| lo <= x <= hi);
            self.lemma_seq_view();
            assert forall|x: i64| #[trigger] self@.contains_key(x) == pre@.remove_keys(del).contains_key(x)
                && (self@.contains_key(x) ==> self@[x] == pre@.remove_keys(del)[x]) by {
                if pre@.contains_key(x) && !del.contains(x) {
                    let j = choose|j: int| 0 <= j < pre.seq().len() && pre.seq()[j].0 == x;
                    if j < a {
                        assert(self.seq()[j] == pre.seq()[j]);
                    } else {
                        assert(j >= c);
                        assert(self.seq()[j - c + a] == pre.seq()[j]);
                    }
                }
                if self@.contains_key(x) {
                    let j = choose|j: int| 0 <= j < self.seq().len() && self.seq()[j].0 == x;
                    let j0 = if j < a { j } else { j - a + c };
                    assert(self.seq()[j] == pre.seq()[j0]);
                }
            }
            assert(self@ =~= pre@.remove_keys(del));
        }
    }
}

} // verus!
