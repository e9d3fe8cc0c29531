//! A set of `i64` values held as disjoint closed intervals plus single-value
//! markers that include a value outside every interval or exclude one inside.
use vstd::prelude::*;
use crate::interval::{in_interval, Interval};
use crate::ordered::OrderedIndex;
use crate::text::{chars_to_string, int_text, push_int};

verus! {

/// What a marker says of its value.
#[derive(Debug, Clone, Copy, PartialEq, Eq, Structural)]
pub enum Status {
    /// The value lies outside every interval and belongs to the set.
    Include,
    /// The value lies inside an interval and is left out of the set.
    Exclude,
}

/// Where a value stands against the intervals and the markers.
#[derive(PartialEq, Eq, Structural)]
enum PointStatus {
    /// Outside every interval, included by a marker.
    InInclude,
    /// Inside an interval, excluded by a marker.
    InExclude,
    /// Inside an interval, with no marker.
    InInterval,
    /// Outside every interval, with no marker.
    Outside,
}

/// Whether some stored interval `[k, ivs[k]]` holds `v`.
pub open spec fn covered(ivs: Map<i64, i64>, v: i64) -> bool {
    exists|k: i64| #[trigger] ivs.contains_key(k) && k <= v <= ivs[k]
}

/// No two stored intervals overlap or touch, and each has `left <= right`.
pub open spec fn canonical(ivs: Map<i64, i64>) -> bool {
    &&& forall|k: i64| #[trigger] ivs.contains_key(k) ==> k <= ivs[k]
    &&& forall|a: i64, b: i64|
        #[trigger] ivs.contains_key(a) && #[trigger] ivs.contains_key(b) && a < b ==> ivs[a] < b
}

/// Each marker says the opposite of what the intervals alone say of its value,
/// so none repeats what coverage already implies.
pub open spec fn markers_fit(pts: Map<i64, Status>, ivs: Map<i64, i64>) -> bool {
    forall|p: i64| #[trigger] pts.contains_key(p) ==> ((pts[p] == Status::Include) == !covered(ivs, p))
}

/// Whether `v` belongs to the set that the intervals and markers describe.
pub open spec fn member(ivs: Map<i64, i64>, pts: Map<i64, Status>, v: i64) -> bool {
    if covered(ivs, v) {
        !(pts.contains_key(v) && pts[v] == Status::Exclude)
    } else {
        pts.contains_key(v) && pts[v] == Status::Include
    }
}

/// `ivs` with every interval keyed in `[nl, nr]` replaced by `[nl, nr]`.
pub open spec fn absorb(ivs: Map<i64, i64>, nl: i64, nr: i64) -> Map<i64, i64> {
    ivs.remove_keys(Set::new(|x: i64| nl <= x <= nr)).insert(nl, nr)
}

/// Merging `[l, r]` into canonical intervals: `nl` is the left end of the
/// interval that covers `l` (or `l` itself), `nr` the right end of the one that
/// covers `r` (or `r` itself). Replacing every interval keyed in `[nl, nr]` by
/// `[nl, nr]` keeps the intervals canonical and covers exactly `[l, r]` more.
proof fn lemma_merge(ivs: Map<i64, i64>, l: i64, r: i64, nl: i64, nr: i64, kr: i64)
    requires
        canonical(ivs),
        l <= r,
        covered(ivs, l) ==> ivs.contains_key(nl) && nl <= l <= ivs[nl],
        !covered(ivs, l) ==> nl == l,
        covered(ivs, r) ==> ivs.contains_key(kr) && kr <= r <= ivs[kr] && nr == ivs[kr],
        !covered(ivs, r) ==> nr == r,
    ensures
        nl <= l,
        r <= nr,
        canonical(absorb(ivs, nl, nr)),
        forall|v: i64|
            #[trigger] covered(absorb(ivs, nl, nr), v)
                == (covered(ivs, v) || l <= v <= r),
{
    let d = Set::new(|x: i64| nl <= x <= nr);
    let n = ivs.remove_keys(d).insert(nl, nr);
    assert forall|a: i64| #[trigger] ivs.contains_key(a) && a < nl implies ivs[a] < nl by {
        if !covered(ivs, l) && ivs[a] >= l {
            assert(ivs.contains_key(a) && a <= l <= ivs[a]);
        }
    }
    assert forall|a: i64| #[trigger] ivs.contains_key(a) && nl <= a <= nr implies ivs[a] <= nr by {
        if a <= r {
            if covered(ivs, r) {
                if a > kr {
                    assert(ivs[kr] < a);
                }
            } else if ivs[a] >= r {
                assert(ivs.contains_key(a) && a <= r <= ivs[a]);
            }
        } else {
            assert(ivs[kr] < a);
        }
    }
    assert(canonical(n)) by {
        assert forall|a: i64, b: i64|
            #[trigger] n.contains_key(a) && #[trigger] n.contains_key(b) && a < b implies n[a] < b by {
            if a != nl && b != nl {
                assert(ivs.contains_key(a) && ivs.contains_key(b));
            }
        }
    }
    assert forall|v: i64| #[trigger] covered(n, v) == (covered(ivs, v) || l <= v <= r) by {
        if covered(n, v) {
            let k = choose|k: i64| #[trigger] n.contains_key(k) && k <= v <= n[k];
            if k == nl {
                if v < l {
                    assert(ivs.contains_key(nl) && nl <= v <= ivs[nl]);
                } else if v > r {
                    assert(ivs.contains_key(kr) && kr <= v <= ivs[kr]);
                }
            } else {
                assert(ivs.contains_key(k) && k <= v <= ivs[k]);
            }
        }
        if l <= v <= r {
            assert(n.contains_key(nl) && nl <= v <= n[nl]);
        } else if covered(ivs, v) {
            let k = choose|k: i64| #[trigger] ivs.contains_key(k) && k <= v <= ivs[k];
            if d.contains(k) {
                assert(n.contains_key(nl) && nl <= v <= n[nl]);
            } else {
                assert(n.contains_key(k) && k <= v <= n[k]);
            }
        }
    }
}

/// The text of a set whose intervals and markers, both in increasing key
/// order, are `ivs` and `pts`. With `pending` empty the renderer is idle; with
/// `Some(b)` it has opened an interval whose right end `b` is still to come.
/// Intervals read `[l,r]`, with `(` or `)` at an end that a marker excludes; a
/// marker inside an interval splits it, as in `[1,5),(5,10]`; a marker outside
/// every interval reads `≠v`. Each token ends with a comma.
pub open spec fn render_from(ivs: Seq<(i64, i64)>, pts: Seq<(i64, Status)>, pending: Option<i64>) -> Seq<char>
    decreases ivs.len() + pts.len(), if pending is Some { 1int } else { 0int },
{
    match pending {
        Some(b) => {
            if pts.len() > 0 && pts[0].0 < b {
                int_text(pts[0].0 as int) + seq![')', ',', '('] + int_text(pts[0].0 as int) + seq![',']
                    + render_from(ivs, pts.drop_first(), Some(b))
            } else if pts.len() > 0 && pts[0].0 == b {
                int_text(b as int) + seq![')', ','] + render_from(ivs, pts.drop_first(), None)
            } else {
                int_text(b as int) + seq![']', ','] + render_from(ivs, pts, None)
            }
        },
        None => {
            if ivs.len() == 0 && pts.len() == 0 {
                Seq::empty()
            } else if ivs.len() == 0 || (pts.len() > 0 && pts[0].0 < ivs[0].0) {
                seq!['≠'] + int_text(pts[0].0 as int) + seq![','] + render_from(ivs, pts.drop_first(), None)
            } else if pts.len() > 0 && pts[0].0 == ivs[0].0 {
                seq!['('] + int_text(ivs[0].0 as int) + seq![','] + render_from(
                    ivs.drop_first(),
                    pts.drop_first(),
                    Some(ivs[0].1),
                )
            } else {
                seq!['['] + int_text(ivs[0].0 as int) + seq![','] + render_from(
                    ivs.drop_first(),
                    pts,
                    Some(ivs[0].1),
                )
            }
        },
    }
}

/// `s` lists the entries of `m`, each once, in increasing key order.
pub open spec fn lists_in_order<V>(s: Seq<(i64, V)>, m: Map<i64, V>) -> bool {
    &&& forall|i: int, j: int| 0 <= i < j < s.len() ==> #[trigger] s[i].0 < #[trigger] s[j].0
    &&& forall|i: int| 0 <= i < s.len() ==> #[trigger] m.contains_key(s[i].0) && m[s[i].0] == s[i].1
    &&& forall|k: i64| #[trigger] m.contains_key(k) ==> exists|i: int| 0 <= i < s.len() && s[i].0 == k
}

/// A map has one listing in increasing key order.
pub proof fn lemma_listing_unique<V>(s: Seq<(i64, V)>, t: Seq<(i64, V)>, m: Map<i64, V>)
    requires
        lists_in_order(s, m),
        lists_in_order(t, m),
    ensures
        s == t,
    decreases s.len(),
{
    if s.len() == 0 {
        if t.len() > 0 {
            assert(m.contains_key(t[0].0));
        }
        assert(s =~= t);
    } else {
        if t.len() == 0 {
            assert(m.contains_key(s[0].0));
        }
        assert(m.contains_key(t[0].0));
        assert(m.contains_key(s[0].0));
        let i = choose|i: int| 0 <= i < s.len() && s[i].0 == t[0].0;
        let j = choose|j: int| 0 <= j < t.len() && t[j].0 == s[0].0;
        if i > 0 {
            assert(s[0].0 < s[i].0);
        }
        if j > 0 {
            assert(t[0].0 < t[j].0);
        }
        let k = s[0].0;
        let m2 = m.remove(k);
        let s2 = s.drop_first();
        let t2 = t.drop_first();
        assert(lists_in_order(s2, m2)) by {
            assert forall|x: i64| #[trigger] m2.contains_key(x) implies exists|a: int|
                0 <= a < s2.len() && s2[a].0 == x by {
                let a = choose|a: int| 0 <= a < s.len() && s[a].0 == x;
                assert(a != 0);
                assert(s2[a - 1].0 == x);
            }
            assert forall|a: int| 0 <= a < s2.len() implies #[trigger] m2.contains_key(s2[a].0)
                && m2[s2[a].0] == s2[a].1 by {
                assert(s[0].0 < s[a + 1].0);
            }
        }
        assert(lists_in_order(t2, m2)) by {
            assert forall|x: i64| #[trigger] m2.contains_key(x) implies exists|a: int|
                0 <= a < t2.len() && t2[a].0 == x by {
                let a = choose|a: int| 0 <= a < t.len() && t[a].0 == x;
                assert(a != 0);
                assert(t2[a - 1].0 == x);
            }
            assert forall|a: int| 0 <= a < t2.len() implies #[trigger] m2.contains_key(t2[a].0)
                && m2[t2[a].0] == t2[a].1 by {
                assert(t[0].0 < t[a + 1].0);
            }
        }
        lemma_listing_unique(s2, t2, m2);
        assert(s =~= t) by {
            assert(s[0] == t[0]);
            assert forall|a: int| 0 <= a < s.len() implies s[a] == t[a] by {
                if a > 0 {
                    assert(s2[a - 1] == t2[a - 1]);
                }
            }
        }
    }
}

/// The key of the stored interval that holds `v`, where one does.
pub open spec fn cover_key(ivs: Map<i64, i64>, v: i64) -> i64 {
    choose|k: i64| #[trigger] ivs.contains_key(k) && k <= v <= ivs[k]
}

/// The left end of the merged interval: that of the stored interval holding
/// `l`, or `l` itself.
pub open spec fn merged_left(ivs: Map<i64, i64>, l: i64) -> i64 {
    if covered(ivs, l) { cover_key(ivs, l) } else { l }
}

/// The right end of the merged interval: that of the stored interval holding
/// `r`, or `r` itself.
pub open spec fn merged_right(ivs: Map<i64, i64>, r: i64) -> i64 {
    if covered(ivs, r) { ivs[cover_key(ivs, r)] } else { r }
}

/// The interval from `l` to `r` holds no value: one value with an open end.
pub open spec fn empty_span(l: i64, r: i64, left_open: bool, right_open: bool) -> bool {
    l == r && (left_open || right_open)
}

/// The intervals after adding `[l, r]`: every interval that overlaps or
/// touches it merged with it into one.
pub open spec fn intervals_after(ivs: Map<i64, i64>, l: i64, r: i64) -> Map<i64, i64> {
    absorb(ivs, merged_left(ivs, l), merged_right(ivs, r))
}

/// The markers after adding the interval from `l` to `r`: those in `[l, r]`
/// go, and an open end that was outside the set gets an exclusion.
pub open spec fn points_after(
    ivs: Map<i64, i64>,
    pts: Map<i64, Status>,
    l: i64,
    r: i64,
    left_open: bool,
    right_open: bool,
) -> Map<i64, Status> {
    let kept = pts.remove_keys(Set::new(|x: i64| l <= x <= r));
    let with_left = if left_open && !member(ivs, pts, l) {
        kept.insert(l, Status::Exclude)
    } else {
        kept
    };
    if right_open && !member(ivs, pts, r) {
        with_left.insert(r, Status::Exclude)
    } else {
        with_left
    }
}

/// The markers after `add_point(p)`: an inclusion for a value outside every
/// interval, or the end of an exclusion.
pub open spec fn points_after_add(ivs: Map<i64, i64>, pts: Map<i64, Status>, p: i64) -> Map<i64, Status> {
    if !covered(ivs, p) && !pts.contains_key(p) {
        pts.insert(p, Status::Include)
    } else if covered(ivs, p) && pts.contains_key(p) {
        pts.remove(p)
    } else {
        pts
    }
}

/// The markers after `remove_point(p)`: the end of an inclusion, or an
/// exclusion for a value inside an interval.
pub open spec fn points_after_remove(ivs: Map<i64, i64>, pts: Map<i64, Status>, p: i64) -> Map<i64, Status> {
    if !covered(ivs, p) && pts.contains_key(p) {
        pts.remove(p)
    } else if covered(ivs, p) && !pts.contains_key(p) {
        pts.insert(p, Status::Exclude)
    } else {
        pts
    }
}

/// Under canonical intervals, at most one stored interval holds `v`.
pub proof fn lemma_cover_unique(ivs: Map<i64, i64>, v: i64, k: i64)
    requires
        canonical(ivs),
        ivs.contains_key(k),
        k <= v <= ivs[k],
    ensures
        cover_key(ivs, v) == k,
{
    let c = cover_key(ivs, v);
    assert(ivs.contains_key(c) && c <= v <= ivs[c]);
    if c < k {
        assert(ivs[c] < k);
    } else if k < c {
        assert(ivs[k] < c);
    }
}

/// Adding an interval a second time leaves both stores as the first addition
/// left them.
pub proof fn lemma_add_interval_twice(
    ivs: Map<i64, i64>,
    pts: Map<i64, Status>,
    l: i64,
    r: i64,
    left_open: bool,
    right_open: bool,
)
    requires
        canonical(ivs),
        l <= r,
        !empty_span(l, r, left_open, right_open),
    ensures
        intervals_after(intervals_after(ivs, l, r), l, r) == intervals_after(ivs, l, r),
        points_after(
            intervals_after(ivs, l, r),
            points_after(ivs, pts, l, r, left_open, right_open),
            l,
            r,
            left_open,
            right_open,
        ) == points_after(ivs, pts, l, r, left_open, right_open),
{
    let nl = merged_left(ivs, l);
    let nr = merged_right(ivs, r);
    let kr = cover_key(ivs, r);
    if covered(ivs, l) {
        let k = cover_key(ivs, l);
        assert(ivs.contains_key(k) && k <= l <= ivs[k]);
    }
    if covered(ivs, r) {
        assert(ivs.contains_key(kr) && kr <= r <= ivs[kr]);
    }
    lemma_merge(ivs, l, r, nl, nr, kr);
    let i1 = intervals_after(ivs, l, r);
    assert(i1 == absorb(ivs, nl, nr));
    assert(i1.contains_key(nl) && i1[nl] == nr);
    assert(covered(i1, l) && covered(i1, r)) by {
        assert(i1.contains_key(nl) && nl <= l <= i1[nl]);
        assert(i1.contains_key(nl) && nl <= r <= i1[nl]);
    }
    lemma_cover_unique(i1, l, nl);
    lemma_cover_unique(i1, r, nl);
    assert(merged_left(i1, l) == nl);
    assert(merged_right(i1, r) == nr);
    assert(absorb(i1, nl, nr) =~= i1);
    let d = Set::new(|x: i64| l <= x <= r);
    let p1 = points_after(ivs, pts, l, r, left_open, right_open);
    let kept = pts.remove_keys(d);
    assert(p1.remove_keys(d) =~= kept);
    if l < r {
        assert(member(i1, p1, l) == !(left_open && !member(ivs, pts, l)));
        assert(member(i1, p1, r) == !(right_open && !member(ivs, pts, r)));
    }
    assert(points_after(i1, p1, l, r, left_open, right_open) =~= p1);
}

/// A subset of `i64`, kept as disjoint closed intervals and value markers.
pub struct IntervalSet {
    points: OrderedIndex<Status>,
    intervals: OrderedIndex<i64>,
}

impl IntervalSet {
    pub closed spec fn spec_intervals(&self) -> Map<i64, i64> {
        self.intervals@
    }

    pub closed spec fn spec_points(&self) -> Map<i64, Status> {
        self.points@
    }

    /// The stored intervals, in storage order.
    pub closed spec fn interval_seq(&self) -> Seq<(i64, i64)> {
        self.intervals.seq()
    }

    /// The stored markers, in storage order.
    pub closed spec fn point_seq(&self) -> Seq<(i64, Status)> {
        self.points.seq()
    }

    /// Both stores keep their keys in increasing order.
    pub closed spec fn stores_ordered(&self) -> bool {
        self.points.wf() && self.intervals.wf()
    }

    /// Both stores are ordered and list their maps in increasing key order,
    /// the intervals are canonical and no marker is redundant.
    pub open spec fn wf(&self) -> bool {
        &&& self.stores_ordered()
        &&& lists_in_order(self.interval_seq(), self.spec_intervals())
        &&& lists_in_order(self.point_seq(), self.spec_points())
        &&& canonical(self.spec_intervals())
        &&& markers_fit(self.spec_points(), self.spec_intervals())
    }

    /// The text of the set, from its stores in increasing key order.
    pub open spec fn spec_text(&self) -> Seq<char> {
        render_from(self.interval_seq(), self.point_seq(), None)
    }

    /// The values in the set.
    pub open spec fn view(&self) -> Set<i64> {
        Set::new(|v: i64| member(self.spec_intervals(), self.spec_points(), v))
    }

    proof fn lemma_stores_listed(&self)
        requires
            self.stores_ordered(),
        ensures
            lists_in_order(self.interval_seq(), self.spec_intervals()),
            lists_in_order(self.point_seq(), self.spec_points()),
    {
        self.intervals.lemma_seq_view();
        self.points.lemma_seq_view();
    }

    /// The empty set.
    pub fn new() -> (r: IntervalSet)
        ensures
            r.wf(),
            r.spec_intervals() == Map::<i64, i64>::empty(),
            r.spec_points() == Map::<i64, Status>::empty(),
            r@ == Set::<i64>::empty(),
    {
        let r = IntervalSet { points: OrderedIndex::new(), intervals: OrderedIndex::new() };
        proof {
            r.lemma_stores_listed();
        }
        assert(r.spec_intervals() =~= Map::<i64, i64>::empty());
        assert(r.spec_points() =~= Map::<i64, Status>::empty());
        assert(r@ =~= Set::<i64>::empty());
        r
    }

    pub fn contains_point(&self, value: &i64) -> (r: bool)
        requires
            self.wf(),
        ensures
            r == member(self.spec_intervals(), self.spec_points(), *value),
            r == self@.contains(*value),
    {
        match self.classify_point(value) {
            PointStatus::InInclude => true,
            PointStatus::InExclude => false,
            PointStatus::InInterval => true,
            PointStatus::Outside => false,
        }
    }

    /// Adds one value to the set.
    pub fn add_point(&mut self, point: i64)
        requires
            old(self).wf(),
        ensures
            final(self).wf(),
            final(self).spec_intervals() == old(self).spec_intervals(),
            final(self).spec_points() == points_after_add(
                old(self).spec_intervals(),
                old(self).spec_points(),
                point,
            ),
            final(self)@ == old(self)@.insert(point),
            old(self)@.contains(point) ==> *final(self) == *old(self),
    {
        let status = self.classify_point(&point);
        match status {
            PointStatus::Outside => {
                self.points.insert(point, Status::Include);
            },
            PointStatus::InExclude => {
                self.points.remove(point);
            },
            _ => {},
        }
        proof {
            self.lemma_stores_listed();
        }
        assert(self@ =~= old(self)@.insert(point));
    }

    /// Takes one value out of the set.
    pub fn remove_point(&mut self, point: i64)
        requires
            old(self).wf(),
        ensures
            final(self).wf(),
            final(self).spec_intervals() == old(self).spec_intervals(),
            final(self).spec_points() == points_after_remove(
                old(self).spec_intervals(),
                old(self).spec_points(),
                point,
            ),
            final(self)@ == old(self)@.remove(point),
            !old(self)@.contains(point) ==> *final(self) == *old(self),
    {
        let status = self.classify_point(&point);
        match status {
            PointStatus::InInclude => {
                self.points.remove(point);
            },
            PointStatus::InInterval => {
                self.points.insert(point, Status::Exclude);
            },
            _ => {},
        }
        proof {
            self.lemma_stores_listed();
        }
        assert(self@ =~= old(self)@.remove(point));
    }

    /// Adds every value of `interval` to the set.
    pub fn add_interval(&mut self, interval: Interval)
        requires
            old(self).wf(),
            interval.wf(),
        ensures
            final(self).wf(),
            final(self)@ == old(self)@.union(interval@),
            empty_span(
                interval.spec_left(),
                interval.spec_right(),
                interval.spec_left_open(),
                interval.spec_right_open(),
            ) ==> *final(self) == *old(self),
            !empty_span(
                interval.spec_left(),
                interval.spec_right(),
                interval.spec_left_open(),
                interval.spec_right_open(),
            ) ==> final(self).spec_intervals() == intervals_after(
                old(self).spec_intervals(),
                interval.spec_left(),
                interval.spec_right(),
            ) && final(self).spec_points() == points_after(
                old(self).spec_intervals(),
                old(self).spec_points(),
                interval.spec_left(),
                interval.spec_right(),
                interval.spec_left_open(),
                interval.spec_right_open(),
            ),
    {
        let (itv_lf, itv_rt, flag) = interval.take_away();
        let left_open = flag.left_open();
        let right_open = flag.right_open();
        if itv_lf == itv_rt && (left_open || right_open) {
            // an interval with one value and an open end holds nothing
            assert(self@ =~= old(self)@.union(interval@));
            return ;
        }
        let left_status = self.classify_point(&itv_lf);
        let right_status = self.classify_point(&itv_rt);
        let ghost ivs = self.intervals@;
        let ghost pts = self.points@;
        let new_left = match self.covering_interval(itv_lf) {
            Some((a, _)) => a,
            None => itv_lf,
        };
        let right_cover = self.covering_interval(itv_rt);
        let ghost kr: i64 = match right_cover {
            Some((a, _)) => a,
            None => 0,
        };
        let new_right = match right_cover {
            Some((_, b)) => b,
            None => itv_rt,
        };
        proof {
            lemma_merge(ivs, itv_lf, itv_rt, new_left, new_right, kr);
        }
        self.intervals.remove_range(new_left, new_right);
        self.points.remove_range(itv_lf, itv_rt);
        self.intervals.insert(new_left, new_right);
        match left_status {
            PointStatus::InExclude | PointStatus::Outside => {
                if left_open {
                    self.points.insert(itv_lf, Status::Exclude);
                }
            },
            _ => {},
        }
        match right_status {
            PointStatus::InExclude | PointStatus::Outside => {
                if right_open {
                    self.points.insert(itv_rt, Status::Exclude);
                }
            },
            _ => {},
        }
        proof {
            let n = self.intervals@;
            assert(n == absorb(ivs, new_left, new_right));
            assert(markers_fit(self.points@, n)) by {
                assert forall|p: i64| #[trigger] self.points@.contains_key(p) implies ((self.points@[p]
                    == Status::Include) == !covered(n, p)) by {
                    assert(covered(n, p) == (covered(ivs, p) || itv_lf <= p <= itv_rt));
                    if p != itv_lf && p != itv_rt {
                        assert(pts.contains_key(p));
                    }
                }
            }
            assert forall|v: i64| #[trigger] member(n, self.points@, v) == (member(ivs, pts, v)
                || interval@.contains(v)) by {
                assert(covered(n, v) == (covered(ivs, v) || itv_lf <= v <= itv_rt));
            }
            assert(self@ =~= old(self)@.union(interval@));
            self.lemma_stores_listed();
        }
    }

    /// The text of the set: its intervals and markers in increasing order, as
    /// `render_from` spells them.
    pub fn to_string(&self) -> (r: String)
        ensures
            r@ == render_from(self.interval_seq(), self.point_seq(), None),
    {
        let ghost ivs = self.intervals.seq();
        let ghost pts = self.points.seq();
        let mut out: Vec<char> = Vec::new();
        let ni = self.intervals.len();
        let nj = self.points.len();
        let mut i: usize = 0;
        let mut j: usize = 0;
        let mut pending: Option<i64> = None;
        assert(ivs.skip(0) =~= ivs);
        assert(pts.skip(0) =~= pts);
        while i < ni || j < nj || pending.is_some()
            invariant
                ni == ivs.len(),
                nj == pts.len(),
                ivs == self.intervals.seq(),
                pts == self.points.seq(),
                i <= ni,
                j <= nj,
                out@ + render_from(ivs.skip(i as int), pts.skip(j as int), pending) == render_from(
                    ivs,
                    pts,
                    None,
                ),
            decreases (ni - i) + (nj - j), if pending is Some { 1int } else { 0int },
        {
            let ghost before = out@;
            let ghost iv = ivs.skip(i as int);
            let ghost pt = pts.skip(j as int);
            let ghost pend = pending;
            let ghost i0 = i;
            let ghost j0 = j;
            let ghost mut piece: Seq<char> = Seq::empty();
            match pending {
                Some(b) => {
                    if j < nj && self.points.entry(j).0 < b {
                        let p = self.points.entry(j).0;
                        push_int(&mut out, p);
                        out.push(')');
                        out.push(',');
                        out.push('(');
                        push_int(&mut out, p);
                        out.push(',');
                        j = j + 1;
                        proof {
                            piece = int_text(p as int) + seq![')', ',', '('] + int_text(p as int) + seq![','];
                        }
                    } else if j < nj && self.points.entry(j).0 == b {
                        push_int(&mut out, b);
                        out.push(')');
                        out.push(',');
                        j = j + 1;
                        pending = None;
                        proof {
                            piece = int_text(b as int) + seq![')', ','];
                        }
                    } else {
                        push_int(&mut out, b);
                        out.push(']');
                        out.push(',');
                        pending = None;
                        proof {
                            piece = int_text(b as int) + seq![']', ','];
                        }
                    }
                },
                None => {
                    if i >= ni || (j < nj && self.points.entry(j).0 < self.intervals.entry(i).0) {
                        let p = self.points.entry(j).0;
                        out.push('≠');
                        push_int(&mut out, p);
                        out.push(',');
                        j = j + 1;
                        proof {
                            piece = seq!['≠'] + int_text(p as int) + seq![','];
                        }
                    } else {
                        let (a, b) = self.intervals.entry(i);
                        let open = j < nj && self.points.entry(j).0 == a;
                        if open {
                            out.push('(');
                            j = j + 1;
                        } else {
                            out.push('[');
                        }
                        push_int(&mut out, a);
                        out.push(',');
                        i = i + 1;
                        pending = Some(*b);
                        proof {
                            piece = seq![if open { '(' } else { '[' }] + int_text(a as int) + seq![','];
                        }
                    }
                },
            }
            proof {
                if i > i0 {
                    assert(iv.drop_first() =~= ivs.skip(i as int));
                }
                if j > j0 {
                    assert(pt.drop_first() =~= pts.skip(j as int));
                }
                assert(out@ =~= before + piece);
                let rest = render_from(ivs.skip(i as int), pts.skip(j as int), pending);
                assert(render_from(iv, pt, pend) == piece + rest);
                assert(out@ + rest =~= before + (piece + rest));
            }
        }
        assert(ivs.skip(i as int) =~= Seq::<(i64, i64)>::empty());
        assert(pts.skip(j as int) =~= Seq::<(i64, Status)>::empty());
        assert(out@ =~= render_from(ivs, pts, None));
        chars_to_string(&out)
    }

    /// The stored interval that holds `v`, if any.
    fn covering_interval(&self, v: i64) -> (r: Option<(i64, i64)>)
        requires
            self.wf(),
        ensures
            r matches Some((a, b)) ==> self.intervals@.contains_key(a) && self.intervals@[a] == b
                && a <= v <= b,
            r is None ==> !covered(self.intervals@, v),
    {
        match self.intervals.predecessor(v) {
            None => None,
            Some((left, right)) => {
                proof {
                    if covered(self.intervals@, v) {
                        let k = choose|k: i64| #[trigger] self.intervals@.contains_key(k) && k <= v
                            <= self.intervals@[k];
                        if k < left {
                            assert(self.intervals@[k] < left);
                        }
                    }
                }
                if v <= *right {
                    Some((left, *right))
                } else {
                    None
                }
            },
        }
    }

    fn intervals_contain(&self, point: &i64) -> (r: bool)
        requires
            self.wf(),
        ensures
            r == covered(self.intervals@, *point),
    {
        self.covering_interval(*point).is_some()
    }

    fn classify_point(&self, point: &i64) -> (r: PointStatus)
        requires
            self.wf(),
        ensures
            r == PointStatus::InInclude ==> !covered(self.intervals@, *point)
                && self.points@.contains_key(*point),
            r == PointStatus::InExclude ==> covered(self.intervals@, *point)
                && self.points@.contains_key(*point),
            r == PointStatus::InInterval ==> covered(self.intervals@, *point)
                && !self.points@.contains_key(*point),
            r == PointStatus::Outside ==> !covered(self.intervals@, *point)
                && !self.points@.contains_key(*point),
    {
        if self.intervals_contain(point) {
            if self.points.get(*point).is_some() {
                PointStatus::InExclude
            } else {
                PointStatus::InInterval
            }
        } else {
            if self.points.get(*point).is_some() {
                PointStatus::InInclude
            } else {
                PointStatus::Outside
            }
        }
    }
}


/// One edit of a set, as its operations take it.
pub enum Edit {
    AddPoint(i64),
    RemovePoint(i64),
    /// The interval between two ends given in either order, with the open
    /// flags of the first and the second end.
    AddInterval(i64, i64, bool, bool),
}

/// Whether the interval of an `AddInterval(l, r, lo, ro)` edit holds `v`.
pub open spec fn edit_interval_holds(l: i64, r: i64, lo: bool, ro: bool, v: i64) -> bool {
    in_interval(l as int, r as int, lo, ro, v as int) || in_interval(r as int, l as int, ro, lo, v as int)
}

/// The set after one edit, as the contracts of `add_point`, `remove_point`
/// and `add_interval` state it.
pub open spec fn apply_edit(s: Set<i64>, e: Edit) -> Set<i64> {
    match e {
        Edit::AddPoint(x) => s.insert(x),
        Edit::RemovePoint(x) => s.remove(x),
        Edit::AddInterval(l, r, lo, ro) => s.union(Set::new(|v: i64| edit_interval_holds(l, r, lo, ro, v))),
    }
}

/// The set that a history of edits builds from the empty set.
pub open spec fn replay(h: Seq<Edit>) -> Set<i64>
    decreases h.len(),
{
    if h.len() == 0 {
        Set::empty()
    } else {
        apply_edit(replay(h.drop_last()), h.last())
    }
}

/// Whether edit `e` puts `v` into the set.
pub open spec fn edit_adds(e: Edit, v: i64) -> bool {
    match e {
        Edit::AddPoint(x) => x == v,
        Edit::RemovePoint(_) => false,
        Edit::AddInterval(l, r, lo, ro) => edit_interval_holds(l, r, lo, ro, v),
    }
}

/// Whether edit `e` takes `v` out of the set.
pub open spec fn edit_removes(e: Edit, v: i64) -> bool {
    e == Edit::RemovePoint(v)
}

/// Membership of `v` read off a history directly: some edit adds `v`, and no
/// later edit removes it.
pub open spec fn history_member(h: Seq<Edit>, v: i64) -> bool {
    exists|i: int|
        0 <= i < h.len() && #[trigger] edit_adds(h[i], v) && forall|j: int|
            i < j < h.len() ==> !#[trigger] edit_removes(h[j], v)
}

/// Adding a value twice gives the set that adding it once gives; so does
/// removing a value twice, and adding an interval twice.
pub proof fn lemma_idempotent(s: Set<i64>, x: i64, iv: Interval)
    ensures
        s.insert(x).insert(x) == s.insert(x),
        s.remove(x).remove(x) == s.remove(x),
        s.union(iv@).union(iv@) == s.union(iv@),
{
    assert(s.insert(x).insert(x) =~= s.insert(x));
    assert(s.remove(x).remove(x) =~= s.remove(x));
    assert(s.union(iv@).union(iv@) =~= s.union(iv@));
}

/// Additions of intervals and values may come in any order, and so may
/// removals of values: each order gives the same set.
pub proof fn lemma_order_independent(s: Set<i64>, a: Interval, b: Interval, x: i64, y: i64)
    ensures
        s.union(a@).union(b@) == s.union(b@).union(a@),
        s.union(a@).insert(x) == s.insert(x).union(a@),
        s.insert(x).insert(y) == s.insert(y).insert(x),
        s.remove(x).remove(y) == s.remove(y).remove(x),
{
    assert(s.union(a@).union(b@) =~= s.union(b@).union(a@));
    assert(s.union(a@).insert(x) =~= s.insert(x).union(a@));
    assert(s.insert(x).insert(y) =~= s.insert(y).insert(x));
    assert(s.remove(x).remove(y) =~= s.remove(y).remove(x));
}

/// The set that a history of edits builds holds exactly the values that
/// some edit adds and no later edit removes.
pub proof fn lemma_replay_matches_history(h: Seq<Edit>, v: i64)
    ensures
        replay(h).contains(v) == history_member(h, v),
    decreases h.len(),
{
    if h.len() == 0 {
    } else {
        let h0 = h.drop_last();
        let n = h.len() - 1;
        lemma_replay_matches_history(h0, v);
        assert forall|k: int| 0 <= k < n implies #[trigger] h[k] == h0[k] by {}
        if history_member(h0, v) && !edit_removes(h[n], v) {
            let i = choose|i: int|
                0 <= i < h0.len() && #[trigger] edit_adds(h0[i], v) && forall|j: int|
                    i < j < h0.len() ==> !#[trigger] edit_removes(h0[j], v);
            assert(edit_adds(h[i], v));
            assert forall|j: int| i < j < h.len() implies !#[trigger] edit_removes(h[j], v) by {
                if j < n {
                    assert(h[j] == h0[j]);
                }
            }
        }
        if edit_adds(h[n], v) {
            assert(edit_adds(h[n], v) && forall|j: int| n < j < h.len() ==> !#[trigger] edit_removes(h[j], v));
        }
        if history_member(h, v) {
            let i = choose|i: int|
                0 <= i < h.len() && #[trigger] edit_adds(h[i], v) && forall|j: int|
                    i < j < h.len() ==> !#[trigger] edit_removes(h[j], v);
            if i < n {
                assert(!edit_removes(h[n], v));
                assert(edit_adds(h0[i], v));
                assert forall|j: int| i < j < h0.len() implies !#[trigger] edit_removes(h0[j], v) by {
                    assert(h[j] == h0[j]);
                    assert(!edit_removes(h[j], v));
                }
            }
        }
        match h[n] {
            Edit::AddPoint(x) => {},
            Edit::RemovePoint(x) => {
                if x == v {
                    assert(edit_removes(h[n], v));
                    if history_member(h, v) {
                        let i = choose|i: int|
                            0 <= i < h.len() && #[trigger] edit_adds(h[i], v) && forall|j: int|
                                i < j < h.len() ==> !#[trigger] edit_removes(h[j], v);
                        assert(i != n);
                        assert(!edit_removes(h[n], v));
                    }
                }
            },
            Edit::AddInterval(l, r, lo, ro) => {},
        }
    }
}

/// A history of additions only builds the values that some edit adds.
proof fn lemma_additions_replay(h: Seq<Edit>, v: i64)
    requires
        forall|i: int| 0 <= i < h.len() ==> !(#[trigger] h[i] is RemovePoint),
    ensures
        replay(h).contains(v) == exists|i: int| 0 <= i < h.len() && #[trigger] edit_adds(h[i], v),
{
    lemma_replay_matches_history(h, v);
    if exists|i: int| 0 <= i < h.len() && #[trigger] edit_adds(h[i], v) {
        let i = choose|i: int| 0 <= i < h.len() && #[trigger] edit_adds(h[i], v);
        assert forall|j: int| i < j < h.len() implies !#[trigger] edit_removes(h[j], v) by {
            assert(!(h[j] is RemovePoint));
        }
    }
}

/// Additions may come in any order: two histories of additions only that
/// hold the same edits, each as often, build the same set.
pub proof fn lemma_additions_any_order(h1: Seq<Edit>, h2: Seq<Edit>)
    requires
        forall|i: int| 0 <= i < h1.len() ==> !(#[trigger] h1[i] is RemovePoint),
        forall|i: int| 0 <= i < h2.len() ==> !(#[trigger] h2[i] is RemovePoint),
        h1.to_multiset() == h2.to_multiset(),
    ensures
        replay(h1) == replay(h2),
{
    h1.to_multiset_ensures();
    h2.to_multiset_ensures();
    assert forall|v: i64| replay(h1).contains(v) == replay(h2).contains(v) by {
        lemma_additions_replay(h1, v);
        lemma_additions_replay(h2, v);
        if exists|i: int| 0 <= i < h1.len() && #[trigger] edit_adds(h1[i], v) {
            let i = choose|i: int| 0 <= i < h1.len() && #[trigger] edit_adds(h1[i], v);
            assert(h1.contains(h1[i]));
            assert(h1.to_multiset().count(h1[i]) > 0);
            assert(h2.to_multiset().count(h1[i]) > 0);
            assert(h2.contains(h1[i]));
            let j = choose|j: int| 0 <= j < h2.len() && h2[j] == h1[i];
            assert(edit_adds(h2[j], v));
        }
        if exists|i: int| 0 <= i < h2.len() && #[trigger] edit_adds(h2[i], v) {
            let i = choose|i: int| 0 <= i < h2.len() && #[trigger] edit_adds(h2[i], v);
            assert(h2.contains(h2[i]));
            assert(h2.to_multiset().count(h2[i]) > 0);
            assert(h1.to_multiset().count(h2[i]) > 0);
            assert(h1.contains(h2[i]));
            let j = choose|j: int| 0 <= j < h1.len() && h1[j] == h2[i];
            assert(edit_adds(h1[j], v));
        }
    }
    assert(replay(h1) =~= replay(h2));
}

} // verus!
