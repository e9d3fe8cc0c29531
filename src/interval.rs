//! Intervals over `i64` whose ends may be open or closed.
use vstd::prelude::*;

verus! {

/// Whether each end of an interval is open, packed into two bits.
pub struct IntervalFlag {
    state: u8,
}

impl IntervalFlag {
    pub closed spec fn spec_left_open(&self) -> bool {
        self.state & 2 != 0
    }

    pub closed spec fn spec_right_open(&self) -> bool {
        self.state & 1 != 0
    }

    pub fn new(left_open: bool, right_open: bool) -> (r: IntervalFlag)
        ensures
            r.spec_left_open() == left_open,
            r.spec_right_open() == right_open,
    {
        let l: u8 = if left_open { 2 } else { 0 };
        let r: u8 = if right_open { 1 } else { 0 };
        let state = l | r;
        assert((state & 2 != 0) == left_open && (state & 1 != 0) == right_open) by (bit_vector)
            requires
                l == 2 || l == 0,
                r == 1 || r == 0,
                (l == 2) == left_open,
                (r == 1) == right_open,
                state == l | r,
        ;
        IntervalFlag { state }
    }

    pub fn left_open(&self) -> (r: bool)
        ensures
            r == self.spec_left_open(),
    {
        self.state & 2 != 0
    }

    pub fn right_open(&self) -> (r: bool)
        ensures
            r == self.spec_right_open(),
    {
        self.state & 1 != 0
    }
}

/// The closed range `[left, right]`.
#[derive(Debug, Copy, Clone, PartialEq, Eq, Structural)]
pub struct ClosedRange {
    lf: i64,
    rt: i64,
}

impl ClosedRange {
    pub closed spec fn spec_left(&self) -> i64 {
        self.lf
    }

    pub closed spec fn spec_right(&self) -> i64 {
        self.rt
    }

    /// The values the range holds.
    pub open spec fn view(&self) -> Set<i64> {
        Set::new(|v: i64| self.spec_left() <= v <= self.spec_right())
    }

    pub fn new(lf: i64, rt: i64) -> (r: ClosedRange)
        ensures
            r.spec_left() == lf,
            r.spec_right() == rt,
    {
        ClosedRange { lf, rt }
    }

    pub fn contains(&self, value: &i64) -> (r: bool)
        ensures
            r == self@.contains(*value),
    {
        self.lf <= *value && *value <= self.rt
    }

    /// Whether the two ranges share a value.
    pub fn is_overlap(&self, other: &ClosedRange) -> (r: bool)
        ensures
            r == (other.spec_right() >= self.spec_left() && self.spec_right() >= other.spec_left()),
    {
        other.rt >= self.lf && self.rt >= other.lf
    }

    pub fn left(&self) -> (r: &i64)
        ensures
            *r == self.spec_left(),
    {
        &self.lf
    }

    pub fn right(&self) -> (r: &i64)
        ensures
            *r == self.spec_right(),
    {
        &self.rt
    }

    pub fn take_away(self) -> (r: (i64, i64))
        ensures
            r == (self.spec_left(), self.spec_right()),
    {
        (self.lf, self.rt)
    }

    /// The half-open range `left..right`.
    pub fn into_range(self) -> (r: std::ops::Range<i64>)
        ensures
            r.start == self.spec_left(),
            r.end == self.spec_right(),
    {
        self.lf..self.rt
    }

    /// The inclusive range `left..=right`.
    pub fn to_range(&self) -> (r: std::ops::RangeInclusive<i64>)
        ensures
            r@.start == self.spec_left(),
            r@.end == self.spec_right(),
            r@.exhausted == false,
    {
        std::ops::RangeInclusive::new(self.lf, self.rt)
    }
}

/// An interval `left <= right` whose ends are each open or closed.
pub struct Interval {
    range: ClosedRange,
    flag: IntervalFlag,
}

/// Whether `v` lies in the interval from `l` to `r` with the given open ends.
pub open spec fn in_interval(l: int, r: int, left_open: bool, right_open: bool, v: int) -> bool {
    (if left_open { l < v } else { l <= v }) && (if right_open { v < r } else { v <= r })
}

impl Interval {
    pub closed spec fn spec_left(&self) -> i64 {
        self.range.lf
    }

    pub closed spec fn spec_right(&self) -> i64 {
        self.range.rt
    }

    pub closed spec fn spec_left_open(&self) -> bool {
        self.flag.spec_left_open()
    }

    pub closed spec fn spec_right_open(&self) -> bool {
        self.flag.spec_right_open()
    }

    /// The ends are in order.
    pub open spec fn wf(&self) -> bool {
        self.spec_left() <= self.spec_right()
    }

    /// The values the interval holds.
    pub open spec fn view(&self) -> Set<i64> {
        Set::new(
            |v: i64|
                in_interval(
                    self.spec_left() as int,
                    self.spec_right() as int,
                    self.spec_left_open(),
                    self.spec_right_open(),
                    v as int,
                ),
        )
    }

    /// The interval between `left` and `right`, given in either order; when
    /// they come reversed, the open flags travel with their ends.
    pub fn new(left: i64, right: i64, left_open: bool, right_open: bool) -> (r: Interval)
        ensures
            r.wf(),
            r@ == Set::new(|v: i64| in_interval(left as int, right as int, left_open, right_open, v as int)
                || in_interval(right as int, left as int, right_open, left_open, v as int)),
            left <= right ==> r.spec_left() == left && r.spec_right() == right
                && r.spec_left_open() == left_open && r.spec_right_open() == right_open,
            right < left ==> r.spec_left() == right && r.spec_right() == left
                && r.spec_left_open() == right_open && r.spec_right_open() == left_open,
    {
        let r = if right >= left {
            Interval::new_valid(left, right, left_open, right_open)
        } else {
            Interval::new_valid(right, left, right_open, left_open)
        };
        assert(r@ =~= Set::new(|v: i64| in_interval(left as int, right as int, left_open, right_open, v as int)
            || in_interval(right as int, left as int, right_open, left_open, v as int)));
        r
    }

    fn new_valid(a: i64, b: i64, left_open: bool, right_open: bool) -> (r: Interval)
        requires
            a <= b,
        ensures
            r.wf(),
            r.spec_left() == a,
            r.spec_right() == b,
            r.spec_left_open() == left_open,
            r.spec_right_open() == right_open,
    {
        Interval { range: ClosedRange { lf: a, rt: b }, flag: IntervalFlag::new(left_open, right_open) }
    }

    /// The closed interval over `range`; it holds nothing where the ends of
    /// `range` are reversed.
    pub fn from_closed(range: ClosedRange) -> (r: Self)
        ensures
            range.spec_left() <= range.spec_right() ==> r.wf(),
            r.spec_left() == range.spec_left(),
            r.spec_right() == range.spec_right(),
            !r.spec_left_open(),
            !r.spec_right_open(),
            r@ == range@,
    {
        let r = Interval { range, flag: IntervalFlag::new(false, false) };
        assert(r@ =~= range@);
        r
    }

    pub fn contain(&self, value: &i64) -> (r: bool)
        ensures
            r == self@.contains(*value),
    {
        (if self.left_open() {
            *value > *self.left()
        } else {
            *value >= *self.left()
        }) && (if self.right_open() {
            *value < *self.right()
        } else {
            *value <= *self.right()
        })
    }

    pub fn left(&self) -> (r: &i64)
        ensures
            *r == self.spec_left(),
    {
        &self.range.lf
    }

    pub fn right(&self) -> (r: &i64)
        ensures
            *r == self.spec_right(),
    {
        &self.range.rt
    }

    pub fn left_open(&self) -> (r: bool)
        ensures
            r == self.spec_left_open(),
    {
        self.flag.left_open()
    }

    pub fn right_open(&self) -> (r: bool)
        ensures
            r == self.spec_right_open(),
    {
        self.flag.right_open()
    }

    /// Whether the two intervals, read over a dense order, share a point.
    pub fn is_overlap(&self, other: &Interval) -> (r: bool)
        ensures
            r == ((if self.spec_left_open() || other.spec_right_open() {
                other.spec_right() > self.spec_left()
            } else {
                other.spec_right() >= self.spec_left()
            }) && (if self.spec_right_open() || other.spec_left_open() {
                self.spec_right() > other.spec_left()
            } else {
                self.spec_right() >= other.spec_left()
            })),
    {
        (if self.left_open() || other.right_open() {
            *other.right() > *self.left()
        } else {
            *other.right() >= *self.left()
        }) && (if self.right_open() || other.left_open() {
            *self.right() > *other.left()
        } else {
            *self.right() >= *other.left()
        })
    }

    /// Splits the interval into its ends and its flags.
    pub fn take_away(self) -> (r: (i64, i64, IntervalFlag))
        ensures
            r.0 == self.spec_left(),
            r.1 == self.spec_right(),
            r.2.spec_left_open() == self.spec_left_open(),
            r.2.spec_right_open() == self.spec_right_open(),
    {
        (self.range.lf, self.range.rt, self.flag)
    }
}

} // verus!
