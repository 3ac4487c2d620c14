use vstd::prelude::*;

verus! {

/// A closed range `[start, end]` of coordinate keys.
///
/// `start > end` is allowed and describes an empty range; it is never
/// normalised.
#[derive(Clone, Copy, Debug, PartialEq, Eq, Structural)]
pub struct Interval {
    pub start: i64,
    pub end: i64,
}

/// The smaller of two keys.
pub open spec fn min_key(a: i64, b: i64) -> i64 {
    if a < b { a } else { b }
}

/// The larger of two keys.
pub open spec fn max_key(a: i64, b: i64) -> i64 {
    if a > b { a } else { b }
}

impl Interval {
    /// `x` lies in the closed range.
    pub open spec fn has(self, x: int) -> bool {
        self.start <= x <= self.end
    }

    /// `other` lies inside this range (an empty `other` lies inside any range).
    pub open spec fn covers(self, other: Interval) -> bool {
        other.start <= other.end ==> (self.start <= other.start && other.end <= self.end)
    }

    /// The smallest range that reaches over both operands.
    pub open spec fn spec_merge(a: Interval, b: Interval) -> Interval {
        Interval { start: min_key(a.start, b.start), end: max_key(a.end, b.end) }
    }

    pub fn new(start: i64, end: i64) -> (r: Interval)
        ensures
            r.start == start,
            r.end == end,
    {
        Interval { start, end }
    }

    pub open spec fn empty_spec() -> Interval {
        Interval { start: i64::MAX, end: i64::MIN }
    }

    /// The range that holds nothing; merging with it changes nothing.
    pub fn empty() -> (r: Interval)
        ensures
            r == Interval::empty_spec(),
            forall|x: int| !r.has(x),
    {
        Interval { start: i64::MAX, end: i64::MIN }
    }

    /// The range that holds every key.
    pub fn universe() -> (r: Interval)
        ensures
            r.start == i64::MIN,
            r.end == i64::MAX,
            forall|x: i64| r.has(x as int),
    {
        Interval { start: i64::MIN, end: i64::MAX }
    }

    /// Inclusive membership.
    pub fn contains(&self, x: i64) -> (r: bool)
        ensures
            r == self.has(x as int),
    {
        self.start <= x && x <= self.end
    }

    /// Exclusive membership.
    pub fn surrounds(&self, x: i64) -> (r: bool)
        ensures
            r == (self.start < x && x < self.end),
    {
        self.start < x && x < self.end
    }

    /// The widest range reaching over `a` and `b`.
    pub fn merge(a: &Interval, b: &Interval) -> (r: Interval)
        ensures
            r == Interval::spec_merge(*a, *b),
    {
        let start = if a.start < b.start { a.start } else { b.start };
        let end = if a.end > b.end { a.end } else { b.end };
        Interval { start, end }
    }

    /// `x` projected into the range: `start` below it, `end` above it.
    pub fn clamp(&self, x: i64) -> (r: i64)
        ensures
            x < self.start ==> r == self.start,
            self.start <= x && x > self.end ==> r == self.end,
            self.start <= x <= self.end ==> r == x,
    {
        if x < self.start {
            return self.start;
        }
        if x > self.end {
            return self.end;
        }
        x
    }
}

impl Default for Interval {
    fn default() -> (r: Interval)
        ensures
            r.start == i64::MAX,
            r.end == i64::MIN,
    {
        Interval::empty()
    }
}

/// A key that lies in either operand lies in their merge.
pub proof fn lemma_merge_contains(a: Interval, b: Interval, x: int)
    requires
        a.has(x) || b.has(x),
    ensures
        Interval::spec_merge(a, b).has(x),
{
}

/// Merging a range with itself gives the range back.
pub proof fn lemma_merge_idempotent(a: Interval)
    ensures
        Interval::spec_merge(a, a) == a,
{
}

} // verus!
