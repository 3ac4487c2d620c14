use vstd::prelude::*;
use crate::interval::{Interval, lemma_merge_idempotent, min_key, max_key};

verus! {

/// A point given by the order keys of its three coordinates.
#[derive(Clone, Copy, Debug, PartialEq, Eq, Structural)]
pub struct Point3 {
    pub x: i64,
    pub y: i64,
    pub z: i64,
}

impl Point3 {
    pub fn new(x: i64, y: i64, z: i64) -> (r: Point3)
        ensures
            r == (Point3 { x, y, z }),
    {
        Point3 { x, y, z }
    }

    /// The coordinate on axis 0 (x), 1 (y) or 2 (z).
    pub open spec fn coord(self, axis: int) -> i64 {
        if axis == 0 {
            self.x
        } else if axis == 1 {
            self.y
        } else {
            self.z
        }
    }

    /// The coordinate on `axis`.
    pub fn get(&self, axis: usize) -> (r: i64)
        requires
            axis < 3,
        ensures
            r == self.coord(axis as int),
    {
        if axis == 0 {
            self.x
        } else if axis == 1 {
            self.y
        } else {
            self.z
        }
    }
}

/// An axis-aligned box: one interval of keys per axis.
#[derive(Clone, Copy, Debug, PartialEq, Eq, Structural)]
pub struct AABB {
    pub ix: Interval,
    pub iy: Interval,
    pub iz: Interval,
}

impl AABB {
    /// The interval on axis 0 (x), 1 (y) or 2 (z).
    pub open spec fn axis(self, axis: int) -> Interval {
        if axis == 0 {
            self.ix
        } else if axis == 1 {
            self.iy
        } else {
            self.iz
        }
    }

    /// `p` lies in the box (boundary included).
    pub open spec fn has_point(self, p: Point3) -> bool {
        self.ix.has(p.x as int) && self.iy.has(p.y as int) && self.iz.has(p.z as int)
    }

    /// Every axis interval is non-empty.
    pub open spec fn is_proper(self) -> bool {
        self.ix.start <= self.ix.end && self.iy.start <= self.iy.end && self.iz.start <= self.iz.end
    }

    /// `other` lies inside this box on every axis.
    pub open spec fn covers(self, other: AABB) -> bool {
        self.ix.covers(other.ix) && self.iy.covers(other.iy) && self.iz.covers(other.iz)
    }

    /// The per-axis merge of two boxes.
    pub open spec fn spec_merge(a: AABB, b: AABB) -> AABB {
        AABB {
            ix: Interval::spec_merge(a.ix, b.ix),
            iy: Interval::spec_merge(a.iy, b.iy),
            iz: Interval::spec_merge(a.iz, b.iz),
        }
    }

    /// The interval spanned by two keys, smaller key first.
    pub open spec fn span(a: i64, b: i64) -> Interval {
        if a < b {
            Interval { start: a, end: b }
        } else {
            Interval { start: b, end: a }
        }
    }

    pub fn new(ix: Interval, iy: Interval, iz: Interval) -> (r: AABB)
        ensures
            r == (AABB { ix, iy, iz }),
    {
        AABB { ix, iy, iz }
    }

    pub open spec fn empty_spec() -> AABB {
        AABB { ix: Interval::empty_spec(), iy: Interval::empty_spec(), iz: Interval::empty_spec() }
    }

    /// The box with nothing in it: the neutral element of `merge`.
    pub fn empty() -> (r: AABB)
        ensures
            r == AABB::empty_spec(),
            forall|p: Point3| !r.has_point(p),
    {
        AABB { ix: Interval::empty(), iy: Interval::empty(), iz: Interval::empty() }
    }

    /// The box with corners `a` and `b`, in either order: each axis runs from
    /// the smaller coordinate to the larger.
    pub fn from_point(a: &Point3, b: &Point3) -> (r: AABB)
        ensures
            r.ix == AABB::span(a.x, b.x),
            r.iy == AABB::span(a.y, b.y),
            r.iz == AABB::span(a.z, b.z),
            r.is_proper(),
            r.has_point(*a),
            r.has_point(*b),
    {
        let ix = if a.x < b.x { Interval::new(a.x, b.x) } else { Interval::new(b.x, a.x) };
        let iy = if a.y < b.y { Interval::new(a.y, b.y) } else { Interval::new(b.y, a.y) };
        let iz = if a.z < b.z { Interval::new(a.z, b.z) } else { Interval::new(b.z, a.z) };
        AABB::new(ix, iy, iz)
    }

    /// The smallest box reaching over both operands, axis by axis.
    pub fn merge(a: &AABB, b: &AABB) -> (r: AABB)
        ensures
            r == AABB::spec_merge(*a, *b),
    {
        AABB::new(
            Interval::merge(&a.ix, &b.ix),
            Interval::merge(&a.iy, &b.iy),
            Interval::merge(&a.iz, &b.iz),
        )
    }

    /// The interval on `axis`; an axis other than 0, 1 or 2 is a caller error.
    pub fn axis_interval(&self, axis: usize) -> (r: &Interval)
        requires
            axis < 3,
        ensures
            *r == self.axis(axis as int),
    {
        if axis == 0 {
            &self.ix
        } else if axis == 1 {
            &self.iy
        } else {
            &self.iz
        }
    }
}

/// What the caller's arithmetic found on one axis of a slab test.
#[derive(Clone, Copy, Debug, PartialEq, Eq, Structural)]
pub enum Slab {
    /// The ray runs parallel to the slab (its direction is near zero on this
    /// axis); the key is the ray origin's coordinate on the axis.
    Parallel(i64),
    /// The ray meets the slab's two planes at the parameters with these keys,
    /// in either order.
    Crossing(i64, i64),
}

/// The window `w` after the slab of interval `ax`: unchanged for a parallel
/// ray whose origin lies in the slab, rejected (`None`) for one outside it,
/// and for a crossing ray cut down to the part between the two plane
/// parameters, rejected when nothing is left.
pub open spec fn narrow(w: Interval, ax: Interval, s: Slab) -> Option<Interval> {
    match s {
        Slab::Parallel(o) => if ax.has(o as int) {
            Some(w)
        } else {
            None
        },
        Slab::Crossing(a, b) => {
            let lo = min_key(a, b);
            let hi = max_key(a, b);
            let n = Interval { start: max_key(w.start, lo), end: min_key(w.end, hi) };
            if n.start > n.end {
                None
            } else {
                Some(n)
            }
        },
    }
}

/// One step of the slab test.
pub fn narrow_window(w: Interval, ax: &Interval, s: Slab) -> (r: Option<Interval>)
    ensures
        r == narrow(w, *ax, s),
{
    match s {
        Slab::Parallel(o) => {
            if o < ax.start || o > ax.end {
                None
            } else {
                Some(w)
            }
        },
        Slab::Crossing(a, b) => {
            let mut t0 = a;
            let mut t1 = b;
            if t0 > t1 {
                let tmp = t0;
                t0 = t1;
                t1 = tmp;
            }
            let mut n = w;
            if t0 > n.start {
                n.start = t0;
            }
            if t1 < n.end {
                n.end = t1;
            }
            if n.start > n.end {
                None
            } else {
                Some(n)
            }
        },
    }
}

/// A parallel ray's origin lies inside the slab of `ax` (a crossing ray
/// passes this check).
pub open spec fn origin_inside(ax: Interval, s: Slab) -> bool {
    match s {
        Slab::Parallel(o) => ax.has(o as int),
        Slab::Crossing(_, _) => true,
    }
}

/// The parameter at which a crossing ray enters the slab; no bound for a
/// parallel ray.
pub open spec fn entry(s: Slab) -> i64 {
    match s {
        Slab::Parallel(_) => i64::MIN,
        Slab::Crossing(a, b) => min_key(a, b),
    }
}

/// The parameter at which a crossing ray leaves the slab; no bound for a
/// parallel ray.
pub open spec fn exit(s: Slab) -> i64 {
    match s {
        Slab::Parallel(_) => i64::MAX,
        Slab::Crossing(a, b) => max_key(a, b),
    }
}

impl AABB {
    /// The slab test accepts the window: it survives the x, y and z slabs in turn.
    pub open spec fn accepts(self, w: Interval, sx: Slab, sy: Slab, sz: Slab) -> bool {
        match narrow(w, self.ix, sx) {
            None => false,
            Some(w1) => match narrow(w1, self.iy, sy) {
                None => false,
                Some(w2) => narrow(w2, self.iz, sz) is Some,
            },
        }
    }

    /// The slab test of a ray against the box within window `ray_t`, given
    /// what the ray's arithmetic found on the x, y and z axes. The window is
    /// narrowed axis by axis and the test fails as soon as it is empty or a
    /// parallel ray lies outside a slab. So the ray is accepted exactly when
    /// every parallel origin lies in its slab and the latest entry (window
    /// start included) is no later than the earliest exit (window end
    /// included); a ray parallel to all three slabs is accepted on the first
    /// condition alone.
    pub fn hit(&self, ray_t: &Interval, sx: Slab, sy: Slab, sz: Slab) -> (r: bool)
        ensures
            r == self.accepts(*ray_t, sx, sy, sz),
            r == (origin_inside(self.ix, sx) && origin_inside(self.iy, sy) && origin_inside(self.iz, sz)
                && ((sx is Parallel && sy is Parallel && sz is Parallel) || max_key(
                ray_t.start,
                max_key(entry(sx), max_key(entry(sy), entry(sz))),
            ) <= min_key(ray_t.end, min_key(exit(sx), min_key(exit(sy), exit(sz)))))),
    {
        match narrow_window(*ray_t, &self.ix, sx) {
            None => false,
            Some(w1) => match narrow_window(w1, &self.iy, sy) {
                None => false,
                Some(w2) => narrow_window(w2, &self.iz, sz).is_some(),
            },
        }
    }
}

/// Merging a box with itself gives the box back.
pub proof fn lemma_aabb_merge_idempotent(a: AABB)
    ensures
        AABB::spec_merge(a, a) == a,
{
    lemma_merge_idempotent(a.ix);
    lemma_merge_idempotent(a.iy);
    lemma_merge_idempotent(a.iz);
}

/// The merge of two boxes covers both of them.
pub proof fn lemma_aabb_merge_covers(a: AABB, b: AABB)
    ensures
        AABB::spec_merge(a, b).covers(a),
        AABB::spec_merge(a, b).covers(b),
{
}

/// Covering of boxes is transitive.
pub proof fn lemma_aabb_covers_trans(a: AABB, b: AABB, c: AABB)
    requires
        a.covers(b),
        b.covers(c),
    ensures
        a.covers(c),
{
}

} // verus!
