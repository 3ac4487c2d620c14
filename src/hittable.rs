use vstd::prelude::*;
use crate::aabb::{AABB, Point3};
use crate::interval::Interval;

verus! {

/// An object of the scene as the bounding structures see it: the caller's
/// index for it, its bounding box, and the key of its box's centre on each axis.
#[derive(Clone, Copy, Debug, PartialEq, Eq, Structural)]
pub struct Bounded {
    pub id: usize,
    pub aabb: AABB,
    pub centre: Point3,
}

/// An intersection found by a primitive: the key of the ray parameter `t`
/// and the caller's record of the hit (point, normal, material, side).
pub struct Hit<R> {
    pub t: i64,
    pub record: R,
}

/// The box test that a caller's closure reports for box `b` and window `iv`.
pub open spec fn box_says<B: Fn(AABB, Interval) -> bool>(f: B, b: AABB, iv: Interval) -> bool {
    f.ensures((b, iv), true)
}

/// The primitive test that a caller's closure reports for object `id` and window `iv`.
pub open spec fn prim_says<R, P: Fn(usize, Interval) -> Option<Hit<R>>>(
    f: P,
    id: usize,
    iv: Interval,
) -> Option<Hit<R>> {
    choose|r: Option<Hit<R>>| f.ensures((id, iv), r)
}

/// The box closure gives one answer per box and window.
pub open spec fn box_is_function<B: Fn(AABB, Interval) -> bool>(f: B) -> bool {
    forall|b: AABB, iv: Interval, r1: bool, r2: bool|
        #[trigger] f.ensures((b, iv), r1) && #[trigger] f.ensures((b, iv), r2) ==> r1 == r2
}

/// The primitive closure gives one answer per object and window.
pub open spec fn prim_is_function<R, P: Fn(usize, Interval) -> Option<Hit<R>>>(f: P) -> bool {
    forall|id: usize, iv: Interval, r1: Option<Hit<R>>, r2: Option<Hit<R>>|
        #[trigger] f.ensures((id, iv), r1) && #[trigger] f.ensures((id, iv), r2) ==> r1 == r2
}

/// Narrowing the window's upper end keeps a hit at or below the new end and
/// drops one above it; a hit always lies inside the window.
pub open spec fn prim_narrows<R, P: Fn(usize, Interval) -> Option<Hit<R>>>(f: P) -> bool {
    forall|id: usize, s: i64, c: i64, e: i64|
        c <= e ==> {
            let wide = #[trigger] prim_says(f, id, Interval { start: s, end: e });
            let narrow = #[trigger] prim_says(f, id, Interval { start: s, end: c });
            &&& narrow == (if wide is Some && wide->Some_0.t <= c { wide } else { None })
            &&& wide is Some ==> s <= wide->Some_0.t
        }
}

/// The box test never rejects a box that covers an object hit in that window.
pub open spec fn box_is_conservative<R, B: Fn(AABB, Interval) -> bool, P: Fn(usize, Interval) -> Option<Hit<R>>>(
    fb: B,
    fp: P,
    items: Seq<Bounded>,
    iv: Interval,
) -> bool {
    forall|i: int, b: AABB|
        0 <= i < items.len() && b.covers(items[i].aabb) && (#[trigger] prim_says(fp, items[i].id, iv)) is Some
            ==> #[trigger] box_says(fb, b, iv)
}

/// The earlier of two optional hits; on equal `t` the first.
pub open spec fn closer<R>(l: Option<Hit<R>>, r: Option<Hit<R>>) -> Option<Hit<R>> {
    match (l, r) {
        (Some(a), Some(b)) => if a.t <= b.t { Some(a) } else { Some(b) },
        (Some(a), None) => Some(a),
        (None, b) => b,
    }
}

/// `r` is a closest hit among `items` in window `iv`: none when no object is
/// hit, else the hit of one of them, with a `t` no larger than any other's.
pub open spec fn is_closest<R, P: Fn(usize, Interval) -> Option<Hit<R>>>(
    r: Option<Hit<R>>,
    fp: P,
    items: Seq<Bounded>,
    iv: Interval,
) -> bool {
    &&& (r is None <==> forall|i: int| 0 <= i < items.len() ==> (#[trigger] prim_says(fp, items[i].id, iv)) is None)
    &&& r is Some ==> exists|i: int| 0 <= i < items.len() && #[trigger] prim_says(fp, items[i].id, iv) == r
    &&& r is Some ==> forall|i: int| 0 <= i < items.len() && (#[trigger] prim_says(fp, items[i].id, iv)) is Some
        ==> r->Some_0.t <= prim_says(fp, items[i].id, iv)->Some_0.t
}

/// Under a one-answer box closure, what a call returned is what `box_says`.
pub proof fn lemma_box_call<B: Fn(AABB, Interval) -> bool>(f: B, b: AABB, iv: Interval, r: bool)
    requires
        box_is_function(f),
        f.ensures((b, iv), r),
    ensures
        box_says(f, b, iv) == r,
{
    if !r && f.ensures((b, iv), true) {
        assert(f.ensures((b, iv), r) && f.ensures((b, iv), true));
    }
}

/// Under a one-answer primitive closure, what a call returned is what `prim_says`.
pub proof fn lemma_prim_call<R, P: Fn(usize, Interval) -> Option<Hit<R>>>(
    f: P,
    id: usize,
    iv: Interval,
    r: Option<Hit<R>>,
)
    requires
        prim_is_function(f),
        f.ensures((id, iv), r),
    ensures
        prim_says(f, id, iv) == r,
{
    let c = prim_says(f, id, iv);
    assert(f.ensures((id, iv), c));
    assert(f.ensures((id, iv), r) && f.ensures((id, iv), c));
}

/// The earlier of two optional hits; on equal `t` the first.
pub fn pick_closer<R>(l: Option<Hit<R>>, r: Option<Hit<R>>) -> (res: Option<Hit<R>>)
    ensures
        res == closer(l, r),
{
    match (l, r) {
        (Some(a), Some(b)) => if a.t <= b.t { Some(a) } else { Some(b) },
        (Some(a), None) => Some(a),
        (None, b) => b,
    }
}

} // verus!
