use vstd::prelude::*;
use crate::interval::Interval;

verus! {

/// The root a sphere reports for a ray, given the keys of the two roots of
/// its quadratic (`near <= far` as reals): the near root when it lies in the
/// window, else the far root when it does, else none.
pub open spec fn root_in_window(near: i64, far: i64, window: Interval) -> Option<i64> {
    if window.has(near as int) {
        Some(near)
    } else if window.has(far as int) {
        Some(far)
    } else {
        None
    }
}

/// Picks the root of a ray–sphere intersection that lies in `window`,
/// preferring the nearer one.
pub fn nearest_root(near: i64, far: i64, window: &Interval) -> (r: Option<i64>)
    ensures
        r == root_in_window(near, far, *window),
{
    let mut root = near;
    if root < window.start || root > window.end {
        root = far;
        if root < window.start || root > window.end {
            return None;
        }
    }
    Some(root)
}

} // verus!
