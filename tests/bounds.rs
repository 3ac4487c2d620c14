use raytracer::aabb::{Point3, Slab, AABB};
use raytracer::interval::Interval;

#[test]
fn interval_new_keeps_ends() {
    let i = Interval::new(-3, 7);
    assert_eq!(i.start, -3);
    assert_eq!(i.end, 7);
}

#[test]
fn interval_contains_is_inclusive() {
    let i = Interval::new(1, 5);
    assert!(i.contains(1));
    assert!(i.contains(5));
    assert!(i.contains(3));
    assert!(!i.contains(0));
    assert!(!i.contains(6));
}

#[test]
fn interval_surrounds_is_exclusive() {
    let i = Interval::new(1, 5);
    assert!(!i.surrounds(1));
    assert!(!i.surrounds(5));
    assert!(i.surrounds(2));
}

#[test]
fn interval_merge_takes_widest() {
    let a = Interval::new(0, 4);
    let b = Interval::new(2, 9);
    assert_eq!(Interval::merge(&a, &b), Interval::new(0, 9));
    assert_eq!(Interval::merge(&b, &a), Interval::new(0, 9));
}

#[test]
fn interval_merge_contains_members_of_either() {
    let a = Interval::new(-10, -5);
    let b = Interval::new(20, 30);
    let m = Interval::merge(&a, &b);
    for x in [-10, -7, -5, 20, 25, 30] {
        assert!(m.contains(x));
    }
    assert!(m.contains(0));
}

#[test]
fn interval_merge_with_itself_is_itself() {
    let a = Interval::new(-2, 11);
    assert_eq!(Interval::merge(&a, &a), a);
}

#[test]
fn interval_empty_is_neutral_for_merge() {
    let e = Interval::empty();
    let a = Interval::new(4, 8);
    assert_eq!(Interval::merge(&e, &a), a);
    assert!(!e.contains(0));
    assert_eq!(Interval::default(), e);
}

#[test]
fn interval_universe_contains_everything() {
    let u = Interval::universe();
    assert!(u.contains(i64::MIN));
    assert!(u.contains(i64::MAX));
    assert!(u.contains(0));
}

#[test]
fn interval_clamp_projects_into_range() {
    let i = Interval::new(10, 20);
    assert_eq!(i.clamp(5), 10);
    assert_eq!(i.clamp(25), 20);
    assert_eq!(i.clamp(15), 15);
    assert_eq!(i.clamp(10), 10);
    assert_eq!(i.clamp(20), 20);
}

#[test]
fn from_point_orders_each_axis() {
    let a = Point3::new(5, -1, 2);
    let b = Point3::new(1, 3, 2);
    let bx = AABB::from_point(&a, &b);
    assert_eq!(bx.ix, Interval::new(1, 5));
    assert_eq!(bx.iy, Interval::new(-1, 3));
    assert_eq!(bx.iz, Interval::new(2, 2));
    assert_eq!(AABB::from_point(&b, &a), bx);
}

#[test]
fn from_point_holds_both_corners() {
    let a = Point3::new(-4, 9, 0);
    let b = Point3::new(6, -2, -7);
    let bx = AABB::from_point(&a, &b);
    for p in [a, b] {
        assert!(bx.ix.contains(p.x));
        assert!(bx.iy.contains(p.y));
        assert!(bx.iz.contains(p.z));
    }
}

#[test]
fn aabb_merge_is_per_axis() {
    let a = AABB::from_point(&Point3::new(0, 0, 0), &Point3::new(1, 1, 1));
    let b = AABB::from_point(&Point3::new(3, -2, 0), &Point3::new(4, 0, 5));
    let m = AABB::merge(&a, &b);
    assert_eq!(m.ix, Interval::new(0, 4));
    assert_eq!(m.iy, Interval::new(-2, 1));
    assert_eq!(m.iz, Interval::new(0, 5));
}

#[test]
fn aabb_merge_with_itself_is_itself() {
    let a = AABB::from_point(&Point3::new(-3, 4, 8), &Point3::new(2, -6, 1));
    assert_eq!(AABB::merge(&a, &a), a);
}

#[test]
fn aabb_empty_is_neutral_for_merge() {
    let a = AABB::from_point(&Point3::new(-3, 4, 8), &Point3::new(2, -6, 1));
    assert_eq!(AABB::merge(&AABB::empty(), &a), a);
}

#[test]
fn axis_interval_picks_axis() {
    let bx = AABB::new(Interval::new(0, 1), Interval::new(2, 3), Interval::new(4, 5));
    assert_eq!(*bx.axis_interval(0), Interval::new(0, 1));
    assert_eq!(*bx.axis_interval(1), Interval::new(2, 3));
    assert_eq!(*bx.axis_interval(2), Interval::new(4, 5));
}

#[test]
fn slab_test_accepts_crossing_ray() {
    let bx = AABB::new(Interval::new(0, 10), Interval::new(0, 10), Interval::new(0, 10));
    let window = Interval::new(0, 100);
    assert!(bx.hit(&window, Slab::Crossing(2, 8), Slab::Crossing(9, 3), Slab::Parallel(5)));
}

#[test]
fn slab_test_rejects_disjoint_crossings() {
    let bx = AABB::new(Interval::new(0, 10), Interval::new(0, 10), Interval::new(0, 10));
    let window = Interval::new(0, 100);
    assert!(!bx.hit(&window, Slab::Crossing(2, 4), Slab::Crossing(5, 9), Slab::Parallel(5)));
}

#[test]
fn slab_test_rejects_parallel_ray_outside_slab() {
    let bx = AABB::new(Interval::new(0, 10), Interval::new(0, 10), Interval::new(0, 10));
    let window = Interval::new(0, 100);
    assert!(!bx.hit(&window, Slab::Crossing(2, 8), Slab::Parallel(11), Slab::Parallel(5)));
    assert!(bx.hit(&window, Slab::Crossing(2, 8), Slab::Parallel(10), Slab::Parallel(0)));
}

#[test]
fn slab_test_respects_window() {
    let bx = AABB::new(Interval::new(0, 10), Interval::new(0, 10), Interval::new(0, 10));
    assert!(!bx.hit(&Interval::new(50, 100), Slab::Crossing(2, 8), Slab::Parallel(1), Slab::Parallel(1)));
    assert!(bx.hit(&Interval::new(8, 100), Slab::Crossing(2, 8), Slab::Parallel(1), Slab::Parallel(1)));
}

#[test]
fn slab_test_accepts_all_parallel_ray_inside() {
    let bx = AABB::new(Interval::new(0, 10), Interval::new(0, 10), Interval::new(0, 10));
    assert!(bx.hit(&Interval::new(5, 1), Slab::Parallel(1), Slab::Parallel(2), Slab::Parallel(3)));
    assert!(!bx.hit(&Interval::new(5, 1), Slab::Parallel(1), Slab::Parallel(-2), Slab::Parallel(3)));
}
