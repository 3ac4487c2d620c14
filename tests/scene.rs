use raytracer::aabb::{Point3, Slab, AABB};
use raytracer::bvh::{pick_axis, sort_by_centre, BvhChild, BvhNode};
use raytracer::hittable::{pick_closer, Bounded, Hit};
use raytracer::hittable_list::HittableList;
use raytracer::interval::Interval;
use raytracer::sphere::nearest_root;

fn key(x: f64) -> i64 {
    if x == 0.0 {
        return 0;
    }
    let b = x.to_bits() as i64;
    if b < 0 {
        b ^ i64::MAX
    } else {
        b
    }
}

fn val(k: i64) -> f64 {
    let b = if k < 0 { k ^ i64::MAX } else { k };
    f64::from_bits(b as u64)
}

struct Ball {
    c: [f64; 3],
    r: f64,
}

fn bounded(id: usize, s: &Ball) -> Bounded {
    let lo = Point3::new(key(s.c[0] - s.r), key(s.c[1] - s.r), key(s.c[2] - s.r));
    let hi = Point3::new(key(s.c[0] + s.r), key(s.c[1] + s.r), key(s.c[2] + s.r));
    Bounded {
        id,
        aabb: AABB::from_point(&lo, &hi),
        centre: Point3::new(key(s.c[0]), key(s.c[1]), key(s.c[2])),
    }
}

fn ball_hit(s: &Ball, o: [f64; 3], d: [f64; 3], window: Interval) -> Option<i64> {
    let oc = [o[0] - s.c[0], o[1] - s.c[1], o[2] - s.c[2]];
    let a = d[0] * d[0] + d[1] * d[1] + d[2] * d[2];
    let half_b = oc[0] * d[0] + oc[1] * d[1] + oc[2] * d[2];
    let c = oc[0] * oc[0] + oc[1] * oc[1] + oc[2] * oc[2] - s.r * s.r;
    let disc = half_b * half_b - a * c;
    if disc < 0.0 {
        return None;
    }
    let sq = disc.sqrt();
    nearest_root(key((-half_b - sq) / a), key((-half_b + sq) / a), &window)
}

fn slab(lo: i64, hi: i64, o: f64, d: f64) -> Slab {
    if d.abs() < 1e-12 {
        Slab::Parallel(key(o))
    } else {
        let inv = 1.0 / d;
        Slab::Crossing(key((val(lo) - o) * inv), key((val(hi) - o) * inv))
    }
}

fn box_test(b: AABB, window: Interval, o: [f64; 3], d: [f64; 3]) -> bool {
    b.hit(
        &window,
        slab(b.ix.start, b.ix.end, o[0], d[0]),
        slab(b.iy.start, b.iy.end, o[1], d[1]),
        slab(b.iz.start, b.iz.end, o[2], d[2]),
    )
}

fn extent(iv: Interval) -> i64 {
    key(val(iv.end) - val(iv.start))
}

fn scene() -> Vec<Ball> {
    vec![
        Ball { c: [0.0, 0.0, -1.0], r: 0.5 },
        Ball { c: [0.0, -100.5, -1.0], r: 100.0 },
        Ball { c: [-1.0, 0.0, -1.0], r: 0.5 },
        Ball { c: [1.0, 0.0, -1.0], r: 0.5 },
        Ball { c: [0.3, 0.4, -3.0], r: 0.7 },
        Ball { c: [2.0, 1.0, -4.0], r: 1.0 },
    ]
}

fn list_of(balls: &[Ball]) -> HittableList {
    let mut list = HittableList::new();
    for (i, b) in balls.iter().enumerate() {
        list.add(bounded(i, b));
    }
    list
}

fn window() -> Interval {
    Interval::new(key(0.001), key(f64::INFINITY))
}

#[test]
fn list_add_widens_box() {
    let balls = scene();
    let list = list_of(&balls[..1]);
    assert_eq!(list.aabb, bounded(0, &balls[0]).aabb);
    let list = list_of(&balls);
    assert_eq!(list.objects.len(), 6);
    assert_eq!(val(list.aabb.ix.start), -100.0);
    assert_eq!(val(list.aabb.ix.end), 100.0);
    assert_eq!(val(list.aabb.iy.start), -200.5);
    assert_eq!(val(list.aabb.iz.end), 99.0);
}

#[test]
fn new_list_is_empty() {
    let list = HittableList::new();
    assert!(list.objects.is_empty());
    assert_eq!(list.aabb, AABB::empty());
}

#[test]
fn unit_sphere_hit_straight_ahead() {
    let balls = scene();
    let list = list_of(&balls[..1]);
    let o = [0.0, 0.0, 0.0];
    let d = [0.0, 0.0, -1.0];
    let r = list.hit(window(), &|b: AABB, w: Interval| box_test(b, w, o, d), &|id: usize, w: Interval| {
        ball_hit(&balls[id], o, d, w).map(|t| Hit { t, record: id })
    });
    let h = r.expect("the ray meets the sphere");
    assert_eq!(val(h.t), 0.5);
    assert_eq!(h.record, 0);
}

#[test]
fn unit_sphere_missed_upwards() {
    let balls = scene();
    let list = list_of(&balls[..1]);
    let o = [0.0, 0.0, 0.0];
    let d = [0.0, 1.0, 0.0];
    let r = list.hit(window(), &|b: AABB, w: Interval| box_test(b, w, o, d), &|id: usize, w: Interval| {
        ball_hit(&balls[id], o, d, w).map(|t| Hit { t, record: id })
    });
    assert!(r.is_none());
}

#[test]
fn nearest_root_prefers_near_root_in_window() {
    let w = window();
    assert_eq!(nearest_root(key(0.5), key(1.5), &w), Some(key(0.5)));
    assert_eq!(nearest_root(key(-0.5), key(1.5), &w), Some(key(1.5)));
    assert_eq!(nearest_root(key(-1.5), key(-0.5), &w), None);
    let narrow = Interval::new(key(0.001), key(1.0));
    assert_eq!(nearest_root(key(1.2), key(1.5), &narrow), None);
}

#[test]
fn list_reports_closest_of_several() {
    let balls = scene();
    let list = list_of(&balls);
    let o = [0.0, 0.0, 1.0];
    let d = [0.0, 0.0, -1.0];
    let r = list.hit(window(), &|b: AABB, w: Interval| box_test(b, w, o, d), &|id: usize, w: Interval| {
        ball_hit(&balls[id], o, d, w).map(|t| Hit { t, record: id })
    });
    let h = r.unwrap();
    assert_eq!(h.record, 0);
    assert_eq!(val(h.t), 1.5);
}

#[test]
fn bvh_over_one_object_is_degenerate_leaf() {
    let balls = scene();
    let obj = bounded(0, &balls[0]);
    let node = BvhNode::from_list(vec![obj], &extent);
    assert_eq!(node.aabb, obj.aabb);
    match (&node.left, &node.right) {
        (BvhChild::Object(l), BvhChild::Object(r)) => {
            assert_eq!(*l, obj);
            assert_eq!(*r, obj);
        }
        _ => panic!("a single object gives a leaf"),
    }
}

fn check_node(n: &BvhNode, ids: &mut Vec<usize>) {
    let lb = match &n.left {
        BvhChild::Object(b) => b.aabb,
        BvhChild::Node(m) => m.aabb,
    };
    let rb = match &n.right {
        BvhChild::Object(b) => b.aabb,
        BvhChild::Node(m) => m.aabb,
    };
    assert_eq!(n.aabb, AABB::merge(&lb, &rb));
    match (&n.left, &n.right) {
        (BvhChild::Object(l), BvhChild::Object(r)) => {
            assert_eq!(l, r);
            ids.push(l.id);
        }
        (BvhChild::Node(l), BvhChild::Node(r)) => {
            check_node(l, ids);
            check_node(r, ids);
        }
        _ => panic!("mixed children"),
    }
}

#[test]
fn bvh_node_box_is_merge_of_children() {
    let balls = scene();
    let list = list_of(&balls);
    let tree = BvhNode::from_list(list.objects.clone(), &extent);
    let mut ids = Vec::new();
    check_node(&tree, &mut ids);
    ids.sort();
    assert_eq!(ids, vec![0, 1, 2, 3, 4, 5]);
    assert_eq!(*tree.get_aabb(), list.aabb);
}

#[test]
fn bvh_and_list_agree_on_closest_t() {
    let balls = scene();
    let list = list_of(&balls);
    let tree = BvhNode::from_list(list.objects.clone(), &extent);
    let origins = [[0.0, 0.0, 0.0], [0.0, 0.0, 1.0], [3.0, 2.0, 2.0], [-2.0, 0.5, 0.5]];
    let targets = [[0.0, 0.0, -1.0], [1.0, 0.0, -1.0], [-1.0, 0.1, -1.0], [2.0, 1.0, -4.0], [0.0, 5.0, 0.0], [0.3, 0.4, -3.0]];
    let mut hits = 0;
    for o in origins {
        for t in targets {
            let d = [t[0] - o[0], t[1] - o[1], t[2] - o[2]];
            let bh = |b: AABB, w: Interval| box_test(b, w, o, d);
            let ph = |id: usize, w: Interval| ball_hit(&balls[id], o, d, w).map(|t| Hit { t, record: id });
            let a = list.hit(window(), &bh, &ph);
            let b = tree.hit(window(), &bh, &ph);
            assert_eq!(a.is_some(), b.is_some());
            if let (Some(x), Some(y)) = (a, b) {
                assert_eq!(x.t, y.t);
                hits += 1;
            }
        }
    }
    assert!(hits > 10);
}

#[test]
fn pick_axis_takes_longest_with_ties_to_earlier() {
    assert_eq!(pick_axis(5, 3, 4), 0);
    assert_eq!(pick_axis(3, 5, 4), 1);
    assert_eq!(pick_axis(3, 4, 5), 2);
    assert_eq!(pick_axis(5, 5, 5), 0);
    assert_eq!(pick_axis(3, 5, 5), 1);
}

#[test]
fn sort_by_centre_orders_and_keeps_ties() {
    let mk = |id: usize, x: i64| Bounded {
        id,
        aabb: AABB::from_point(&Point3::new(x, 0, 0), &Point3::new(x, 0, 0)),
        centre: Point3::new(x, id as i64, 0),
    };
    let list = vec![mk(0, 5), mk(1, 2), mk(2, 5), mk(3, -1), mk(4, 2)];
    let sorted = sort_by_centre(&list, 0);
    let ids: Vec<usize> = sorted.iter().map(|b| b.id).collect();
    assert_eq!(ids, vec![3, 1, 4, 0, 2]);
}

#[test]
fn pick_closer_prefers_smaller_t_then_left() {
    let l = Some(Hit { t: 3, record: 'l' });
    let r = Some(Hit { t: 2, record: 'r' });
    assert_eq!(pick_closer(l, r).unwrap().record, 'r');
    let l = Some(Hit { t: 2, record: 'l' });
    let r = Some(Hit { t: 2, record: 'r' });
    assert_eq!(pick_closer(l, r).unwrap().record, 'l');
    assert_eq!(pick_closer(None, Some(Hit { t: 9, record: 'r' })).unwrap().record, 'r');
    assert!(pick_closer::<char>(None, None).is_none());
}

#[test]
fn list_hit_passes_the_box_test_first() {
    let balls = scene();
    let list = list_of(&balls);
    let o = [0.0, 0.0, 1.0];
    let d = [0.0, 0.0, -1.0];
    let r = list.hit(window(), &|_b: AABB, _w: Interval| false, &|id: usize, w: Interval| {
        ball_hit(&balls[id], o, d, w).map(|t| Hit { t, record: id })
    });
    assert!(r.is_none());
    let tree = BvhNode::from_list(list.objects.clone(), &extent);
    let r = tree.hit(window(), &|_b: AABB, _w: Interval| false, &|id: usize, w: Interval| {
        ball_hit(&balls[id], o, d, w).map(|t| Hit { t, record: id })
    });
    assert!(r.is_none());
}

#[test]
fn bvh_splits_on_longest_axis() {
    let mk = |id: usize, x: i64, y: i64| Bounded {
        id,
        aabb: AABB::from_point(&Point3::new(x, y, 0), &Point3::new(x, y, 0)),
        centre: Point3::new(x, y, 0),
    };
    let list = vec![mk(0, 0, 40), mk(1, 1, 0), mk(2, 2, 30), mk(3, 3, 10)];
    let tree = BvhNode::from_list(list, &|iv: Interval| iv.end - iv.start);
    let mut left = Vec::new();
    let mut right = Vec::new();
    match (&tree.left, &tree.right) {
        (BvhChild::Node(l), BvhChild::Node(r)) => {
            check_node(l, &mut left);
            check_node(r, &mut right);
        }
        _ => panic!("four objects give two subtrees"),
    }
    left.sort();
    right.sort();
    assert_eq!(left, vec![1, 3]);
    assert_eq!(right, vec![0, 2]);
}
