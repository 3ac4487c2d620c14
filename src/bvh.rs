use vstd::prelude::*;
use crate::aabb::{AABB, lemma_aabb_merge_idempotent, lemma_aabb_merge_covers, lemma_aabb_covers_trans};
use crate::hittable::{
    Bounded, Hit, box_says, prim_says, box_is_function, prim_is_function, box_is_conservative,
    is_closest, closer, pick_closer, prim_narrows, lemma_box_call, lemma_prim_call,
};
use crate::interval::Interval;
use crate::hittable_list::{HittableList, list_hit, lemma_list_hit_closest, union_of};

verus! {

broadcast use vstd::seq_lib::group_to_multiset_ensures;

/// The key of an object's centre on `axis`.
pub open spec fn centre_key(b: Bounded, axis: int) -> i64 {
    b.centre.coord(axis)
}

/// `s` is ordered by the centre keys of its objects on `axis`.
pub open spec fn sorted_on(s: Seq<Bounded>, axis: int) -> bool {
    forall|a: int, b: int| 0 <= a < b < s.len() ==> centre_key(s[a], axis) <= centre_key(s[b], axis)
}

/// The test "the centre key on `axis` is `k`".
pub open spec fn key_is(axis: int, k: i64) -> spec_fn(Bounded) -> bool {
    |b: Bounded| centre_key(b, axis) == k
}

/// The objects of `s` whose centre key on `axis` is `k`, in their order in `s`.
pub open spec fn with_key(s: Seq<Bounded>, axis: int, k: i64) -> Seq<Bounded> {
    s.filter(key_is(axis, k))
}

/// The axis with the largest extent; ties go to the earlier axis (x, y, z).
pub open spec fn longest_of(x_len: i64, y_len: i64, z_len: i64) -> usize {
    if x_len >= y_len && x_len >= z_len {
        0
    } else if y_len >= z_len {
        1
    } else {
        2
    }
}

/// The axis with the largest of three extents; ties go to the earlier axis.
pub fn pick_axis(x_len: i64, y_len: i64, z_len: i64) -> (r: usize)
    ensures
        r == longest_of(x_len, y_len, z_len),
        r < 3,
{
    if x_len >= y_len && x_len >= z_len {
        0
    } else if y_len >= z_len {
        1
    } else {
        2
    }
}

/// The axis along which box `b` is longest, with `extent` giving the key of
/// an interval's length.
pub fn longest_axis<F: Fn(Interval) -> i64>(b: &AABB, extent: &F) -> (r: usize)
    requires
        forall|iv: Interval| extent.requires((iv,)),
    ensures
        r < 3,
        exists|x: i64, y: i64, z: i64|
            extent.ensures((b.ix,), x) && extent.ensures((b.iy,), y) && extent.ensures((b.iz,), z)
                && r == longest_of(x, y, z),
{
    let x_len = extent(b.ix);
    let y_len = extent(b.iy);
    let z_len = extent(b.iz);
    pick_axis(x_len, y_len, z_len)
}

/// The objects of `list` ordered by their centre keys on `axis`; objects with
/// equal keys keep their relative order.
pub fn sort_by_centre(list: &Vec<Bounded>, axis: usize) -> (r: Vec<Bounded>)
    requires
        axis < 3,
    ensures
        r@.to_multiset() == list@.to_multiset(),
        sorted_on(r@, axis as int),
        forall|k: i64| #[trigger] with_key(r@, axis as int, k) == with_key(list@, axis as int, k),
{
    let mut out: Vec<Bounded> = Vec::new();
    let n = list.len();
    let mut i: usize = 0;
    proof {
        assert(list@.subrange(0, 0) =~= Seq::<Bounded>::empty());
        assert forall|k: i64| #[trigger] with_key(out@, axis as int, k) == with_key(list@.subrange(0, 0), axis as int, k) by {
            reveal(Seq::filter);
            assert(out@ =~= list@.subrange(0, 0));
        }
    }
    while i < n
        invariant
            n == list.len(),
            i <= n,
            axis < 3,
            out@.to_multiset() == list@.subrange(0, i as int).to_multiset(),
            sorted_on(out@, axis as int),
            forall|k: i64| #[trigger] with_key(out@, axis as int, k) == with_key(list@.subrange(0, i as int), axis as int, k),
        decreases n - i,
    {
        let item = list[i];
        let key = item.centre.get(axis);
        let mut p: usize = out.len();
        while p > 0 && out[p - 1].centre.get(axis) > key
            invariant
                p <= out.len(),
                axis < 3,
                key == centre_key(item, axis as int),
                forall|k: int| p <= k < out.len() ==> centre_key(out@[k], axis as int) > key,
            decreases p,
        {
            p = p - 1;
        }
        let ghost before = out@;
        out.insert(p, item);
        proof {
            let lo = before.subrange(0, p as int);
            let hi = before.subrange(p as int, before.len() as int);
            assert(before =~= lo + hi);
            assert(out@ =~= lo + seq![item] + hi);
            assert forall|k: i64| #[trigger] with_key(out@, axis as int, k) == with_key(list@.subrange(0, i + 1), axis as int, k) by {
                let f = key_is(axis as int, k);
                assert(list@.subrange(0, i + 1) =~= list@.subrange(0, i as int).push(item));
                list@.subrange(0, i as int).lemma_filter_push(item, f);
                Seq::<Bounded>::filter_distributes_over_add(lo, hi, f);
                Seq::<Bounded>::filter_distributes_over_add(lo + seq![item], hi, f);
                Seq::<Bounded>::filter_distributes_over_add(lo, seq![item], f);
                Seq::<Bounded>::empty().lemma_filter_push(item, f);
                assert(Seq::<Bounded>::empty().push(item) =~= seq![item]);
                reveal(Seq::filter);
                assert(Seq::<Bounded>::empty().filter(f) =~= Seq::<Bounded>::empty());
                assert(with_key(before, axis as int, k) == with_key(list@.subrange(0, i as int), axis as int, k));
                assert(before.filter(f) == list@.subrange(0, i as int).filter(f));
                assert(before.filter(f) == lo.filter(f) + hi.filter(f));
                assert(out@.filter(f) == lo.filter(f) + seq![item].filter(f) + hi.filter(f));
                if centre_key(item, axis as int) == k {
                    assert(seq![item].filter(f) == seq![item]);
                    assert forall|j: int| 0 <= j < hi.len() implies !f(hi[j]) by {
                        assert(centre_key(before[p + j], axis as int) > key);
                    }
                    hi.lemma_all_neg_filter_empty(f);
                    assert(hi.filter(f) =~= Seq::<Bounded>::empty());
                    assert(lo.filter(f) + seq![item] + hi.filter(f) =~= (lo.filter(f) + hi.filter(f)).push(item));
                } else {
                    assert(seq![item].filter(f) == Seq::<Bounded>::empty());
                    assert(lo.filter(f) + Seq::<Bounded>::empty() =~= lo.filter(f));
                }
            }
            assert(list@.subrange(0, i + 1) =~= list@.subrange(0, i as int).push(item));
            assert forall|a: int, b: int| 0 <= a < b < out@.len() implies centre_key(
                out@[a],
                axis as int,
            ) <= centre_key(out@[b], axis as int) by {
                if b < p {
                } else if b == p {
                    if a < p && p > 0 {
                        assert(centre_key(before[p - 1], axis as int) <= key);
                    }
                } else if a < p {
                    if p > 0 {
                        assert(centre_key(before[p - 1], axis as int) <= key);
                    }
                    assert(centre_key(before[b - 1], axis as int) > key);
                } else if a == p {
                    assert(centre_key(before[b - 1], axis as int) > key);
                }
            }
        }
        i = i + 1;
    }
    proof {
        assert(list@.subrange(0, n as int) =~= list@);
    }
    out
}

/// A child of a hierarchy node: one scene object, or a subtree.
pub enum BvhChild {
    Object(Bounded),
    Node(Box<BvhNode>),
}

/// A node of the bounding volume hierarchy. A node over a single object is
/// degenerate: both children are that object.
pub struct BvhNode {
    pub aabb: AABB,
    pub left: BvhChild,
    pub right: BvhChild,
}

impl BvhChild {
    /// The box of the child: the object's box, or the subtree's.
    pub open spec fn bbox(self) -> AABB {
        match self {
            BvhChild::Object(b) => b.aabb,
            BvhChild::Node(n) => n.aabb,
        }
    }
}

/// The node is a degenerate leaf: the same object on both sides.
pub open spec fn is_leaf(n: BvhNode) -> bool {
    n.left is Object && n.right == n.left
}

/// The objects under a child, left to right.
pub open spec fn child_items(c: BvhChild) -> Seq<Bounded>
    decreases c,
{
    match c {
        BvhChild::Object(b) => seq![b],
        BvhChild::Node(n) => node_items(*n),
    }
}

/// The objects under a node, left to right, each once.
pub open spec fn node_items(n: BvhNode) -> Seq<Bounded>
    decreases n,
{
    if is_leaf(n) {
        child_items(n.left)
    } else {
        child_items(n.left) + child_items(n.right)
    }
}

/// Every node of the child is well formed.
pub open spec fn child_wf(c: BvhChild) -> bool
    decreases c,
{
    match c {
        BvhChild::Object(_) => true,
        BvhChild::Node(n) => node_wf(*n),
    }
}

/// Every node's box is the merge of its children's boxes; a node is either a
/// degenerate leaf or has two subtrees, the left one holding half of the
/// node's objects (rounded down), and the objects of the left subtree come
/// before those of the right one on some axis by centre key.
pub open spec fn node_wf(n: BvhNode) -> bool
    decreases n,
{
    &&& n.aabb == AABB::spec_merge(n.left.bbox(), n.right.bbox())
    &&& is_leaf(n) || {
        &&& n.left is Node
        &&& n.right is Node
        &&& child_wf(n.left)
        &&& child_wf(n.right)
        &&& exists|axis: int| 0 <= axis < 3 && #[trigger] split_on(child_items(n.left), child_items(n.right), axis)
        &&& child_items(n.left).len() == (child_items(n.left).len() + child_items(n.right).len()) / 2
    }
}

/// Every centre key of `l` on `axis` is at most every one of `r`.
pub open spec fn split_on(l: Seq<Bounded>, r: Seq<Bounded>, axis: int) -> bool {
    forall|a: int, b: int| 0 <= a < l.len() && 0 <= b < r.len() ==> centre_key(l[a], axis) <= centre_key(r[b], axis)
}

/// Every subtree of the child splits along its longest axis.
pub open spec fn child_splits_longest<F: Fn(Interval) -> i64>(c: BvhChild, extent: F) -> bool
    decreases c,
{
    match c {
        BvhChild::Object(_) => true,
        BvhChild::Node(n) => splits_longest(*n, extent),
    }
}

/// At every node with two subtrees, the objects of the left subtree come
/// before those of the right one by centre key on the longest axis of the
/// union of the node's boxes, the lengths being those that `extent` gives
/// (ties to the earlier axis).
pub open spec fn splits_longest<F: Fn(Interval) -> i64>(n: BvhNode, extent: F) -> bool
    decreases n,
{
    is_leaf(n) || {
        &&& child_splits_longest(n.left, extent)
        &&& child_splits_longest(n.right, extent)
        &&& exists|x: i64, y: i64, z: i64|
            {
                &&& extent.ensures((union_of(node_items(n)).ix,), x)
                &&& extent.ensures((union_of(node_items(n)).iy,), y)
                &&& extent.ensures((union_of(node_items(n)).iz,), z)
                &&& #[trigger] split_on(child_items(n.left), child_items(n.right), longest_of(x, y, z) as int)
            }
    }
}

impl BvhNode {
    /// Builds a hierarchy over `list`, which must not be empty.
    ///
    /// One object gives a degenerate leaf. Otherwise the objects are ordered
    /// by centre key along the longest axis of their union (`extent` gives the
    /// key of an interval's length) and split at half their count, each half
    /// becoming a subtree.
    pub fn from_list<F: Fn(Interval) -> i64>(list: Vec<Bounded>, extent: &F) -> (r: BvhNode)
        requires
            list.len() > 0,
            forall|iv: Interval| extent.requires((iv,)),
        ensures
            node_wf(r),
            node_items(r).to_multiset() == list@.to_multiset(),
            splits_longest(r, *extent),
        decreases list.len(),
    {
        if list.len() == 1 {
            let obj = list[0];
            proof {
                lemma_aabb_merge_idempotent(obj.aabb);
                assert(list@ =~= seq![obj]);
            }
            return BvhNode { aabb: obj.aabb, left: BvhChild::Object(obj), right: BvhChild::Object(obj) };
        }
        let mut global = AABB::empty();
        let n = list.len();
        let mut i: usize = 0;
        proof {
            assert(list@.subrange(0, 0).len() == 0);
        }
        while i < n
            invariant
                n == list.len(),
                i <= n,
                global == union_of(list@.subrange(0, i as int)),
            decreases n - i,
        {
            global = AABB::merge(&global, &list[i].aabb);
            proof {
                assert(list@.subrange(0, i + 1).drop_last() =~= list@.subrange(0, i as int));
            }
            i = i + 1;
        }
        proof {
            assert(list@.subrange(0, n as int) =~= list@);
        }
        let split_axis = longest_axis(&global, extent);
        let mut left_list = sort_by_centre(&list, split_axis);
        let ghost sorted = left_list@;
        proof {
            assert(sorted.len() == sorted.to_multiset().len());
            assert(list@.len() == list@.to_multiset().len());
        }
        let mid = n / 2;
        let right_list = left_list.split_off(mid);
        let ghost lh = left_list@;
        let ghost rh = right_list@;
        proof {
            assert(sorted =~= left_list@ + right_list@);
            vstd::seq_lib::lemma_multiset_commutative(left_list@, right_list@);
        }
        let left = BvhNode::from_list(left_list, extent);
        let right = BvhNode::from_list(right_list, extent);
        let aabb = AABB::merge(&left.aabb, &right.aabb);
        let r = BvhNode { aabb, left: BvhChild::Node(Box::new(left)), right: BvhChild::Node(Box::new(right)) };
        proof {
            let li = child_items(r.left);
            let ri = child_items(r.right);
            vstd::seq_lib::lemma_multiset_commutative(li, ri);
            lemma_union_of_permutation(list@, node_items(r));
            assert(li.len() == li.to_multiset().len());
            assert(lh.len() == lh.to_multiset().len());
            assert(ri.len() == ri.to_multiset().len());
            assert(rh.len() == rh.to_multiset().len());
            assert(split_on(li, ri, split_axis as int)) by {
                assert forall|a: int, b: int| 0 <= a < li.len() && 0 <= b < ri.len() implies centre_key(li[a], split_axis as int) <= centre_key(ri[b], split_axis as int) by {
                    assert(li.contains(li[a]));
                    assert(li.to_multiset().count(li[a]) > 0);
                    assert(lh.contains(li[a]));
                    assert(ri.contains(ri[b]));
                    assert(ri.to_multiset().count(ri[b]) > 0);
                    assert(rh.contains(ri[b]));
                    let x = choose|x: int| 0 <= x < lh.len() && lh[x] == li[a];
                    let y = choose|y: int| 0 <= y < rh.len() && rh[y] == ri[b];
                    assert(sorted[x] == lh[x]);
                    assert(sorted[mid + y] == rh[y]);
                }
            }
            let (x, y, z) = choose|x: i64, y: i64, z: i64|
                extent.ensures((global.ix,), x) && extent.ensures((global.iy,), y) && extent.ensures((global.iz,), z)
                    && split_axis == longest_of(x, y, z);
            assert(split_on(child_items(r.left), child_items(r.right), longest_of(x, y, z) as int));
            assert(child_splits_longest(r.left, *extent));
            assert(child_splits_longest(r.right, *extent));
        }
        r
    }
}

/// What a child reports for window `iv`: the object's own hit, or the
/// subtree's.
pub open spec fn child_hit<R, B: Fn(AABB, Interval) -> bool, P: Fn(usize, Interval) -> Option<Hit<R>>>(
    c: BvhChild,
    iv: Interval,
    fb: B,
    fp: P,
) -> Option<Hit<R>>
    decreases c,
{
    match c {
        BvhChild::Object(b) => prim_says(fp, b.id, iv),
        BvhChild::Node(n) => node_hit(*n, iv, fb, fp),
    }
}

/// What `BvhNode::hit` returns for one-answer closures: nothing when the
/// node's box is missed, else the closer of its children's hits (the left
/// one on equal `t`).
pub open spec fn node_hit<R, B: Fn(AABB, Interval) -> bool, P: Fn(usize, Interval) -> Option<Hit<R>>>(
    n: BvhNode,
    iv: Interval,
    fb: B,
    fp: P,
) -> Option<Hit<R>>
    decreases n,
{
    if box_says(fb, n.aabb, iv) {
        closer(child_hit(n.left, iv, fb, fp), child_hit(n.right, iv, fb, fp))
    } else {
        None
    }
}

impl BvhChild {
    /// The hit of the object, or of the subtree, in window `interval`.
    pub fn hit<R, B: Fn(AABB, Interval) -> bool, P: Fn(usize, Interval) -> Option<Hit<R>>>(
        &self,
        interval: Interval,
        box_hit: &B,
        prim_hit: &P,
    ) -> (r: Option<Hit<R>>)
        requires
            forall|b: AABB, iv: Interval| box_hit.requires((b, iv)),
            forall|id: usize, iv: Interval| prim_hit.requires((id, iv)),
        ensures
            box_is_function(*box_hit) && prim_is_function(*prim_hit) ==> r == child_hit(
                *self,
                interval,
                *box_hit,
                *prim_hit,
            ),
        decreases *self,
    {
        match self {
            BvhChild::Object(b) => {
                let r = prim_hit(b.id, interval);
                proof {
                    if prim_is_function(*prim_hit) {
                        lemma_prim_call(*prim_hit, b.id, interval, r);
                    }
                }
                r
            },
            BvhChild::Node(n) => n.hit(interval, box_hit, prim_hit),
        }
    }
}

impl BvhNode {
    /// The closest hit under this node in window `interval`.
    ///
    /// `box_hit` is the slab test of the ray against a box, `prim_hit` the
    /// intersection of the ray with the object of a given index. A node whose
    /// box is missed reports nothing; otherwise both children are searched
    /// and the hit with the smaller `t` is kept (the left one on a tie).
    pub fn hit<R, B: Fn(AABB, Interval) -> bool, P: Fn(usize, Interval) -> Option<Hit<R>>>(
        &self,
        interval: Interval,
        box_hit: &B,
        prim_hit: &P,
    ) -> (r: Option<Hit<R>>)
        requires
            forall|b: AABB, iv: Interval| box_hit.requires((b, iv)),
            forall|id: usize, iv: Interval| prim_hit.requires((id, iv)),
        ensures
            r is Some ==> box_hit.ensures((self.aabb, interval), true),
            box_is_function(*box_hit) && prim_is_function(*prim_hit) ==> r == node_hit(
                *self,
                interval,
                *box_hit,
                *prim_hit,
            ),
            box_is_function(*box_hit) && prim_is_function(*prim_hit) && node_wf(*self)
                && box_is_conservative(*box_hit, *prim_hit, node_items(*self), interval)
                ==> is_closest(r, *prim_hit, node_items(*self), interval),
        decreases *self,
    {
        proof {
            if node_wf(*self) && box_is_conservative(*box_hit, *prim_hit, node_items(*self), interval) {
                lemma_node_hit_closest(*self, interval, *box_hit, *prim_hit);
            }
        }
        let inside = box_hit(self.aabb, interval);
        proof {
            if box_is_function(*box_hit) {
                lemma_box_call(*box_hit, self.aabb, interval, inside);
            }
        }
        if !inside {
            return None;
        }
        let record_left = self.left.hit(interval, box_hit, prim_hit);
        let record_right = self.right.hit(interval, box_hit, prim_hit);
        pick_closer(record_left, record_right)
    }

    /// The box of this node.
    pub fn get_aabb(&self) -> (r: &AABB)
        ensures
            *r == self.aabb,
    {
        &self.aabb
    }
}

/// A well-formed node's box covers the box of every object under it.
pub proof fn lemma_node_covers_items(n: BvhNode)
    requires
        node_wf(n),
    ensures
        forall|i: int| 0 <= i < node_items(n).len() ==> n.aabb.covers(#[trigger] node_items(n)[i].aabb),
    decreases n,
{
    lemma_aabb_merge_covers(n.left.bbox(), n.right.bbox());
    if !is_leaf(n) {
        let l = n.left->Node_0;
        let r = n.right->Node_0;
        lemma_node_covers_items(*l);
        lemma_node_covers_items(*r);
        let li = node_items(*l);
        let ri = node_items(*r);
        assert forall|i: int| 0 <= i < node_items(n).len() implies n.aabb.covers(#[trigger] node_items(n)[i].aabb) by {
            if i < li.len() {
                assert(node_items(n)[i] == li[i]);
                lemma_aabb_covers_trans(n.aabb, l.aabb, li[i].aabb);
            } else {
                assert(node_items(n)[i] == ri[i - li.len()]);
                lemma_aabb_covers_trans(n.aabb, r.aabb, ri[i - li.len()].aabb);
            }
        }
    }
}

/// Two closest hits over two object sequences combine into a closest hit over
/// their concatenation.
pub proof fn lemma_closer_closest<R, P: Fn(usize, Interval) -> Option<Hit<R>>>(
    l: Option<Hit<R>>,
    r: Option<Hit<R>>,
    fp: P,
    ls: Seq<Bounded>,
    rs: Seq<Bounded>,
    iv: Interval,
)
    requires
        is_closest(l, fp, ls, iv),
        is_closest(r, fp, rs, iv),
    ensures
        is_closest(closer(l, r), fp, ls + rs, iv),
{
    let s = ls + rs;
    assert(forall|i: int| 0 <= i < ls.len() ==> s[i] == ls[i]);
    assert(forall|i: int| 0 <= i < rs.len() ==> s[ls.len() + i] == rs[i]);
    assert forall|i: int| ls.len() <= i < s.len() implies #[trigger] s[i] == rs[i - ls.len()] by {
        assert(s[ls.len() + (i - ls.len())] == rs[i - ls.len()]);
    }
    let c = closer(l, r);
    if c is Some {
        if c == l {
            let w = choose|k: int| 0 <= k < ls.len() && #[trigger] prim_says(fp, ls[k].id, iv) == l;
            assert(prim_says(fp, s[w].id, iv) == c);
        } else {
            let w = choose|k: int| 0 <= k < rs.len() && #[trigger] prim_says(fp, rs[k].id, iv) == r;
            assert(prim_says(fp, s[ls.len() + w].id, iv) == c);
        }
    }
}

/// For a well-formed node and a box test that never rejects a box around an
/// object that is hit, the node reports a closest hit among its objects.
pub proof fn lemma_node_hit_closest<R, B: Fn(AABB, Interval) -> bool, P: Fn(usize, Interval) -> Option<Hit<R>>>(
    n: BvhNode,
    iv: Interval,
    fb: B,
    fp: P,
)
    requires
        node_wf(n),
        box_is_conservative(fb, fp, node_items(n), iv),
    ensures
        is_closest(node_hit(n, iv, fb, fp), fp, node_items(n), iv),
    decreases n,
{
    let items = node_items(n);
    if !box_says(fb, n.aabb, iv) {
        lemma_node_covers_items(n);
        assert forall|i: int| 0 <= i < items.len() implies (#[trigger] prim_says(fp, items[i].id, iv)) is None by {
            assert(n.aabb.covers(items[i].aabb));
        }
    } else if is_leaf(n) {
        let b = n.left->Object_0;
        assert(items =~= seq![b]);
        assert(prim_says(fp, items[0].id, iv) == prim_says(fp, b.id, iv));
    } else {
        let l = n.left->Node_0;
        let r = n.right->Node_0;
        let li = node_items(*l);
        let ri = node_items(*r);
        assert(items == li + ri);
        assert forall|i: int, b: AABB| 0 <= i < li.len() && b.covers(li[i].aabb) && (#[trigger] prim_says(fp, li[i].id, iv)) is Some implies #[trigger] box_says(fb, b, iv) by {
            assert(items[i] == li[i]);
        }
        assert forall|i: int, b: AABB| 0 <= i < ri.len() && b.covers(ri[i].aabb) && (#[trigger] prim_says(fp, ri[i].id, iv)) is Some implies #[trigger] box_says(fb, b, iv) by {
            assert(items[li.len() + i] == ri[i]);
        }
        lemma_node_hit_closest(*l, iv, fb, fp);
        lemma_node_hit_closest(*r, iv, fb, fp);
        lemma_closer_closest(node_hit(*l, iv, fb, fp), node_hit(*r, iv, fb, fp), fp, li, ri, iv);
    }
}

/// Two sequences with the same multiset have the same members.
pub proof fn lemma_same_members<A>(s1: Seq<A>, s2: Seq<A>)
    requires
        s1.to_multiset() == s2.to_multiset(),
    ensures
        forall|i: int| 0 <= i < s2.len() ==> s1.contains(#[trigger] s2[i]),
        forall|i: int| 0 <= i < s1.len() ==> s2.contains(#[trigger] s1[i]),
{
    assert forall|i: int| 0 <= i < s2.len() implies s1.contains(#[trigger] s2[i]) by {
        assert(s2.contains(s2[i]));
        assert(s2.to_multiset().count(s2[i]) > 0);
    }
    assert forall|i: int| 0 <= i < s1.len() implies s2.contains(#[trigger] s1[i]) by {
        assert(s1.contains(s1[i]));
        assert(s1.to_multiset().count(s1[i]) > 0);
    }
}

/// A hierarchy over the objects of a well-formed list finds a hit exactly
/// when the list does, at the same `t`, provided the box test never rejects a
/// box around an object that is hit and narrowing a window keeps exactly the
/// hits that still lie in it.
pub proof fn lemma_bvh_agrees_with_list<R, B: Fn(AABB, Interval) -> bool, P: Fn(usize, Interval) -> Option<Hit<R>>>(
    list: HittableList,
    tree: BvhNode,
    iv: Interval,
    fb: B,
    fp: P,
)
    requires
        list.wf(),
        node_wf(tree),
        node_items(tree).to_multiset() == list.objects@.to_multiset(),
        prim_narrows(fp),
        box_is_conservative(fb, fp, list.objects@, iv),
    ensures
        (list_hit(list, iv, fb, fp) is None) == (node_hit(tree, iv, fb, fp) is None),
        list_hit(list, iv, fb, fp) is Some ==> list_hit(list, iv, fb, fp)->Some_0.t == node_hit(
            tree,
            iv,
            fb,
            fp,
        )->Some_0.t,
{
    let objs = list.objects@;
    let items = node_items(tree);
    lemma_same_members(objs, items);
    assert forall|i: int, b: AABB| 0 <= i < items.len() && b.covers(items[i].aabb) && (#[trigger] prim_says(fp, items[i].id, iv)) is Some implies #[trigger] box_says(fb, b, iv) by {
        assert(objs.contains(items[i]));
        let j = choose|j: int| 0 <= j < objs.len() && objs[j] == items[i];
        assert(prim_says(fp, objs[j].id, iv) is Some);
    }
    lemma_list_hit_closest(list, iv, fb, fp);
    lemma_node_hit_closest(tree, iv, fb, fp);
    let a = list_hit(list, iv, fb, fp);
    let t = node_hit(tree, iv, fb, fp);
    if a is None {
        assert forall|i: int| 0 <= i < items.len() implies (#[trigger] prim_says(fp, items[i].id, iv)) is None by {
            let j = choose|j: int| 0 <= j < objs.len() && objs[j] == items[i];
            assert(prim_says(fp, objs[j].id, iv) is None);
        }
    } else {
        let j = choose|j: int| 0 <= j < objs.len() && #[trigger] prim_says(fp, objs[j].id, iv) == a;
        assert(items.contains(objs[j]));
        let k = choose|k: int| 0 <= k < items.len() && items[k] == objs[j];
        assert(prim_says(fp, items[k].id, iv) is Some);
        let k2 = choose|k: int| 0 <= k < items.len() && #[trigger] prim_says(fp, items[k].id, iv) == t;
        assert(objs.contains(items[k2]));
        let j2 = choose|j: int| 0 <= j < objs.len() && objs[j] == items[k2];
        assert(prim_says(fp, objs[j2].id, iv) == t);
    }
}

/// The start of `b` on `axis`.
pub open spec fn lo(b: AABB, axis: int) -> i64 {
    b.axis(axis).start
}

/// The end of `b` on `axis`.
pub open spec fn hi(b: AABB, axis: int) -> i64 {
    b.axis(axis).end
}

/// On `axis` the union of `s` starts where some member starts.
pub open spec fn lo_attained(s: Seq<Bounded>, axis: int) -> bool {
    exists|i: int| 0 <= i < s.len() && lo(union_of(s), axis) == #[trigger] lo(s[i].aabb, axis)
}

/// On `axis` the union of `s` ends where some member ends.
pub open spec fn hi_attained(s: Seq<Bounded>, axis: int) -> bool {
    exists|i: int| 0 <= i < s.len() && hi(union_of(s), axis) == #[trigger] hi(s[i].aabb, axis)
}

/// On each axis the union of a non-empty sequence of boxes starts at the
/// smallest start and ends at the largest end.
pub proof fn lemma_union_bounds(s: Seq<Bounded>)
    requires
        s.len() > 0,
    ensures
        forall|a: int, i: int| 0 <= a < 3 && 0 <= i < s.len() ==> lo(union_of(s), a) <= #[trigger] lo(s[i].aabb, a),
        forall|a: int, i: int| 0 <= a < 3 && 0 <= i < s.len() ==> hi(union_of(s), a) >= #[trigger] hi(s[i].aabb, a),
        forall|a: int| 0 <= a < 3 ==> #[trigger] lo_attained(s, a),
        forall|a: int| 0 <= a < 3 ==> #[trigger] hi_attained(s, a),
    decreases s.len(),
{
    let n = s.len() - 1;
    let p = s.drop_last();
    assert(union_of(s) == AABB::spec_merge(union_of(p), s[n].aabb));
    if s.len() == 1 {
        assert(p.len() == 0);
        assert(union_of(p) == AABB::empty_spec());
        assert forall|a: int| 0 <= a < 3 implies lo(union_of(s), a) == #[trigger] lo(s[0].aabb, a) && hi(union_of(s), a) == hi(s[0].aabb, a) by {}
    } else {
        lemma_union_bounds(p);
        assert forall|i: int| 0 <= i < n implies #[trigger] s[i] == p[i] by {}
    }
    assert forall|a: int, i: int| 0 <= a < 3 && 0 <= i < s.len() implies lo(union_of(s), a) <= #[trigger] lo(s[i].aabb, a) by {
        if i < n {
            assert(lo(union_of(p), a) <= lo(p[i].aabb, a));
        }
    }
    assert forall|a: int, i: int| 0 <= a < 3 && 0 <= i < s.len() implies hi(union_of(s), a) >= #[trigger] hi(s[i].aabb, a) by {
        if i < n {
            assert(hi(union_of(p), a) >= hi(p[i].aabb, a));
        }
    }
    assert forall|a: int| 0 <= a < 3 implies #[trigger] lo_attained(s, a) by {
        if lo(union_of(s), a) == lo(s[n].aabb, a) {
            assert(lo(union_of(s), a) == lo(s[n].aabb, a));
        } else {
            assert(lo_attained(p, a));
            let j = choose|j: int| 0 <= j < p.len() && lo(union_of(p), a) == #[trigger] lo(p[j].aabb, a);
            assert(lo(union_of(s), a) == lo(s[j].aabb, a));
        }
    }
    assert forall|a: int| 0 <= a < 3 implies #[trigger] hi_attained(s, a) by {
        if hi(union_of(s), a) == hi(s[n].aabb, a) {
            assert(hi(union_of(s), a) == hi(s[n].aabb, a));
        } else {
            assert(hi_attained(p, a));
            let j = choose|j: int| 0 <= j < p.len() && hi(union_of(p), a) == #[trigger] hi(p[j].aabb, a);
            assert(hi(union_of(s), a) == hi(s[j].aabb, a));
        }
    }
}

/// The union of a sequence's boxes does not depend on the order of the sequence.
pub proof fn lemma_union_of_permutation(s: Seq<Bounded>, t: Seq<Bounded>)
    requires
        s.to_multiset() == t.to_multiset(),
    ensures
        union_of(s) == union_of(t),
{
    assert(s.len() == s.to_multiset().len());
    assert(t.len() == t.to_multiset().len());
    if s.len() == 0 {
        assert(union_of(s) == union_of(t));
    } else {
        lemma_same_members(s, t);
        lemma_union_bounds(s);
        lemma_union_bounds(t);
        let us = union_of(s);
        let ut = union_of(t);
        assert forall|a: int| 0 <= a < 3 implies lo(us, a) == lo(ut, a) && hi(us, a) == hi(ut, a) by {
            assert(lo_attained(s, a) && hi_attained(s, a));
            assert(lo_attained(t, a) && hi_attained(t, a));
            let i = choose|i: int| 0 <= i < s.len() && lo(us, a) == #[trigger] lo(s[i].aabb, a);
            assert(t.contains(s[i]));
            let k = choose|k: int| 0 <= k < t.len() && t[k] == s[i];
            assert(lo(ut, a) <= lo(t[k].aabb, a));
            let j = choose|j: int| 0 <= j < t.len() && lo(ut, a) == #[trigger] lo(t[j].aabb, a);
            assert(s.contains(t[j]));
            let m = choose|m: int| 0 <= m < s.len() && s[m] == t[j];
            assert(lo(us, a) <= lo(s[m].aabb, a));
            let i2 = choose|i: int| 0 <= i < s.len() && hi(us, a) == #[trigger] hi(s[i].aabb, a);
            assert(t.contains(s[i2]));
            let k2 = choose|k: int| 0 <= k < t.len() && t[k] == s[i2];
            assert(hi(ut, a) >= hi(t[k2].aabb, a));
            let j2 = choose|j: int| 0 <= j < t.len() && hi(ut, a) == #[trigger] hi(t[j].aabb, a);
            assert(s.contains(t[j2]));
            let m2 = choose|m: int| 0 <= m < s.len() && s[m] == t[j2];
            assert(hi(us, a) >= hi(s[m2].aabb, a));
        }
        assert(lo(us, 0) == lo(ut, 0) && hi(us, 0) == hi(ut, 0));
        assert(lo(us, 1) == lo(ut, 1) && hi(us, 1) == hi(ut, 1));
        assert(lo(us, 2) == lo(ut, 2) && hi(us, 2) == hi(ut, 2));
    }
}

} // verus!
