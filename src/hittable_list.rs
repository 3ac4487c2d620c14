use vstd::prelude::*;
use crate::aabb::{AABB, lemma_aabb_merge_covers, lemma_aabb_covers_trans};
use crate::hittable::{
    Bounded, Hit, box_says, prim_says, box_is_function, prim_is_function, prim_narrows,
    box_is_conservative, is_closest, lemma_box_call, lemma_prim_call,
};
use crate::interval::Interval;

verus! {

/// The merge of the boxes of `s`, taken from the first to the last, starting
/// from the empty box.
pub open spec fn union_of(s: Seq<Bounded>) -> AABB
    decreases s.len(),
{
    if s.len() == 0 {
        AABB::empty_spec()
    } else {
        AABB::spec_merge(union_of(s.drop_last()), s.last().aabb)
    }
}

/// The union of a sequence's boxes covers the box of each member.
pub proof fn lemma_union_covers(s: Seq<Bounded>, i: int)
    requires
        0 <= i < s.len(),
    ensures
        union_of(s).covers(s[i].aabb),
    decreases s.len(),
{
    lemma_aabb_merge_covers(union_of(s.drop_last()), s.last().aabb);
    if i < s.len() - 1 {
        lemma_union_covers(s.drop_last(), i);
        lemma_aabb_covers_trans(union_of(s), union_of(s.drop_last()), s[i].aabb);
    }
}

/// The result of scanning `objs` front to back, each object tested in the
/// window `[start, closest]`, where every hit becomes the new closest.
pub open spec fn scan<R, P: Fn(usize, Interval) -> Option<Hit<R>>>(
    objs: Seq<Bounded>,
    start: i64,
    closest: i64,
    acc: Option<Hit<R>>,
    fp: P,
) -> Option<Hit<R>>
    decreases objs.len(),
{
    if objs.len() == 0 {
        acc
    } else {
        match prim_says(fp, objs[0].id, Interval { start, end: closest }) {
            Some(h) => scan(objs.subrange(1, objs.len() as int), start, h.t, Some(h), fp),
            None => scan(objs.subrange(1, objs.len() as int), start, closest, acc, fp),
        }
    }
}

/// A flat collection of scene objects with the merge of all their boxes.
pub struct HittableList {
    pub objects: Vec<Bounded>,
    pub aabb: AABB,
}

impl HittableList {
    /// The cached box is the merge of all members' boxes.
    pub open spec fn wf(&self) -> bool {
        self.aabb == union_of(self.objects@)
    }

    pub fn new() -> (r: HittableList)
        ensures
            r.objects@.len() == 0,
            r.aabb == AABB::empty_spec(),
            r.wf(),
    {
        HittableList { objects: Vec::new(), aabb: AABB::empty() }
    }

    /// Appends `object` and widens the cached box by its box.
    pub fn add(&mut self, object: Bounded)
        ensures
            final(self).objects@ == old(self).objects@.push(object),
            final(self).aabb == AABB::spec_merge(old(self).aabb, object.aabb),
            old(self).wf() ==> final(self).wf(),
    {
        self.aabb = AABB::merge(&self.aabb, &object.aabb);
        self.objects.push(object);
        proof {
            assert(self.objects@.drop_last() =~= old(self).objects@);
        }
    }

    /// The closest hit among the members in window `interval`.
    ///
    /// `box_hit` is the slab test of the ray against a box, `prim_hit` the
    /// intersection of the ray with the object of a given index. The list's
    /// own box is tested first; then each member in turn is tested in the
    /// window `[interval.start, closest so far]`.
    pub fn hit<R, B: Fn(AABB, Interval) -> bool, P: Fn(usize, Interval) -> Option<Hit<R>>>(
        &self,
        interval: Interval,
        box_hit: &B,
        prim_hit: &P,
    ) -> (r: Option<Hit<R>>)
        requires
            forall|b: AABB, iv: Interval| box_hit.requires((b, iv)),
            forall|id: usize, iv: Interval| prim_hit.requires((id, iv)),
        ensures
            r is Some ==> box_hit.ensures((self.aabb, interval), true),
            box_is_function(*box_hit) && prim_is_function(*prim_hit) ==> r == list_hit(
                *self,
                interval,
                *box_hit,
                *prim_hit,
            ),
            box_is_function(*box_hit) && prim_is_function(*prim_hit) && prim_narrows(*prim_hit)
                && self.wf() && box_is_conservative(*box_hit, *prim_hit, self.objects@, interval)
                ==> is_closest(r, *prim_hit, self.objects@, interval),
    {
        let ghost det = box_is_function(*box_hit) && prim_is_function(*prim_hit);
        let ghost objs = self.objects@;
        proof {
            if det && prim_narrows(*prim_hit) && self.wf() && box_is_conservative(
                *box_hit,
                *prim_hit,
                objs,
                interval,
            ) {
                lemma_list_hit_closest(*self, interval, *box_hit, *prim_hit);
            }
        }
        let inside = box_hit(self.aabb, interval);
        proof {
            if det {
                lemma_box_call(*box_hit, self.aabb, interval, inside);
            }
        }
        if !inside {
            return None;
        }
        let mut closest_so_far: i64 = interval.end;
        let mut hit_record: Option<Hit<R>> = None;
        let n = self.objects.len();
        let mut i: usize = 0;
        proof {
            assert(objs.subrange(0, n as int) =~= objs);
        }
        while i < n
            invariant
                n == objs.len(),
                objs == self.objects@,
                i <= n,
                forall|id: usize, iv: Interval| prim_hit.requires((id, iv)),
                det ==> prim_is_function(*prim_hit),
                det ==> scan(objs, interval.start, interval.end, None, *prim_hit) == scan(
                    objs.subrange(i as int, n as int),
                    interval.start,
                    closest_so_far,
                    hit_record,
                    *prim_hit,
                ),
            decreases n - i,
        {
            let obj = self.objects[i];
            let found = prim_hit(obj.id, Interval::new(interval.start, closest_so_far));
            proof {
                if det {
                    lemma_prim_call(*prim_hit, obj.id, Interval { start: interval.start, end: closest_so_far }, found);
                    let rest = objs.subrange(i as int, n as int);
                    assert(rest[0] == obj);
                    assert(rest.subrange(1, rest.len() as int) =~= objs.subrange(i + 1, n as int));
                }
            }
            match found {
                Some(record) => {
                    closest_so_far = record.t;
                    hit_record = Some(record);
                },
                None => {},
            }
            i = i + 1;
        }
        proof {
            if det {
                assert(objs.subrange(n as int, n as int).len() == 0);
            }
        }
        hit_record
    }
}

/// What `HittableList::hit` returns for one-answer closures: nothing when the
/// list's box is missed, else the front-to-back scan of the members.
pub open spec fn list_hit<R, B: Fn(AABB, Interval) -> bool, P: Fn(usize, Interval) -> Option<Hit<R>>>(
    list: HittableList,
    iv: Interval,
    fb: B,
    fp: P,
) -> Option<Hit<R>> {
    if box_says(fb, list.aabb, iv) {
        scan(list.objects@, iv.start, iv.end, None, fp)
    } else {
        None
    }
}

/// Scanning the rest of the objects keeps the closest hit so far the closest.
pub proof fn lemma_scan_closest<R, P: Fn(usize, Interval) -> Option<Hit<R>>>(
    pre: Seq<Bounded>,
    objs: Seq<Bounded>,
    iv: Interval,
    c: i64,
    acc: Option<Hit<R>>,
    fp: P,
)
    requires
        prim_narrows(fp),
        c == (if acc is Some { acc->Some_0.t } else { iv.end }),
        c <= iv.end,
        is_closest(acc, fp, pre, iv),
    ensures
        is_closest(scan(objs, iv.start, c, acc, fp), fp, pre + objs, iv),
    decreases objs.len(),
{
    if objs.len() == 0 {
        assert(pre + objs =~= pre);
    } else {
        let obj = objs[0];
        let post = pre.push(obj);
        let rest = objs.subrange(1, objs.len() as int);
        let wide = prim_says(fp, obj.id, iv);
        assert(iv == Interval { start: iv.start, end: iv.end });
        assert(prim_says(fp, obj.id, Interval { start: iv.start, end: c }) == (if wide is Some
            && wide->Some_0.t <= c {
            wide
        } else {
            None
        }));
        assert(prim_says(fp, obj.id, Interval { start: iv.start, end: iv.end }) == (if wide is Some
            && wide->Some_0.t <= iv.end {
            wide
        } else {
            None
        }));
        assert(forall|k: int| 0 <= k < pre.len() ==> post[k] == pre[k]);
        assert(post[pre.len() as int] == obj);
        let narrow = prim_says(fp, obj.id, Interval { start: iv.start, end: c });
        let acc2 = if narrow is Some { narrow } else { acc };
        let c2 = if narrow is Some { narrow->Some_0.t } else { c };
        if narrow is Some {
            assert(prim_says(fp, post[pre.len() as int].id, iv) == acc2);
        } else if acc is Some {
            let w = choose|k: int| 0 <= k < pre.len() && #[trigger] prim_says(fp, pre[k].id, iv) == acc;
            assert(prim_says(fp, post[w].id, iv) == acc2);
        }
        assert(is_closest(acc2, fp, post, iv));
        lemma_scan_closest(post, rest, iv, c2, acc2, fp);
        assert(post + rest =~= pre + objs);
    }
}

/// For a well-formed list and a box test that never rejects a box around an
/// object that is hit, the list reports a closest hit among its members.
pub proof fn lemma_list_hit_closest<R, B: Fn(AABB, Interval) -> bool, P: Fn(usize, Interval) -> Option<Hit<R>>>(
    list: HittableList,
    iv: Interval,
    fb: B,
    fp: P,
)
    requires
        list.wf(),
        prim_narrows(fp),
        box_is_conservative(fb, fp, list.objects@, iv),
    ensures
        is_closest(list_hit(list, iv, fb, fp), fp, list.objects@, iv),
{
    let objs = list.objects@;
    if box_says(fb, list.aabb, iv) {
        let e = Seq::<Bounded>::empty();
        lemma_scan_closest(e, objs, iv, iv.end, None, fp);
        assert(e + objs =~= objs);
    } else {
        assert forall|i: int| 0 <= i < objs.len() implies (#[trigger] prim_says(fp, objs[i].id, iv)) is None by {
            lemma_union_covers(objs, i);
        }
    }
}

} // verus!
