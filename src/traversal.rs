//! Traversal of the hierarchy against a linear scan of its leaves.
use vstd::prelude::*;

use crate::hit::{closest_t, scan_hit, HitRecord, Hittable};
use crate::ray::Ray;

verus! {

/// The linear scan of `s`, starting from the hit `init` already found.
pub open spec fn scan_from(
    s: Seq<Hittable>,
    init: Option<HitRecord>,
    r: Ray,
    tmin: int,
    tmax: int,
) -> Option<HitRecord>
    decreases s.len(),
{
    if s.len() == 0 {
        init
    } else {
        let prev = scan_from(s.drop_last(), init, r, tmin, tmax);
        match s.last().hit_spec(r, tmin, closest_t(prev, tmax)) {
            Some(rec) => Some(rec),
            None => prev,
        }
    }
}

/// Every node's box catches every hit of the primitives below it, over
/// any interval starting at `tmin`: pruning on a box never loses a hit.
pub open spec fn boxes_catch_hits(h: Hittable, r: Ray, tmin: int) -> bool
    decreases h,
{
    match h {
        Hittable::BVHNode(n) => {
            &&& forall|t: int|
                #[trigger] scan_hit(h.leaves(), r, tmin, t) is Some ==> n.aabb_box.hit_spec(
                    r,
                    tmin,
                    t,
                )
            &&& boxes_catch_hits(*n.left, r, tmin)
            &&& boxes_catch_hits(*n.right, r, tmin)
        },
        _ => true,
    }
}

proof fn lemma_scan_is_scan_from(s: Seq<Hittable>, r: Ray, tmin: int, tmax: int)
    ensures
        scan_hit(s, r, tmin, tmax) == scan_from(s, None, r, tmin, tmax),
    decreases s.len(),
{
    if s.len() > 0 {
        lemma_scan_is_scan_from(s.drop_last(), r, tmin, tmax);
    }
}

proof fn lemma_scan_concat(
    a: Seq<Hittable>,
    b: Seq<Hittable>,
    init: Option<HitRecord>,
    r: Ray,
    tmin: int,
    tmax: int,
)
    ensures
        scan_from(a + b, init, r, tmin, tmax) == scan_from(
            b,
            scan_from(a, init, r, tmin, tmax),
            r,
            tmin,
            tmax,
        ),
    decreases b.len(),
{
    if b.len() == 0 {
        assert(a + b == a);
    } else {
        assert((a + b).drop_last() == a + b.drop_last());
        assert((a + b).last() == b.last());
        lemma_scan_concat(a, b.drop_last(), init, r, tmin, tmax);
    }
}

/// Scanning after a hit `x` is scanning afresh over the interval cut down
/// to `x`, keeping `x` if nothing nearer turns up.
proof fn lemma_scan_after_hit(b: Seq<Hittable>, x: HitRecord, r: Ray, tmin: int, tmax: int)
    ensures
        scan_from(b, Some(x), r, tmin, tmax) == match scan_from(b, None, r, tmin, x.t as int) {
            Some(y) => Some(y),
            None => Some(x),
        },
    decreases b.len(),
{
    if b.len() > 0 {
        lemma_scan_after_hit(b.drop_last(), x, r, tmin, tmax);
    }
}

/// Traversing the hierarchy finds the same hit as testing its leaves one by
/// one, left to right, as long as no box prunes away a hit.
pub proof fn lemma_bvh_matches_linear_scan(h: Hittable, r: Ray, tmin: int, tmax: int)
    requires
        boxes_catch_hits(h, r, tmin),
    ensures
        h.hit_spec(r, tmin, tmax) == scan_hit(h.leaves(), r, tmin, tmax),
    decreases h,
{
    match h {
        Hittable::BVHNode(n) => {
            let ll = n.left.leaves();
            let rl = n.right.leaves();
            lemma_scan_is_scan_from(ll + rl, r, tmin, tmax);
            lemma_scan_concat(ll, rl, None, r, tmin, tmax);
            lemma_scan_is_scan_from(ll, r, tmin, tmax);
            lemma_bvh_matches_linear_scan(*n.left, r, tmin, tmax);
            let left = n.left.hit_spec(r, tmin, tmax);
            match left {
                Some(x) => {
                    lemma_scan_after_hit(rl, x, r, tmin, tmax);
                    lemma_scan_is_scan_from(rl, r, tmin, x.t as int);
                    lemma_bvh_matches_linear_scan(*n.right, r, tmin, x.t as int);
                },
                None => {
                    lemma_scan_is_scan_from(rl, r, tmin, tmax);
                    lemma_bvh_matches_linear_scan(*n.right, r, tmin, tmax);
                },
            }
            assert(h.leaves() == ll + rl);
            if !n.aabb_box.hit_spec(r, tmin, tmax) {
                assert(!(scan_hit(h.leaves(), r, tmin, tmax) is Some));
            } else {
                assert(scan_hit(h.leaves(), r, tmin, tmax) == scan_from(rl, left, r, tmin, tmax));
            }
        },
        _ => {
            assert(h.leaves() == seq![h]);
            assert(h.leaves().drop_last() == Seq::<Hittable>::empty());
            assert(scan_hit(Seq::<Hittable>::empty(), r, tmin, tmax) is None);
        },
    }
}

} // verus!
