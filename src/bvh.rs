//! Construction of the bounding volume hierarchy.
use vstd::prelude::*;
use vstd::seq_lib::group_to_multiset_ensures;

use rand::rngs::StdRng;

use crate::aabb::AABB;
use crate::fixed::bounded;
use crate::hit::{all_wf, BVHNode, Hittable};
use crate::random::random_usize;

verus! {

impl Hittable {
    /// The primitives at the leaves of the tree, left to right.
    pub open spec fn leaves(self) -> Seq<Hittable>
        decreases self,
    {
        match self {
            Hittable::BVHNode(n) => n.left.leaves() + n.right.leaves(),
            _ => seq![self],
        }
    }

    /// Every node's box is the union of its children's boxes over
    /// `[time0, time1]`.
    pub open spec fn boxes_fit(self, time0: int, time1: int) -> bool
        decreases self,
    {
        match self {
            Hittable::BVHNode(n) => {
                &&& n.aabb_box == AABB::surrounding_spec(
                    n.left.bbox_spec(time0, time1),
                    n.right.bbox_spec(time0, time1),
                )
                &&& n.left.boxes_fit(time0, time1)
                &&& n.right.boxes_fit(time0, time1)
            },
            _ => true,
        }
    }

    /// The sort key of a primitive: the minimum of its box at time 0 on an axis.
    pub open spec fn axis_key(self, axis: int) -> int {
        self.bbox_spec(0, 0).minimum.comp(axis)
    }
}

pub open spec fn all_fit(s: Seq<Hittable>, time0: int, time1: int) -> bool {
    forall|i: int| 0 <= i < s.len() ==> #[trigger] s[i].boxes_fit(time0, time1)
}

/// `l` and `r` are the children that construction gives the objects `s`:
/// a single object on both sides; of two, the one with the greater key on
/// some axis on the left; more, sorted by key on some axis, the first half
/// (the smaller keys) under the left child and the rest under the right,
/// each child a node built the same way.
pub open spec fn children_built(l: Hittable, r: Hittable, s: Seq<Hittable>) -> bool
    decreases s.len(),
{
    if s.len() == 1 {
        l == s[0] && r == s[0]
    } else if s.len() == 2 {
        exists|axis: int| 0 <= axis < 3 && #[trigger] pair_placed(l, r, s[0], s[1], axis)
    } else if s.len() > 2 {
        exists|t: Seq<Hittable>, axis: int|
            0 <= axis < 3 && t.len() == s.len() && t.to_multiset() == s.to_multiset()
                && #[trigger] sorted_on(t, axis) && match (l, r) {
                (Hittable::BVHNode(ln), Hittable::BVHNode(rn)) => {
                    &&& children_built(*ln.left, *ln.right, t.subrange(0, s.len() as int / 2))
                    &&& children_built(*rn.left, *rn.right, t.subrange(s.len() as int / 2, s.len() as int))
                },
                _ => false,
            }
    } else {
        false
    }
}

/// Two objects placed by their keys on `axis`: the greater key on the left,
/// the second object on the left when the keys are equal.
pub open spec fn pair_placed(l: Hittable, r: Hittable, a: Hittable, b: Hittable, axis: int) -> bool {
    if a.axis_key(axis) > b.axis_key(axis) {
        l == a && r == b
    } else {
        l == b && r == a
    }
}

pub open spec fn sorted_on(s: Seq<Hittable>, axis: int) -> bool {
    forall|i: int, j: int| 0 <= i < j < s.len() ==> s[i].axis_key(axis) <= s[j].axis_key(axis)
}

/// A leaf of one of the objects `s[lo..hi]`.
pub open spec fn leaf_of_range(s: Seq<Hittable>, lo: int, hi: int, x: Hittable) -> bool {
    exists|i: int| lo <= i < hi && (#[trigger] s[i]).leaves().contains(x)
}

proof fn lemma_concat_contains(a: Seq<Hittable>, b: Seq<Hittable>, x: Hittable)
    ensures
        (a + b).contains(x) <==> (a.contains(x) || b.contains(x)),
{
    if (a + b).contains(x) {
        let i = choose|i: int| 0 <= i < (a + b).len() && (a + b)[i] == x;
        if i < a.len() {
            assert(a[i] == x);
        } else {
            assert(b[i - a.len()] == x);
        }
    }
    if a.contains(x) {
        let i = choose|i: int| 0 <= i < a.len() && a[i] == x;
        assert((a + b)[i] == x);
    }
    if b.contains(x) {
        let i = choose|i: int| 0 <= i < b.len() && b[i] == x;
        assert((a + b)[i + a.len()] == x);
    }
}

/// Objects that are a permutation of one another have the same leaves.
proof fn lemma_permuted_leaves(a: Seq<Hittable>, b: Seq<Hittable>, x: Hittable)
    requires
        a.to_multiset() == b.to_multiset(),
    ensures
        leaf_of_range(a, 0, a.len() as int, x) ==> leaf_of_range(b, 0, b.len() as int, x),
{
    broadcast use group_to_multiset_ensures;

    if leaf_of_range(a, 0, a.len() as int, x) {
        let i = choose|i: int| 0 <= i < a.len() && (#[trigger] a[i]).leaves().contains(x);
        assert(a.contains(a[i]));
        assert(a.to_multiset().count(a[i]) > 0);
        assert(b.contains(a[i]));
        let j = choose|j: int| 0 <= j < b.len() && b[j] == a[i];
        assert(b[j].leaves().contains(x));
    }
}

proof fn lemma_sorted_copy(
    src: Seq<Hittable>,
    start: int,
    end: int,
    objects: Seq<Hittable>,
    time0: int,
    time1: int,
)
    requires
        0 <= start <= end <= src.len(),
        objects.to_multiset() == src.subrange(start, end).to_multiset(),
        all_fit(src, time0, time1),
    ensures
        objects.len() == end - start,
        all_fit(objects, time0, time1),
        forall|x: Hittable|
            leaf_of_range(objects, 0, objects.len() as int, x) <==> leaf_of_range(src, start, end, x),
{
    broadcast use group_to_multiset_ensures;

    let sub = src.subrange(start, end);
    assert(objects.to_multiset().len() == objects.len());
    assert(sub.to_multiset().len() == sub.len());
    assert forall|m: int| 0 <= m < objects.len() implies #[trigger] objects[m].boxes_fit(time0, time1) by {
        assert(objects.contains(objects[m]));
        assert(objects.to_multiset().count(objects[m]) > 0);
        assert(sub.contains(objects[m]));
        let j = choose|j: int| 0 <= j < sub.len() && sub[j] == objects[m];
        assert(src[start + j] == sub[j]);
    }
    assert forall|x: Hittable|
        leaf_of_range(objects, 0, objects.len() as int, x) <==> leaf_of_range(src, start, end, x) by {
        lemma_permuted_leaves(objects, sub, x);
        lemma_permuted_leaves(sub, objects, x);
        if leaf_of_range(sub, 0, sub.len() as int, x) {
            let i = choose|i: int| 0 <= i < sub.len() && (#[trigger] sub[i]).leaves().contains(x);
            assert(src[start + i] == sub[i]);
        }
        if leaf_of_range(src, start, end, x) {
            let i = choose|i: int| start <= i < end && (#[trigger] src[i]).leaves().contains(x);
            assert(sub[i - start] == src[i]);
        }
    }
}

/// A range of one or two objects: a leaf comes from the first or the last.
proof fn lemma_one_or_two(s: Seq<Hittable>, start: int, end: int)
    requires
        0 <= start < end <= s.len(),
        end <= start + 2,
    ensures
        forall|x: Hittable|
            leaf_of_range(s, start, end, x) <==> (s[start].leaves().contains(x) || s[end
                - 1].leaves().contains(x)),
{
    assert forall|x: Hittable|
        leaf_of_range(s, start, end, x) <==> (s[start].leaves().contains(x) || s[end
            - 1].leaves().contains(x)) by {
        if leaf_of_range(s, start, end, x) {
            let i = choose|i: int| start <= i < end && (#[trigger] s[i]).leaves().contains(x);
            assert(i == start || i == end - 1);
        }
        if s[start].leaves().contains(x) {
            assert(leaf_of_range(s, start, end, x));
        }
        if s[end - 1].leaves().contains(x) {
            assert(leaf_of_range(s, start, end, x));
        }
    }
}

proof fn lemma_halves(s: Seq<Hittable>, mid: int, x: Hittable)
    requires
        0 <= mid <= s.len(),
    ensures
        leaf_of_range(s, 0, mid, x) || leaf_of_range(s, mid, s.len() as int, x) <==> leaf_of_range(
            s,
            0,
            s.len() as int,
            x,
        ),
{
    if leaf_of_range(s, 0, mid, x) {
        let i = choose|i: int| 0 <= i < mid && (#[trigger] s[i]).leaves().contains(x);
        assert(leaf_of_range(s, 0, s.len() as int, x));
    }
    if leaf_of_range(s, mid, s.len() as int, x) {
        let i = choose|i: int| mid <= i < s.len() && (#[trigger] s[i]).leaves().contains(x);
        assert(leaf_of_range(s, 0, s.len() as int, x));
    }
    if leaf_of_range(s, 0, s.len() as int, x) {
        let i = choose|i: int| 0 <= i < s.len() && (#[trigger] s[i]).leaves().contains(x);
        if i < mid {
            assert(leaf_of_range(s, 0, mid, x));
        } else {
            assert(leaf_of_range(s, mid, s.len() as int, x));
        }
    }
}

/// The sort key of a primitive on `axis`.
fn box_key(h: &Hittable, axis: usize) -> (k: i64)
    requires
        h.wf(),
        axis < 3,
    ensures
        k == h.axis_key(axis as int),
{
    let b = h.bounding_box(0, 0).unwrap();
    b.minimum.index(axis)
}

/// A copy of `src[start..end]` ordered by the key on `axis`, equal keys
/// keeping their order.
fn sorted_by_axis(src: &Vec<Hittable>, start: usize, end: usize, axis: usize) -> (out: Vec<
    Hittable,
>)
    requires
        start <= end <= src@.len(),
        all_wf(src@),
        axis < 3,
    ensures
        out@.to_multiset() == src@.subrange(start as int, end as int).to_multiset(),
        sorted_on(out@, axis as int),
        all_wf(out@),
{
    broadcast use group_to_multiset_ensures;

    let mut out: Vec<Hittable> = Vec::new();
    let mut keys: Vec<i64> = Vec::new();
    let mut i = start;
    while i < end
        invariant
            start <= i <= end <= src@.len(),
            all_wf(src@),
            axis < 3,
            out@.len() == keys@.len(),
            forall|k: int| 0 <= k < keys@.len() ==> keys@[k] == #[trigger] out@[k].axis_key(axis as int),
            out@.to_multiset() == src@.subrange(start as int, i as int).to_multiset(),
            sorted_on(out@, axis as int),
            all_wf(out@),
        decreases end - i,
    {
        let item = src[i].clone();
        let k = box_key(&item, axis);
        let mut pos: usize = 0;
        while pos < keys.len() && keys[pos] <= k
            invariant
                pos <= keys@.len(),
                out@.len() == keys@.len(),
                forall|m: int| 0 <= m < pos ==> keys@[m] <= k,
            decreases keys@.len() - pos,
        {
            pos += 1;
        }
        let ghost old_out = out@;
        proof {
            assert(src@.subrange(start as int, i + 1) == src@.subrange(start as int, i as int).push(src@[i as int]));
            assert forall|m: int| pos <= m < old_out.len() implies k < #[trigger] old_out[m].axis_key(axis as int) by {
                assert(k < keys@[pos as int]);
                assert(keys@[pos as int] == old_out[pos as int].axis_key(axis as int));
                if m > pos {
                    assert(old_out[pos as int].axis_key(axis as int) <= old_out[m].axis_key(axis as int));
                }
            }
        }
        out.insert(pos, item);
        keys.insert(pos, k);
        proof {
            assert(out@ == old_out.insert(pos as int, item));
            assert(item == src@[i as int]);
            vstd::seq_lib::to_multiset_insert(old_out, pos as int, item);
            vstd::seq_lib::to_multiset_build(src@.subrange(start as int, i as int), src@[i as int]);
            assert(old_out.insert(pos as int, item).to_multiset() =~= old_out.to_multiset().insert(item));
            assert(src@.subrange(start as int, i as int).push(src@[i as int]).to_multiset()
                =~= src@.subrange(start as int, i as int).to_multiset().insert(src@[i as int]));
            assert(src@.subrange(start as int, i + 1) == src@.subrange(start as int, i as int).push(src@[i as int]));
            assert forall|a: int, b: int| 0 <= a < b < out@.len() implies out@[a].axis_key(axis as int) <= out@[b].axis_key(axis as int) by {
                if a < pos && b < pos {
                } else if a < pos && b == pos {
                    assert(keys@[a] <= k);
                } else if a < pos {
                    assert(old_out[a].axis_key(axis as int) <= old_out[b - 1].axis_key(axis as int));
                } else if a == pos {
                    assert(k < old_out[b - 1].axis_key(axis as int));
                } else {
                    assert(old_out[a - 1].axis_key(axis as int) <= old_out[b - 1].axis_key(axis as int));
                }
            }
            assert forall|m: int| 0 <= m < out@.len() implies #[trigger] out@[m].wf() by {
                if m < pos {
                } else if m == pos {
                } else {
                    assert(out@[m] == old_out[m - 1]);
                }
            }
            assert forall|m: int| 0 <= m < keys@.len() implies keys@[m] == #[trigger] out@[m].axis_key(axis as int) by {
                if m < pos {
                } else if m == pos {
                } else {
                    assert(out@[m] == old_out[m - 1]);
                }
            }
        }
        i += 1;
    }
    out
}

impl BVHNode {
    /// Build a hierarchy over all of `src_objects`.
    pub fn new(src_objects: &Vec<Hittable>, time0: i64, time1: i64, rng: &mut StdRng) -> (n: BVHNode)
        requires
            src_objects@.len() > 0,
            all_wf(src_objects@),
            all_fit(src_objects@, time0 as int, time1 as int),
            bounded(time0 as int),
            bounded(time1 as int),
        ensures
            n.wf(),
            Hittable::BVHNode(n).boxes_fit(time0 as int, time1 as int),
            forall|x: Hittable|
                Hittable::BVHNode(n).leaves().contains(x) <==> leaf_of_range(
                    src_objects@,
                    0,
                    src_objects@.len() as int,
                    x,
                ),
            children_built(*n.left, *n.right, src_objects@),
    {
        assert(src_objects@.subrange(0, src_objects@.len() as int) == src_objects@);
        BVHNode::new_helper(src_objects, 0, src_objects.len(), time0, time1, rng)
    }

    /// Build a hierarchy over `src_objects[start..end]`: one object sits on
    /// both sides, two are placed by their keys on a random axis, more are
    /// sorted on that axis and split at the middle.
    fn new_helper(
        src_objects: &Vec<Hittable>,
        start: usize,
        end: usize,
        time0: i64,
        time1: i64,
        rng: &mut StdRng,
    ) -> (n: BVHNode)
        requires
            start < end <= src_objects@.len(),
            all_wf(src_objects@),
            all_fit(src_objects@, time0 as int, time1 as int),
            bounded(time0 as int),
            bounded(time1 as int),
        ensures
            n.wf(),
            Hittable::BVHNode(n).boxes_fit(time0 as int, time1 as int),
            forall|x: Hittable|
                Hittable::BVHNode(n).leaves().contains(x) <==> leaf_of_range(
                    src_objects@,
                    start as int,
                    end as int,
                    x,
                ),
            children_built(*n.left, *n.right, src_objects@.subrange(start as int, end as int)),
        decreases end - start, 1nat,
    {
        let axis = random_usize(rng, 0, 3);
        let (left, right) = BVHNode::children(src_objects, start, end, axis, time0, time1, rng);
        let box_left = left.bounding_box(time0, time1).unwrap();
        let box_right = right.bounding_box(time0, time1).unwrap();
        let aabb_box = AABB::surrounding_box(&box_left, &box_right);
        let node = BVHNode { left: Box::new(left), right: Box::new(right), aabb_box };
        proof {
            assert forall|x: Hittable|
                Hittable::BVHNode(node).leaves().contains(x) <==> leaf_of_range(
                    src_objects@,
                    start as int,
                    end as int,
                    x,
                ) by {
                lemma_concat_contains(left.leaves(), right.leaves(), x);
            }
        }
        node
    }

    /// The two children of the node over `src_objects[start..end]`.
    fn children(
        src_objects: &Vec<Hittable>,
        start: usize,
        end: usize,
        axis: usize,
        time0: i64,
        time1: i64,
        rng: &mut StdRng,
    ) -> (lr: (Hittable, Hittable))
        requires
            start < end <= src_objects@.len(),
            axis < 3,
            all_wf(src_objects@),
            all_fit(src_objects@, time0 as int, time1 as int),
            bounded(time0 as int),
            bounded(time1 as int),
        ensures
            lr.0.wf(),
            lr.1.wf(),
            lr.0.boxes_fit(time0 as int, time1 as int),
            lr.1.boxes_fit(time0 as int, time1 as int),
            forall|x: Hittable|
                lr.0.leaves().contains(x) || lr.1.leaves().contains(x) <==> leaf_of_range(
                    src_objects@,
                    start as int,
                    end as int,
                    x,
                ),
            children_built(lr.0, lr.1, src_objects@.subrange(start as int, end as int)),
        decreases end - start, 0nat,
    {
        let num_objects = end - start;
        let ghost range = src_objects@.subrange(start as int, end as int);
        proof {
            assert(src_objects@[start as int].wf());
            assert(src_objects@[start as int].boxes_fit(time0 as int, time1 as int));
            assert(range[0] == src_objects@[start as int]);
        }
        if num_objects == 1 {
            proof {
                lemma_one_or_two(src_objects@, start as int, end as int);
            }
            (src_objects[start].clone(), src_objects[start].clone())
        } else if num_objects == 2 {
            let a = &src_objects[start];
            let b = &src_objects[start + 1];
            proof {
                assert(src_objects@[start + 1].wf());
                assert(src_objects@[start + 1].boxes_fit(time0 as int, time1 as int));
                assert(range[1] == src_objects@[start + 1]);
                lemma_one_or_two(src_objects@, start as int, end as int);
            }
            let lr = match BVHNode::box_compare(a, b, axis) {
                std::cmp::Ordering::Greater => (a.clone(), b.clone()),
                _ => (b.clone(), a.clone()),
            };
            proof {
                assert(pair_placed(lr.0, lr.1, range[0], range[1], axis as int));
            }
            lr
        } else {
            let objects = sorted_by_axis(src_objects, start, end, axis);
            let mid = num_objects / 2;
            proof {
                lemma_sorted_copy(src_objects@, start as int, end as int, objects@, time0 as int, time1 as int);
            }
            let l = BVHNode::new_helper(&objects, 0, mid, time0, time1, rng);
            let r = BVHNode::new_helper(&objects, mid, num_objects, time0, time1, rng);
            proof {
                assert forall|x: Hittable|
                    Hittable::BVHNode(l).leaves().contains(x) || Hittable::BVHNode(r).leaves().contains(x)
                    <==> leaf_of_range(src_objects@, start as int, end as int, x) by {
                    lemma_halves(objects@, mid as int, x);
                }
                assert(objects@.subrange(0, mid as int) == objects@.subrange(0, range.len() as int / 2));
                assert(sorted_on(objects@, axis as int));
                assert(children_built(Hittable::BVHNode(l), Hittable::BVHNode(r), range));
            }
            (Hittable::BVHNode(l), Hittable::BVHNode(r))
        }
    }

    /// Compare two primitives by the minimum of their boxes on `axis`.
    fn box_compare(a: &Hittable, b: &Hittable, axis: usize) -> (o: std::cmp::Ordering)
        requires
            a.wf(),
            b.wf(),
            axis < 3,
        ensures
            o == if a.axis_key(axis as int) < b.axis_key(axis as int) {
                std::cmp::Ordering::Less
            } else if a.axis_key(axis as int) > b.axis_key(axis as int) {
                std::cmp::Ordering::Greater
            } else {
                std::cmp::Ordering::Equal
            },
    {
        let ka = box_key(a, axis);
        let kb = box_key(b, axis);
        if ka < kb {
            std::cmp::Ordering::Less
        } else if ka > kb {
            std::cmp::Ordering::Greater
        } else {
            std::cmp::Ordering::Equal
        }
    }
}

} // verus!

verus! {

/// Levels of nodes on the longest path from the root to a primitive.
pub open spec fn node_levels(h: Hittable) -> nat
    decreases h,
{
    match h {
        Hittable::BVHNode(n) => {
            let a = node_levels(*n.left);
            let b = node_levels(*n.right);
            1 + if a >= b {
                a
            } else {
                b
            }
        },
        _ => 0,
    }
}

/// Levels a midpoint split needs over `n` primitives: one for one or two,
/// one more than for the larger half otherwise (so `ceil(log2 n)` from two
/// on).
pub open spec fn split_levels(n: nat) -> nat
    decreases n,
{
    if n <= 2 {
        1
    } else {
        1 + split_levels((n - n / 2) as nat)
    }
}

pub open spec fn all_primitive(s: Seq<Hittable>) -> bool {
    forall|i: int| 0 <= i < s.len() ==> !(#[trigger] s[i] is BVHNode)
}

proof fn lemma_split_levels_mono(a: nat, b: nat)
    requires
        a <= b,
    ensures
        split_levels(a) <= split_levels(b),
    decreases b,
{
    if a > 2 {
        lemma_split_levels_mono((a - a / 2) as nat, (b - b / 2) as nat);
    }
}

proof fn lemma_permuted_primitive(t: Seq<Hittable>, s: Seq<Hittable>)
    requires
        t.to_multiset() == s.to_multiset(),
        all_primitive(s),
    ensures
        all_primitive(t),
{
    broadcast use group_to_multiset_ensures;

    assert forall|i: int| 0 <= i < t.len() implies !(#[trigger] t[i] is BVHNode) by {
        assert(t.contains(t[i]));
        assert(t.to_multiset().count(t[i]) > 0);
        assert(s.contains(t[i]));
    }
}

/// A hierarchy built over `n` primitives has at most `split_levels(n)`
/// levels of nodes: `ceil(log2 n)` for two or more.
pub proof fn lemma_built_depth(l: Hittable, r: Hittable, s: Seq<Hittable>)
    requires
        children_built(l, r, s),
        all_primitive(s),
    ensures
        node_levels(l) < split_levels(s.len()),
        node_levels(r) < split_levels(s.len()),
    decreases s.len(),
{
    if s.len() == 1 {
        assert(!(s[0] is BVHNode));
    } else if s.len() == 2 {
        assert(!(s[0] is BVHNode));
        assert(!(s[1] is BVHNode));
        let axis = choose|axis: int| 0 <= axis < 3 && #[trigger] pair_placed(l, r, s[0], s[1], axis);
    } else {
        let n = s.len();
        let (t, axis) = choose|t: Seq<Hittable>, axis: int|
            0 <= axis < 3 && t.len() == s.len() && t.to_multiset() == s.to_multiset()
                && #[trigger] sorted_on(t, axis) && match (l, r) {
                (Hittable::BVHNode(ln), Hittable::BVHNode(rn)) => {
                    &&& children_built(*ln.left, *ln.right, t.subrange(0, s.len() as int / 2))
                    &&& children_built(*rn.left, *rn.right, t.subrange(s.len() as int / 2, s.len() as int))
                },
                _ => false,
            };
        lemma_permuted_primitive(t, s);
        let lo = t.subrange(0, n as int / 2);
        let hi = t.subrange(n as int / 2, n as int);
        assert(all_primitive(lo)) by {
            assert forall|i: int| 0 <= i < lo.len() implies !(#[trigger] lo[i] is BVHNode) by {
                assert(lo[i] == t[i]);
            }
        }
        assert(all_primitive(hi)) by {
            assert forall|i: int| 0 <= i < hi.len() implies !(#[trigger] hi[i] is BVHNode) by {
                assert(hi[i] == t[i + n / 2]);
            }
        }
        match (l, r) {
            (Hittable::BVHNode(ln), Hittable::BVHNode(rn)) => {
                lemma_built_depth(*ln.left, *ln.right, lo);
                lemma_built_depth(*rn.left, *rn.right, hi);
                lemma_split_levels_mono(lo.len(), hi.len());
            },
            _ => {},
        }
    }
}

} // verus!
