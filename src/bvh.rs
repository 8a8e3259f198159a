use vstd::prelude::*;
use vstd::seq_lib::*;

use crate::aabb::{lemma_union_concat, lemma_union_is_least, surrounding, union_of, Aabb, OrderedPoint};
use crate::closest::{
    clip, consistent_hits, index_seq, lemma_scan_concat, lemma_scan_is_nearest, lemma_scan_order_free,
    lemma_scan_single, nearest_hit, scan,
};
use crate::perm::{lemma_member_of_permuted, lemma_swap_keeps_multiset, swapped};
use crate::random::random_i32_between;

verus! {

broadcast use vstd::seq_lib::group_to_multiset_ensures;

/// One side of a hierarchy node: an object, by its index in the scene's
/// object list, or a subtree.
#[derive(Debug)]
pub enum BvhChild {
    Leaf(usize),
    Node(Box<BvhNode>),
}

/// A node of a bounding volume hierarchy over a list of objects. A node over
/// no object has neither child; over one, only a left leaf; over two, two
/// leaves; over more, two subtrees that split the objects at the middle.
#[derive(Debug)]
pub struct BvhNode {
    pub left: Option<BvhChild>,
    pub right: Option<BvhChild>,
    pub bbox: Option<Aabb>,
}

impl BvhChild {
    /// The objects under this child, from left to right.
    pub open spec fn leaves(self) -> Seq<usize>
        decreases self,
    {
        match self {
            BvhChild::Leaf(i) => seq![i],
            BvhChild::Node(n) => side_leaves(n.left) + side_leaves(n.right),
        }
    }
}

pub open spec fn side_leaves(c: Option<BvhChild>) -> Seq<usize>
    decreases c,
{
    match c {
        Some(child) => child.leaves(),
        None => Seq::empty(),
    }
}

/// The boxes of the objects at the given indices.
pub open spec fn boxes_at(boxes: Seq<Aabb>, idx: Seq<usize>) -> Seq<Aabb> {
    idx.map_values(|i: usize| boxes[i as int])
}

/// Every object on the left lies, on `axis`, at or before every object on the
/// right, as the minimum corners of their boxes order them.
pub open spec fn partitioned(
    left: Seq<usize>,
    right: Seq<usize>,
    keys: Seq<OrderedPoint>,
    axis: int,
) -> bool {
    forall|i: int, j: int|
        0 <= i < left.len() && 0 <= j < right.len() ==> (#[trigger] keys[left[i] as int]).coord(axis)
            <= (#[trigger] keys[right[j] as int]).coord(axis)
}

/// The keys of `s` on `axis` do not decrease over `lo..hi`.
pub open spec fn sorted_on(s: Seq<usize>, keys: Seq<OrderedPoint>, axis: int, lo: int, hi: int) -> bool {
    forall|i: int, j: int|
        lo <= i <= j < hi ==> (#[trigger] keys[s[i] as int]).coord(axis) <= (#[trigger] keys[s[j] as int]).coord(
            axis,
        )
}

pub open spec fn indices_below(s: Seq<usize>, n: int) -> bool {
    forall|i: int| 0 <= i < s.len() ==> (#[trigger] s[i]) < n
}

impl BvhNode {
    pub open spec fn leaves(self) -> Seq<usize> {
        side_leaves(self.left) + side_leaves(self.right)
    }

    /// The node is a hierarchy over its leaves: its box is the merge of their
    /// boxes; its children are shaped as the object count asks; the two sides
    /// are split on some axis; and so on down the tree.
    pub open spec fn is_bvh(self, keys: Seq<OrderedPoint>, boxes: Seq<Aabb>) -> bool
        decreases self,
    {
        &&& indices_below(self.leaves(), keys.len() as int)
        &&& self.bbox == (if self.leaves().len() == 0 {
            None
        } else {
            Some(union_of(boxes_at(boxes, self.leaves())))
        })
        &&& match (self.left, self.right) {
            (None, None) => true,
            (Some(BvhChild::Leaf(_)), None) => true,
            (Some(BvhChild::Leaf(a)), Some(BvhChild::Leaf(b))) => exists|axis: int|
                0 <= axis < 3 && keys[a as int].coord(axis) <= keys[b as int].coord(axis),
            (Some(BvhChild::Node(l)), Some(BvhChild::Node(r))) => {
                &&& l.is_bvh(keys, boxes)
                &&& r.is_bvh(keys, boxes)
                &&& l.leaves().len() == self.leaves().len() / 2
                &&& self.leaves().len() > 2
                &&& exists|axis: int|
                    0 <= axis < 3 && partitioned(l.leaves(), r.leaves(), keys, axis)
            },
            _ => false,
        }
    }

    /// Builds the hierarchy over the objects `objects[lo..hi]`, whose boxes
    /// are `boxes` and whose sort keys are `keys` (the minimum corners of
    /// their boxes, taken where the objects stand at time zero). Each node draws its splitting axis at random; the
    /// objects are reordered within `lo..hi` so that they end in the order of
    /// the leaves.
    pub fn from_slice(
        objects: &mut Vec<usize>,
        lo: usize,
        hi: usize,
        keys: &Vec<OrderedPoint>,
        boxes: &Vec<Aabb>,
    ) -> (r: BvhNode)
        requires
            lo <= hi <= old(objects)@.len(),
            keys@.len() == boxes@.len(),
            indices_below(old(objects)@.subrange(lo as int, hi as int), keys@.len() as int),
        ensures
            final(objects)@.len() == old(objects)@.len(),
            forall|k: int|
                0 <= k < old(objects)@.len() && !(lo <= k < hi) ==> final(objects)@[k] == old(
                    objects,
                )@[k],
            final(objects)@.subrange(lo as int, hi as int).to_multiset() == old(objects)@.subrange(
                lo as int,
                hi as int,
            ).to_multiset(),
            r.leaves() == final(objects)@.subrange(lo as int, hi as int),
            r.is_bvh(keys@, boxes@),
        decreases hi - lo,
    {
        let axis = random_i32_between(0, 2);
        let ghost old_objects = objects@;
        let n = hi - lo;
        if n == 0 {
            let r = BvhNode { left: None, right: None, bbox: None };
            assert(r.leaves() =~= objects@.subrange(lo as int, hi as int));
            return r;
        }
        if n == 1 {
            let head = objects[lo];
            proof {
                assert(objects@.subrange(lo as int, hi as int)[0] == head);
            }
            let r = BvhNode { left: Some(BvhChild::Leaf(head)), right: None, bbox: Some(boxes[head]) };
            proof {
                assert(r.leaves() =~= objects@.subrange(lo as int, hi as int));
                assert(boxes_at(boxes@, r.leaves()) =~= seq![boxes@[head as int]]);
            }
            return r;
        }
        if n == 2 {
            let head = objects[lo];
            let tail = objects[lo + 1];
            proof {
                assert(objects@.subrange(lo as int, hi as int)[0] == head);
                assert(objects@.subrange(lo as int, hi as int)[1] == tail);
            }
            let (first, second) = if keys[head].get(axis) < keys[tail].get(axis) {
                (head, tail)
            } else {
                objects.set(lo, tail);
                objects.set(lo + 1, head);
                proof {
                    lemma_swap_keeps_multiset(old_objects, lo as int, lo + 1, lo as int, hi as int);
                    assert(objects@ =~= swapped(old_objects, lo as int, lo + 1));
                }
                (tail, head)
            };
            let bbox = Aabb::surrounding_box(&boxes[first], &boxes[second]);
            let r = BvhNode {
                left: Some(BvhChild::Leaf(first)),
                right: Some(BvhChild::Leaf(second)),
                bbox: Some(bbox),
            };
            proof {
                assert(r.leaves() =~= seq![first, second]);
                assert(r.leaves() =~= objects@.subrange(lo as int, hi as int));
                let bs = boxes_at(boxes@, r.leaves());
                assert(bs.drop_last() =~= seq![boxes@[first as int]]);
                assert(bs.last() == boxes@[second as int]);
                assert(union_of(bs.drop_last()) == boxes@[first as int]);
                assert(union_of(bs) == surrounding(boxes@[first as int], boxes@[second as int]));
                assert(keys@[first as int].coord(axis as int) <= keys@[second as int].coord(axis as int));
                assert(indices_below(r.leaves(), keys@.len() as int));
                let a = axis as int;
                assert(0 <= a < 3 && keys@[first as int].coord(a) <= keys@[second as int].coord(a));
            }
            return r;
        }
        sort_on_axis(objects, lo, hi, keys, axis);
        let ghost sorted = objects@;
        let mid = lo + n / 2;
        proof {
            assert(indices_below(sorted.subrange(lo as int, mid as int), keys@.len() as int)) by {
                assert forall|i: int| 0 <= i < mid - lo implies (#[trigger] sorted.subrange(lo as int, mid as int)[i]) < keys@.len() by {
                    lemma_member_of_permuted(old_objects.subrange(lo as int, hi as int), sorted.subrange(lo as int, hi as int), i + lo - lo);
                    assert(sorted.subrange(lo as int, mid as int)[i] == sorted.subrange(lo as int, hi as int)[i]);
                }
            }
        }
        let left = BvhNode::from_slice(objects, lo, mid, keys, boxes);
        let ghost after_left = objects@;
        proof {
            assert(indices_below(after_left.subrange(mid as int, hi as int), keys@.len() as int)) by {
                assert forall|i: int| 0 <= i < hi - mid implies (#[trigger] after_left.subrange(mid as int, hi as int)[i]) < keys@.len() by {
                    lemma_member_of_permuted(old_objects.subrange(lo as int, hi as int), sorted.subrange(lo as int, hi as int), i + mid - lo);
                    assert(after_left.subrange(mid as int, hi as int)[i] == sorted.subrange(lo as int, hi as int)[i + mid - lo]);
                }
            }
        }
        let right = BvhNode::from_slice(objects, mid, hi, keys, boxes);
        proof {
            assert(left.leaves().len() == mid - lo);
            assert(right.leaves().len() == hi - mid);
        }
        let box_left = left.bbox.unwrap();
        let box_right = right.bbox.unwrap();
        let bbox = Aabb::surrounding_box(&box_left, &box_right);
        let ghost ll = left.leaves();
        let ghost rl = right.leaves();
        let r = BvhNode {
            left: Some(BvhChild::Node(Box::new(left))),
            right: Some(BvhChild::Node(Box::new(right))),
            bbox: Some(bbox),
        };
        proof {
            let fin = objects@;
            let lo_i = lo as int;
            let mid_i = mid as int;
            let hi_i = hi as int;
            assert(ll =~= fin.subrange(lo_i, mid_i));
            assert(fin.subrange(lo_i, hi_i) =~= fin.subrange(lo_i, mid_i) + fin.subrange(mid_i, hi_i));
            assert(r.leaves() =~= ll + rl);
            assert(r.leaves() =~= fin.subrange(lo_i, hi_i));
            // multiset of the whole slice
            assert(sorted.subrange(lo_i, hi_i) =~= sorted.subrange(lo_i, mid_i) + sorted.subrange(mid_i, hi_i));
            assert(after_left.subrange(mid_i, hi_i) =~= sorted.subrange(mid_i, hi_i));
            lemma_multiset_commutative(fin.subrange(lo_i, mid_i), fin.subrange(mid_i, hi_i));
            lemma_multiset_commutative(sorted.subrange(lo_i, mid_i), sorted.subrange(mid_i, hi_i));
            // box of the node
            assert(boxes_at(boxes@, ll + rl) =~= boxes_at(boxes@, ll) + boxes_at(boxes@, rl));
            lemma_union_concat(boxes_at(boxes@, ll), boxes_at(boxes@, rl));
            // indices
            assert(indices_below(r.leaves(), keys@.len() as int)) by {
                assert forall|i: int| 0 <= i < r.leaves().len() implies (#[trigger] r.leaves()[i]) < keys@.len() by {
                    if i < ll.len() {
                        assert(r.leaves()[i] == ll[i]);
                    } else {
                        assert(r.leaves()[i] == rl[i - ll.len()]);
                    }
                }
            }
            // split on the drawn axis
            let a = axis as int;
            assert(partitioned(sorted.subrange(lo_i, mid_i), sorted.subrange(mid_i, hi_i), keys@, a)) by {
                assert forall|i: int, j: int|
                    0 <= i < mid_i - lo_i && 0 <= j < hi_i - mid_i implies (#[trigger] keys@[sorted.subrange(lo_i, mid_i)[i] as int]).coord(a)
                        <= (#[trigger] keys@[sorted.subrange(mid_i, hi_i)[j] as int]).coord(a) by {
                    assert(sorted.subrange(lo_i, mid_i)[i] == sorted[lo_i + i]);
                    assert(sorted.subrange(mid_i, hi_i)[j] == sorted[mid_i + j]);
                }
            }
            assert(after_left.subrange(lo_i, mid_i) =~= fin.subrange(lo_i, mid_i));
            lemma_partition_permuted(
                sorted.subrange(lo_i, mid_i),
                sorted.subrange(mid_i, hi_i),
                ll,
                rl,
                keys@,
                a,
            );
            assert(0 <= a < 3);
        }
        r
    }

    /// The nearest hit among the objects of the hierarchy, as the object
    /// index and the distance: a node whose box the ray misses is skipped;
    /// otherwise the left side is searched, then the right side within the
    /// bound the left side's hit left, and the right side's hit, if any, wins.
    /// `leaf_hit(i, m)` tests object `i` within the distance bound `m`, and
    /// `box_hit(b, m)` tests box `b`. Where the object test behaves as a fixed
    /// nearest hit per object and the box test skips no box that holds a hit,
    /// the result is that of scanning the leaves in order.
    pub fn hit<F: Fn(usize, u64) -> Option<u64>, G: Fn(Aabb, u64) -> bool>(
        &self,
        keys: &Vec<OrderedPoint>,
        boxes: &Vec<Aabb>,
        leaf_hit: &F,
        box_hit: &G,
        t_max: u64,
    ) -> (r: Option<(usize, u64)>)
        requires
            self.is_bvh(keys@, boxes@),
            keys@.len() == boxes@.len(),
            forall|i: usize, m: u64| i < keys@.len() ==> #[trigger] leaf_hit.requires((i, m)),
            forall|b: Aabb, m: u64| #[trigger] box_hit.requires((b, m)),
        ensures
            consistent_hits(*leaf_hit) && sound_boxes(*leaf_hit, *box_hit, boxes@) ==> r == scan(
                self.leaves(),
                *leaf_hit,
                t_max,
            ),
        decreases self,
    {
        let in_box = match self.bbox {
            Some(b) => box_hit(b, t_max),
            None => false,
        };
        if !in_box {
            proof {
                if consistent_hits(*leaf_hit) && sound_boxes(*leaf_hit, *box_hit, boxes@) {
                    lemma_pruned(*self, keys@, boxes@, *leaf_hit, *box_hit, t_max);
                }
            }
            return None;
        }
        let ghost ls = side_leaves(self.left);
        let ghost rs = side_leaves(self.right);
        proof {
            assert(self.leaves() == ls + rs);
            assert(forall|k: int| 0 <= k < ls.len() ==> (ls + rs)[k] == ls[k]);
            assert(forall|k: int| 0 <= k < rs.len() ==> (ls + rs)[ls.len() + k] == rs[k]);
        }
        let hit_left = match &self.left {
            Some(BvhChild::Leaf(i)) => {
                proof {
                    assert(ls[0] == *i);
                    lemma_scan_single(*i, *leaf_hit, t_max);
                }
                match leaf_hit(*i, t_max) {
                    Some(t) => Some((*i, t)),
                    None => None,
                }
            },
            Some(BvhChild::Node(n)) => n.hit(keys, boxes, leaf_hit, box_hit, t_max),
            None => None,
        };
        let bound = match hit_left {
            Some((_, t)) => t,
            None => t_max,
        };
        let hit_right = match &self.right {
            Some(BvhChild::Leaf(i)) => {
                proof {
                    assert(rs[0] == *i);
                    lemma_scan_single(*i, *leaf_hit, bound);
                }
                match leaf_hit(*i, bound) {
                    Some(t) => Some((*i, t)),
                    None => None,
                }
            },
            Some(BvhChild::Node(n)) => n.hit(keys, boxes, leaf_hit, box_hit, bound),
            None => None,
        };
        proof {
            lemma_scan_concat(ls, rs, *leaf_hit, t_max);
            assert(scan(Seq::<usize>::empty(), *leaf_hit, bound) is None);
        }
        match hit_right {
            Some(found) => Some(found),
            None => hit_left,
        }
    }

    /// Builds the hierarchy over a whole object list, whose objects are
    /// numbered from 0 in the order of `keys` and `boxes`.
    pub fn from_list(keys: &Vec<OrderedPoint>, boxes: &Vec<Aabb>) -> (r: BvhNode)
        requires
            keys@.len() == boxes@.len(),
        ensures
            r.leaves().to_multiset() == index_seq(keys@.len()).to_multiset(),
            r.is_bvh(keys@, boxes@),
    {
        let n = keys.len();
        let mut objects: Vec<usize> = Vec::new();
        let mut i: usize = 0;
        while i < n
            invariant
                i <= n,
                n == keys@.len(),
                objects@ =~= index_seq(i as nat),
            decreases n - i,
        {
            objects.push(i);
            i = i + 1;
        }
        proof {
            assert(objects@.subrange(0, n as int) =~= objects@);
        }
        BvhNode::from_slice(&mut objects, 0, n, keys, boxes)
    }
}

/// A hierarchy built over a whole list reports a hit exactly when a scan of
/// the list in its own order does, and at the same distance. `BvhNode::hit`
/// returns the first of these scans and `closest_hit` the second, wherever
/// the object test behaves as a fixed nearest hit per object and the box test
/// skips no box that holds a hit.
pub proof fn lemma_hierarchy_matches_list_scan<F: Fn(usize, u64) -> Option<u64>>(
    node: BvhNode,
    keys: Seq<OrderedPoint>,
    boxes: Seq<Aabb>,
    leaf_hit: F,
    t_max: u64,
)
    requires
        node.is_bvh(keys, boxes),
        node.leaves().to_multiset() == index_seq(keys.len()).to_multiset(),
    ensures
        scan(node.leaves(), leaf_hit, t_max) is None <==> scan(index_seq(keys.len()), leaf_hit, t_max) is None,
        scan(node.leaves(), leaf_hit, t_max) matches Some((_, t1)) ==> scan(
            index_seq(keys.len()),
            leaf_hit,
            t_max,
        ) matches Some((_, t2)) && t1 == t2,
{
    lemma_scan_order_free(node.leaves(), index_seq(keys.len()), leaf_hit, t_max);
}

/// Boxes that the box test rejects hold no hit: where `box_hit(b, m)` says
/// that the ray misses `b` within the bound `m`, no object whose box lies in
/// `b` is hit within `m`.
pub open spec fn sound_boxes<F: Fn(usize, u64) -> Option<u64>, G: Fn(Aabb, u64) -> bool>(
    leaf_hit: F,
    box_hit: G,
    boxes: Seq<Aabb>,
) -> bool {
    forall|b: Aabb, m: u64, i: int|
        0 <= i < boxes.len() && #[trigger] box_hit.ensures((b, m), false) && b.contains(
            #[trigger] boxes[i],
        ) ==> clip(nearest_hit(leaf_hit, i as usize), m) is None
}

/// A node whose box the box test rejects holds no hit.
proof fn lemma_pruned<F: Fn(usize, u64) -> Option<u64>, G: Fn(Aabb, u64) -> bool>(
    node: BvhNode,
    keys: Seq<OrderedPoint>,
    boxes: Seq<Aabb>,
    leaf_hit: F,
    box_hit: G,
    m: u64,
)
    requires
        node.is_bvh(keys, boxes),
        keys.len() == boxes.len(),
        sound_boxes(leaf_hit, box_hit, boxes),
        node.bbox matches Some(b) ==> box_hit.ensures((b, m), false),
    ensures
        scan(node.leaves(), leaf_hit, m) is None,
{
    let s = node.leaves();
    assert forall|k: int| 0 <= k < s.len() implies (#[trigger] clip(nearest_hit(leaf_hit, s[k]), m)) is None by {
        lemma_node_box_covers_leaves(node, keys, boxes, k);
        let b = node.bbox->Some_0;
        let i = s[k] as int;
        assert(0 <= i < boxes.len());
        assert(box_hit.ensures((b, m), false) && b.contains(boxes[i]));
        assert((i as usize) == s[k]);
    }
    lemma_scan_is_nearest(s, leaf_hit, m);
}

/// The box of a hierarchy node holds the box of every object beneath it, so
/// that a ray that misses the node's box misses every object under it.
pub proof fn lemma_node_box_covers_leaves(node: BvhNode, keys: Seq<OrderedPoint>, boxes: Seq<Aabb>, i: int)
    requires
        node.is_bvh(keys, boxes),
        0 <= i < node.leaves().len(),
    ensures
        node.bbox matches Some(b) && b.contains(boxes[node.leaves()[i] as int]),
{
    let bs = boxes_at(boxes, node.leaves());
    lemma_union_is_least(bs);
    assert(bs[i] == boxes[node.leaves()[i] as int]);
}

/// A split holds of any rearrangement of each side.
proof fn lemma_partition_permuted(
    l0: Seq<usize>,
    r0: Seq<usize>,
    l1: Seq<usize>,
    r1: Seq<usize>,
    keys: Seq<OrderedPoint>,
    axis: int,
)
    requires
        partitioned(l0, r0, keys, axis),
        l1.to_multiset() == l0.to_multiset(),
        r1.to_multiset() == r0.to_multiset(),
    ensures
        partitioned(l1, r1, keys, axis),
{
    assert forall|i: int, j: int| 0 <= i < l1.len() && 0 <= j < r1.len() implies (#[trigger] keys[l1[i] as int]).coord(axis)
        <= (#[trigger] keys[r1[j] as int]).coord(axis) by {
        lemma_member_of_permuted(l0, l1, i);
        lemma_member_of_permuted(r0, r1, j);
        let p = choose|p: int| 0 <= p < l0.len() && l0[p] == l1[i];
        let q = choose|q: int| 0 <= q < r0.len() && r0[q] == r1[j];
        assert(keys[l0[p] as int].coord(axis) <= keys[r0[q] as int].coord(axis));
    }
}

/// Sorts `objects[lo..hi]` by the key of each object on `axis`, smallest
/// first, leaving the rest of `objects` as it was.
fn sort_on_axis(objects: &mut Vec<usize>, lo: usize, hi: usize, keys: &Vec<OrderedPoint>, axis: i32)
    requires
        lo <= hi <= old(objects)@.len(),
        indices_below(old(objects)@.subrange(lo as int, hi as int), keys@.len() as int),
    ensures
        final(objects)@.len() == old(objects)@.len(),
        forall|k: int|
            0 <= k < old(objects)@.len() && !(lo <= k < hi) ==> final(objects)@[k] == old(objects)@[k],
        final(objects)@.subrange(lo as int, hi as int).to_multiset() == old(objects)@.subrange(
            lo as int,
            hi as int,
        ).to_multiset(),
        sorted_on(final(objects)@, keys@, axis as int, lo as int, hi as int),
{
    let ghost orig = objects@;
    let mut i: usize = lo;
    while i < hi
        invariant
            lo <= i <= hi,
            hi <= objects@.len(),
            objects@.len() == orig.len(),
            forall|k: int| 0 <= k < orig.len() && !(lo <= k < hi) ==> objects@[k] == orig[k],
            objects@.subrange(lo as int, hi as int).to_multiset() == orig.subrange(lo as int, hi as int).to_multiset(),
            indices_below(objects@.subrange(lo as int, hi as int), keys@.len() as int),
            sorted_on(objects@, keys@, axis as int, lo as int, i as int),
            forall|p: int, q: int|
                lo <= p < i <= q < hi ==> (#[trigger] keys@[objects@[p] as int]).coord(axis as int)
                    <= (#[trigger] keys@[objects@[q] as int]).coord(axis as int),
        decreases hi - i,
    {
        proof {
            assert(objects@.subrange(lo as int, hi as int)[i - lo] == objects@[i as int]);
        }
        let mut m: usize = i;
        let mut j: usize = i + 1;
        while j < hi
            invariant
                lo <= i <= m < hi,
                i < j <= hi,
                hi <= objects@.len(),
                indices_below(objects@.subrange(lo as int, hi as int), keys@.len() as int),
                forall|q: int|
                    i <= q < j ==> keys@[objects@[m as int] as int].coord(axis as int) <= (#[trigger] keys@[objects@[q] as int]).coord(
                        axis as int,
                    ),
            decreases hi - j,
        {
            proof {
                assert(objects@.subrange(lo as int, hi as int)[j - lo] == objects@[j as int]);
                assert(objects@.subrange(lo as int, hi as int)[m - lo] == objects@[m as int]);
            }
            if keys[objects[j]].get(axis) < keys[objects[m]].get(axis) {
                m = j;
            }
            j = j + 1;
        }
        let ghost before = objects@;
        let a = objects[i];
        let b = objects[m];
        objects.set(i, b);
        objects.set(m, a);
        proof {
            assert(objects@ =~= swapped(before, i as int, m as int));
            lemma_swap_keeps_multiset(before, i as int, m as int, lo as int, hi as int);
            assert(indices_below(objects@.subrange(lo as int, hi as int), keys@.len() as int)) by {
                assert forall|k: int| 0 <= k < hi - lo implies (#[trigger] objects@.subrange(lo as int, hi as int)[k]) < keys@.len() by {
                    assert(before.subrange(lo as int, hi as int)[i - lo] == before[i as int]);
                    assert(before.subrange(lo as int, hi as int)[m - lo] == before[m as int]);
                    assert(before.subrange(lo as int, hi as int)[k] == before[lo + k]);
                    assert(objects@.subrange(lo as int, hi as int)[k] == objects@[lo + k]);
                }
            }
            assert forall|p: int, q: int|
                lo <= p < i + 1 <= q < hi implies (#[trigger] keys@[objects@[p] as int]).coord(axis as int)
                    <= (#[trigger] keys@[objects@[q] as int]).coord(axis as int) by {
                if p < i {
                    assert(objects@[p] == before[p]);
                    if q == m {
                        assert(objects@[q] == before[i as int]);
                    } else {
                        assert(objects@[q] == before[q]);
                    }
                } else {
                    assert(objects@[p] == before[m as int]);
                    if q == m {
                        assert(objects@[q] == before[i as int]);
                    } else {
                        assert(objects@[q] == before[q]);
                    }
                }
            }
            assert(sorted_on(objects@, keys@, axis as int, lo as int, i + 1)) by {
                assert forall|p: int, q: int|
                    lo <= p <= q < i + 1 implies (#[trigger] keys@[objects@[p] as int]).coord(axis as int)
                        <= (#[trigger] keys@[objects@[q] as int]).coord(axis as int) by {
                    if q < i {
                        assert(objects@[p] == before[p]);
                        assert(objects@[q] == before[q]);
                    } else if p < i {
                        assert(objects@[p] == before[p]);
                        assert(objects@[q] == before[m as int]);
                    }
                }
            }
        }
        i = i + 1;
    }
}

} // verus!
