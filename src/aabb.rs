use vstd::prelude::*;

verus! {

/// A point whose coordinates are order-preserving integer keys of real
/// coordinates: `a < b` on the keys exactly when it holds on the reals they
/// stand for. Comparing and taking minima or maxima, which is all that box
/// merging and hierarchy construction do, is therefore exact on keys.
#[derive(Clone, Copy, Debug, PartialEq, Eq, Structural)]
pub struct OrderedPoint {
    pub x: u64,
    pub y: u64,
    pub z: u64,
}

impl OrderedPoint {
    /// The coordinate on an axis: 0 is x, 1 is y, any other value is z.
    pub open spec fn coord(self, axis: int) -> u64 {
        if axis == 0 {
            self.x
        } else if axis == 1 {
            self.y
        } else {
            self.z
        }
    }

    pub fn new(x: u64, y: u64, z: u64) -> (r: OrderedPoint)
        ensures
            r == (OrderedPoint { x, y, z }),
    {
        OrderedPoint { x, y, z }
    }

    pub fn get(&self, axis: i32) -> (r: u64)
        ensures
            r == self.coord(axis as int),
    {
        match axis {
            0 => self.x,
            1 => self.y,
            _ => self.z,
        }
    }
}

pub open spec fn min_key(a: u64, b: u64) -> u64 {
    if a <= b {
        a
    } else {
        b
    }
}

pub open spec fn max_key(a: u64, b: u64) -> u64 {
    if a >= b {
        a
    } else {
        b
    }
}

/// An axis-aligned bounding box given by its two opposite corners.
#[derive(Clone, Copy, Debug, PartialEq, Eq, Structural)]
pub struct Aabb {
    pub min: OrderedPoint,
    pub max: OrderedPoint,
}

/// The componentwise merge of two boxes.
pub open spec fn surrounding(b0: Aabb, b1: Aabb) -> Aabb {
    Aabb {
        min: OrderedPoint {
            x: min_key(b0.min.x, b1.min.x),
            y: min_key(b0.min.y, b1.min.y),
            z: min_key(b0.min.z, b1.min.z),
        },
        max: OrderedPoint {
            x: max_key(b0.max.x, b1.max.x),
            y: max_key(b0.max.y, b1.max.y),
            z: max_key(b0.max.z, b1.max.z),
        },
    }
}

/// The merge of a non-empty sequence of boxes, from the first to the last.
pub open spec fn union_of(s: Seq<Aabb>) -> Aabb
    decreases s.len(),
{
    if s.len() <= 1 {
        s[0]
    } else {
        surrounding(union_of(s.drop_last()), s.last())
    }
}

pub open spec fn all_bounded(s: Seq<Option<Aabb>>) -> bool {
    forall|i: int| 0 <= i < s.len() ==> (#[trigger] s[i]) is Some
}

pub open spec fn unwrap_boxes(s: Seq<Option<Aabb>>) -> Seq<Aabb> {
    s.map_values(|b: Option<Aabb>| b->Some_0)
}

impl Aabb {
    /// Whether `inner` lies within this box on every axis.
    pub open spec fn contains(self, inner: Aabb) -> bool {
        &&& self.min.x <= inner.min.x && inner.max.x <= self.max.x
        &&& self.min.y <= inner.min.y && inner.max.y <= self.max.y
        &&& self.min.z <= inner.min.z && inner.max.z <= self.max.z
    }

    pub fn new(min: OrderedPoint, max: OrderedPoint) -> (r: Aabb)
        ensures
            r == (Aabb { min, max }),
    {
        Aabb { min, max }
    }

    /// The smallest box that holds both boxes.
    pub fn surrounding_box(box0: &Aabb, box1: &Aabb) -> (r: Aabb)
        ensures
            r == surrounding(*box0, *box1),
    {
        let small = OrderedPoint::new(
            if box0.min.x <= box1.min.x { box0.min.x } else { box1.min.x },
            if box0.min.y <= box1.min.y { box0.min.y } else { box1.min.y },
            if box0.min.z <= box1.min.z { box0.min.z } else { box1.min.z },
        );
        let big = OrderedPoint::new(
            if box0.max.x >= box1.max.x { box0.max.x } else { box1.max.x },
            if box0.max.y >= box1.max.y { box0.max.y } else { box1.max.y },
            if box0.max.z >= box1.max.z { box0.max.z } else { box1.max.z },
        );
        Aabb::new(small, big)
    }

    /// The box around a collection of boxes, where a member without a box
    /// (one that is unbounded) leaves the whole collection without one, as
    /// does an empty collection.
    pub fn surrounding_all(boxes: &Vec<Option<Aabb>>) -> (r: Option<Aabb>)
        ensures
            r == (if boxes@.len() > 0 && all_bounded(boxes@) {
                Some(union_of(unwrap_boxes(boxes@)))
            } else {
                None
            }),
    {
        let n = boxes.len();
        if n == 0 {
            return None;
        }
        let mut output_box = match boxes[0] {
            Some(b) => b,
            None => return None,
        };
        let mut i: usize = 1;
        while i < n
            invariant
                n == boxes@.len(),
                1 <= i <= n,
                all_bounded(boxes@.subrange(0, i as int)),
                output_box == union_of(unwrap_boxes(boxes@.subrange(0, i as int))),
            decreases n - i,
        {
            let ghost prefix = boxes@.subrange(0, i as int);
            let ghost next = boxes@.subrange(0, i + 1);
            match boxes[i] {
                Some(b) => {
                    proof {
                        assert(next.drop_last() =~= prefix);
                        assert(unwrap_boxes(next).drop_last() =~= unwrap_boxes(prefix));
                        assert(all_bounded(next)) by {
                            assert forall|k: int| 0 <= k < next.len() implies (#[trigger] next[k]) is Some by {
                                if k < i {
                                    assert(next[k] == prefix[k]);
                                }
                            }
                        }
                    }
                    output_box = Aabb::surrounding_box(&output_box, &b);
                },
                None => {
                    proof {
                        assert(boxes@[i as int] is None);
                    }
                    return None;
                },
            }
            i = i + 1;
        }
        proof {
            assert(boxes@.subrange(0, n as int) =~= boxes@);
        }
        Some(output_box)
    }
}

/// The merged box holds both boxes, and every box that holds both holds the
/// merged box: it is the least box around the two.
pub proof fn lemma_surrounding_box_is_least(a: Aabb, b: Aabb)
    ensures
        surrounding(a, b).contains(a),
        surrounding(a, b).contains(b),
        forall|c: Aabb| c.contains(a) && c.contains(b) ==> #[trigger] c.contains(surrounding(a, b)),
{
}

/// The box around a non-empty collection holds every member, and every box
/// that holds every member holds it.
pub proof fn lemma_union_is_least(s: Seq<Aabb>)
    requires
        s.len() > 0,
    ensures
        forall|i: int| 0 <= i < s.len() ==> union_of(s).contains(#[trigger] s[i]),
        forall|c: Aabb|
            (forall|i: int| 0 <= i < s.len() ==> c.contains(#[trigger] s[i])) ==> #[trigger] c.contains(
                union_of(s),
            ),
    decreases s.len(),
{
    if s.len() > 1 {
        let init = s.drop_last();
        lemma_union_is_least(init);
        lemma_surrounding_box_is_least(union_of(init), s.last());
        assert forall|i: int| 0 <= i < s.len() implies union_of(s).contains(#[trigger] s[i]) by {
            if i < s.len() - 1 {
                assert(init[i] == s[i]);
            }
        }
        assert forall|c: Aabb|
            (forall|i: int| 0 <= i < s.len() ==> c.contains(#[trigger] s[i])) implies #[trigger] c.contains(
            union_of(s),
        ) by {
            assert forall|i: int| 0 <= i < init.len() implies c.contains(#[trigger] init[i]) by {
                assert(init[i] == s[i]);
            }
            assert(c.contains(s[s.len() - 1]));
        }
    }
}

/// Merging the boxes of two non-empty sequences one after the other gives the
/// merge of the two partial results.
pub proof fn lemma_union_concat(a: Seq<Aabb>, b: Seq<Aabb>)
    requires
        a.len() > 0,
        b.len() > 0,
    ensures
        union_of(a + b) == surrounding(union_of(a), union_of(b)),
    decreases b.len(),
{
    if b.len() == 1 {
        assert((a + b).drop_last() =~= a);
    } else {
        let b0 = b.drop_last();
        lemma_union_concat(a, b0);
        assert((a + b).drop_last() =~= a + b0);
        assert((a + b).last() == b.last());
    }
}

} // verus!
