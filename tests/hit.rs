use std::cell::Cell;

use ray_tracer::aabb::{Aabb, OrderedPoint};
use ray_tracer::bvh::BvhNode;
use ray_tracer::closest::closest_hit;

/// Objects along a ray on the x axis: object `i` spans `start[i]..start[i]+w`
/// and the ray meets it at distance `start[i]`.
struct Line {
    starts: Vec<u64>,
    keys: Vec<OrderedPoint>,
    boxes: Vec<Aabb>,
}

impl Line {
    fn new(starts: Vec<u64>) -> Line {
        let boxes: Vec<Aabb> = starts
            .iter()
            .map(|&s| Aabb::new(OrderedPoint::new(s, 0, 0), OrderedPoint::new(s + 3, 1, 1)))
            .collect();
        let keys = boxes.iter().map(|b| b.min).collect();
        Line { starts, keys, boxes }
    }

    fn leaf_hit(&self, i: usize, m: u64) -> Option<u64> {
        if self.starts[i] <= m {
            Some(self.starts[i])
        } else {
            None
        }
    }
}

fn box_hit(b: Aabb, m: u64) -> bool {
    b.min.x <= m
}

fn pseudo_random(n: usize, seed: u64) -> Vec<u64> {
    let mut x = seed;
    (0..n)
        .map(|_| {
            x = x.wrapping_mul(6364136223846793005).wrapping_add(1442695040888963407);
            (x >> 33) % 1000
        })
        .collect()
}

#[test]
fn list_scan_reports_the_nearest_object() {
    let line = Line::new(vec![40, 12, 33, 12, 90]);
    let r = closest_hit(5, &|i, m| line.leaf_hit(i, m), u64::MAX);
    // ties go to the later object, since its hit is at the bound it was given
    assert_eq!(r, Some((3, 12)));
}

#[test]
fn list_scan_respects_the_bound() {
    let line = Line::new(vec![40, 12, 33]);
    assert_eq!(closest_hit(3, &|i, m| line.leaf_hit(i, m), 11), None);
    assert_eq!(closest_hit(3, &|i, m| line.leaf_hit(i, m), 12), Some((1, 12)));
}

#[test]
fn empty_list_and_empty_hierarchy_report_nothing() {
    let line = Line::new(vec![]);
    assert_eq!(closest_hit(0, &|i, m| line.leaf_hit(i, m), u64::MAX), None);
    let node = BvhNode::from_list(&line.keys, &line.boxes);
    assert_eq!(
        node.hit(&line.keys, &line.boxes, &|i, m| line.leaf_hit(i, m), &box_hit, u64::MAX),
        None
    );
}

#[test]
fn hierarchy_and_list_agree_on_the_nearest_distance() {
    for (n, seed) in [(1usize, 1u64), (2, 2), (3, 3), (10, 4), (57, 5), (200, 6)] {
        let line = Line::new(pseudo_random(n, seed));
        let node = BvhNode::from_list(&line.keys, &line.boxes);
        for bound in [0u64, 5, 100, 500, 999, u64::MAX] {
            let from_tree =
                node.hit(&line.keys, &line.boxes, &|i, m| line.leaf_hit(i, m), &box_hit, bound);
            let from_list = closest_hit(n, &|i, m| line.leaf_hit(i, m), bound);
            assert_eq!(from_tree.map(|h| h.1), from_list.map(|h| h.1));
            let expected = line.starts.iter().copied().filter(|&s| s <= bound).min();
            assert_eq!(from_list.map(|h| h.1), expected);
            if let Some((i, t)) = from_tree {
                assert_eq!(line.starts[i], t);
            }
        }
    }
}

#[test]
fn hierarchy_skips_boxes_the_ray_misses() {
    let line = Line::new((0..64).map(|i| i * 10).collect());
    let node = BvhNode::from_list(&line.keys, &line.boxes);
    let calls = Cell::new(0usize);
    let r = node.hit(
        &line.keys,
        &line.boxes,
        &|i, m| {
            calls.set(calls.get() + 1);
            line.leaf_hit(i, m)
        },
        &box_hit,
        25,
    );
    assert_eq!(r.map(|h| h.1), Some(0));
    assert!(calls.get() < 64);
}
