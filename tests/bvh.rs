use ray_tracer::aabb::{Aabb, OrderedPoint};
use ray_tracer::bvh::{BvhChild, BvhNode};

fn cube(x: u64, y: u64, z: u64) -> Aabb {
    Aabb::new(OrderedPoint::new(x, y, z), OrderedPoint::new(x + 1, y + 1, z + 1))
}

fn leaves(node: &BvhNode, out: &mut Vec<usize>) {
    for side in [&node.left, &node.right] {
        match side {
            Some(BvhChild::Leaf(i)) => out.push(*i),
            Some(BvhChild::Node(n)) => leaves(n, out),
            None => {}
        }
    }
}

fn leaf_count(node: &BvhNode) -> usize {
    let mut v = Vec::new();
    leaves(node, &mut v);
    v.len()
}

fn contains(outer: &Aabb, inner: &Aabb) -> bool {
    outer.min.x <= inner.min.x
        && outer.min.y <= inner.min.y
        && outer.min.z <= inner.min.z
        && inner.max.x <= outer.max.x
        && inner.max.y <= outer.max.y
        && inner.max.z <= outer.max.z
}

/// Checks the shape, the boxes and the splits of every node.
fn check(node: &BvhNode, keys: &[OrderedPoint], boxes: &[Aabb]) {
    let mut own = Vec::new();
    leaves(node, &mut own);
    match &node.bbox {
        None => assert!(own.is_empty()),
        Some(b) => {
            for &i in &own {
                assert!(contains(b, &boxes[i]));
            }
        }
    }
    match (&node.left, &node.right) {
        (None, None) => {}
        (Some(BvhChild::Leaf(_)), None) => {}
        (Some(BvhChild::Leaf(a)), Some(BvhChild::Leaf(b))) => {
            assert!((0..3).any(|ax| keys[*a].get(ax) <= keys[*b].get(ax)));
        }
        (Some(BvhChild::Node(l)), Some(BvhChild::Node(r))) => {
            let n = own.len();
            assert!(n > 2);
            assert_eq!(leaf_count(l), n / 2);
            let mut ls = Vec::new();
            leaves(l, &mut ls);
            let mut rs = Vec::new();
            leaves(r, &mut rs);
            assert!((0..3).any(|ax| ls
                .iter()
                .all(|&i| rs.iter().all(|&j| keys[i].get(ax) <= keys[j].get(ax)))));
            check(l, keys, boxes);
            check(r, keys, boxes);
        }
        _ => panic!("malformed node"),
    }
}

fn scene(n: u64) -> (Vec<OrderedPoint>, Vec<Aabb>) {
    let boxes: Vec<Aabb> = (0..n).map(|i| cube((i * 7) % 13, (i * 5) % 11, (i * 3) % 17)).collect();
    let keys = boxes.iter().map(|b| b.min).collect();
    (keys, boxes)
}

#[test]
fn empty_list_gives_an_empty_node() {
    let node = BvhNode::from_list(&Vec::new(), &Vec::new());
    assert!(node.left.is_none());
    assert!(node.right.is_none());
    assert!(node.bbox.is_none());
}

#[test]
fn one_object_is_a_left_leaf_with_its_box() {
    let (keys, boxes) = scene(1);
    let node = BvhNode::from_list(&keys, &boxes);
    assert!(matches!(node.left, Some(BvhChild::Leaf(0))));
    assert!(node.right.is_none());
    assert_eq!(node.bbox, Some(boxes[0]));
}

#[test]
fn two_objects_are_ordered_leaves() {
    // object 0 lies after object 1 on every axis
    let boxes = vec![cube(5, 5, 5), cube(1, 1, 1)];
    let keys: Vec<OrderedPoint> = boxes.iter().map(|b| b.min).collect();
    let node = BvhNode::from_list(&keys, &boxes);
    assert!(matches!(node.left, Some(BvhChild::Leaf(1))));
    assert!(matches!(node.right, Some(BvhChild::Leaf(0))));
    assert_eq!(node.bbox, Some(Aabb::new(OrderedPoint::new(1, 1, 1), OrderedPoint::new(6, 6, 6))));
}

#[test]
fn three_objects_split_one_and_two() {
    let boxes = vec![cube(9, 9, 9), cube(0, 0, 0), cube(4, 4, 4)];
    let keys: Vec<OrderedPoint> = boxes.iter().map(|b| b.min).collect();
    let node = BvhNode::from_list(&keys, &boxes);
    match (&node.left, &node.right) {
        (Some(BvhChild::Node(l)), Some(BvhChild::Node(r))) => {
            assert!(matches!(l.left, Some(BvhChild::Leaf(1))));
            assert!(l.right.is_none());
            assert_eq!(leaf_count(r), 2);
        }
        _ => panic!("expected two subtrees"),
    }
    assert_eq!(node.bbox, Some(Aabb::new(OrderedPoint::new(0, 0, 0), OrderedPoint::new(10, 10, 10))));
}

#[test]
fn every_object_appears_once_among_the_leaves() {
    let (keys, boxes) = scene(100);
    let node = BvhNode::from_list(&keys, &boxes);
    let mut ls = Vec::new();
    leaves(&node, &mut ls);
    ls.sort();
    assert_eq!(ls, (0..100).collect::<Vec<usize>>());
}

#[test]
fn hierarchy_nodes_hold_their_objects_and_split_them() {
    for n in [3u64, 4, 5, 16, 37, 64] {
        let (keys, boxes) = scene(n);
        let node = BvhNode::from_list(&keys, &boxes);
        check(&node, &keys, &boxes);
        let all: Vec<Option<Aabb>> = boxes.iter().map(|b| Some(*b)).collect();
        assert_eq!(node.bbox, Aabb::surrounding_all(&all));
    }
}

#[test]
fn from_slice_reorders_only_its_range() {
    let (keys, boxes) = scene(10);
    let mut objects: Vec<usize> = (0..10).collect();
    let node = BvhNode::from_slice(&mut objects, 2, 8, &keys, &boxes);
    assert_eq!(&objects[..2], &[0, 1]);
    assert_eq!(&objects[8..], &[8, 9]);
    let mut ls = Vec::new();
    leaves(&node, &mut ls);
    assert_eq!(ls, objects[2..8].to_vec());
    let mut middle = objects[2..8].to_vec();
    middle.sort();
    assert_eq!(middle, vec![2, 3, 4, 5, 6, 7]);
}
