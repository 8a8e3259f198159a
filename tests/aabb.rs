use ray_tracer::aabb::{Aabb, OrderedPoint};

fn bx(min: (u64, u64, u64), max: (u64, u64, u64)) -> Aabb {
    Aabb::new(
        OrderedPoint::new(min.0, min.1, min.2),
        OrderedPoint::new(max.0, max.1, max.2),
    )
}

fn contains(outer: &Aabb, inner: &Aabb) -> bool {
    outer.min.x <= inner.min.x
        && outer.min.y <= inner.min.y
        && outer.min.z <= inner.min.z
        && inner.max.x <= outer.max.x
        && inner.max.y <= outer.max.y
        && inner.max.z <= outer.max.z
}

#[test]
fn surrounding_box_takes_componentwise_extremes() {
    let a = bx((0, 5, 2), (3, 9, 4));
    let b = bx((1, 4, 7), (2, 12, 8));
    let s = Aabb::surrounding_box(&a, &b);
    assert_eq!(s, bx((0, 4, 2), (3, 12, 8)));
}

#[test]
fn surrounding_box_holds_both_and_is_least() {
    let a = bx((10, 20, 30), (11, 21, 31));
    let b = bx((5, 25, 35), (6, 26, 36));
    let s = Aabb::surrounding_box(&a, &b);
    assert!(contains(&s, &a));
    assert!(contains(&s, &b));
    // shrinking any face loses one of the boxes
    let mut t = s;
    t.min.x += 1;
    assert!(!(contains(&t, &a) && contains(&t, &b)));
    let mut t = s;
    t.max.z -= 1;
    assert!(!(contains(&t, &a) && contains(&t, &b)));
}

#[test]
fn surrounding_box_of_a_box_with_itself_is_the_box() {
    let a = bx((1, 2, 3), (4, 5, 6));
    assert_eq!(Aabb::surrounding_box(&a, &a), a);
}

#[test]
fn surrounding_all_of_nothing_is_none() {
    assert_eq!(Aabb::surrounding_all(&Vec::new()), None);
}

#[test]
fn surrounding_all_with_an_unbounded_member_is_none() {
    let boxes = vec![Some(bx((0, 0, 0), (1, 1, 1))), None, Some(bx((2, 2, 2), (3, 3, 3)))];
    assert_eq!(Aabb::surrounding_all(&boxes), None);
}

#[test]
fn surrounding_all_of_one_box_is_that_box() {
    let a = bx((7, 8, 9), (10, 11, 12));
    assert_eq!(Aabb::surrounding_all(&vec![Some(a)]), Some(a));
}

#[test]
fn surrounding_all_merges_every_member() {
    let boxes = vec![
        Some(bx((5, 5, 5), (6, 6, 6))),
        Some(bx((0, 7, 3), (1, 8, 4))),
        Some(bx((9, 1, 9), (20, 2, 10))),
    ];
    assert_eq!(Aabb::surrounding_all(&boxes), Some(bx((0, 1, 3), (20, 8, 10))));
}

#[test]
fn ordered_point_get_reads_each_axis() {
    let p = OrderedPoint::new(1, 2, 3);
    assert_eq!(p.get(0), 1);
    assert_eq!(p.get(1), 2);
    assert_eq!(p.get(2), 3);
    assert_eq!(p.get(7), 3);
}
