use ezquadtree::{QuadTree, Rectangle, Vector};

#[derive(Debug, Clone, PartialEq)]
struct Pin {
    x: u32,
    y: u32,
    tag: String,
}

fn pin(x: u32, y: u32, tag: &str) -> Pin {
    Pin { x, y, tag: tag.to_string() }
}

impl Vector for Pin {
    fn point(&self) -> (u32, u32) {
        (self.x, self.y)
    }

    fn as_point(&self) -> (u32, u32) {
        (self.x, self.y)
    }
}

fn seen(qt: &QuadTree<Pin>, range: Option<&Rectangle>) -> Vec<Pin> {
    let mut out: Vec<Pin> = Vec::new();
    qt.query(range, &mut |p: &Pin| out.push(p.clone()));
    out
}

fn tags(items: &[Pin]) -> Vec<String> {
    items.iter().map(|p| p.tag.clone()).collect()
}

#[test]
fn region_is_half_open() {
    let r = Rectangle::new(0, 0, 10, 10);
    assert!(r.contains(&pin(0, 0, "a")));
    assert!(!r.contains(&pin(10, 10, "a")));
    assert!(r.contains(&pin(9, 9, "a")));
    assert!(!r.contains(&pin(10, 5, "a")));
    assert!(!r.contains(&pin(5, 10, "a")));
}

#[test]
fn region_far_edge_at_coordinate_limit() {
    let r = Rectangle::new(u32::MAX - 1, 0, 1, 1);
    assert!(r.contains(&pin(u32::MAX - 1, 0, "a")));
    assert!(!r.contains(&pin(u32::MAX, 0, "a")));
    let whole = Rectangle::new(0, 0, u32::MAX, u32::MAX);
    assert!(whole.contains(&pin(u32::MAX - 1, u32::MAX - 1, "a")));
    assert!(!whole.contains(&pin(u32::MAX, 0, "a")));
}

#[test]
fn adjacent_regions_do_not_intersect() {
    let a = Rectangle::new(0, 0, 10, 10);
    let b = Rectangle::new(10, 0, 10, 10);
    assert!(!a.intersects(&b));
    assert!(!b.intersects(&a));
    let c = Rectangle::new(9, 9, 5, 5);
    assert!(a.intersects(&c));
    assert!(c.intersects(&a));
    let inner = Rectangle::new(2, 2, 1, 1);
    assert!(a.intersects(&inner));
    assert!(inner.intersects(&a));
    let below = Rectangle::new(0, 10, 10, 10);
    assert!(!a.intersects(&below));
}

#[test]
fn intersection_ignores_order_and_flat_regions() {
    let flat = Rectangle::new(5, 5, 0, 0);
    let wide = Rectangle::new(5, 5, 10, 10);
    assert!(!wide.intersects(&flat));
    assert!(!flat.intersects(&wide));
    assert!(!flat.intersects(&flat));
    let a = Rectangle::new(0, 0, 10, 10);
    let line = Rectangle::new(0, 0, 0, 10);
    assert!(!a.intersects(&line));
    assert!(!line.intersects(&a));
    let thin = Rectangle::new(3, 0, 1, 10);
    assert!(a.intersects(&thin));
    assert!(thin.intersects(&a));
}

#[test]
fn top_left_corner_is_the_origin() {
    let r = Rectangle::new(20, 30, 10, 6);
    assert_eq!(r.top_left_corner(), (20, 30));
    assert_eq!(Rectangle::new(0, 0, 40, 40).top_left_corner(), (0, 0));
}

#[test]
fn round_trip_of_nine_points() {
    let mut qt = QuadTree::new(Rectangle::new(0, 0, 40, 40), 4);
    let pins: Vec<Pin> = (0..9).map(|i| pin(i, 0, "p")).collect();
    for p in pins.iter() {
        assert!(qt.insert(p.clone()));
    }
    let all = seen(&qt, None);
    assert_eq!(all, pins);
    assert_eq!(qt.len(), 9);
    let whole = qt.boundary().clone();
    assert_eq!(qt.query_items(Some(&whole)).len(), 9);
}

#[test]
fn duplicate_location_is_rejected() {
    let mut qt = QuadTree::new(Rectangle::new(0, 0, 40, 40), 4);
    assert!(qt.insert(pin(5, 5, "old")));
    assert!(!qt.insert(pin(5, 5, "new")));
    assert_eq!(qt.len(), 1);
    assert_eq!(tags(&seen(&qt, None)), vec!["old".to_string()]);
}

#[test]
fn duplicate_location_is_rejected_in_a_full_node() {
    let mut qt = QuadTree::new(Rectangle::new(0, 0, 40, 40), 2);
    assert!(qt.insert(pin(1, 1, "a")));
    assert!(qt.insert(pin(2, 2, "b")));
    assert!(!qt.insert(pin(1, 1, "c")));
    assert_eq!(qt.len(), 2);
    assert!(qt.children().is_none());
}

#[test]
fn location_stays_unique_after_removal() {
    let mut qt = QuadTree::new(Rectangle::new(0, 0, 40, 40), 1);
    assert!(qt.insert(pin(1, 1, "a")));
    assert!(qt.insert(pin(30, 30, "b")));
    assert!(qt.remove(&pin(1, 1, "a")));
    assert!(!qt.insert(pin(30, 30, "c")));
    assert_eq!(qt.len(), 1);
    assert_eq!(tags(&seen(&qt, None)), vec!["b".to_string()]);
    assert!(qt.insert(pin(2, 2, "d")));
    assert_eq!(tags(&seen(&qt, None)), vec!["d".to_string(), "b".to_string()]);
}

#[test]
fn replace_overwrites_at_location() {
    let mut qt = QuadTree::new(Rectangle::new(0, 0, 40, 40), 4);
    qt.insert(pin(5, 5, "old"));
    qt.insert(pin(5, 5, "new"));
    let prev = qt.replace(pin(5, 5, "new"));
    assert_eq!(prev, Some(pin(5, 5, "old")));
    assert_eq!(qt.len(), 1);
    assert_eq!(tags(&seen(&qt, None)), vec!["new".to_string()]);
}

#[test]
fn replace_with_equal_item_still_swaps() {
    let mut qt = QuadTree::new(Rectangle::new(0, 0, 40, 40), 4);
    qt.insert(pin(5, 5, "same"));
    assert_eq!(qt.replace(pin(5, 5, "same")), Some(pin(5, 5, "same")));
    assert_eq!(qt.len(), 1);
    assert_eq!(seen(&qt, None), vec![pin(5, 5, "same")]);
}

#[test]
fn replace_without_match_adds_nothing() {
    let mut qt = QuadTree::new(Rectangle::new(0, 0, 40, 40), 4);
    qt.insert(pin(5, 5, "a"));
    assert_eq!(qt.replace(pin(6, 6, "b")), None);
    assert_eq!(qt.replace(pin(50, 50, "c")), None);
    assert_eq!(qt.len(), 1);
    assert_eq!(tags(&seen(&qt, None)), vec!["a".to_string()]);
}

#[test]
fn replace_reaches_into_children() {
    let mut qt = QuadTree::new(Rectangle::new(0, 0, 40, 40), 1);
    qt.insert(pin(1, 1, "root"));
    qt.insert(pin(30, 30, "deep"));
    qt.insert(pin(2, 2, "next"));
    assert_eq!(qt.replace(pin(30, 30, "fresh")), Some(pin(30, 30, "deep")));
    assert_eq!(
        tags(&seen(&qt, None)),
        vec!["root".to_string(), "next".to_string(), "fresh".to_string()]
    );
    assert_eq!(qt.replace(pin(1, 1, "top")), Some(pin(1, 1, "root")));
    assert_eq!(tags(&seen(&qt, None)), vec!["top", "next", "fresh"]);
}

#[test]
fn fifth_insert_subdivides() {
    let mut qt = QuadTree::new(Rectangle::new(0, 0, 40, 40), 4);
    let pins = vec![pin(1, 1, "a"), pin(30, 2, "b"), pin(3, 30, "c"), pin(25, 25, "d")];
    for p in pins.iter() {
        assert!(qt.insert(p.clone()));
    }
    assert!(qt.children().is_none());
    assert!(qt.insert(pin(22, 21, "e")));
    let kids = qt.children().expect("subdivided");
    assert_eq!(kids.nw.boundary(), &Rectangle::new(0, 0, 20, 20));
    assert_eq!(kids.ne.boundary(), &Rectangle::new(20, 0, 20, 20));
    assert_eq!(kids.sw.boundary(), &Rectangle::new(0, 20, 20, 20));
    assert_eq!(kids.se.boundary(), &Rectangle::new(20, 20, 20, 20));
    assert_eq!(kids.se.points(), &vec![pin(22, 21, "e")]);
    assert_eq!(kids.nw.len(), 0);
    assert_eq!(qt.points().len(), 4);
    assert_eq!(qt.len(), 5);
    assert_eq!(tags(&seen(&qt, None)), vec!["a", "b", "c", "d", "e"]);
}

#[test]
fn disjoint_query_visits_nothing() {
    let mut qt = QuadTree::new(Rectangle::new(0, 0, 40, 40), 1);
    for i in 0..10 {
        qt.insert(pin(i * 4, i * 4, "p"));
    }
    let far = Rectangle::new(100, 100, 10, 10);
    let mut calls = 0;
    qt.query(Some(&far), &mut |_p: &Pin| calls += 1);
    assert_eq!(calls, 0);
    assert!(qt.query_items(Some(&far)).is_empty());
}

#[test]
fn window_query_returns_only_points_inside() {
    let mut qt = QuadTree::new(Rectangle::new(0, 0, 40, 40), 2);
    qt.insert(pin(1, 1, "a"));
    qt.insert(pin(10, 10, "b"));
    qt.insert(pin(20, 20, "c"));
    qt.insert(pin(35, 5, "d"));
    qt.insert(pin(19, 19, "e"));
    let window = Rectangle::new(10, 10, 10, 10);
    let found: Vec<String> = qt.query_items(Some(&window)).iter().map(|p| p.tag.clone()).collect();
    assert_eq!(found, vec!["b", "e"]);
}

#[test]
fn removal_counts_once() {
    let mut qt = QuadTree::new(Rectangle::new(0, 0, 40, 40), 2);
    qt.insert(pin(1, 1, "a"));
    qt.insert(pin(2, 2, "b"));
    qt.insert(pin(30, 30, "c"));
    assert_eq!(qt.len(), 3);
    assert!(!qt.remove(&pin(7, 7, "x")));
    assert_eq!(qt.len(), 3);
    assert!(!qt.remove(&pin(1, 1, "other")));
    assert_eq!(qt.len(), 3);
    assert!(qt.remove(&pin(30, 30, "c")));
    assert_eq!(qt.len(), 2);
    assert!(qt.remove(&pin(1, 1, "a")));
    assert_eq!(qt.len(), 1);
    assert!(!qt.remove(&pin(1, 1, "a")));
    assert_eq!(qt.len(), 1);
    assert!(qt.children().is_some());
}

#[test]
fn contains_needs_full_equality() {
    let mut qt = QuadTree::new(Rectangle::new(0, 0, 40, 40), 1);
    qt.insert(pin(1, 1, "a"));
    qt.insert(pin(30, 30, "b"));
    assert!(qt.contains(&pin(1, 1, "a")));
    assert!(qt.contains(&pin(30, 30, "b")));
    assert!(!qt.contains(&pin(30, 30, "z")));
    assert!(!qt.contains(&pin(2, 2, "a")));
}

#[test]
fn outside_boundary_is_rejected() {
    let mut qt = QuadTree::new(Rectangle::new(10, 10, 20, 20), 4);
    assert!(!qt.insert(pin(5, 15, "a")));
    assert!(!qt.insert(pin(30, 15, "b")));
    assert!(qt.insert(pin(29, 29, "c")));
    assert!(qt.is_empty() == false);
    assert_eq!(qt.len(), 1);
}

#[test]
fn odd_sized_sliver_is_dropped() {
    let mut qt = QuadTree::new(Rectangle::new(0, 0, 5, 5), 1);
    assert!(qt.insert(pin(0, 0, "a")));
    assert!(!qt.insert(pin(4, 4, "b")));
    assert!(qt.children().is_some());
    assert!(qt.insert(pin(3, 3, "c")));
    assert_eq!(qt.len(), 2);
}

#[test]
fn zero_capacity_stores_nothing() {
    let mut qt = QuadTree::new(Rectangle::new(0, 0, 16, 16), 0);
    assert!(!qt.insert(pin(3, 3, "a")));
    assert!(qt.is_empty());
    assert_eq!(qt.capacity(), 0);
}

#[test]
fn whole_coordinate_space() {
    let mut qt = QuadTree::new(Rectangle::new(0, 0, u32::MAX, u32::MAX), 1);
    assert!(qt.insert(pin(u32::MAX - 1, u32::MAX - 1, "far")));
    assert!(qt.insert(pin(0, 0, "near")));
    assert!(qt.insert(pin(u32::MAX - 2, u32::MAX - 2, "farther")));
    assert_eq!(qt.len(), 3);
}

#[test]
fn into_iter_keeps_traversal_order() {
    let mut qt = QuadTree::new(Rectangle::new(0, 0, 40, 40), 1);
    qt.insert(pin(1, 1, "a"));
    qt.insert(pin(30, 30, "b"));
    qt.insert(pin(30, 1, "c"));
    let order = tags(&seen(&qt, None));
    assert_eq!(order, vec!["a", "c", "b"]);
    let owned = qt.into_iter();
    assert_eq!(tags(&owned), order);
}

#[test]
fn parts_round_trip() {
    let mut qt = QuadTree::new(Rectangle::new(0, 0, 40, 40), 1);
    qt.insert(pin(1, 1, "a"));
    qt.insert(pin(30, 30, "b"));
    qt.insert(pin(30, 1, "c"));
    let before = seen(&qt, None);
    let (boundary, capacity, points, children) = qt.into_parts();
    assert_eq!(boundary, Rectangle::new(0, 0, 40, 40));
    assert_eq!(capacity, 1);
    assert_eq!(points, vec![pin(1, 1, "a")]);
    assert!(children.is_some());
    let back = QuadTree::from_parts(boundary, capacity, points, children).expect("well-formed");
    assert_eq!(seen(&back, None), before);
    assert_eq!(back.len(), 3);
}

#[test]
fn from_parts_rejects_broken_parts() {
    let r = Rectangle::new(0, 0, 40, 40);
    assert!(QuadTree::from_parts(r, 4, vec![pin(1, 1, "a")], None).is_some());
    assert!(QuadTree::from_parts(r, 4, vec![pin(50, 1, "a")], None).is_none());
    assert!(QuadTree::from_parts(r, 1, vec![pin(1, 1, "a"), pin(2, 2, "b")], None).is_none());
    assert!(QuadTree::from_parts(r, 4, vec![pin(1, 1, "a"), pin(1, 1, "b")], None).is_none());
    assert!(QuadTree::from_parts(Rectangle::new(u32::MAX, 0, 2, 2), 4, Vec::<Pin>::new(), None).is_none());

    let mut qt = QuadTree::new(r, 1);
    qt.insert(pin(1, 1, "a"));
    qt.insert(pin(30, 30, "b"));
    let (_, _, _, children) = qt.into_parts();
    // The child already holds (30, 30): the root may not hold it too.
    assert!(QuadTree::from_parts(r, 1, vec![pin(30, 30, "x")], children).is_none());

    let mut other = QuadTree::new(r, 1);
    other.insert(pin(1, 1, "a"));
    other.insert(pin(30, 30, "b"));
    let (_, _, _, children) = other.into_parts();
    assert!(QuadTree::from_parts(r, 2, vec![pin(2, 2, "y")], children).is_none());
}
