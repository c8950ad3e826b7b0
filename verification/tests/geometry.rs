use signalkit::{Point, Rect};

#[test]
fn contains_is_half_open() {
    let r = Rect::new(10, 10, 20, 20);
    assert!(r.contains(Point::new(10, 10)));
    assert!(r.contains(Point::new(29, 29)));
    assert!(!r.contains(Point::new(30, 10)));
    assert!(!r.contains(Point::new(9, 10)));
}

#[test]
fn union_ignores_empty() {
    let a = Rect::new(5, 5, 10, 10);
    let zero = Rect::new(0, 0, 0, 0);
    assert_eq!(a.union(zero), a);
    assert_eq!(zero.union(a), a);
}

#[test]
fn union_bounds_both() {
    let a = Rect::new(0, 0, 10, 10);
    let b = Rect::new(20, 5, 10, 30);
    assert_eq!(a.union(b), Rect::new(0, 0, 30, 35));
}

#[test]
fn intersection_clips_to_overlap() {
    let a = Rect::new(0, 0, 10, 10);
    let b = Rect::new(5, 5, 10, 10);
    assert_eq!(a.intersection(b), Rect::new(5, 5, 5, 5));
    assert_eq!(a.intersection(Rect::new(20, 20, 5, 5)), Rect::new(0, 0, 0, 0));
}

#[test]
fn contains_rect_requires_full_coverage() {
    let outer = Rect::new(0, 0, 10, 10);
    assert!(outer.contains_rect(Rect::new(2, 2, 5, 5)));
    assert!(outer.contains_rect(outer));
    assert!(!outer.contains_rect(Rect::new(5, 5, 10, 10)));
    assert!(outer.contains_rect(Rect::new(0, 0, 0, 0)));
}

#[test]
fn rect_edges_area_and_inset() {
    let r = Rect::new(3, 4, 10, 20);
    assert_eq!(r.right(), 13);
    assert_eq!(r.bottom(), 24);
    assert_eq!(r.area(), 200);
    assert!(!r.is_empty());
    assert!(Rect::new(1, 1, 0, 5).is_empty());
    assert_eq!(r.inset(2), Rect::new(5, 6, 6, 16));
    assert_eq!(r.inset(50), Rect::new(53, 54, 0, 0));
}

#[test]
fn intersects_matches_nonempty_intersection() {
    let a = Rect::new(0, 0, 10, 10);
    assert!(a.intersects(Rect::new(9, 9, 5, 5)));
    assert!(!a.intersects(Rect::new(10, 0, 5, 5)));
    assert!(!a.intersects(Rect::new(2, 2, 0, 0)));
}

#[test]
fn overflow_checks_match_the_operations() {
    let a = Rect::new(0, 0, 10, 10);
    let far = Rect::new(i32::MAX - 5, 0, 5, 5);
    assert!(a.edges_fit_check());
    assert!(!Rect::new(i32::MAX, 0, 1, 1).edges_fit_check());
    assert!(a.union_fits_check(Rect::new(20, 20, 5, 5)));
    assert_eq!(a.union(Rect::new(20, 20, 5, 5)), Rect::new(0, 0, 25, 25));
    assert!(far.union_fits_check(Rect::new(0, 0, 0, 0)));
    assert!(!Rect::new(i32::MIN, 0, 1, 1).union_fits_check(far));
    assert!(a.inset_fits_check(2));
    assert!(!a.inset_fits_check(i32::MAX));
}
