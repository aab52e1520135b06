use advent::geometry::{Point, Rect};

#[test]
fn test_rect_contains() {
    let r = Rect {
        tl: Point { x: 0, y: 0 },
        br: Point { x: 0, y: 0 },
    };
    let p1 = Point { x: 0, y: 0 };
    let p2 = Point { x: 0, y: 1 };
    assert!(r.contains_point(&p1));
    assert!(!r.contains_point(&p2));
}

#[test]
fn test_rect_collide() {
    let r1 = Rect {
        tl: Point { x: 0, y: -2 },
        br: Point { x: 0, y: 2 },
    };
    let r2 = Rect {
        tl: Point { x: -2, y: 0 },
        br: Point { x: 2, y: 0 },
    };
    assert!(r1.overlaps_rect(&r2));
}

#[test]
fn rect_contains_its_corners() {
    let r = Rect {
        tl: Point { x: -3, y: 2 },
        br: Point { x: 5, y: 9 },
    };
    assert!(r.contains_point(&r.tl));
    assert!(r.contains_point(&r.br));
    assert!(!r.contains_point(&Point { x: -4, y: 2 }));
    assert!(!r.contains_point(&Point { x: 5, y: 10 }));
}

#[test]
fn rect_overlap_is_symmetric() {
    let a = Rect {
        tl: Point { x: 0, y: 0 },
        br: Point { x: 2, y: 2 },
    };
    let b = Rect {
        tl: Point { x: 2, y: 2 },
        br: Point { x: 4, y: 4 },
    };
    let c = Rect {
        tl: Point { x: 3, y: 0 },
        br: Point { x: 4, y: 1 },
    };
    assert!(a.overlaps_rect(&b));
    assert!(b.overlaps_rect(&a));
    assert!(!a.overlaps_rect(&c));
    assert!(!c.overlaps_rect(&a));
}

#[test]
fn rect_expand_adds_one_ring() {
    let r = Rect {
        tl: Point { x: 1, y: 1 },
        br: Point { x: 3, y: 1 },
    };
    let e = r.expand();
    assert_eq!(
        e,
        Rect {
            tl: Point { x: 0, y: 0 },
            br: Point { x: 4, y: 2 },
        }
    );
    assert!(e.contains_point(&Point { x: 0, y: 0 }));
    assert!(e.contains_point(&Point { x: 4, y: 2 }));
    assert!(e.contains_point(&Point { x: 2, y: 1 }));
    assert!(!e.contains_point(&Point { x: 5, y: 1 }));
    assert!(!r.contains_point(&Point { x: 0, y: 0 }));
}

#[test]
fn rect_masked_is_the_common_part() {
    let a = Rect {
        tl: Point { x: 0, y: 0 },
        br: Point { x: 5, y: 5 },
    };
    let b = Rect {
        tl: Point { x: 3, y: -1 },
        br: Point { x: 9, y: 4 },
    };
    assert_eq!(
        a._masked(&b),
        Rect {
            tl: Point { x: 3, y: 0 },
            br: Point { x: 5, y: 4 },
        }
    );
}
