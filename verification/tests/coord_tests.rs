use synless::coord::{
    common_prefix_len, Bound, Pos, Range, Rect, Region,
};

static RECT: Rect = Rect { rows: Range(2, 4), cols: Range(1, 5) };

static BIG: Rect = Rect { rows: Range(1, 4), cols: Range(1, 5) };

static TINY: Rect = Rect { rows: Range(1, 2), cols: Range(1, 3) };

static SQUARE: Rect = Rect { rows: Range(1, 4), cols: Range(2, 5) };

static REGION: Region = Region {
    pos: Pos { row: 2, col: 3 },
    bound: Bound { width: 4, height: 3, indent: 2 },
};

static REGION2: Region = Region {
    pos: Pos { row: 3, col: 4 },
    bound: Bound { width: 3, height: 2, indent: 2 },
};

// like region1 except for the indent
static REGION3: Region = Region {
    pos: Pos { row: 3, col: 4 },
    bound: Bound { width: 3, height: 2, indent: 1 },
};

#[test]
fn test_rect_basics() {
    assert_eq!(&RECT.to_string(), "2:1-4:5");
}

#[test]
fn test_rect_contains() {
    assert_eq!(RECT.contains(Pos { row: 0, col: 0 }), false);
    assert_eq!(RECT.contains(Pos { row: 1, col: 1 }), false);
    assert_eq!(RECT.contains(Pos { row: 2, col: 0 }), false);
    assert_eq!(RECT.contains(Pos { row: 2, col: 1 }), true);
    assert_eq!(RECT.contains(Pos { row: 2, col: 2 }), true);
    assert_eq!(RECT.contains(Pos { row: 2, col: 3 }), true);
    assert_eq!(RECT.contains(Pos { row: 2, col: 4 }), true);
    assert_eq!(RECT.contains(Pos { row: 3, col: 1 }), true);
    assert_eq!(RECT.contains(Pos { row: 3, col: 2 }), true);
    assert_eq!(RECT.contains(Pos { row: 3, col: 3 }), true);
    assert_eq!(RECT.contains(Pos { row: 3, col: 4 }), true);
    assert_eq!(RECT.contains(Pos { row: 4, col: 4 }), false);
    assert_eq!(RECT.contains(Pos { row: 3, col: 5 }), false);
}

#[test]
fn test_rect_transform() {
    assert_eq!(RECT.transform(Pos { row: 2, col: 4 }), Some(Pos { row: 0, col: 3 }));
    assert_eq!(RECT.transform(Pos { row: 2, col: 5 }), None);
    assert_eq!(RECT.transform(Pos { row: 2, col: 1 }), Some(Pos { row: 0, col: 0 }));
    assert_eq!(RECT.transform(Pos { row: 1, col: 1 }), None);
    assert_eq!(RECT.transform(Pos { row: 2, col: 0 }), None);
    assert_eq!(RECT.transform(Pos { row: 3, col: 4 }), Some(Pos { row: 1, col: 3 }));
    assert_eq!(RECT.transform(Pos { row: 4, col: 4 }), None);
    assert_eq!(RECT.transform(Pos { row: 3, col: 5 }), None);
}

#[test]
fn test_rect_overlaps() {
    assert_eq!(RECT.overlaps(BIG), true);
    assert_eq!(RECT.overlaps(TINY), false);
    assert_eq!(RECT.overlaps(SQUARE), true);
    assert_eq!(BIG.overlaps(RECT), true);
    assert_eq!(BIG.overlaps(TINY), true);
    assert_eq!(BIG.overlaps(SQUARE), true);
    assert_eq!(TINY.overlaps(RECT), false);
    assert_eq!(TINY.overlaps(BIG), true);
    assert_eq!(TINY.overlaps(SQUARE), true);
    assert_eq!(SQUARE.overlaps(RECT), true);
    assert_eq!(SQUARE.overlaps(BIG), true);
    assert_eq!(SQUARE.overlaps(TINY), true);
}

#[test]
fn test_rect_covers() {
    assert_eq!(RECT.covers(RECT), true);
    assert_eq!(RECT.covers(BIG), false);
    assert_eq!(RECT.covers(TINY), false);
    assert_eq!(RECT.covers(SQUARE), false);
    assert_eq!(BIG.covers(RECT), true);
    assert_eq!(BIG.covers(TINY), true);
    assert_eq!(BIG.covers(SQUARE), true);
    assert_eq!(TINY.covers(RECT), false);
    assert_eq!(TINY.covers(BIG), false);
    assert_eq!(TINY.covers(SQUARE), false);
    assert_eq!(SQUARE.covers(RECT), false);
    assert_eq!(SQUARE.covers(BIG), false);
    assert_eq!(SQUARE.covers(TINY), false);
}

#[test]
fn test_region_rects() {
    assert_eq!(REGION.body().to_string(), "2:3-5:7");
    assert_eq!(REGION.last_line().to_string(), "5:3-6:5");
    assert_eq!(REGION.bounding_box().to_string(), "2:3-6:7");
    assert_eq!(REGION.negative_space().to_string(), "5:5-6:7");
}

#[test]
fn test_region_transform() {
    assert_eq!(REGION.transform(Pos { row: 1, col: 3 }), None);
    assert_eq!(REGION.transform(Pos { row: 2, col: 3 }), Some(Pos { row: 0, col: 0 }));
    assert_eq!(REGION.transform(Pos { row: 2, col: 6 }), Some(Pos { row: 0, col: 3 }));
    assert_eq!(REGION.transform(Pos { row: 2, col: 7 }), None);
    assert_eq!(REGION.transform(Pos { row: 3, col: 6 }), Some(Pos { row: 1, col: 3 }));
    assert_eq!(REGION.transform(Pos { row: 5, col: 3 }), Some(Pos { row: 3, col: 0 }));
    assert_eq!(REGION.transform(Pos { row: 6, col: 3 }), None);
    assert_eq!(REGION.transform(Pos { row: 4, col: 6 }), Some(Pos { row: 2, col: 3 }));
    assert_eq!(REGION.transform(Pos { row: 5, col: 6 }), None);
    assert_eq!(REGION.transform(Pos { row: 4, col: 7 }), None);
}

#[test]
fn test_regions() {
    assert_eq!(REGION.overlaps(REGION2), true);
    assert_eq!(REGION.covers(REGION2), false);
    assert_eq!(REGION.covers(REGION3), true);
}

// Further cases of our own.

#[test]
fn pos_arithmetic() {
    let a = Pos { row: 7, col: 3 };
    let b = Pos { row: 2, col: 1 };
    assert_eq!(a.add(b), Pos { row: 9, col: 4 });
    assert_eq!(a.sub(b), Pos { row: 5, col: 2 });
    assert_eq!(a.add(b).sub(b), a);
    assert_eq!(Pos::zero(), Pos { row: 0, col: 0 });
    assert_eq!(a.to_string(), "7:3");
}

#[test]
fn range_basics() {
    let r: Range<u32> = Range(2, 4);
    assert!(!r.contains(1));
    assert!(r.contains(2));
    assert!(r.contains(3));
    assert!(!r.contains(4));
    assert_eq!(r.transform(3), Some(1));
    assert_eq!(r.transform(4), None);
    assert_eq!(r.add(10), Range(12, 14));
    assert!(r.is_left_of(Range(4, 6)));
    assert!(!r.overlaps(Range(4, 6)));
    assert!(r.covers(Range(3, 4)));
    assert_eq!(r.to_string(), "2-4");
    let c: Range<u16> = Range(0, 3);
    assert!(c.overlaps(Range(2, 9)));
}

#[test]
fn bound_subbounds() {
    let b = Bound { width: 10, indent: 4, height: 3 };
    assert_eq!(
        b.subbound_from(Pos { row: 1, col: 2 }),
        Bound { width: 8, height: 2, indent: 2 }
    );
    assert_eq!(
        b.subbound_from(Pos { row: 1, col: 6 }),
        Bound { width: 4, height: 1, indent: 4 }
    );
    assert_eq!(
        b.subbound_to(Pos { row: 2, col: 5 }),
        Bound { width: 10, height: 2, indent: 5 }
    );
}

#[test]
fn region_accessors() {
    assert_eq!(REGION.width(), 4);
    assert_eq!(REGION.height(), 3);
    assert_eq!(REGION.indent(), 2);
    assert_eq!(REGION.beginning(), Pos { row: 2, col: 3 });
    assert_eq!(REGION.end(), Pos { row: 5, col: 5 });
    assert_eq!(REGION.delta(), Pos { row: 3, col: 2 });
    assert_eq!(REGION.to_string(), "2:3-5:5;4");
    assert_eq!(REGION.add(Pos { row: 1, col: 1 }).pos, Pos { row: 3, col: 4 });
    let sub = REGION.subregion_from(Pos { row: 3, col: 4 });
    assert_eq!(sub.pos, Pos { row: 3, col: 4 });
    assert_eq!(sub.bound, Bound { width: 3, height: 2, indent: 1 });
    assert!(REGION.covers(sub));
    let ch = Region::char_region(Pos { row: 4, col: 4 });
    assert!(ch.contains(Pos { row: 4, col: 4 }));
    assert!(!ch.contains(Pos { row: 4, col: 5 }));
    assert!(REGION.contains(Pos { row: 4, col: 4 }));
    assert!(REGION.overlaps(ch) && ch.overlaps(REGION));
}

#[test]
fn prefix_lengths() {
    assert_eq!(common_prefix_len(&[1, 2, 3], &[1, 2, 4]), 2);
    assert_eq!(common_prefix_len(&[1, 2], &[1, 2, 4]), 2);
    assert_eq!(common_prefix_len::<u8>(&[], &[1]), 0);
    assert_eq!(common_prefix_len(&['a'], &['b']), 0);
}
