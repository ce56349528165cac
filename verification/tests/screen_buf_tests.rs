use synless::coord::Pos;
use synless::screen_buf::{screen_size_fits, ConcreteStyle, Height, Rgb, ScreenBuf, ScreenOp, Size, TermError, Width};

const STYLE_DEFAULT: ConcreteStyle = ConcreteStyle {
    fg_color: Rgb {
        red: 255,
        green: 255,
        blue: 255,
    },
    bg_color: Rgb {
        red: 0,
        green: 0,
        blue: 0,
    },
    bold: false,
    underlined: false,
};

const STYLE_RED: ConcreteStyle = ConcreteStyle {
    fg_color: Rgb {
        red: 255,
        green: 0,
        blue: 0,
    },
    bg_color: Rgb {
        red: 50,
        green: 0,
        blue: 0,
    },
    bold: false,
    underlined: false,
};

const STYLE_GREEN: ConcreteStyle = ConcreteStyle {
    fg_color: Rgb {
        red: 0,
        green: 255,
        blue: 0,
    },
    bg_color: Rgb {
        red: 0,
        green: 50,
        blue: 0,
    },
    bold: false,
    underlined: false,
};

fn new_buf(width: Width, height: Height) -> ScreenBuf {
    ScreenBuf::new(Size { width, height }, STYLE_DEFAULT)
}

// All characters must be the same width, char_width.
fn display(
    buf: &mut ScreenBuf,
    s: &str,
    mut pos: Pos,
    style: ConcreteStyle,
    char_width: Width,
) {
    for ch in s.chars() {
        buf.display_char(ch, pos, style, char_width).unwrap();
        pos.col += char_width;
    }
}

fn assert_out_of_bounds(result: Result<(), TermError>) {
    match result {
        Err(TermError::OutOfBounds) => (),
        x => panic!("expected OutOfBounds error, got {:?}", x),
    }
}

fn assert_resized(buf: &mut ScreenBuf, size: Size, good_pos: &[Pos], bad_pos: &[Pos]) {
    buf.resize(size);
    assert_eq!(buf.size(), size);
    for &pos in good_pos {
        buf.display_char('x', pos, STYLE_DEFAULT, 1)
            .unwrap_or_else(|_| panic!("pos {:?} out-of-bounds of buf with size {:?}", pos, size));
    }
    for &pos in bad_pos {
        assert_out_of_bounds(buf.display_char('x', pos, STYLE_DEFAULT, 1));
    }
}

#[test]
fn test_resize() {
    let c0r0 = Pos { col: 0, row: 0 };
    let c0r1 = Pos { col: 0, row: 1 };
    let c1r0 = Pos { col: 1, row: 0 };
    let c1r1 = Pos { col: 1, row: 1 };
    let c5r8 = Pos { col: 5, row: 8 };
    let c5r7 = Pos { col: 5, row: 7 };
    let c4r7 = Pos { col: 4, row: 7 };
    let c4r8 = Pos { col: 4, row: 8 };

    let mut buf = new_buf(1, 1);
    assert_eq!(
        buf.size(),
        Size {
            width: 1,
            height: 1,
        },
    );
    assert_resized(
        &mut buf,
        Size {
            width: 1,
            height: 0,
        },
        &[],
        &[c0r0, c1r0, c0r1],
    );
    assert_resized(
        &mut buf,
        Size {
            width: 0,
            height: 1,
        },
        &[],
        &[c0r0, c1r0, c0r1],
    );
    assert_resized(
        &mut buf,
        Size {
            width: 1,
            height: 1,
        },
        &[c0r0],
        &[c1r0, c0r1, c1r1],
    );
    assert_resized(
        &mut buf,
        Size {
            width: 5,
            height: 8,
        },
        &[c0r0, c1r0, c0r1, c1r1, c4r7],
        &[c5r8, c4r8, c5r7],
    );
}

#[test]
fn test_simple() {
    let mut buf = new_buf(3, 2);
    let pos = Pos { col: 2, row: 0 };
    buf.display_char('x', pos, STYLE_RED, 1).unwrap();
    let mut actual_ops: Vec<_> = buf.drain_changes().collect();
    assert_eq!(
        actual_ops,
        vec![
            ScreenOp::Goto(Pos::zero()),
            ScreenOp::Style(STYLE_DEFAULT),
            ScreenOp::Print(' '),
            ScreenOp::Print(' '),
            ScreenOp::Style(STYLE_RED),
            ScreenOp::Print('x'),
            ScreenOp::Goto(Pos { row: 1, col: 0 }),
            ScreenOp::Style(STYLE_DEFAULT),
            ScreenOp::Print(' '),
            ScreenOp::Print(' '),
            ScreenOp::Print(' '),
        ]
    );
    actual_ops = buf.drain_changes().collect();
    assert_eq!(
        actual_ops,
        vec![
            ScreenOp::Goto(pos),
            ScreenOp::Style(STYLE_DEFAULT),
            ScreenOp::Print(' '),
        ]
    );
}

#[test]
fn test_no_change() {
    let mut buf = new_buf(3, 2);
    let pos = Pos { col: 2, row: 0 };
    buf.display_char('x', pos, STYLE_RED, 1).unwrap();
    let mut actual_ops: Vec<_> = buf.drain_changes().collect();

    assert_eq!(
        actual_ops,
        vec![
            ScreenOp::Goto(Pos::zero()),
            ScreenOp::Style(STYLE_DEFAULT),
            ScreenOp::Print(' '),
            ScreenOp::Print(' '),
            ScreenOp::Style(STYLE_RED),
            ScreenOp::Print('x'),
            ScreenOp::Goto(Pos { row: 1, col: 0 }),
            ScreenOp::Style(STYLE_DEFAULT),
            ScreenOp::Print(' '),
            ScreenOp::Print(' '),
            ScreenOp::Print(' '),
        ]
    );

    // Print same thing as before
    buf.display_char('x', pos, STYLE_RED, 1).unwrap();
    actual_ops = buf.drain_changes().collect();
    assert_eq!(actual_ops, vec![]);
}

#[test]
fn test_shorten() {
    let mut buf = new_buf(3, 1);
    display(&mut buf, "xyz", Pos::zero(), STYLE_RED, 1);
    let mut actual_ops: Vec<_> = buf.drain_changes().collect();
    assert_eq!(
        actual_ops,
        vec![
            ScreenOp::Goto(Pos::zero()),
            ScreenOp::Style(STYLE_RED),
            ScreenOp::Print('x'),
            ScreenOp::Print('y'),
            ScreenOp::Print('z'),
        ]
    );

    display(&mut buf, "xy", Pos::zero(), STYLE_RED, 1);
    actual_ops = buf.drain_changes().collect();
    assert_eq!(
        actual_ops,
        vec![
            ScreenOp::Goto(Pos { col: 2, row: 0 }),
            ScreenOp::Style(STYLE_DEFAULT),
            ScreenOp::Print(' '),
        ]
    );

    display(&mut buf, "x", Pos::zero(), STYLE_RED, 1);
    actual_ops = buf.drain_changes().collect();
    assert_eq!(
        actual_ops,
        vec![
            ScreenOp::Goto(Pos { col: 1, row: 0 }),
            ScreenOp::Style(STYLE_DEFAULT),
            ScreenOp::Print(' '),
        ]
    );

    display(&mut buf, "xy", Pos::zero(), STYLE_RED, 1);
    actual_ops = buf.drain_changes().collect();
    assert_eq!(
        actual_ops,
        vec![
            ScreenOp::Goto(Pos { col: 1, row: 0 }),
            ScreenOp::Style(STYLE_RED),
            ScreenOp::Print('y'),
        ]
    );
}

#[test]
fn test_full_width() {
    let mut buf = new_buf(8, 1);
    display(&mut buf, "1234567", Pos { col: 1, row: 0 }, STYLE_RED, 1);
    let actual_ops: Vec<ScreenOp> = buf.drain_changes().collect();
    assert_eq!(
        actual_ops,
        vec![
            ScreenOp::Goto(Pos::zero()),
            ScreenOp::Style(STYLE_DEFAULT),
            ScreenOp::Print(' '),
            ScreenOp::Style(STYLE_RED),
            ScreenOp::Print('1'),
            ScreenOp::Print('2'),
            ScreenOp::Print('3'),
            ScreenOp::Print('4'),
            ScreenOp::Print('5'),
            ScreenOp::Print('6'),
            ScreenOp::Print('7'),
        ]
    );

    buf.display_char('一', Pos::zero(), STYLE_RED, 2);
    buf.display_char('二', Pos { col: 2, row: 0 }, STYLE_RED, 2);
    buf.display_char('*', Pos { col: 4, row: 0 }, STYLE_RED, 1);
    buf.display_char('三', Pos { col: 5, row: 0 }, STYLE_RED, 2);
    let actual_ops: Vec<ScreenOp> = buf.drain_changes().collect();
    assert_eq!(
        actual_ops,
        vec![
            ScreenOp::Goto(Pos::zero()),
            ScreenOp::Style(STYLE_RED),
            ScreenOp::Print('一'),
            ScreenOp::Print('二'),
            ScreenOp::Print('*'),
            ScreenOp::Print('三'),
            ScreenOp::Style(STYLE_DEFAULT),
            ScreenOp::Print(' '),
        ]
    );

    buf.display_char('3', Pos { col: 3, row: 0 }, STYLE_RED, 1);
    buf.display_char('5', Pos { col: 5, row: 0 }, STYLE_RED, 1);
    let actual_ops: Vec<ScreenOp> = buf.drain_changes().collect();
    assert_eq!(
        actual_ops,
        vec![
            ScreenOp::Goto(Pos::zero()),
            ScreenOp::Style(STYLE_DEFAULT),
            ScreenOp::Print(' '),
            // Should the space be "reprinted", or should there be the goto instead?
            // ScreenOp::Print(' '),
            ScreenOp::Goto(Pos { col: 2, row: 0 }),
            ScreenOp::Print(' '),
            ScreenOp::Style(STYLE_RED),
            ScreenOp::Print('3'),
            ScreenOp::Style(STYLE_DEFAULT),
            ScreenOp::Print(' '),
            ScreenOp::Style(STYLE_RED),
            ScreenOp::Print('5'),
            // Should the space be "reprinted"?
            // ScreenOp::Style(STYLE_DEFAULT),
            // ScreenOp::Print(' '),
        ]
    );
}

#[test]
fn test_replace_full_width_with_space() {
    let mut buf = new_buf(2, 1);
    buf.display_char('一', Pos::zero(), STYLE_DEFAULT, 2);
    buf.drain_changes();
    buf.display_char(' ', Pos::zero(), STYLE_DEFAULT, 1);
    let actual_ops: Vec<ScreenOp> = buf.drain_changes().collect();
    assert_eq!(
        actual_ops,
        vec![
            ScreenOp::Goto(Pos::zero()),
            ScreenOp::Style(STYLE_DEFAULT),
            ScreenOp::Print(' '),
            // Should the space be "reprinted"?
            // ScreenOp::Print(' '),
        ]
    );
}

#[test]
fn test_complex() {
    let mut buf = new_buf(3, 4);
    display(&mut buf, "fo", Pos { col: 1, row: 0 }, STYLE_RED, 1);
    display(&mut buf, "oba", Pos { col: 0, row: 1 }, STYLE_RED, 1);
    display(&mut buf, "r", Pos { col: 0, row: 2 }, STYLE_RED, 1);
    display(&mut buf, "OB", Pos { col: 0, row: 1 }, STYLE_GREEN, 1);
    display(&mut buf, "$", Pos { col: 2, row: 3 }, STYLE_DEFAULT, 1);
    let actual_ops: Vec<_> = buf.drain_changes().collect();
    assert_eq!(
        actual_ops,
        vec![
            ScreenOp::Goto(Pos::zero()),
            ScreenOp::Style(STYLE_DEFAULT),
            ScreenOp::Print(' '),
            ScreenOp::Style(STYLE_RED),
            ScreenOp::Print('f'),
            ScreenOp::Print('o'),
            ScreenOp::Goto(Pos { row: 1, col: 0 }),
            ScreenOp::Style(STYLE_GREEN),
            ScreenOp::Print('O'),
            ScreenOp::Print('B'),
            ScreenOp::Style(STYLE_RED),
            ScreenOp::Print('a'),
            ScreenOp::Goto(Pos { row: 2, col: 0 }),
            ScreenOp::Print('r'),
            ScreenOp::Style(STYLE_DEFAULT),
            ScreenOp::Print(' '),
            ScreenOp::Print(' '),
            ScreenOp::Goto(Pos { row: 3, col: 0 }),
            ScreenOp::Print(' '),
            ScreenOp::Print(' '),
            ScreenOp::Print('$'),
        ]
    );

    let actual_ops: Vec<_> = buf.drain_changes().collect();
    assert_eq!(
        actual_ops,
        vec![
            ScreenOp::Goto(Pos { row: 0, col: 1 }),
            ScreenOp::Style(STYLE_DEFAULT),
            ScreenOp::Print(' '),
            ScreenOp::Print(' '),
            ScreenOp::Goto(Pos { row: 1, col: 0 }),
            ScreenOp::Print(' '),
            ScreenOp::Print(' '),
            ScreenOp::Print(' '),
            ScreenOp::Goto(Pos { row: 2, col: 0 }),
            ScreenOp::Print(' '),
            ScreenOp::Goto(Pos { row: 3, col: 2 }),
            ScreenOp::Print(' '),
        ]
    );

    buf.display_char('!', Pos { col: 2, row: 3 }, STYLE_DEFAULT, 1)
        .unwrap();
    let actual_ops: Vec<_> = buf.drain_changes().collect();
    assert_eq!(
        actual_ops,
        vec![
            ScreenOp::Goto(Pos { col: 2, row: 3 }),
            ScreenOp::Style(STYLE_DEFAULT),
            ScreenOp::Print('!'),
        ]
    );
}

#[test]
fn test_display_out_of_bounds_keeps_buffer() {
    let mut buf = new_buf(2, 2);
    assert_out_of_bounds(buf.display_char('x', Pos { col: 2, row: 0 }, STYLE_RED, 1));
    assert_out_of_bounds(buf.display_char('x', Pos { col: 0, row: 2 }, STYLE_RED, 1));
    let ops: Vec<ScreenOp> = buf.drain_changes().collect();
    assert_eq!(
        ops,
        vec![
            ScreenOp::Goto(Pos::zero()),
            ScreenOp::Style(STYLE_DEFAULT),
            ScreenOp::Print(' '),
            ScreenOp::Print(' '),
            ScreenOp::Goto(Pos { row: 1, col: 0 }),
            ScreenOp::Print(' '),
            ScreenOp::Print(' '),
        ]
    );
    // Nothing changed since: no instructions.
    let ops: Vec<ScreenOp> = buf.drain_changes().collect();
    assert_eq!(ops, vec![]);
}

#[test]
fn test_step_by_step() {
    let mut buf = new_buf(2, 1);
    buf.display_char('a', Pos { col: 1, row: 0 }, STYLE_GREEN, 1).unwrap();
    buf.drain_changes();
    buf.display_char('b', Pos { col: 1, row: 0 }, STYLE_GREEN, 1).unwrap();
    let mut it = buf.drain_changes();
    // The first cell is blank both times, so the walk starts at the second one.
    assert_eq!(it.next(), Some(ScreenOp::Goto(Pos { col: 1, row: 0 })));
    assert_eq!(it.next(), Some(ScreenOp::Style(STYLE_GREEN)));
    assert_eq!(it.next(), Some(ScreenOp::Print('b')));
    assert_eq!(it.next(), None);
    assert_eq!(it.next(), None);
}

/// Carry out instructions on a model terminal of the given width.
fn apply(screen: &mut Vec<(char, ConcreteStyle)>, width: usize, ops: &[ScreenOp]) {
    let mut cursor = Pos::zero();
    let mut style = STYLE_DEFAULT;
    for op in ops {
        match op {
            ScreenOp::Goto(p) => cursor = *p,
            ScreenOp::Style(s) => style = *s,
            ScreenOp::Print(c) => {
                let i = cursor.row as usize * width + cursor.col as usize;
                if (cursor.col as usize) < width && i < screen.len() {
                    screen[i] = (*c, style);
                }
                cursor.col += 1;
            }
        }
    }
}

#[test]
fn test_ops_redraw_screen() {
    let mut buf = new_buf(4, 3);
    let mut screen = vec![('?', STYLE_GREEN); 12];
    display(&mut buf, "ab", Pos { col: 1, row: 0 }, STYLE_RED, 1);
    display(&mut buf, "cd", Pos { col: 2, row: 2 }, STYLE_GREEN, 1);
    let ops: Vec<ScreenOp> = buf.drain_changes().collect();
    apply(&mut screen, 4, &ops);
    let mut expected = vec![(' ', STYLE_DEFAULT); 12];
    expected[1] = ('a', STYLE_RED);
    expected[2] = ('b', STYLE_RED);
    expected[10] = ('c', STYLE_GREEN);
    expected[11] = ('d', STYLE_GREEN);
    assert_eq!(screen, expected);

    display(&mut buf, "Z", Pos { col: 3, row: 1 }, STYLE_RED, 1);
    let ops: Vec<ScreenOp> = buf.drain_changes().collect();
    apply(&mut screen, 4, &ops);
    let mut expected = vec![(' ', STYLE_DEFAULT); 12];
    expected[7] = ('Z', STYLE_RED);
    assert_eq!(screen, expected);
}

#[test]
fn test_screen_size_fits() {
    assert!(screen_size_fits(Size { width: 80, height: 24 }));
    assert!(screen_size_fits(Size { width: 0, height: 0 }));
    assert!(!screen_size_fits(Size { width: 65535, height: 1 }));
    assert!(screen_size_fits(Size { width: 65534, height: 1 }));
}
