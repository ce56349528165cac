//! Coordinates used by the rest of the editor. `Pos` represents points,
//! `Range` represents runs of rows or columns, `Rect` represents rectangles,
//! and `Bound`/`Region` represent the paragraph shape a document node fits in.

use vstd::prelude::*;
use crate::strings::{decimal, push_decimal, string_push};
use vstd::std_specs::cmp::PartialEqSpec;

verus! {

/// Used to represent heights and row coordinates.
pub type Row = u32;
/// Used to represent widths and column coordinates.
pub type Col = u16;

/// 0-indexed positions, relative either to the screen or the document.
/// These are also sometimes used to represent offsets.
#[derive(PartialEq, Eq, Clone, Copy, Debug, Structural)]
pub struct Pos {
    pub col: Col,
    pub row: Row,
}

/// The text `row:col` that a position is displayed as.
pub open spec fn pos_text(p: Pos) -> Seq<char> {
    decimal(p.row as nat).push(':') + decimal(p.col as nat)
}

impl Pos {
    /// The upper-left.
    pub fn zero() -> (p: Pos)
        ensures
            p.col == 0 && p.row == 0,
    {
        Pos { col: 0, row: 0 }
    }

    /// Component-wise sum. The sum must fit in the coordinate types.
    pub fn add(self, other: Pos) -> (p: Pos)
        requires
            self.col + other.col <= Col::MAX,
            self.row + other.row <= Row::MAX,
        ensures
            p.col == self.col + other.col,
            p.row == self.row + other.row,
    {
        Pos { col: self.col + other.col, row: self.row + other.row }
    }

    /// Component-wise difference. Neither component may go below zero.
    pub fn sub(self, other: Pos) -> (p: Pos)
        requires
            other.col <= self.col,
            other.row <= self.row,
        ensures
            p.col == self.col - other.col,
            p.row == self.row - other.row,
    {
        Pos { col: self.col - other.col, row: self.row - other.row }
    }

    /// Displays the position as `row:col`.
    pub fn to_string(&self) -> (s: String)
        ensures
            s@ == pos_text(*self),
    {
        let mut s = String::new();
        push_decimal(&mut s, self.row as u64);
        string_push(&mut s, ':');
        push_decimal(&mut s, self.col as u64);
        s
    }
}

/// A paragraph shape within which a node in the document fits. It is a
/// rectangle `width` wide and `height + 1` rows tall, except that the last
/// line only extends `indent` columns.
#[derive(Clone, Copy, PartialEq, Eq, Debug, Structural)]
pub struct Bound {
    pub width: Col,
    pub indent: Col,
    pub height: Row,
}

/// Whether `pos`, relative to the upper-left of `b`, lies within `b`.
pub open spec fn bound_contains(b: Bound, pos: Pos) -> bool {
    ||| pos.row < b.height && pos.col < b.width
    ||| pos.row == b.height && pos.col < b.indent
}

/// The sub-bound of `b` below and to the right of `pos`.
pub open spec fn spec_subbound_from(b: Bound, pos: Pos) -> Bound {
    if b.indent >= pos.col {
        Bound {
            width: (b.width - pos.col) as Col,
            height: (b.height - pos.row) as Row,
            indent: (b.indent - pos.col) as Col,
        }
    } else {
        Bound {
            width: (b.width - pos.col) as Col,
            height: (b.height - pos.row - 1) as Row,
            indent: (b.width - pos.col) as Col,
        }
    }
}

impl Bound {
    /// Find the sub-bound that is within this bound, but below and
    /// to the right of `pos`. Pos must be contained in this bound.
    pub fn subbound_from(&self, pos: Pos) -> (b: Bound)
        requires
            pos.col <= self.width,
            pos.row <= self.height,
            self.indent < pos.col ==> pos.row < self.height,
        ensures
            b == spec_subbound_from(*self, pos),
    {
        if self.indent >= pos.col {
            Bound {
                width: self.width - pos.col,
                height: self.height - pos.row,
                indent: self.indent - pos.col,
            }
        } else {
            Bound {
                width: self.width - pos.col,
                height: self.height - pos.row - 1,
                indent: self.width - pos.col,
            }
        }
    }

    /// Find the sub-bound that is within this bound, but ends at `pos`.
    pub fn subbound_to(&self, pos: Pos) -> (b: Bound)
        ensures
            b.width == self.width,
            b.height == pos.row,
            b.indent == pos.col,
    {
        Bound { width: self.width, height: pos.row, indent: pos.col }
    }
}

/// A range of either rows or columns. The start point is included, but not
/// the end point, so `Range(2, 4)` means rows/columns 2 and 3.
#[derive(PartialEq, Eq, Clone, Copy, Debug, Structural)]
pub struct Range<N>(pub N, pub N);

/// Two half-open intervals overlap: neither lies wholly left of the other.
pub open spec fn iv_overlaps(a: (int, int), b: (int, int)) -> bool {
    !(a.1 <= b.0) && !(b.1 <= a.0)
}

/// A half-open interval contains a point.
pub open spec fn iv_contains(a: (int, int), n: int) -> bool {
    a.0 <= n && n < a.1
}

/// One half-open interval covers another.
pub open spec fn iv_covers(a: (int, int), b: (int, int)) -> bool {
    a.0 <= b.0 && b.1 <= a.1
}

impl View for Range<Row> {
    type V = (int, int);

    open spec fn view(&self) -> (int, int) {
        (self.0 as int, self.1 as int)
    }
}

impl View for Range<Col> {
    type V = (int, int);

    open spec fn view(&self) -> (int, int) {
        (self.0 as int, self.1 as int)
    }
}

impl Range<Row> {
    /// Does this range share a point with `other`?
    pub fn overlaps(self, other: Range<Row>) -> (b: bool)
        ensures
            b == iv_overlaps(self@, other@),
    {
        !self.is_left_of(other) && !other.is_left_of(self)
    }

    /// Does this range contain `n`?
    pub fn contains(self, n: Row) -> (b: bool)
        ensures
            b == iv_contains(self@, n as int),
    {
        self.0 <= n && n < self.1
    }

    /// Does this range completely cover `other`?
    pub fn covers(self, other: Range<Row>) -> (b: bool)
        ensures
            b == iv_covers(self@, other@),
    {
        self.0 <= other.0 && other.1 <= self.1
    }

    /// Does this range end at or before the start of `other`?
    pub fn is_left_of(self, other: Range<Row>) -> (b: bool)
        ensures
            b == (self.1 <= other.0),
    {
        self.1 <= other.0
    }

    /// The offset of `n` from the start of this range, if it lies in it.
    pub fn transform(self, n: Row) -> (r: Option<Row>)
        ensures
            iv_contains(self@, n as int) ==> r == Some((n - self.0) as Row),
            !iv_contains(self@, n as int) ==> r is None,
    {
        if self.contains(n) {
            Some(n - self.0)
        } else {
            None
        }
    }

    /// Shift the range by `n`.
    pub fn add(self, n: Row) -> (r: Range<Row>)
        requires
            self.0 + n <= Row::MAX,
            self.1 + n <= Row::MAX,
        ensures
            r@ == (self@.0 + n, self@.1 + n),
    {
        Range(self.0 + n, self.1 + n)
    }

    /// Displays the range as `start-end`.
    pub fn to_string(&self) -> (s: String)
        ensures
            s@ == decimal(self.0 as nat).push('-') + decimal(self.1 as nat),
    {
        let mut s = String::new();
        push_decimal(&mut s, self.0 as u64);
        string_push(&mut s, '-');
        push_decimal(&mut s, self.1 as u64);
        s
    }
}

impl Range<Col> {
    /// Does this range share a point with `other`?
    pub fn overlaps(self, other: Range<Col>) -> (b: bool)
        ensures
            b == iv_overlaps(self@, other@),
    {
        !self.is_left_of(other) && !other.is_left_of(self)
    }

    /// Does this range contain `n`?
    pub fn contains(self, n: Col) -> (b: bool)
        ensures
            b == iv_contains(self@, n as int),
    {
        self.0 <= n && n < self.1
    }

    /// Does this range completely cover `other`?
    pub fn covers(self, other: Range<Col>) -> (b: bool)
        ensures
            b == iv_covers(self@, other@),
    {
        self.0 <= other.0 && other.1 <= self.1
    }

    /// Does this range end at or before the start of `other`?
    pub fn is_left_of(self, other: Range<Col>) -> (b: bool)
        ensures
            b == (self.1 <= other.0),
    {
        self.1 <= other.0
    }

    /// The offset of `n` from the start of this range, if it lies in it.
    pub fn transform(self, n: Col) -> (r: Option<Col>)
        ensures
            iv_contains(self@, n as int) ==> r == Some((n - self.0) as Col),
            !iv_contains(self@, n as int) ==> r is None,
    {
        if self.contains(n) {
            Some(n - self.0)
        } else {
            None
        }
    }

    /// Shift the range by `n`.
    pub fn add(self, n: Col) -> (r: Range<Col>)
        requires
            self.0 + n <= Col::MAX,
            self.1 + n <= Col::MAX,
        ensures
            r@ == (self@.0 + n, self@.1 + n),
    {
        Range(self.0 + n, self.1 + n)
    }

    /// Displays the range as `start-end`.
    pub fn to_string(&self) -> (s: String)
        ensures
            s@ == decimal(self.0 as nat).push('-') + decimal(self.1 as nat),
    {
        let mut s = String::new();
        push_decimal(&mut s, self.0 as u64);
        string_push(&mut s, '-');
        push_decimal(&mut s, self.1 as u64);
        s
    }
}

/// A rectangle, either on the screen, or on the document.
/// Includes its upper-left, but excludes its lower-right.
#[derive(PartialEq, Eq, Clone, Copy, Debug, Structural)]
pub struct Rect {
    pub rows: Range<Row>,
    pub cols: Range<Col>,
}

/// A rectangle as a pair of intervals: rows, then columns.
pub type RectV = ((int, int), (int, int));

pub open spec fn rect_overlaps(a: RectV, b: RectV) -> bool {
    iv_overlaps(a.1, b.1) && iv_overlaps(a.0, b.0)
}

pub open spec fn rect_covers(a: RectV, b: RectV) -> bool {
    iv_covers(a.1, b.1) && iv_covers(a.0, b.0)
}

pub open spec fn rect_contains(a: RectV, p: Pos) -> bool {
    iv_contains(a.1, p.col as int) && iv_contains(a.0, p.row as int)
}

impl View for Rect {
    type V = RectV;

    open spec fn view(&self) -> RectV {
        (self.rows@, self.cols@)
    }
}

impl Rect {
    /// Does this rectangle partially overlap the other rectangle?
    pub fn overlaps(&self, other: Rect) -> (b: bool)
        ensures
            b == rect_overlaps(self@, other@),
    {
        self.cols.overlaps(other.cols) && self.rows.overlaps(other.rows)
    }

    /// Does this rectangle completely cover the other rectangle?
    pub fn covers(&self, other: Rect) -> (b: bool)
        ensures
            b == rect_covers(self@, other@),
    {
        self.cols.covers(other.cols) && self.rows.covers(other.rows)
    }

    /// Does the Pos lie on this rectangle?
    pub fn contains(&self, pos: Pos) -> (b: bool)
        ensures
            b == rect_contains(self@, pos),
    {
        self.cols.contains(pos.col) && self.rows.contains(pos.row)
    }

    /// Transform a point to the coordinate system given by this rectangle.
    pub fn transform(&self, pos: Pos) -> (r: Option<Pos>)
        ensures
            rect_contains(self@, pos) ==> r == Some(
                Pos { col: (pos.col - self.cols.0) as Col, row: (pos.row - self.rows.0) as Row },
            ),
            !rect_contains(self@, pos) ==> r is None,
    {
        match (self.cols.transform(pos.col), self.rows.transform(pos.row)) {
            (Some(col), Some(row)) => Some(Pos { col: col, row: row }),
            (_, _) => None,
        }
    }

    /// Displays the rectangle as `row:col-row:col` (upper-left, then lower-right).
    pub fn to_string(&self) -> (s: String)
        ensures
            s@ == pos_text(Pos { row: self.rows.0, col: self.cols.0 }).push('-') + pos_text(
                Pos { row: self.rows.1, col: self.cols.1 },
            ),
    {
        let mut s = String::new();
        push_decimal(&mut s, self.rows.0 as u64);
        string_push(&mut s, ':');
        push_decimal(&mut s, self.cols.0 as u64);
        string_push(&mut s, '-');
        push_decimal(&mut s, self.rows.1 as u64);
        string_push(&mut s, ':');
        push_decimal(&mut s, self.cols.1 as u64);
        assert(s@ =~= pos_text(Pos { row: self.rows.0, col: self.cols.0 }).push('-') + pos_text(
            Pos { row: self.rows.1, col: self.cols.1 },
        ));
        s
    }
}

/// A region of the document. It has the same shape as a Bound,
/// but is positioned on the screen.
#[derive(PartialEq, Eq, Clone, Copy, Debug, Structural)]
pub struct Region {
    /// Upper left
    pub pos: Pos,
    pub bound: Bound,
}

impl Region {
    /// The region's corners, measured from its upper-left, all fit in the
    /// coordinate types (so that its rectangles can be computed).
    pub open spec fn fits(self) -> bool {
        &&& self.pos.col + self.bound.width <= Col::MAX
        &&& self.pos.col + self.bound.indent <= Col::MAX
        &&& self.pos.row + self.bound.height + 1 <= Row::MAX
    }

    /// All full lines of the region.
    pub open spec fn body_v(self) -> RectV {
        (
            (self.pos.row as int, self.pos.row + self.bound.height),
            (self.pos.col as int, self.pos.col + self.bound.width),
        )
    }

    /// The partial last line of the region.
    pub open spec fn last_line_v(self) -> RectV {
        (
            (self.pos.row + self.bound.height, self.pos.row + self.bound.height + 1),
            (self.pos.col as int, self.pos.col + self.bound.indent),
        )
    }

    /// The part of the last row that the region does not include.
    pub open spec fn negative_space_v(self) -> RectV {
        (
            (self.pos.row + self.bound.height, self.pos.row + self.bound.height + 1),
            (self.pos.col + self.bound.indent, self.pos.col + self.bound.width),
        )
    }

    /// The smallest rectangle around the region.
    pub open spec fn bounding_box_v(self) -> RectV {
        (
            (self.pos.row as int, self.pos.row + self.bound.height + 1),
            (self.pos.col as int, self.pos.col + self.bound.width),
        )
    }

    /// Whether the point `p` lies on this region.
    pub open spec fn spec_contains(self, p: Pos) -> bool {
        ||| self.pos.row <= p.row < self.pos.row + self.bound.height
            && self.pos.col <= p.col < self.pos.col + self.bound.width
        ||| p.row == self.pos.row + self.bound.height
            && self.pos.col <= p.col < self.pos.col + self.bound.indent
    }

    pub open spec fn spec_overlaps(self, other: Region) -> bool {
        ||| rect_overlaps(self.body_v(), other.body_v())
        ||| rect_overlaps(self.body_v(), other.last_line_v())
        ||| rect_overlaps(self.last_line_v(), other.body_v())
        ||| rect_overlaps(self.last_line_v(), other.last_line_v())
    }

    pub open spec fn spec_covers(self, other: Region) -> bool {
        &&& rect_covers(self.bounding_box_v(), other.body_v())
        &&& rect_covers(self.bounding_box_v(), other.last_line_v())
        &&& !rect_overlaps(self.negative_space_v(), other.body_v())
        &&& !rect_overlaps(self.negative_space_v(), other.last_line_v())
    }

    /// The character position just past the right end of the last line.
    pub open spec fn spec_end(self) -> Pos {
        Pos {
            row: (self.pos.row + self.bound.height) as Row,
            col: (self.pos.col + self.bound.indent) as Col,
        }
    }

    /// The region around a single character position.
    pub open spec fn spec_char_region(pos: Pos) -> Region {
        Region { pos: pos, bound: Bound { width: 1, height: 0, indent: 1 } }
    }

    /// The sub-region below and to the right of `pos`.
    pub open spec fn spec_subregion_from(self, pos: Pos) -> Region {
        Region {
            pos: pos,
            bound: spec_subbound_from(
                self.bound,
                Pos {
                    col: (pos.col - self.pos.col) as Col,
                    row: (pos.row - self.pos.row) as Row,
                },
            ),
        }
    }

    /// The last line is no wider than the full lines.
    pub open spec fn wf(self) -> bool {
        self.bound.indent <= self.bound.width
    }

    /// Shift the region by `pos`; the shifted upper-left must fit.
    pub fn add(self, pos: Pos) -> (r: Region)
        requires
            self.pos.col + pos.col <= Col::MAX,
            self.pos.row + pos.row <= Row::MAX,
        ensures
            r.pos.col == self.pos.col + pos.col,
            r.pos.row == self.pos.row + pos.row,
            r.bound == self.bound,
    {
        Region { pos: self.pos.add(pos), bound: self.bound }
    }

    /// The region around a single character position.
    pub fn char_region(pos: Pos) -> (r: Region)
        ensures
            r == Region::spec_char_region(pos),
    {
        Region { pos: pos, bound: Bound { width: 1, height: 0, indent: 1 } }
    }

    /// Does this region partially overlap the other region?
    pub fn overlaps(&self, other: Region) -> (b: bool)
        requires
            self.fits(),
            other.fits(),
        ensures
            b == self.spec_overlaps(other),
    {
        self.body().overlaps(other.body()) || self.body().overlaps(other.last_line())
            || self.last_line().overlaps(other.body()) || self.last_line().overlaps(
            other.last_line(),
        )
    }

    /// Does this region completely cover the other region?
    pub fn covers(&self, other: Region) -> (b: bool)
        requires
            self.fits(),
            other.fits(),
        ensures
            b == self.spec_covers(other),
    {
        self.bounding_box().covers(other.body()) && self.bounding_box().covers(other.last_line())
            && !self.negative_space().overlaps(other.body())
            && !self.negative_space().overlaps(other.last_line())
    }

    /// Does the Pos lie on this region?
    pub fn contains(&self, pos: Pos) -> (b: bool)
        requires
            self.fits(),
        ensures
            b == self.spec_contains(pos),
    {
        self.body().contains(pos) || self.last_line().contains(pos)
    }

    /// Transform a point to the coordinate system given by this region.
    pub fn transform(&self, pos: Pos) -> (r: Option<Pos>)
        requires
            self.fits(),
        ensures
            self.spec_contains(pos) ==> r == Some(
                Pos { col: (pos.col - self.pos.col) as Col, row: (pos.row - self.pos.row) as Row },
            ),
            !self.spec_contains(pos) ==> r is None,
    {
        match self.body().transform(pos) {
            Some(pos) => Some(pos),
            None => match self.last_line().transform(pos) {
                Some(pos) => Some(Pos { row: pos.row + self.bound.height, col: pos.col }),
                None => None,
            },
        }
    }

    /// Find the subregion that is within this region, but below and
    /// to the right of `pos`. Pos must be contained in this region.
    pub fn subregion_from(&self, pos: Pos) -> (r: Region)
        requires
            self.pos.col <= pos.col <= self.pos.col + self.bound.width,
            self.pos.row <= pos.row <= self.pos.row + self.bound.height,
            self.pos.col + self.bound.indent < pos.col ==> pos.row < self.pos.row
                + self.bound.height,
        ensures
            r == self.spec_subregion_from(pos),
    {
        let delta = pos.sub(self.beginning());
        let bound = self.bound.subbound_from(delta);
        Region { pos: pos, bound: bound }
    }

    pub fn width(&self) -> (w: Col)
        ensures
            w == self.bound.width,
    {
        self.bound.width
    }

    pub fn height(&self) -> (h: Row)
        ensures
            h == self.bound.height,
    {
        self.bound.height
    }

    pub fn indent(&self) -> (i: Col)
        ensures
            i == self.bound.indent,
    {
        self.bound.indent
    }

    /// The upper-left character position (same as `.pos`)
    pub fn beginning(&self) -> (p: Pos)
        ensures
            p == self.pos,
    {
        self.pos
    }

    /// The character position just past the end of the region
    /// (just past right character of last line).
    pub fn end(&self) -> (p: Pos)
        requires
            self.pos.col + self.bound.indent <= Col::MAX,
            self.pos.row + self.bound.height <= Row::MAX,
        ensures
            p == self.spec_end(),
    {
        self.pos.add(Pos { row: self.bound.height, col: self.bound.indent })
    }

    /// The difference between `end` and `beginning`.
    pub fn delta(&self) -> (p: Pos)
        requires
            self.pos.col + self.bound.indent <= Col::MAX,
            self.pos.row + self.bound.height <= Row::MAX,
        ensures
            p == (Pos { row: self.bound.height, col: self.bound.indent }),
    {
        self.end().sub(self.beginning())
    }

    /// Displays the region as `begin-end;width`.
    pub fn to_string(&self) -> (s: String)
        requires
            self.pos.col + self.bound.indent <= Col::MAX,
            self.pos.row + self.bound.height <= Row::MAX,
        ensures
            s@ == (pos_text(self.pos).push('-') + pos_text(self.spec_end())).push(';') + decimal(
                self.bound.width as nat,
            ),
    {
        let mut s = self.beginning().to_string();
        string_push(&mut s, '-');
        let e = self.end().to_string();
        s.append(e.as_str());
        string_push(&mut s, ';');
        push_decimal(&mut s, self.bound.width as u64);
        assert(s@ =~= (pos_text(self.pos).push('-') + pos_text(self.spec_end())).push(';')
            + decimal(self.bound.width as nat));
        s
    }

    /// All full lines of the region.
    pub fn body(&self) -> (r: Rect)
        requires
            self.fits(),
        ensures
            r@ == self.body_v(),
    {
        Rect {
            cols: Range(self.pos.col, self.pos.col + self.bound.width),
            rows: Range(self.pos.row, self.pos.row + self.bound.height),
        }
    }

    /// The partial last line of the region.
    pub fn last_line(&self) -> (r: Rect)
        requires
            self.fits(),
        ensures
            r@ == self.last_line_v(),
    {
        Rect {
            cols: Range(self.pos.col, self.pos.col + self.bound.indent),
            rows: Range(
                self.pos.row + self.bound.height,
                self.pos.row + self.bound.height + 1,
            ),
        }
    }

    /// The part of the last row to the right of the last line.
    pub fn negative_space(&self) -> (r: Rect)
        requires
            self.fits(),
        ensures
            r@ == self.negative_space_v(),
    {
        Rect {
            cols: Range(self.pos.col + self.bound.indent, self.pos.col + self.bound.width),
            rows: Range(
                self.pos.row + self.bound.height,
                self.pos.row + self.bound.height + 1,
            ),
        }
    }

    /// The smallest rectangle around the region.
    pub fn bounding_box(&self) -> (r: Rect)
        requires
            self.fits(),
        ensures
            r@ == self.bounding_box_v(),
    {
        Rect {
            cols: Range(self.pos.col, self.pos.col + self.bound.width),
            rows: Range(self.pos.row, self.pos.row + self.bound.height + 1),
        }
    }
}

/// Given two slices, find the length of their longest common prefix.
pub fn common_prefix_len<A: Eq>(p: &[A], q: &[A]) -> (n: usize)
    ensures
        n <= p@.len(),
        n <= q@.len(),
        A::obeys_eq_spec() ==> forall|i: int| 0 <= i < n ==> (#[trigger] p@[i]).eq_spec(&q@[i]),
        A::obeys_eq_spec() && n < p@.len() && n < q@.len() ==> !p@[n as int].eq_spec(
            &q@[n as int],
        ),
{
    let mut n: usize = 0;
    while n < p.len() && n < q.len()
        invariant
            n <= p@.len(),
            n <= q@.len(),
            A::obeys_eq_spec() ==> forall|i: int| 0 <= i < n ==> (#[trigger] p@[i]).eq_spec(&q@[i]),
        decreases p@.len() - n,
    {
        if p[n] == q[n] {
            n = n + 1;
        } else {
            return n;
        }
    }
    n
}

// Laws

/// Rectangles overlap symmetrically.
pub proof fn lemma_rect_overlaps_symmetric(a: Rect, b: Rect)
    ensures
        rect_overlaps(a@, b@) == rect_overlaps(b@, a@),
{
}

/// Every rectangle covers itself.
pub proof fn lemma_rect_covers_self(a: Rect)
    ensures
        rect_covers(a@, a@),
{
}

/// A rectangle includes its upper-left corner but excludes its lower-right.
pub proof fn lemma_rect_corners(a: Rect)
    requires
        a.rows.0 < a.rows.1,
        a.cols.0 < a.cols.1,
    ensures
        rect_contains(a@, Pos { row: a.rows.0, col: a.cols.0 }),
        !rect_contains(a@, Pos { row: a.rows.1, col: a.cols.1 }),
{
}

/// Regions overlap symmetrically.
pub proof fn lemma_region_overlaps_symmetric(a: Region, b: Region)
    ensures
        a.spec_overlaps(b) == b.spec_overlaps(a),
{
}

/// Two regions that share a point overlap.
pub proof fn lemma_region_common_point_overlaps(a: Region, b: Region, p: Pos)
    requires
        a.spec_contains(p),
        b.spec_contains(p),
    ensures
        a.spec_overlaps(b),
{
}

/// The point at the upper-left of where two overlapping rectangles meet.
pub open spec fn meeting_point(a: RectV, b: RectV) -> Pos {
    Pos {
        row: (if a.0.0 <= b.0.0 { b.0.0 } else { a.0.0 }) as Row,
        col: (if a.1.0 <= b.1.0 { b.1.0 } else { a.1.0 }) as Col,
    }
}

/// A rectangle with at least one row and one column.
pub open spec fn rect_nonempty(a: RectV) -> bool {
    a.0.0 < a.0.1 && a.1.0 < a.1.1
}

impl Region {
    /// A region without empty parts: its last line has at least one
    /// column, no more than its full lines, and a region of one line is as
    /// wide as that line.
    pub open spec fn solid(self) -> bool {
        &&& self.wf()
        &&& self.bound.indent > 0
        &&& self.bound.height == 0 ==> self.bound.indent == self.bound.width
    }

    /// The part of the region that stands for `part` (its body or its last
    /// line) when points are sought: the last line, for an empty body.
    pub open spec fn filled(self, part: RectV) -> RectV {
        if self.bound.height == 0 {
            self.last_line_v()
        } else {
            part
        }
    }
}

/// A part of a solid region, once filled, is not empty, lies in the region,
/// and overlaps whatever the part overlaps.
proof fn lemma_filled_part(a: Region, ra: RectV, x: RectV)
    requires
        a.solid(),
        ra == a.body_v() || ra == a.last_line_v(),
        rect_overlaps(ra, x),
    ensures
        rect_nonempty(a.filled(ra)),
        rect_overlaps(a.filled(ra), x),
        forall|p: Pos| rect_contains(a.filled(ra), p) ==> #[trigger] a.spec_contains(p),
{
}

/// Two overlapping rectangles, each one of the body or the last line of a
/// solid region whose corners fit, lead to a point that both regions hold.
proof fn lemma_parts_meet(a: Region, b: Region, ra: RectV, rb: RectV)
    requires
        a.fits(),
        b.fits(),
        a.solid(),
        b.solid(),
        ra == a.body_v() || ra == a.last_line_v(),
        rb == b.body_v() || rb == b.last_line_v(),
        rect_overlaps(ra, rb),
    ensures
        exists|p: Pos| a.spec_contains(p) && b.spec_contains(p),
{
    lemma_filled_part(a, ra, rb);
    let fa = a.filled(ra);
    lemma_filled_part(b, rb, fa);
    let fb = b.filled(rb);
    let p = meeting_point(fa, fb);
    assert(p.row as int == (if fa.0.0 <= fb.0.0 { fb.0.0 } else { fa.0.0 }));
    assert(p.col as int == (if fa.1.0 <= fb.1.0 { fb.1.0 } else { fa.1.0 }));
    assert(rect_contains(fa, p));
    assert(rect_contains(fb, p));
    assert(a.spec_contains(p) && b.spec_contains(p));
}

/// Regions overlap exactly when they share a point: if two solid regions
/// (whose corners fit) overlap, some position lies in both.
pub proof fn lemma_region_overlap_shares_point(a: Region, b: Region)
    requires
        a.fits(),
        b.fits(),
        a.solid(),
        b.solid(),
        a.spec_overlaps(b),
    ensures
        exists|p: Pos| a.spec_contains(p) && b.spec_contains(p),
{
    if rect_overlaps(a.body_v(), b.body_v()) {
        lemma_parts_meet(a, b, a.body_v(), b.body_v());
    } else if rect_overlaps(a.body_v(), b.last_line_v()) {
        lemma_parts_meet(a, b, a.body_v(), b.last_line_v());
    } else if rect_overlaps(a.last_line_v(), b.body_v()) {
        lemma_parts_meet(a, b, a.last_line_v(), b.body_v());
    } else {
        lemma_parts_meet(a, b, a.last_line_v(), b.last_line_v());
    }
}

/// If one region covers another, every point of the other lies in the first.
pub proof fn lemma_region_covers_contains(a: Region, b: Region, p: Pos)
    requires
        a.spec_covers(b),
        b.spec_contains(p),
    ensures
        a.spec_contains(p),
{
}

/// A region whose last line is no wider than its full lines covers itself.
pub proof fn lemma_region_covers_self(a: Region)
    requires
        a.wf(),
    ensures
        a.spec_covers(a),
{
}

/// The region around a character position contains exactly that position.
pub proof fn lemma_char_region_contains(p: Pos, q: Pos)
    ensures
        Region::spec_char_region(p).spec_contains(q) <==> q == p,
{
}

/// The sub-region from a point of a region lies within that region, and
/// starts at that point.
pub proof fn lemma_subregion_within(a: Region, p: Pos)
    requires
        a.wf(),
        a.spec_contains(p),
    ensures
        a.spec_covers(a.spec_subregion_from(p)),
        a.spec_subregion_from(p).pos == p,
{
}

} // verus!
