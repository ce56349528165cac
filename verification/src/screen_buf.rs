//! A screen full of styled characters. It buffers changes, and produces the
//! terminal instructions that bring the screen up to date.

use vstd::prelude::*;
use crate::coord::{Col, Pos, Row};

verus! {

/// Widths of characters and of the screen.
pub type Width = Col;
/// Heights of the screen.
pub type Height = Row;

/// The number of columns and rows of a screen.
#[derive(Clone, Copy, Debug, PartialEq, Eq, Structural)]
pub struct Size {
    pub width: Width,
    pub height: Height,
}

/// A color.
#[derive(Clone, Copy, Debug, PartialEq, Eq, Structural)]
pub struct Rgb {
    pub red: u8,
    pub green: u8,
    pub blue: u8,
}

/// How a character is drawn.
#[derive(Clone, Copy, Debug, PartialEq, Eq, Structural)]
pub struct ConcreteStyle {
    pub fg_color: Rgb,
    pub bg_color: Rgb,
    pub bold: bool,
    pub underlined: bool,
}

/// A single character on a screen, with its style and its width in columns.
#[derive(Clone, Copy, Debug, PartialEq, Eq, Structural)]
pub struct CharCell {
    pub ch: char,
    pub style: ConcreteStyle,
    pub width: Width,
}

/// Instructions for how to update a terminal.
#[derive(Clone, Copy, Debug, PartialEq, Eq, Structural)]
pub enum ScreenOp {
    /// Print a character at the current cursor position, and advance the cursor.
    Print(char),
    /// Set a persistent style that will apply to anything printed, until a new style is applied.
    Style(ConcreteStyle),
    /// Set the cursor position.
    Goto(Pos),
}

/// Errors from drawing on the screen.
#[derive(Clone, Copy, Debug, PartialEq, Eq, Structural)]
pub enum TermError {
    /// Position outside window boundary.
    OutOfBounds,
    /// Unknown key pressed.
    UnknownKey,
}

/// A screen of this size can be held and walked: its cells can be counted in
/// a `usize`, and a column one or two past its last one is still a column.
pub open spec fn size_fits(size: Size) -> bool {
    size.width * size.height <= usize::MAX && size.width < Width::MAX
}

/// Whether a screen of this size can be held (see `size_fits`).
pub fn screen_size_fits(size: Size) -> (b: bool)
    ensures
        b == size_fits(size),
{
    size.width < Width::MAX && (size.width as usize).checked_mul(size.height as usize).is_some()
}

pub open spec fn in_bounds(size: Size, pos: Pos) -> bool {
    pos.col < size.width && pos.row < size.height
}

/// Where the cell at `pos` is kept: cells are stored row by row.
pub open spec fn cell_index(size: Size, pos: Pos) -> int {
    pos.row * size.width + pos.col
}

pub open spec fn cell_at(cells: Seq<CharCell>, size: Size, pos: Pos) -> CharCell {
    cells[cell_index(size, pos)]
}

/// A grid of cells for a screen of `size`; every character is one or two columns wide.
pub open spec fn cells_ok(cells: Seq<CharCell>, size: Size) -> bool {
    &&& cells.len() == size.width * size.height
    &&& forall|i: int| 0 <= i < cells.len() ==> 1 <= #[trigger] cells[i].width <= 2
}

/// A cell inside the screen is stored inside the grid.
pub proof fn lemma_cell_index(size: Size, pos: Pos)
    requires
        in_bounds(size, pos),
    ensures
        0 <= cell_index(size, pos) < size.width * size.height,
{
    assert(pos.row * size.width + pos.col < size.width * size.height) by (nonlinear_arith)
        requires
            pos.col < size.width,
            pos.row < size.height,
    ;
}

/// A blank grid: every cell a space in `style`.
pub open spec fn blank_cells(size: Size, style: ConcreteStyle) -> Seq<CharCell> {
    Seq::new((size.width * size.height) as nat, |i: int| CharCell { ch: ' ', style, width: 1 })
}

/// A grid of characters covering the screen.
pub struct Buffer {
    cells: Vec<CharCell>,
    size: Size,
}

impl Buffer {
    pub closed spec fn cells(self) -> Seq<CharCell> {
        self.cells@
    }

    pub closed spec fn size(self) -> Size {
        self.size
    }

    fn new(size: Size, blank_style: ConcreteStyle) -> (b: Buffer)
        requires
            size_fits(size),
        ensures
            b.size() == size,
            b.cells() == blank_cells(size, blank_style),
            cells_ok(b.cells(), size),
    {
        let blank_cell = CharCell { ch: ' ', style: blank_style, width: 1 };
        let n = (size.width as usize) * (size.height as usize);
        let cells = vec![blank_cell; n];
        assert(cells@ =~= blank_cells(size, blank_style));
        Buffer { cells, size }
    }

    /// Where the cell at `pos` is kept, or `OutOfBounds`.
    fn index(&self, pos: Pos) -> (r: Result<usize, TermError>)
        requires
            size_fits(self.size()),
        ensures
            in_bounds(self.size(), pos) ==> r == Ok::<usize, TermError>(
                cell_index(self.size(), pos) as usize,
            ),
            !in_bounds(self.size(), pos) ==> r == Err::<usize, TermError>(TermError::OutOfBounds),
    {
        if pos.col >= self.size.width || pos.row >= self.size.height {
            Err(TermError::OutOfBounds)
        } else {
            proof {
                lemma_cell_index(self.size, pos);
            }
            Ok((pos.row as usize) * (self.size.width as usize) + (pos.col as usize))
        }
    }

    fn get(&self, pos: Pos) -> (r: Result<CharCell, TermError>)
        requires
            size_fits(self.size()),
            cells_ok(self.cells(), self.size()),
        ensures
            in_bounds(self.size(), pos) ==> r == Ok::<CharCell, TermError>(
                cell_at(self.cells(), self.size(), pos),
            ),
            !in_bounds(self.size(), pos) ==> r == Err::<CharCell, TermError>(TermError::OutOfBounds),
    {
        let i = self.index(pos)?;
        proof {
            lemma_cell_index(self.size, pos);
        }
        Ok(self.cells[i])
    }

    fn set(&mut self, pos: Pos, cell: CharCell) -> (r: Result<(), TermError>)
        requires
            size_fits(old(self).size()),
            cells_ok(old(self).cells(), old(self).size()),
            1 <= cell.width <= 2,
        ensures
            final(self).size() == old(self).size(),
            cells_ok(final(self).cells(), final(self).size()),
            in_bounds(old(self).size(), pos) ==> r == Ok::<(), TermError>(()) && final(self).cells()
                == old(self).cells().update(cell_index(old(self).size(), pos), cell),
            !in_bounds(old(self).size(), pos) ==> r == Err::<(), TermError>(TermError::OutOfBounds)
                && final(self).cells() == old(self).cells(),
    {
        let i = self.index(pos)?;
        proof {
            lemma_cell_index(self.size, pos);
        }
        self.cells.set(i, cell);
        Ok(())
    }
}

/// Where the walk over the screen goes after a character of width `w` at `pos`:
/// on along the row, or to the start of the next row, or nowhere after the last.
pub open spec fn next_cell_pos(size: Size, pos: Pos, w: Width) -> Option<Pos> {
    if pos.col + w >= size.width {
        if pos.row + 1 >= size.height {
            None
        } else {
            Some(Pos { row: (pos.row + 1) as Row, col: 0 })
        }
    } else {
        Some(Pos { row: pos.row, col: (pos.col + w) as Col })
    }
}

/// The state of a walk that turns the changes between two grids into
/// instructions: the grids, the style and cursor position the terminal has
/// (if known), and the cell the walk is at (`None` once it is done).
pub struct IterV {
    pub size: Size,
    pub new: Seq<CharCell>,
    pub old: Option<Seq<CharCell>>,
    pub screen_style: Option<ConcreteStyle>,
    pub screen_pos: Option<Pos>,
    pub buffer_pos: Option<Pos>,
}

/// The grids fit the screen, and the walk is at a cell of it (or done).
pub open spec fn iter_ok(st: IterV) -> bool {
    &&& size_fits(st.size)
    &&& cells_ok(st.new, st.size)
    &&& st.old matches Some(o) ==> cells_ok(o, st.size)
    &&& st.buffer_pos matches Some(p) ==> in_bounds(st.size, p)
}

/// The cell at `pos` has to be drawn: there is no old grid, or it differs there.
pub open spec fn is_dirty(st: IterV, pos: Pos) -> bool {
    match st.old {
        None => true,
        Some(o) => cell_at(o, st.size, pos) != cell_at(st.new, st.size, pos),
    }
}

pub open spec fn rows_left(st: IterV) -> int {
    match st.buffer_pos {
        Some(p) => st.size.height - p.row,
        None => 0,
    }
}

pub open spec fn cols_left(st: IterV) -> int {
    match st.buffer_pos {
        Some(p) => st.size.width - p.col,
        None => 0,
    }
}

/// How many instructions the cell the walk is at still needs before its
/// character is printed: a `Goto`, a `Style`, or neither.
pub open spec fn phase(st: IterV) -> int {
    match st.buffer_pos {
        Some(p) => if st.screen_pos != Some(p) {
            2
        } else if st.screen_style != Some(cell_at(st.new, st.size, p).style) {
            1
        } else {
            0
        },
        None => 0,
    }
}

/// The next instruction, and the state of the walk after it. Clean cells are
/// skipped; at a dirty cell the cursor is moved there if it is elsewhere,
/// then the style is set if it differs, then the character is printed.
pub open spec fn next_op(st: IterV) -> (Option<ScreenOp>, IterV)
    decreases rows_left(st), cols_left(st),
{
    match st.buffer_pos {
        None => (None, st),
        Some(pos) => if !iter_ok(st) {
            (None, st)
        } else {
            proof {
                lemma_cell_index(st.size, pos);
            }
            let cell = cell_at(st.new, st.size, pos);
            if is_dirty(st, pos) {
                if st.screen_pos != Some(pos) {
                    (Some(ScreenOp::Goto(pos)), IterV { screen_pos: Some(pos), ..st })
                } else if st.screen_style != Some(cell.style) {
                    (Some(ScreenOp::Style(cell.style)), IterV { screen_style: Some(cell.style), ..st })
                } else {
                    (
                        Some(ScreenOp::Print(cell.ch)),
                        IterV {
                            screen_pos: Some(Pos { row: pos.row, col: (pos.col + cell.width) as Col }),
                            buffer_pos: next_cell_pos(st.size, pos, cell.width),
                            ..st
                        },
                    )
                }
            } else {
                match next_cell_pos(st.size, pos, cell.width) {
                    Some(np) => next_op(IterV { buffer_pos: Some(np), ..st }),
                    None => (None, st),
                }
            }
        },
    }
}

/// Each instruction moves the walk on: to a later cell, or to a later
/// phase of the same cell; and the walk stays well formed.
pub proof fn lemma_next_op_progress(st: IterV)
    requires
        iter_ok(st),
        next_op(st).0 is Some,
    ensures
        iter_ok(next_op(st).1),
        next_op(st).1.size == st.size,
        next_op(st).1.new == st.new,
        next_op(st).1.old == st.old,
        0 <= rows_left(next_op(st).1) <= rows_left(st),
        rows_left(next_op(st).1) == rows_left(st) ==> 0 <= cols_left(next_op(st).1) <= cols_left(st),
        rows_left(next_op(st).1) == rows_left(st) && cols_left(next_op(st).1) == cols_left(st)
            ==> 0 <= phase(next_op(st).1) < phase(st),
    decreases rows_left(st), cols_left(st),
{
    let pos = st.buffer_pos->0;
    lemma_cell_index(st.size, pos);
    let cell = cell_at(st.new, st.size, pos);
    if !is_dirty(st, pos) {
        match next_cell_pos(st.size, pos, cell.width) {
            Some(np) => lemma_next_op_progress(IterV { buffer_pos: Some(np), ..st }),
            None => {},
        }
    }
}

/// Every instruction the walk gives, in order, until it is done.
pub open spec fn all_ops(st: IterV) -> Seq<ScreenOp>
    decreases rows_left(st), cols_left(st), phase(st),
{
    if !iter_ok(st) {
        Seq::empty()
    } else {
        match next_op(st) {
            (None, _) => Seq::empty(),
            (Some(op), st2) => {
                proof {
                    lemma_next_op_progress(st);
                }
                seq![op] + all_ops(st2)
            },
        }
    }
}

// What the instructions do to a terminal.

/// A terminal: what each cell shows, where the cursor is, and the style it prints in.
pub struct TermV {
    pub cells: Seq<CharCell>,
    pub cursor: Pos,
    pub style: ConcreteStyle,
}

/// Carry out one instruction on a terminal of `size`. Printing writes the
/// character in the current style at the cursor (if the cursor is on the
/// screen) and moves the cursor one column right.
pub open spec fn apply_op(size: Size, t: TermV, op: ScreenOp) -> TermV {
    match op {
        ScreenOp::Goto(p) => TermV { cursor: p, ..t },
        ScreenOp::Style(s) => TermV { style: s, ..t },
        ScreenOp::Print(c) => TermV {
            cells: if in_bounds(size, t.cursor) {
                t.cells.update(cell_index(size, t.cursor), CharCell { ch: c, style: t.style, width: 1 })
            } else {
                t.cells
            },
            cursor: Pos { row: t.cursor.row, col: (t.cursor.col + 1) as Col },
            ..t
        },
    }
}

/// Carry out instructions in order.
pub open spec fn apply_ops(size: Size, t: TermV, ops: Seq<ScreenOp>) -> TermV
    decreases ops.len(),
{
    if ops.len() == 0 {
        t
    } else {
        apply_ops(size, apply_op(size, t, ops[0]), ops.drop_first())
    }
}

/// How many cells the walk has finished with.
pub open spec fn cells_done(st: IterV) -> int {
    match st.buffer_pos {
        Some(p) => cell_index(st.size, p),
        None => st.new.len() as int,
    }
}

/// The terminal agrees with the walk: the cells it has finished with show
/// the new grid, the others still show the old grid (if there is one), and
/// the cursor and style are what the walk believes they are.
pub open spec fn term_follows(st: IterV, t: TermV) -> bool {
    &&& t.cells.len() == st.new.len()
    &&& forall|i: int| 0 <= i < cells_done(st) ==> #[trigger] t.cells[i] == st.new[i]
    &&& st.old matches Some(o) ==> forall|i: int|
        cells_done(st) <= i < st.new.len() ==> #[trigger] t.cells[i] == o[i]
    &&& st.screen_pos matches Some(p) ==> t.cursor == p
    &&& st.screen_style matches Some(s) ==> t.style == s
}

/// Every character of the grid is one column wide.
pub open spec fn all_narrow(cells: Seq<CharCell>) -> bool {
    forall|i: int| 0 <= i < cells.len() ==> #[trigger] cells[i].width == 1
}

/// With one-column characters the walk goes through the cells one by one,
/// in the order they are stored.
proof fn lemma_next_cell_index(size: Size, pos: Pos)
    requires
        size_fits(size),
        in_bounds(size, pos),
    ensures
        next_cell_pos(size, pos, 1) matches Some(np) ==> in_bounds(size, np) && cell_index(size, np)
            == cell_index(size, pos) + 1,
        next_cell_pos(size, pos, 1) is None ==> cell_index(size, pos) + 1 == size.width * size.height,
{
    if pos.col + 1 >= size.width {
        assert((pos.row + 1) * size.width == pos.row * size.width + size.width) by (nonlinear_arith);
        if pos.row + 1 >= size.height {
            assert(size.height * size.width == (pos.row + 1) * size.width);
            assert(size.width * size.height == size.height * size.width) by (nonlinear_arith);
        }
    }
}

/// One step of the walk keeps the terminal in agreement with it; and when
/// the walk has nothing more to say, the terminal shows the new grid.
proof fn lemma_step_follows(st: IterV, t: TermV)
    requires
        iter_ok(st),
        all_narrow(st.new),
        term_follows(st, t),
    ensures
        next_op(st).0 matches Some(op) ==> term_follows(next_op(st).1, apply_op(st.size, t, op)),
        next_op(st).0 is None ==> (st.old is Some || st.buffer_pos is None) ==> t.cells == st.new,
    decreases rows_left(st), cols_left(st),
{
    match st.buffer_pos {
        None => {
            assert(t.cells =~= st.new);
        },
        Some(pos) => {
            lemma_cell_index(st.size, pos);
            lemma_next_cell_index(st.size, pos);
            let k = cell_index(st.size, pos);
            let cell = cell_at(st.new, st.size, pos);
            assert(cell.width == 1);
            if is_dirty(st, pos) {
                if st.screen_pos != Some(pos) {
                } else if st.screen_style != Some(cell.style) {
                } else {
                    let t2 = apply_op(st.size, t, ScreenOp::Print(cell.ch));
                    assert(t2.cells[k] == st.new[k]);
                }
            } else {
                let o = st.old->0;
                assert(t.cells[k] == st.new[k]);
                match next_cell_pos(st.size, pos, cell.width) {
                    Some(np) => {
                        lemma_step_follows(IterV { buffer_pos: Some(np), ..st }, t);
                    },
                    None => {
                        assert(t.cells =~= st.new);
                    },
                }
            }
        },
    }
}

/// Carrying out the rest of the walk's instructions on a terminal that
/// agrees with it leaves the terminal showing the new grid.
proof fn lemma_walk_redraws(st: IterV, t: TermV)
    requires
        iter_ok(st),
        all_narrow(st.new),
        term_follows(st, t),
    ensures
        (st.old is Some || st.buffer_pos is None || next_op(st).0 is Some) ==> apply_ops(
            st.size,
            t,
            all_ops(st),
        ).cells == st.new,
    decreases rows_left(st), cols_left(st), phase(st),
{
    lemma_step_follows(st, t);
    match next_op(st) {
        (None, _) => {},
        (Some(op), st2) => {
            lemma_next_op_progress(st);
            let t2 = apply_op(st.size, t, op);
            assert(all_ops(st).drop_first() =~= all_ops(st2));
            lemma_walk_redraws(st2, t2);
            if st.old is None && st2.buffer_pos is Some && next_op(st2).0 is None {
                lemma_fresh_walk_speaks(st2);
            }
        },
    }
}

/// Without an old grid every cell is drawn, so the walk always has an
/// instruction to give until it is done.
proof fn lemma_fresh_walk_speaks(st: IterV)
    requires
        iter_ok(st),
        st.old is None,
        st.buffer_pos is Some,
    ensures
        next_op(st).0 is Some,
{
}

/// A law of `drain_changes`: carried out by a terminal that shows the grid
/// drawn before (any terminal, the first time), the instructions it gives
/// make the terminal show the newly drawn grid, when every character drawn
/// is one column wide.
pub proof fn lemma_drain_changes_redraws(st: IterV, t: TermV)
    requires
        iter_ok(st),
        st.screen_pos is None,
        st.screen_style is None,
        st.buffer_pos == Some(Pos { col: 0, row: 0 }),
        all_narrow(st.new),
        t.cells.len() == st.new.len(),
        st.old matches Some(o) ==> t.cells == o,
    ensures
        apply_ops(st.size, t, all_ops(st)).cells == st.new,
{
    assert(cell_index(st.size, Pos { col: 0, row: 0 }) == 0);
    lemma_walk_redraws(st, t);
    if st.old is None {
        lemma_fresh_walk_speaks(st);
    }
}

/// A walk over a grid that is the same as the old one, cell for cell,
/// gives no instruction.
proof fn lemma_clean_walk_silent(st: IterV)
    requires
        st.old == Some(st.new),
    ensures
        next_op(st).0 is None,
    decreases rows_left(st), cols_left(st),
{
    match st.buffer_pos {
        None => {},
        Some(pos) => {
            if iter_ok(st) {
                lemma_cell_index(st.size, pos);
                let cell = cell_at(st.new, st.size, pos);
                assert(!is_dirty(st, pos));
                match next_cell_pos(st.size, pos, cell.width) {
                    Some(np) => lemma_clean_walk_silent(IterV { buffer_pos: Some(np), ..st }),
                    None => {},
                }
            }
        },
    }
}

/// A law of `drain_changes`: when nothing changed since the last drain (the
/// grid drawn is the grid shown, cell for cell), no instruction is given.
pub proof fn lemma_no_change_no_ops(st: IterV)
    requires
        st.old == Some(st.new),
    ensures
        all_ops(st) == Seq::<ScreenOp>::empty(),
{
    lemma_clean_walk_silent(st);
}

/// What a screen holds: its size, the grid being drawn, the grid last shown
/// (if any), and the style of cells not yet drawn on.
pub struct ScreenBufV {
    pub size: Size,
    pub new: Seq<CharCell>,
    pub old: Option<Seq<CharCell>>,
    pub blank_style: ConcreteStyle,
}

/// Represents a screen full of characters. It buffers changes to the
/// characters, and can produce a set of instructions for efficiently updating
/// the screen to reflect those changes.
pub struct ScreenBuf {
    /// The number of lines and cols requested by the user (e.g. 0-by-5),
    /// even if there are no cells.
    size: Size,
    /// Grid of characters covering the screen.
    new_buffer: Buffer,
    /// Previous buffer, if any.
    old_buffer: Option<Buffer>,
    /// The style to use for cells that haven't been written to.
    blank_style: ConcreteStyle,
}

impl View for ScreenBuf {
    type V = ScreenBufV;

    closed spec fn view(&self) -> ScreenBufV {
        ScreenBufV {
            size: self.size,
            new: self.new_buffer.cells(),
            old: match self.old_buffer {
                Some(b) => Some(b.cells()),
                None => None,
            },
            blank_style: self.blank_style,
        }
    }
}

impl ScreenBuf {
    /// The buffer's size fits, and its grids have that size.
    pub closed spec fn wf(self) -> bool {
        &&& size_fits(self.size)
        &&& self.new_buffer.size() == self.size
        &&& cells_ok(self.new_buffer.cells(), self.size)
        &&& self.old_buffer matches Some(b) ==> b.size() == self.size && cells_ok(b.cells(), self.size)
    }

    /// Create a new ScreenBuf with the given number of rows and columns of
    /// character cells, all blank.
    pub fn new(size: Size, blank_style: ConcreteStyle) -> (s: ScreenBuf)
        requires
            size_fits(size),
        ensures
            s.wf(),
            s@.size == size,
            s@.new == blank_cells(size, blank_style),
            s@.old is None,
            s@.blank_style == blank_style,
    {
        ScreenBuf { new_buffer: Buffer::new(size, blank_style), old_buffer: None, size, blank_style }
    }

    /// Clear the screen buffer and change the number of rows and columns of
    /// character cells.
    pub fn resize(&mut self, size: Size)
        requires
            size_fits(size),
        ensures
            final(self).wf(),
            final(self)@ == (ScreenBufV {
                size,
                new: blank_cells(size, old(self)@.blank_style),
                old: None,
                blank_style: old(self)@.blank_style,
            }),
    {
        self.new_buffer = Buffer::new(size, self.blank_style);
        self.old_buffer = None;
        self.size = size;
    }

    /// The current size of the screen buffer (without checking the actual
    /// size of the terminal window, which might have changed recently).
    pub fn size(&self) -> (s: Size)
        ensures
            s == self@.size,
    {
        self.size
    }

    /// Display a character at the given window position in the given style.
    /// `width` is how many columns the character takes: 1, or 2 for a
    /// full-width character.
    pub fn display_char(&mut self, ch: char, pos: Pos, style: ConcreteStyle, width: Width) -> (r:
        Result<(), TermError>)
        requires
            old(self).wf(),
            1 <= width <= 2,
        ensures
            final(self).wf(),
            final(self)@.size == old(self)@.size,
            final(self)@.old == old(self)@.old,
            final(self)@.blank_style == old(self)@.blank_style,
            in_bounds(old(self)@.size, pos) ==> r == Ok::<(), TermError>(()) && final(self)@.new
                == old(self)@.new.update(
                cell_index(old(self)@.size, pos),
                CharCell { ch, style, width },
            ),
            !in_bounds(old(self)@.size, pos) ==> r == Err::<(), TermError>(TermError::OutOfBounds)
                && final(self)@.new == old(self)@.new,
    {
        self.new_buffer.set(pos, CharCell { ch, style, width })
    }
}

/// Produces instructions for updating a screen to match the changes in a
/// `ScreenBuf`.
pub struct ScreenBufIter<'a> {
    size: Size,
    new_buffer: &'a Buffer,
    old_buffer: Option<Buffer>,
    /// The last style applied to the screen. It persists until a new style is applied.
    screen_style: Option<ConcreteStyle>,
    /// The screen's cursor position. The next printed char will appear at this position.
    screen_pos: Option<Pos>,
    /// Which cell the iterator is considering (not the position of the
    /// terminal's cursor). `None` means it is done.
    buffer_pos: Option<Pos>,
}

impl<'a> View for ScreenBufIter<'a> {
    type V = IterV;

    closed spec fn view(&self) -> IterV {
        IterV {
            size: self.size,
            new: self.new_buffer.cells(),
            old: match self.old_buffer {
                Some(b) => Some(b.cells()),
                None => None,
            },
            screen_style: self.screen_style,
            screen_pos: self.screen_pos,
            buffer_pos: self.buffer_pos,
        }
    }
}

impl<'a> ScreenBufIter<'a> {
    /// The grids have the size the walk goes by.
    pub closed spec fn wf(self) -> bool {
        &&& self.new_buffer.size() == self.size
        &&& self.old_buffer matches Some(b) ==> b.size() == self.size
    }

    fn next_pos(&self, pos: Pos, char_width: Width) -> (r: Option<Pos>)
        requires
            size_fits(self.size),
            in_bounds(self.size, pos),
            char_width <= 2,
        ensures
            r == next_cell_pos(self.size, pos, char_width),
    {
        if pos.col + char_width >= self.size.width {
            // At the last column of a line
            if pos.row + 1 >= self.size.height {
                // At the last line too, that's the last position!
                None
            } else {
                // Go to start of next line
                Some(Pos { row: pos.row + 1, col: 0 })
            }
        } else {
            // Go forward 1 character
            Some(Pos { row: pos.row, col: pos.col + char_width })
        }
    }

    /// The next instruction, if any changes are left to draw.
    pub fn next(&mut self) -> (r: Option<ScreenOp>)
        requires
            old(self).wf(),
            iter_ok(old(self)@),
        ensures
            final(self).wf(),
            (r, final(self)@) == next_op(old(self)@),
    {
        loop
            invariant
                self.wf(),
                iter_ok(self@),
                next_op(self@) == next_op(old(self)@),
            decreases rows_left(self@), cols_left(self@),
        {
            let pos = match self.buffer_pos {
                None => return None,
                Some(pos) => pos,
            };
            proof {
                lemma_cell_index(self.size, pos);
            }
            let new_cell = match self.new_buffer.get(pos) {
                Ok(cell) => cell,
                Err(_) => return None,
            };
            let is_dirty = match &self.old_buffer {
                None => true,
                Some(old_buffer) => match old_buffer.get(pos) {
                    Ok(old_cell) => old_cell != new_cell,
                    Err(_) => return None,
                },
            };
            if is_dirty {
                // 1. Update position, if needed
                if !matches!(self.screen_pos, Some(p) if p == pos) {
                    self.screen_pos = Some(pos);
                    return Some(ScreenOp::Goto(pos));
                }
                // 2. Update style, if needed
                if !matches!(self.screen_style, Some(st) if st == new_cell.style) {
                    self.screen_style = Some(new_cell.style);
                    return Some(ScreenOp::Style(new_cell.style));
                }
                // 3. Write char
                self.screen_pos = Some(Pos { row: pos.row, col: pos.col + new_cell.width });
                self.buffer_pos = self.next_pos(pos, new_cell.width);
                return Some(ScreenOp::Print(new_cell.ch));
            } else if let Some(next_pos) = self.next_pos(pos, new_cell.width) {
                self.buffer_pos = Some(next_pos);
            } else {
                return None;
            }
        }
    }

    /// All the instructions that remain, in order.
    pub fn collect(self) -> (ops: Vec<ScreenOp>)
        requires
            self.wf(),
            iter_ok(self@),
        ensures
            ops@ == all_ops(self@),
    {
        let ghost start = self@;
        let mut it = self;
        let mut ops: Vec<ScreenOp> = Vec::new();
        loop
            invariant_except_break
                it.wf(),
                iter_ok(it@),
                ops@ + all_ops(it@) == all_ops(start),
            ensures
                ops@ == all_ops(start),
            decreases rows_left(it@), cols_left(it@), phase(it@),
        {
            let ghost before = it@;
            match it.next() {
                None => {
                    assert(ops@ =~= all_ops(start));
                    break;
                },
                Some(op) => {
                    proof {
                        lemma_next_op_progress(before);
                    }
                    ops.push(op);
                    assert(ops@ + all_ops(it@) =~= all_ops(start));
                },
            }
        }
        ops
    }
}

impl ScreenBuf {
    /// The instructions that describe all changes to the screen buffer since
    /// the last time this method was called. What was drawn becomes the old
    /// grid, and drawing starts again on a blank one.
    pub fn drain_changes(&mut self) -> (it: ScreenBufIter<'_>)
        requires
            old(self).wf(),
        ensures
            final(self).wf(),
            final(self)@ == (ScreenBufV {
                size: old(self)@.size,
                new: blank_cells(old(self)@.size, old(self)@.blank_style),
                old: Some(old(self)@.new),
                blank_style: old(self)@.blank_style,
            }),
            it.wf(),
            it@ == (IterV {
                size: old(self)@.size,
                new: old(self)@.new,
                old: old(self)@.old,
                screen_style: None,
                screen_pos: None,
                buffer_pos: Some(Pos { col: 0, row: 0 }),
            }),
            old(self)@.size.width > 0 && old(self)@.size.height > 0 ==> iter_ok(it@),
    {
        // Swap buffers
        let old_buffer = self.old_buffer.take();
        let mut new_buffer = Buffer::new(self.size, self.blank_style);
        std::mem::swap(&mut self.new_buffer, &mut new_buffer);
        self.old_buffer = Some(new_buffer);
        let new_ref = match &self.old_buffer {
            Some(b) => b,
            None => {
                assert(false);
                &self.new_buffer
            },
        };
        ScreenBufIter {
            size: self.size,
            old_buffer,
            new_buffer: new_ref,
            screen_style: None,
            screen_pos: None,
            buffer_pos: Some(Pos::zero()),
        }
    }
}

} // verus!
