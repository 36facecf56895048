//! The grid: a dense rectangle of cells around an origin, which grows when a
//! write falls outside it.

use vstd::arithmetic::div_mod::{
    lemma_div_pos_is_pos, lemma_fundamental_div_mod, lemma_fundamental_div_mod_converse,
    lemma_mod_bound,
};
use vstd::math::max;
use vstd::prelude::*;

use crate::l_system::cell::{Cell, Direction};

verus! {

/// A rectangle of cells. Logical position `(x, y)` lives at buffer position
/// `(x + shift[0], y + shift[1])`; the buffer is stored row by row, the row of
/// the lowest `y` first.
pub struct Grid {
    contents: Vec<Cell>,
    width: u32,
    height: u32,
    shift: [u32; 2],
}

/// The mathematical content of a [`Grid`].
pub struct GridView {
    pub width: int,
    pub height: int,
    pub shift_x: int,
    pub shift_y: int,
    pub cells: Seq<Cell>,
}

impl GridView {
    /// Number of columns left of the origin column.
    pub open spec fn left(self) -> int {
        self.shift_x
    }

    /// Number of columns right of the origin column.
    pub open spec fn right(self) -> int {
        self.width - self.shift_x - 1
    }

    /// Number of rows below the origin row.
    pub open spec fn bottom(self) -> int {
        self.shift_y
    }

    /// Number of rows above the origin row.
    pub open spec fn top(self) -> int {
        self.height - self.shift_y - 1
    }

    /// The buffer has `width * height` cells and the origin lies inside it.
    pub open spec fn shaped(self) -> bool {
        &&& 0 <= self.shift_x < self.width
        &&& 0 <= self.shift_y < self.height
        &&& self.cells.len() == self.width * self.height
    }

    /// The grid is [`Self::shaped`], and every stored cell has a logical
    /// position whose coordinates and their negatives are `i32` values.
    pub open spec fn wf(self) -> bool {
        &&& 0 <= self.left() <= i32::MAX
        &&& 0 <= self.right() <= i32::MAX
        &&& 0 <= self.bottom() <= i32::MAX
        &&& 0 <= self.top() <= i32::MAX
        &&& self.cells.len() == self.width * self.height
    }

    /// Whether the logical position is stored.
    pub open spec fn contains(self, x: int, y: int) -> bool {
        -self.left() <= x <= self.right() && -self.bottom() <= y <= self.top()
    }

    /// Buffer index of a logical position.
    pub open spec fn index_of(self, x: int, y: int) -> int {
        (x + self.shift_x) + (y + self.shift_y) * self.width
    }

    /// Logical `x` of a buffer index.
    pub open spec fn x_of(self, i: int) -> int {
        i % self.width - self.shift_x
    }

    /// Logical `y` of a buffer index.
    pub open spec fn y_of(self, i: int) -> int {
        i / self.width - self.shift_y
    }

    /// Two grids have the same size and origin.
    pub open spec fn same_sides(self, other: GridView) -> bool {
        &&& self.width == other.width
        &&& self.height == other.height
        &&& self.shift_x == other.shift_x
        &&& self.shift_y == other.shift_y
    }

    /// The cell at a logical position: what is stored there, `Empty` outside.
    pub open spec fn at(self, x: int, y: int) -> Cell {
        if self.contains(x, y) {
            self.cells[self.index_of(x, y)]
        } else {
            Cell::Empty
        }
    }

    /// The grid seen through another rectangle around the same origin: the
    /// given numbers of columns and rows on each side, each position holding
    /// what `self` has there.
    pub open spec fn window(self, left: int, right: int, bottom: int, top: int) -> GridView {
        let width = left + right + 1;
        let height = bottom + top + 1;
        GridView {
            width,
            height,
            shift_x: left,
            shift_y: bottom,
            cells: Seq::new(
                (width * height) as nat,
                |i: int| self.at(i % width - left, i / width - bottom),
            ),
        }
    }

    /// A rectangle with these sides can be stored.
    pub open spec fn window_fits(left: int, right: int, bottom: int, top: int) -> bool {
        &&& 0 <= left <= i32::MAX
        &&& 0 <= right <= i32::MAX
        &&& 0 <= bottom <= i32::MAX
        &&& 0 <= top <= i32::MAX
        &&& (left + right + 1) * (bottom + top + 1) <= usize::MAX
    }

    /// The smallest window of `self` that keeps all of `self` and reaches the
    /// box of columns `x0..=x1` and rows `y0..=y1`.
    pub open spec fn cover(self, x0: int, x1: int, y0: int, y1: int) -> GridView {
        self.window(
            max(self.left(), -x0),
            max(self.right(), x1),
            max(self.bottom(), -y0),
            max(self.top(), y1),
        )
    }

    /// Whether [`Self::cover`] of that box can be stored.
    pub open spec fn cover_fits(self, x0: int, x1: int, y0: int, y1: int) -> bool {
        GridView::window_fits(
            max(self.left(), -x0),
            max(self.right(), x1),
            max(self.bottom(), -y0),
            max(self.top(), y1),
        )
    }

    /// `self` with one stored cell replaced.
    pub open spec fn set(self, x: int, y: int, cell: Cell) -> GridView {
        GridView { cells: self.cells.update(self.index_of(x, y), cell), ..self }
    }

    /// Whether a write of `cell` at `(x, y)` can be stored.
    pub open spec fn insert_cell_fits(self, cell: Cell, x: int, y: int) -> bool {
        (cell is Empty && !self.contains(x, y)) || self.cover_fits(x, x, y, y)
    }

    /// The grid after a write of `cell` at `(x, y)`: `Empty` written outside
    /// changes nothing; any other write first grows the grid to reach `(x, y)`.
    pub open spec fn insert_cell(self, cell: Cell, x: int, y: int) -> GridView {
        if cell is Empty && !self.contains(x, y) {
            self
        } else {
            self.cover(x, x, y, y).set(x, y, cell)
        }
    }
}

/// Row-major indexing: a buffer position inside a `w` by `h` rectangle has an
/// index below `w * h`, from which division by `w` gives the position back.
pub proof fn lemma_index_of_position(x: int, y: int, w: int, h: int)
    requires
        0 <= x < w,
        0 <= y < h,
    ensures
        0 <= x + y * w < w * h,
        (x + y * w) % w == x,
        (x + y * w) / w == y,
{
    assert(0 <= y * w && y * w + w <= h * w) by (nonlinear_arith)
        requires
            0 <= y,
            y + 1 <= h,
            w > 0,
    ;
    assert(h * w == w * h) by (nonlinear_arith);
    lemma_fundamental_div_mod_converse(x + y * w, w, y, x);
}

/// Row-major indexing, the other way: an index below `w * h` splits into a
/// column below `w` and a row below `h`.
pub proof fn lemma_position_of_index(i: int, w: int, h: int)
    requires
        0 < w,
        0 <= i < w * h,
    ensures
        0 <= i % w < w,
        0 <= i / w < h,
        i == i % w + (i / w) * w,
{
    lemma_fundamental_div_mod(i, w);
    lemma_mod_bound(i, w);
    lemma_div_pos_is_pos(i, w);
    let q = i / w;
    assert(w * q == q * w) by (nonlinear_arith);
    if q >= h {
        assert(q * w >= h * w) by (nonlinear_arith)
            requires
                q >= h,
                w > 0,
        ;
        assert(h * w == w * h) by (nonlinear_arith);
    }
}

impl GridView {
    /// Every index of a well-formed grid is the index of its own position,
    /// and that position is stored.
    pub proof fn lemma_index_round_trip(self, i: int)
        requires
            self.shaped(),
            0 <= i < self.cells.len(),
        ensures
            self.contains(self.x_of(i), self.y_of(i)),
            self.index_of(self.x_of(i), self.y_of(i)) == i,
            self.at(self.x_of(i), self.y_of(i)) == self.cells[i],
    {
        lemma_position_of_index(i, self.width, self.height);
    }

    /// Every stored position of a well-formed grid has an index, from which
    /// the position comes back.
    pub proof fn lemma_position_round_trip(self, x: int, y: int)
        requires
            self.shaped(),
            self.contains(x, y),
        ensures
            0 <= self.index_of(x, y) < self.cells.len(),
            self.x_of(self.index_of(x, y)) == x,
            self.y_of(self.index_of(x, y)) == y,
    {
        lemma_index_of_position(x + self.shift_x, y + self.shift_y, self.width, self.height);
    }

    /// A window has the sides asked for, and shows at every position inside
    /// it what `self` has there. It is well formed where its sides are within
    /// what positions can name.
    pub proof fn lemma_window(self, left: int, right: int, bottom: int, top: int)
        requires
            0 <= left,
            0 <= right,
            0 <= bottom,
            0 <= top,
        ensures
            self.window(left, right, bottom, top).shaped(),
            left <= i32::MAX && right <= i32::MAX && bottom <= i32::MAX && top <= i32::MAX
                ==> self.window(left, right, bottom, top).wf(),
            self.window(left, right, bottom, top).left() == left,
            self.window(left, right, bottom, top).right() == right,
            self.window(left, right, bottom, top).bottom() == bottom,
            self.window(left, right, bottom, top).top() == top,
            forall|x: int, y: int| #[trigger]
                self.window(left, right, bottom, top).at(x, y) == if -left <= x <= right && -bottom
                    <= y <= top {
                    self.at(x, y)
                } else {
                    Cell::Empty
                },
    {
        let w = self.window(left, right, bottom, top);
        assert((left + right + 1) * (bottom + top + 1) >= 0) by (nonlinear_arith)
            requires
                left + right + 1 >= 0,
                bottom + top + 1 >= 0,
        ;
        assert forall|x: int, y: int| #[trigger]
            w.at(x, y) == if -left <= x <= right && -bottom <= y <= top {
                self.at(x, y)
            } else {
                Cell::Empty
            } by {
            if w.contains(x, y) {
                lemma_index_of_position(x + left, y + bottom, w.width, w.height);
            }
        }
    }

    /// The window with the grid's own sides is the grid.
    pub proof fn lemma_window_same(self)
        requires
            self.wf(),
        ensures
            self.window(self.left(), self.right(), self.bottom(), self.top()) == self,
    {
        let w = self.window(self.left(), self.right(), self.bottom(), self.top());
        assert(w.cells.len() == self.cells.len());
        assert forall|i: int| 0 <= i < self.cells.len() implies w.cells[i] == self.cells[i] by {
            self.lemma_index_round_trip(i);
        }
        assert(w.cells =~= self.cells);
    }

    /// Two well-formed grids with the same sides that agree at every position
    /// are the same grid.
    pub proof fn lemma_equal_by_positions(self, other: GridView)
        requires
            self.wf(),
            other.wf(),
            self.width == other.width,
            self.height == other.height,
            self.shift_x == other.shift_x,
            self.shift_y == other.shift_y,
            forall|x: int, y: int| self.contains(x, y) ==> self.at(x, y) == other.at(x, y),
        ensures
            self == other,
    {
        assert forall|i: int| 0 <= i < self.cells.len() implies self.cells[i] == other.cells[i] by {
            self.lemma_index_round_trip(i);
            other.lemma_index_round_trip(i);
        }
        assert(self.cells =~= other.cells);
    }

    /// What a single write does, position by position, whatever the size of
    /// the grid and wherever the position: the written position holds the
    /// cell and, unless `Empty` was written outside, is stored; every other
    /// position holds what it held; and the sides are the least that reach
    /// the written position. The grid stays well formed where the write can
    /// be stored.
    pub proof fn lemma_insert_cell(self, cell: Cell, x: int, y: int)
        requires
            self.shaped(),
        ensures
            self.insert_cell(cell, x, y).shaped(),
            self.wf() && self.insert_cell_fits(cell, x, y) ==> self.insert_cell(cell, x, y).wf(),
            self.insert_cell(cell, x, y).at(x, y) == cell,
            !(cell is Empty) ==> self.insert_cell(cell, x, y).contains(x, y),
            forall|u: int, v: int|
                (u, v) != (x, y) ==> #[trigger] self.insert_cell(cell, x, y).at(u, v) == self.at(
                    u,
                    v,
                ),
            !(cell is Empty && !self.contains(x, y)) ==> {
                &&& self.insert_cell(cell, x, y).left() == max(self.left(), -x)
                &&& self.insert_cell(cell, x, y).right() == max(self.right(), x)
                &&& self.insert_cell(cell, x, y).bottom() == max(self.bottom(), -y)
                &&& self.insert_cell(cell, x, y).top() == max(self.top(), y)
            },
    {
        if cell is Empty && !self.contains(x, y) {
        } else {
            let l = max(self.left(), -x);
            let r = max(self.right(), x);
            let b = max(self.bottom(), -y);
            let t = max(self.top(), y);
            self.lemma_window(l, r, b, t);
            let g = self.cover(x, x, y, y);
            let s = g.set(x, y, cell);
            g.lemma_position_round_trip(x, y);
            assert forall|u: int, v: int| (u, v) != (x, y) implies #[trigger] s.at(u, v)
                == self.at(u, v) by {
                if s.contains(u, v) {
                    g.lemma_position_round_trip(u, v);
                    assert(g.at(u, v) == self.at(u, v));
                }
            }
        }
    }
}

impl View for Grid {
    type V = GridView;

    closed spec fn view(&self) -> GridView {
        GridView {
            width: self.width as int,
            height: self.height as int,
            shift_x: self.shift[0] as int,
            shift_y: self.shift[1] as int,
            cells: self.contents@,
        }
    }
}

impl Grid {
    /// The invariant of a grid, see [`GridView::wf`].
    pub open spec fn wf(&self) -> bool {
        self@.wf()
    }

    /// A grid of the given size, cells and origin.
    pub fn new(width: u32, height: u32, contents: Vec<Cell>, shift: [u32; 2]) -> (grid: Grid)
        requires
            width > shift[0],
            height > shift[1],
            width * height == contents.len(),
            shift[0] <= i32::MAX,
            shift[1] <= i32::MAX,
            width - shift[0] - 1 <= i32::MAX,
            height - shift[1] - 1 <= i32::MAX,
        ensures
            grid.wf(),
            grid@ == (GridView {
                width: width as int,
                height: height as int,
                shift_x: shift[0] as int,
                shift_y: shift[1] as int,
                cells: contents@,
            }),
    {
        Grid { contents, width, height, shift }
    }

    /// The grid of one cell, at the origin.
    pub fn single(item: Cell) -> (grid: Grid)
        ensures
            grid.wf(),
            grid@ == (GridView { width: 1, height: 1, shift_x: 0, shift_y: 0, cells: seq![item] }),
    {
        let mut contents: Vec<Cell> = Vec::new();
        contents.push(item);
        assert(contents@ =~= seq![item]);
        Grid { contents, width: 1, height: 1, shift: [0, 0] }
    }

    /// One row of cells, the origin at column `shift`.
    pub fn horizontal(contents: &[Cell], shift: u32) -> (grid: Grid)
        requires
            contents.len() > shift,
            shift <= i32::MAX,
            contents.len() - shift - 1 <= i32::MAX,
        ensures
            grid.wf(),
            grid@ == (GridView {
                width: contents.len() as int,
                height: 1,
                shift_x: shift as int,
                shift_y: 0,
                cells: contents@,
            }),
    {
        let cells: Vec<Cell> = vstd::slice::slice_to_vec(contents);
        Grid { contents: cells, width: contents.len() as u32, height: 1, shift: [shift, 0] }
    }

    /// One column of cells, lowest first, the origin at row `shift`.
    pub fn vertical(contents: Vec<Cell>, shift: u32) -> (grid: Grid)
        requires
            contents.len() > shift,
            shift <= i32::MAX,
            contents.len() - shift - 1 <= i32::MAX,
        ensures
            grid.wf(),
            grid@ == (GridView {
                width: 1,
                height: contents.len() as int,
                shift_x: 0,
                shift_y: shift as int,
                cells: contents@,
            }),
    {
        let height: u32 = contents.len() as u32;
        Grid { contents, width: 1, height, shift: [0, shift] }
    }

    fn pos_to_index(&self, pos: [i32; 2]) -> (i: usize)
        requires
            self.wf(),
            self@.contains(pos[0] as int, pos[1] as int),
        ensures
            i == self@.index_of(pos[0] as int, pos[1] as int),
            i < self@.cells.len(),
    {
        self.raw_pos_to_index(self.pos_to_raw_pos(pos))
    }

    fn raw_pos_to_index(&self, raw_pos: [u32; 2]) -> (i: usize)
        requires
            self.wf(),
            raw_pos[0] < self@.width,
            raw_pos[1] < self@.height,
        ensures
            i == raw_pos[0] + raw_pos[1] * self@.width,
            i < self@.cells.len(),
    {
        let len: usize = self.contents.len();
        proof {
            lemma_index_of_position(
                raw_pos[0] as int,
                raw_pos[1] as int,
                self.width as int,
                self.height as int,
            );
            assert(0 <= raw_pos[1] * self.width) by (nonlinear_arith)
                requires
                    0 <= raw_pos[1],
                    0 <= self.width,
            ;
            assert(raw_pos[0] + raw_pos[1] * self.width < len);
        }
        raw_pos[0] as usize + raw_pos[1] as usize * self.width as usize
    }

    /// Buffer position of a logical position that lies on or beyond the left
    /// and bottom edges.
    pub fn pos_to_raw_pos(&self, pos: [i32; 2]) -> (raw: [u32; 2])
        requires
            self.wf(),
            pos[0] + self@.shift_x >= 0,
            pos[1] + self@.shift_y >= 0,
        ensures
            raw[0] == pos[0] + self@.shift_x,
            raw[1] == pos[1] + self@.shift_y,
    {
        [
            (pos[0] as i64 + self.shift[0] as i64) as u32,
            (pos[1] as i64 + self.shift[1] as i64) as u32,
        ]
    }

    /// Logical position of a buffer position inside the grid.
    pub fn raw_pos_to_pos(&self, raw_pos: [u32; 2]) -> (pos: [i32; 2])
        requires
            self.wf(),
            raw_pos[0] < self@.width,
            raw_pos[1] < self@.height,
        ensures
            pos[0] == raw_pos[0] - self@.shift_x,
            pos[1] == raw_pos[1] - self@.shift_y,
    {
        [
            (raw_pos[0] as i64 - self.shift[0] as i64) as i32,
            (raw_pos[1] as i64 - self.shift[1] as i64) as i32,
        ]
    }

    /// The cell at a stored logical position.
    pub fn at_unchecked(&self, pos: [i32; 2]) -> (cell: Cell)
        requires
            self.wf(),
            self@.contains(pos[0] as int, pos[1] as int),
        ensures
            cell == self@.at(pos[0] as int, pos[1] as int),
    {
        self.contents[self.pos_to_index(pos)]
    }

    /// The cell at a buffer position inside the grid.
    pub fn at_raw_unchecked(&self, raw_pos: [u32; 2]) -> (cell: Cell)
        requires
            self.wf(),
            raw_pos[0] < self@.width,
            raw_pos[1] < self@.height,
        ensures
            cell == self@.cells[raw_pos[0] + raw_pos[1] * self@.width],
            cell == self@.at(raw_pos[0] - self@.shift_x, raw_pos[1] - self@.shift_y),
    {
        self.contents[self.raw_pos_to_index(raw_pos)]
    }

    /// The cell at a logical position, `Empty` outside the grid.
    pub fn at(&self, pos: [i32; 2]) -> (cell: Cell)
        requires
            self.wf(),
        ensures
            cell == self@.at(pos[0] as int, pos[1] as int),
    {
        if !self.contains(pos) {
            return Cell::Empty;
        }
        self.contents[self.pos_to_index(pos)]
    }

    /// The cell at a buffer position, `Empty` outside the grid.
    pub fn at_raw(&self, raw_pos: [u32; 2]) -> (cell: Cell)
        requires
            self.wf(),
        ensures
            cell == self@.at(raw_pos[0] - self@.shift_x, raw_pos[1] - self@.shift_y),
    {
        if !self.contains_raw(raw_pos) {
            return Cell::Empty;
        }
        self.contents[self.raw_pos_to_index(raw_pos)]
    }

    /// The position `pos` as seen from `other_pos`.
    pub fn pos_to_other_pos(&self, pos: [i32; 2], other_pos: [i32; 2]) -> (r: [i32; 2])
        requires
            i32::MIN <= pos[0] - other_pos[0] <= i32::MAX,
            i32::MIN <= pos[1] - other_pos[1] <= i32::MAX,
        ensures
            r[0] == pos[0] - other_pos[0],
            r[1] == pos[1] - other_pos[1],
    {
        [pos[0] - other_pos[0], pos[1] - other_pos[1]]
    }

    /// Whether the logical position is stored.
    pub fn contains(&self, pos: [i32; 2]) -> (r: bool)
        requires
            self.wf(),
        ensures
            r == self@.contains(pos[0] as int, pos[1] as int),
    {
        let x: i64 = pos[0] as i64 + self.shift[0] as i64;
        let y: i64 = pos[1] as i64 + self.shift[1] as i64;
        x >= 0 && y >= 0 && x < self.width as i64 && y < self.height as i64
    }

    /// Whether the buffer position is inside the grid.
    pub fn contains_raw(&self, pos: [u32; 2]) -> (r: bool)
        ensures
            r == (pos[0] < self@.width && pos[1] < self@.height),
    {
        pos[0] < self.width && pos[1] < self.height
    }

    /// The cells in buffer order.
    pub fn contents(&self) -> (cells: &Vec<Cell>)
        ensures
            cells@ == self@.cells,
    {
        &self.contents
    }

    /// The number of columns.
    pub fn width(&self) -> (w: u32)
        ensures
            w == self@.width,
    {
        self.width
    }

    /// The number of rows.
    pub fn height(&self) -> (h: u32)
        ensures
            h == self@.height,
    {
        self.height
    }

    /// The buffer position of the origin.
    pub fn shift(&self) -> (s: [u32; 2])
        ensures
            s[0] == self@.shift_x,
            s[1] == self@.shift_y,
    {
        self.shift
    }
}

impl GridView {
    /// Rows above the origin once the grid is turned by `dir`.
    pub open spec fn turned_top(self, dir: Direction) -> int {
        match dir {
            Direction::UP => self.top(),
            Direction::LEFT => self.right(),
            Direction::DOWN => self.bottom(),
            Direction::RIGHT => self.left(),
        }
    }

    /// Columns left of the origin once the grid is turned by `dir`.
    pub open spec fn turned_left(self, dir: Direction) -> int {
        match dir {
            Direction::UP => self.left(),
            Direction::LEFT => self.top(),
            Direction::DOWN => self.right(),
            Direction::RIGHT => self.bottom(),
        }
    }

    /// Rows below the origin once the grid is turned by `dir`.
    pub open spec fn turned_bottom(self, dir: Direction) -> int {
        match dir {
            Direction::UP => self.bottom(),
            Direction::LEFT => self.left(),
            Direction::DOWN => self.top(),
            Direction::RIGHT => self.right(),
        }
    }

    /// Columns right of the origin once the grid is turned by `dir`.
    pub open spec fn turned_right(self, dir: Direction) -> int {
        match dir {
            Direction::UP => self.right(),
            Direction::LEFT => self.bottom(),
            Direction::DOWN => self.left(),
            Direction::RIGHT => self.top(),
        }
    }

    /// Whether `self` can be stored once grown for the pattern `other`,
    /// turned by `dir` and laid with its origin at `(x, y)`.
    pub open spec fn insert_fits(self, other: GridView, x: int, y: int, dir: Direction) -> bool {
        self.cover_fits(
            x - other.turned_left(dir),
            x + other.turned_right(dir),
            y - other.turned_bottom(dir),
            y + other.turned_top(dir),
        )
    }

    /// The cell that the pattern `self`, turned by `dir` and laid with its
    /// origin at `(x, y)`, brings to position `(u, v)`; `Empty` where it
    /// brings nothing.
    pub open spec fn stamped_at(self, x: int, y: int, dir: Direction, u: int, v: int) -> Cell {
        let (lx, ly) = dir.inverse().rotate_point(u - x, v - y);
        self.at(lx, ly).rotated(dir)
    }

    /// `self` with the cells that `other` brings written over its own, and
    /// nothing else changed. The sides stay as they are.
    pub open spec fn stamp(self, other: GridView, x: int, y: int, dir: Direction) -> GridView {
        GridView {
            cells: Seq::new(
                self.cells.len(),
                |i: int|
                    {
                        let c = other.stamped_at(x, y, dir, self.x_of(i), self.y_of(i));
                        if c is Empty {
                            self.cells[i]
                        } else {
                            c
                        }
                    },
            ),
            ..self
        }
    }

    /// [`Self::stamp`] with only the first `k` buffer cells of `other` written.
    #[verifier::opaque]
    pub open spec fn stamp_prefix(
        self,
        other: GridView,
        x: int,
        y: int,
        dir: Direction,
        k: int,
    ) -> GridView {
        GridView {
            cells: Seq::new(
                self.cells.len(),
                |i: int|
                    {
                        let (lx, ly) = dir.inverse().rotate_point(
                            self.x_of(i) - x,
                            self.y_of(i) - y,
                        );
                        let c = other.at(lx, ly);
                        if c is Empty || other.index_of(lx, ly) >= k {
                            self.cells[i]
                        } else {
                            c.rotated(dir)
                        }
                    },
            ),
            ..self
        }
    }

    /// The grid after the pattern `other`, turned by `dir`, is stamped with
    /// its origin at `(x, y)`: grown to reach the whole turned rectangle of
    /// `other`, then overwritten by every cell of `other` that is not `Empty`.
    pub open spec fn insert(self, other: GridView, x: int, y: int, dir: Direction) -> GridView {
        self.cover(
            x - other.turned_left(dir),
            x + other.turned_right(dir),
            y - other.turned_bottom(dir),
            y + other.turned_top(dir),
        ).stamp(other, x, y, dir)
    }

    /// Whether the outermost row or column on the side `dir` can go: it is not
    /// the one through the origin.
    pub open spec fn can_contract(self, dir: Direction) -> bool {
        match dir {
            Direction::UP => self.top() > 0,
            Direction::LEFT => self.left() > 0,
            Direction::DOWN => self.bottom() > 0,
            Direction::RIGHT => self.right() > 0,
        }
    }

    /// The grid without its outermost row or column on the side `dir`; the
    /// grid itself where that cannot go.
    pub open spec fn contract(self, dir: Direction) -> GridView {
        if !self.can_contract(dir) {
            self
        } else {
            match dir {
                Direction::UP => self.window(
                    self.left(),
                    self.right(),
                    self.bottom(),
                    self.top() - 1,
                ),
                Direction::LEFT => self.window(
                    self.left() - 1,
                    self.right(),
                    self.bottom(),
                    self.top(),
                ),
                Direction::DOWN => self.window(
                    self.left(),
                    self.right(),
                    self.bottom() - 1,
                    self.top(),
                ),
                Direction::RIGHT => self.window(
                    self.left(),
                    self.right() - 1,
                    self.bottom(),
                    self.top(),
                ),
            }
        }
    }

    /// A turned position of the pattern lies in the turned rectangle.
    pub proof fn lemma_turned_position(self, dir: Direction, lx: int, ly: int)
        requires
            self.contains(lx, ly),
        ensures
            -self.turned_left(dir) <= dir.rotate_point(lx, ly).0 <= self.turned_right(dir),
            -self.turned_bottom(dir) <= dir.rotate_point(lx, ly).1 <= self.turned_top(dir),
    {
    }

    /// Before any cell of the pattern is written nothing has changed, and
    /// once all are written the stamp is complete.
    pub proof fn lemma_stamp_prefix_ends(self, other: GridView, x: int, y: int, dir: Direction)
        requires
            self.wf(),
            other.wf(),
        ensures
            self.stamp_prefix(other, x, y, dir, 0) == self,
            self.stamp_prefix(other, x, y, dir, other.cells.len() as int) == self.stamp(
                other,
                x,
                y,
                dir,
            ),
    {
        reveal(GridView::stamp_prefix);
        let a = self.stamp_prefix(other, x, y, dir, 0);
        assert forall|i: int| 0 <= i < self.cells.len() implies a.cells[i] == self.cells[i] by {
            let (lx, ly) = dir.inverse().rotate_point(self.x_of(i) - x, self.y_of(i) - y);
            if other.contains(lx, ly) {
                other.lemma_position_round_trip(lx, ly);
            }
        }
        assert(a.cells =~= self.cells);
        let b = self.stamp_prefix(other, x, y, dir, other.cells.len() as int);
        let c = self.stamp(other, x, y, dir);
        assert forall|i: int| 0 <= i < self.cells.len() implies b.cells[i] == c.cells[i] by {
            let (lx, ly) = dir.inverse().rotate_point(self.x_of(i) - x, self.y_of(i) - y);
            if other.contains(lx, ly) {
                other.lemma_position_round_trip(lx, ly);
            }
        }
        assert(b.cells =~= c.cells);
    }

    /// Writing buffer cell `k` of the pattern: an `Empty` cell changes
    /// nothing; any other cell lands, turned, on the turned and shifted
    /// position of cell `k`, which `self` must store.
    pub proof fn lemma_stamp_prefix_step(
        self,
        other: GridView,
        x: int,
        y: int,
        dir: Direction,
        k: int,
    )
        requires
            self.wf(),
            other.wf(),
            0 <= k < other.cells.len(),
            other.cells[k] !is Empty ==> self.contains(
                x + dir.rotate_point(other.x_of(k), other.y_of(k)).0,
                y + dir.rotate_point(other.x_of(k), other.y_of(k)).1,
            ),
        ensures
            other.cells[k] is Empty ==> self.stamp_prefix(other, x, y, dir, k + 1)
                == self.stamp_prefix(other, x, y, dir, k),
            other.cells[k] !is Empty ==> self.stamp_prefix(other, x, y, dir, k + 1)
                == self.stamp_prefix(other, x, y, dir, k).set(
                x + dir.rotate_point(other.x_of(k), other.y_of(k)).0,
                y + dir.rotate_point(other.x_of(k), other.y_of(k)).1,
                other.cells[k].rotated(dir),
            ),
    {
        reveal(GridView::stamp_prefix);
        let a = self.stamp_prefix(other, x, y, dir, k);
        let b = self.stamp_prefix(other, x, y, dir, k + 1);
        let sx = other.x_of(k);
        let sy = other.y_of(k);
        other.lemma_index_round_trip(k);
        let (rx, ry) = dir.rotate_point(sx, sy);
        let tx = x + rx;
        let ty = y + ry;
        if other.cells[k] is Empty {
            assert forall|i: int| 0 <= i < self.cells.len() implies b.cells[i] == a.cells[i] by {
                let (lx, ly) = dir.inverse().rotate_point(self.x_of(i) - x, self.y_of(i) - y);
                if other.contains(lx, ly) {
                    other.lemma_position_round_trip(lx, ly);
                }
            }
            assert(b.cells =~= a.cells);
        } else {
            let c = a.set(tx, ty, other.cells[k].rotated(dir));
            self.lemma_position_round_trip(tx, ty);
            let j = self.index_of(tx, ty);
            assert(a.index_of(tx, ty) == j);
            crate::l_system::cell::lemma_rotate_point_composes(dir, dir, sx, sy);
            assert forall|i: int| 0 <= i < self.cells.len() implies b.cells[i] == c.cells[i] by {
                let (lx, ly) = dir.inverse().rotate_point(self.x_of(i) - x, self.y_of(i) - y);
                self.lemma_index_round_trip(i);
                if other.contains(lx, ly) {
                    other.lemma_position_round_trip(lx, ly);
                    crate::l_system::cell::lemma_rotate_point_composes(dir, dir, lx, ly);
                    if other.index_of(lx, ly) == k {
                        assert(lx == sx && ly == sy);
                        assert(self.x_of(i) == tx && self.y_of(i) == ty);
                        assert(i == j);
                    }
                }
                if i == j {
                    assert(self.x_of(i) == tx && self.y_of(i) == ty);
                    assert(lx == sx && ly == sy);
                }
            }
            assert(b.cells =~= c.cells);
        }
    }
}

impl Grid {
    fn left_side(&self) -> (n: u32)
        requires
            self.wf(),
        ensures
            n == self@.left(),
    {
        self.shift[0]
    }

    fn right_side(&self) -> (n: u32)
        requires
            self.wf(),
        ensures
            n == self@.right(),
    {
        self.width - self.shift[0] - 1
    }

    fn bottom_side(&self) -> (n: u32)
        requires
            self.wf(),
        ensures
            n == self@.bottom(),
    {
        self.shift[1]
    }

    fn top_side(&self) -> (n: u32)
        requires
            self.wf(),
        ensures
            n == self@.top(),
    {
        self.height - self.shift[1] - 1
    }

    /// Whether a rectangle with the given sides can be stored.
    fn sides_fit(left: i64, right: i64, bottom: i64, top: i64) -> (r: bool)
        requires
            0 <= left,
            0 <= right,
            0 <= bottom,
            0 <= top,
        ensures
            r == GridView::window_fits(left as int, right as int, bottom as int, top as int),
    {
        if left > i32::MAX as i64 || right > i32::MAX as i64 || bottom > i32::MAX as i64 || top
            > i32::MAX as i64 {
            return false;
        }
        let width: u64 = (left + right + 1) as u64;
        let height: u64 = (bottom + top + 1) as u64;
        assert(width * height <= 0xffff_ffff * 0xffff_ffff) by (nonlinear_arith)
            requires
                width <= 0xffff_ffff,
                height <= 0xffff_ffff,
        ;
        width * height <= usize::MAX as u64
    }

    /// Replaces the buffer by the window with the given sides.
    fn rewindow(&mut self, left: u32, right: u32, bottom: u32, top: u32)
        requires
            old(self).wf(),
            GridView::window_fits(left as int, right as int, bottom as int, top as int),
        ensures
            final(self).wf(),
            final(self)@ == old(self)@.window(left as int, right as int, bottom as int, top as int),
    {
        let ghost before = self@;
        let ghost target = before.window(left as int, right as int, bottom as int, top as int);
        let new_width: u32 = left + right + 1;
        let new_height: u32 = bottom + top + 1;
        proof {
            before.lemma_window(left as int, right as int, bottom as int, top as int);
        }
        let mut new_contents: Vec<Cell> = Vec::new();
        let mut y: u32 = 0;
        while y < new_height
            invariant
                self.wf(),
                self@ == before,
                target == before.window(left as int, right as int, bottom as int, top as int),
                target.wf(),
                target.width == new_width,
                target.height == new_height,
                new_width == left + right + 1,
                new_height == bottom + top + 1,
                left <= i32::MAX,
                bottom <= i32::MAX,
                right <= i32::MAX,
                top <= i32::MAX,
                new_width * new_height <= usize::MAX,
                y <= new_height,
                new_contents.len() == y * new_width,
                forall|i: int| 0 <= i < new_contents.len() ==> new_contents[i] == target.cells[i],
            decreases new_height - y,
        {
            let mut x: u32 = 0;
            while x < new_width
                invariant
                    self.wf(),
                    self@ == before,
                    target == before.window(left as int, right as int, bottom as int, top as int),
                    target.wf(),
                    target.width == new_width,
                    target.height == new_height,
                    new_width == left + right + 1,
                    new_height == bottom + top + 1,
                    left <= i32::MAX,
                    bottom <= i32::MAX,
                    right <= i32::MAX,
                    top <= i32::MAX,
                    new_width * new_height <= usize::MAX,
                    y < new_height,
                    x <= new_width,
                    new_contents.len() == y * new_width + x,
                    forall|i: int|
                        0 <= i < new_contents.len() ==> new_contents[i] == target.cells[i],
                decreases new_width - x,
            {
                let lx: i32 = (x as i64 - left as i64) as i32;
                let ly: i32 = (y as i64 - bottom as i64) as i32;
                let cell = self.at([lx, ly]);
                proof {
                    lemma_index_of_position(
                        x as int,
                        y as int,
                        new_width as int,
                        new_height as int,
                    );
                }
                new_contents.push(cell);
                x += 1;
            }
            proof {
                assert((y + 1) * new_width == y * new_width + new_width) by (nonlinear_arith);
            }
            y += 1;
        }
        proof {
            assert(new_height * new_width == new_width * new_height) by (nonlinear_arith);
            assert(new_contents@ =~= target.cells);
        }
        self.contents = new_contents;
        self.width = new_width;
        self.height = new_height;
        self.shift = [left, bottom];
    }

    /// Grows the grid, if need be, to reach the box of columns `x0..=x1` and
    /// rows `y0..=y1`.
    fn reach(&mut self, x0: i64, x1: i64, y0: i64, y1: i64)
        requires
            old(self).wf(),
            old(self)@.cover_fits(x0 as int, x1 as int, y0 as int, y1 as int),
            -0x1_0000_0000 <= x0 <= 0x1_0000_0000,
            -0x1_0000_0000 <= x1 <= 0x1_0000_0000,
            -0x1_0000_0000 <= y0 <= 0x1_0000_0000,
            -0x1_0000_0000 <= y1 <= 0x1_0000_0000,
        ensures
            final(self).wf(),
            final(self)@ == old(self)@.cover(x0 as int, x1 as int, y0 as int, y1 as int),
    {
        let left: i64 = self.left_side() as i64;
        let right: i64 = self.right_side() as i64;
        let bottom: i64 = self.bottom_side() as i64;
        let top: i64 = self.top_side() as i64;
        let new_left: i64 = if -x0 > left { -x0 } else { left };
        let new_right: i64 = if x1 > right { x1 } else { right };
        let new_bottom: i64 = if -y0 > bottom { -y0 } else { bottom };
        let new_top: i64 = if y1 > top { y1 } else { top };
        if new_left != left || new_right != right || new_bottom != bottom || new_top != top {
            self.rewindow(new_left as u32, new_right as u32, new_bottom as u32, new_top as u32);
        } else {
            proof {
                self@.lemma_window_same();
            }
        }
    }

    /// Whether [`Self::insert_cell`] may be called with these arguments.
    pub fn can_insert_cell(&self, cell: Cell, pos: [i32; 2]) -> (r: bool)
        requires
            self.wf(),
        ensures
            r == self@.insert_cell_fits(cell, pos[0] as int, pos[1] as int),
    {
        if cell.same_type(&Cell::Empty) && !self.contains(pos) {
            return true;
        }
        let x: i64 = pos[0] as i64;
        let y: i64 = pos[1] as i64;
        let left: i64 = self.left_side() as i64;
        let right: i64 = self.right_side() as i64;
        let bottom: i64 = self.bottom_side() as i64;
        let top: i64 = self.top_side() as i64;
        Grid::sides_fit(
            if -x > left { -x } else { left },
            if x > right { x } else { right },
            if -y > bottom { -y } else { bottom },
            if y > top { y } else { top },
        )
    }

    /// Writes one cell. `Empty` written outside the grid changes nothing; any
    /// other write outside first grows the grid, on every side at once, just
    /// enough to reach the position, the new cells being `Empty`. Afterwards
    /// the position holds the cell, and every other position holds what it
    /// held.
    pub fn insert_cell(&mut self, cell: Cell, pos: [i32; 2])
        requires
            old(self).wf(),
            old(self)@.insert_cell_fits(cell, pos[0] as int, pos[1] as int),
        ensures
            final(self).wf(),
            final(self)@ == old(self)@.insert_cell(cell, pos[0] as int, pos[1] as int),
            final(self)@.at(pos[0] as int, pos[1] as int) == cell,
            !(cell is Empty) ==> final(self)@.contains(pos[0] as int, pos[1] as int),
            forall|u: int, v: int|
                (u, v) != (pos[0] as int, pos[1] as int) ==> #[trigger] final(self)@.at(u, v)
                    == old(self)@.at(u, v),
    {
        proof {
            self@.lemma_insert_cell(cell, pos[0] as int, pos[1] as int);
        }
        if cell.same_type(&Cell::Empty) && !self.contains(pos) {
            return ;
        }
        let x: i64 = pos[0] as i64;
        let y: i64 = pos[1] as i64;
        self.reach(x, x, y, y);
        let i: usize = self.pos_to_index(pos);
        self.contents.set(i, cell);
    }

    /// Whether [`Self::insert`] may be called with these arguments.
    pub fn can_insert(&self, other: &Grid, pos: [i32; 2], other_dir: Direction) -> (r: bool)
        requires
            self.wf(),
            other.wf(),
        ensures
            r == self@.insert_fits(other@, pos[0] as int, pos[1] as int, other_dir),
    {
        let sides: [u32; 4] = other_dir.rotate_vals(
            other.top_side(),
            other.left_side(),
            other.bottom_side(),
            other.right_side(),
        );
        let x: i64 = pos[0] as i64;
        let y: i64 = pos[1] as i64;
        let x0: i64 = x - sides[1] as i64;
        let x1: i64 = x + sides[3] as i64;
        let y0: i64 = y - sides[2] as i64;
        let y1: i64 = y + sides[0] as i64;
        let left: i64 = self.left_side() as i64;
        let right: i64 = self.right_side() as i64;
        let bottom: i64 = self.bottom_side() as i64;
        let top: i64 = self.top_side() as i64;
        Grid::sides_fit(
            if -x0 > left { -x0 } else { left },
            if x1 > right { x1 } else { right },
            if -y0 > bottom { -y0 } else { bottom },
            if y1 > top { y1 } else { top },
        )
    }

    /// Writes buffer cell `i` of `other`, turned and laid as
    /// [`Self::insert`] says, if it is not `Empty`. The grid must reach the
    /// turned rectangle of `other`.
    fn stamp_cell(&mut self, other: &Grid, i: usize, pos: [i32; 2], other_dir: Direction)
        requires
            old(self).wf(),
            other.wf(),
            i < other@.cells.len(),
            old(self)@.left() >= other@.turned_left(other_dir) - pos[0],
            old(self)@.right() >= other@.turned_right(other_dir) + pos[0],
            old(self)@.bottom() >= other@.turned_bottom(other_dir) - pos[1],
            old(self)@.top() >= other@.turned_top(other_dir) + pos[1],
        ensures
            final(self).wf(),
            other@.cells[i as int] is Empty ==> final(self)@ == old(self)@,
            other@.cells[i as int] !is Empty ==> old(self)@.contains(
                pos[0] + other_dir.rotate_point(other@.x_of(i as int), other@.y_of(i as int)).0,
                pos[1] + other_dir.rotate_point(other@.x_of(i as int), other@.y_of(i as int)).1,
            ) && final(self)@ == old(self)@.set(
                pos[0] + other_dir.rotate_point(other@.x_of(i as int), other@.y_of(i as int)).0,
                pos[1] + other_dir.rotate_point(other@.x_of(i as int), other@.y_of(i as int)).1,
                other@.cells[i as int].rotated(other_dir),
            ),
    {
        let cell: Cell = other.contents[i];
        match cell {
            Cell::Empty => {},
            cell => {
                let local: [i32; 2] = other.index_to_pos(i);
                proof {
                    other@.lemma_turned_position(other_dir, local[0] as int, local[1] as int);
                }
                let turned: [i32; 2] = other_dir.rotate_coords(local);
                let target: [i32; 2] = [
                    (turned[0] as i64 + pos[0] as i64) as i32,
                    (turned[1] as i64 + pos[1] as i64) as i32,
                ];
                let j: usize = self.pos_to_index(target);
                self.contents.set(j, other_dir.rotate_cell(cell));
            },
        }
    }

    /// Stamps the pattern `other` into the grid: `other` is turned by
    /// `other_dir` about its origin and laid with its origin at `pos`. The
    /// grid first grows to reach the whole turned rectangle of `other`; then
    /// every cell of `other` that is not `Empty` is written, a stem turned by
    /// `other_dir`.
    pub fn insert(&mut self, other: &Grid, pos: [i32; 2], other_dir: Direction)
        requires
            old(self).wf(),
            other.wf(),
            old(self)@.insert_fits(other@, pos[0] as int, pos[1] as int, other_dir),
        ensures
            final(self).wf(),
            final(self)@ == old(self)@.insert(other@, pos[0] as int, pos[1] as int, other_dir),
    {
        let sides: [u32; 4] = other_dir.rotate_vals(
            other.top_side(),
            other.left_side(),
            other.bottom_side(),
            other.right_side(),
        );
        let x: i64 = pos[0] as i64;
        let y: i64 = pos[1] as i64;
        self.reach(
            x - sides[1] as i64,
            x + sides[3] as i64,
            y - sides[2] as i64,
            y + sides[0] as i64,
        );
        let ghost grown = self@;
        let count: usize = other.contents.len();
        let mut i: usize = 0;
        proof {
            grown.lemma_stamp_prefix_ends(other@, x as int, y as int, other_dir);
        }
        while i < count
            invariant
                other.wf(),
                grown.wf(),
                self.wf(),
                count == other@.cells.len(),
                i <= count,
                x == pos[0],
                y == pos[1],
                grown.left() >= other@.turned_left(other_dir) - x,
                grown.right() >= other@.turned_right(other_dir) + x,
                grown.bottom() >= other@.turned_bottom(other_dir) - y,
                grown.top() >= other@.turned_top(other_dir) + y,
                self@.same_sides(grown),
                self@ == grown.stamp_prefix(other@, x as int, y as int, other_dir, i as int),
            decreases count - i,
        {
            self.stamp_cell(other, i, pos, other_dir);
            proof {
                if other@.cells[i as int] !is Empty {
                    other@.lemma_index_round_trip(i as int);
                    other@.lemma_turned_position(
                        other_dir,
                        other@.x_of(i as int),
                        other@.y_of(i as int),
                    );
                }
                grown.lemma_stamp_prefix_step(other@, x as int, y as int, other_dir, i as int);
            }
            i += 1;
        }
        proof {
            grown.lemma_stamp_prefix_ends(other@, x as int, y as int, other_dir);
        }
    }

    /// Logical position of a buffer index.
    pub fn index_to_pos(&self, i: usize) -> (pos: [i32; 2])
        requires
            self.wf(),
            i < self@.cells.len(),
        ensures
            pos[0] == self@.x_of(i as int),
            pos[1] == self@.y_of(i as int),
            self@.contains(pos[0] as int, pos[1] as int),
            self@.at(pos[0] as int, pos[1] as int) == self@.cells[i as int],
    {
        proof {
            self@.lemma_index_round_trip(i as int);
            lemma_position_of_index(i as int, self@.width, self@.height);
        }
        let column: usize = i % self.width as usize;
        let row: usize = i / self.width as usize;
        [
            (column as i64 - self.shift[0] as i64) as i32,
            (row as i64 - self.shift[1] as i64) as i32,
        ]
    }

    /// Removes the outermost row or column on the side `direction`. Refuses,
    /// and returns `false`, where that is the row or column of the origin.
    pub fn contract(&mut self, direction: Direction) -> (done: bool)
        requires
            old(self).wf(),
        ensures
            final(self).wf(),
            done == old(self)@.can_contract(direction),
            final(self)@ == old(self)@.contract(direction),
    {
        let left: u32 = self.left_side();
        let right: u32 = self.right_side();
        let bottom: u32 = self.bottom_side();
        let top: u32 = self.top_side();
        let len: usize = self.contents.len();
        proof {
            assert((left + right + 1) * (bottom + top + 1) == len);
            assert(left * (bottom + top + 1) >= 0 && right * (bottom + top + 1) >= 0 && (left
                + right + 1) * bottom >= 0 && (left + right + 1) * top >= 0) by (nonlinear_arith)
                requires
                    left >= 0,
                    right >= 0,
                    bottom >= 0,
                    top >= 0,
            ;
            assert((left + right) * (bottom + top + 1) == (left + right + 1) * (bottom + top + 1)
                - (bottom + top + 1)) by (nonlinear_arith);
            assert((left + right + 1) * (bottom + top) == (left + right + 1) * (bottom + top + 1)
                - (left + right + 1)) by (nonlinear_arith);
        }
        match direction {
            Direction::UP => {
                if top == 0 {
                    return false;
                }
                self.rewindow(left, right, bottom, top - 1);
            },
            Direction::LEFT => {
                if left == 0 {
                    return false;
                }
                self.rewindow(left - 1, right, bottom, top);
            },
            Direction::DOWN => {
                if bottom == 0 {
                    return false;
                }
                self.rewindow(left, right, bottom - 1, top);
            },
            Direction::RIGHT => {
                if right == 0 {
                    return false;
                }
                self.rewindow(left, right - 1, bottom, top);
            },
        }
        true
    }
}

impl GridView {
    /// No cell other than `Empty` lies in row `y`.
    pub open spec fn row_empty(self, y: int) -> bool {
        forall|x: int| (#[trigger] self.at(x, y)) is Empty
    }

    /// No cell other than `Empty` lies in column `x`.
    pub open spec fn column_empty(self, x: int) -> bool {
        forall|y: int| (#[trigger] self.at(x, y)) is Empty
    }

    /// No cell other than `Empty` lies more than `n` steps from the origin
    /// row or column on the side `dir`.
    pub open spec fn empty_beyond(self, dir: Direction, n: int) -> bool {
        match dir {
            Direction::UP => forall|x: int, y: int| y > n ==> (#[trigger] self.at(x, y)) is Empty,
            Direction::LEFT => forall|x: int, y: int|
                x < -n ==> (#[trigger] self.at(x, y)) is Empty,
            Direction::DOWN => forall|x: int, y: int|
                y < -n ==> (#[trigger] self.at(x, y)) is Empty,
            Direction::RIGHT => forall|x: int, y: int|
                x > n ==> (#[trigger] self.at(x, y)) is Empty,
        }
    }

    /// `n` is the least number of rows or columns on the side `dir` that keeps
    /// every cell other than `Empty`.
    pub open spec fn is_tight(self, dir: Direction, n: int) -> bool {
        &&& 0 <= n
        &&& self.empty_beyond(dir, n)
        &&& (n == 0 || !self.empty_beyond(dir, n - 1))
    }

    /// The least number of rows or columns on the side `dir` that keeps every
    /// cell other than `Empty`.
    pub open spec fn tight(self, dir: Direction) -> int {
        choose|n: int| self.is_tight(dir, n)
    }

    /// The smallest window that keeps the origin and every cell of `self`
    /// other than `Empty`.
    pub open spec fn trimmed(self) -> GridView {
        self.window(
            self.tight(Direction::LEFT),
            self.tight(Direction::RIGHT),
            self.tight(Direction::DOWN),
            self.tight(Direction::UP),
        )
    }

    /// The number of rows or columns on the side `dir`.
    pub open spec fn side(self, dir: Direction) -> int {
        match dir {
            Direction::UP => self.top(),
            Direction::LEFT => self.left(),
            Direction::DOWN => self.bottom(),
            Direction::RIGHT => self.right(),
        }
    }

    /// The outermost row or column on the side `dir` holds only `Empty`.
    pub open spec fn edge_empty(self, dir: Direction) -> bool {
        match dir {
            Direction::UP => self.row_empty(self.top()),
            Direction::LEFT => self.column_empty(-self.left()),
            Direction::DOWN => self.row_empty(-self.bottom()),
            Direction::RIGHT => self.column_empty(self.right()),
        }
    }

    /// `self`, contracted on the side `dir` if `wanted`.
    pub open spec fn contract_if(self, wanted: bool, dir: Direction) -> GridView {
        if wanted {
            self.contract(dir)
        } else {
            self
        }
    }

    /// One round of trimming: each side whose outermost row or column held
    /// only `Empty` at the start of the round is contracted, where it can be,
    /// in the order top, bottom, left, right.
    pub open spec fn contract_round(self) -> GridView {
        self.contract_if(self.edge_empty(Direction::UP), Direction::UP).contract_if(
            self.edge_empty(Direction::DOWN),
            Direction::DOWN,
        ).contract_if(self.edge_empty(Direction::LEFT), Direction::LEFT).contract_if(
            self.edge_empty(Direction::RIGHT),
            Direction::RIGHT,
        )
    }

    /// Two grids hold the same cell at every position.
    pub open spec fn same_cells(self, other: GridView) -> bool {
        forall|x: int, y: int| #[trigger] self.at(x, y) == other.at(x, y)
    }

    /// A contraction keeps the grid well formed, takes one row or column from
    /// the side it is made on, and changes no position it keeps.
    pub proof fn lemma_contract(self, dir: Direction)
        requires
            self.wf(),
        ensures
            self.contract(dir).wf(),
            forall|d: Direction|
                #[trigger] self.contract(dir).side(d) == if d == dir && self.can_contract(dir) {
                    self.side(d) - 1
                } else {
                    self.side(d)
                },
            forall|x: int, y: int|
                self.contract(dir).contains(x, y) ==> #[trigger] self.contract(dir).at(x, y)
                    == self.at(x, y),
            self.edge_empty(dir) ==> self.contract(dir).same_cells(self),
    {
        if self.can_contract(dir) {
            let c = self.contract(dir);
            match dir {
                Direction::UP => {
                    self.lemma_window(self.left(), self.right(), self.bottom(), self.top() - 1);
                },
                Direction::LEFT => {
                    self.lemma_window(self.left() - 1, self.right(), self.bottom(), self.top());
                },
                Direction::DOWN => {
                    self.lemma_window(self.left(), self.right(), self.bottom() - 1, self.top());
                },
                Direction::RIGHT => {
                    self.lemma_window(self.left(), self.right() - 1, self.bottom(), self.top());
                },
            }
            assert forall|d: Direction|
                #[trigger] c.side(d) == if d == dir {
                    self.side(d) - 1
                } else {
                    self.side(d)
                } by {}
            if self.edge_empty(dir) {
                assert forall|x: int, y: int| #[trigger] c.at(x, y) == self.at(x, y) by {
                    if !c.contains(x, y) && self.contains(x, y) {
                        match dir {
                            Direction::UP => {
                                assert(self.at(x, self.top()) is Empty);
                            },
                            Direction::LEFT => {
                                assert(self.at(-self.left(), y) is Empty);
                            },
                            Direction::DOWN => {
                                assert(self.at(x, -self.bottom()) is Empty);
                            },
                            Direction::RIGHT => {
                                assert(self.at(self.right(), y) is Empty);
                            },
                        }
                    }
                }
            }
        }
    }

    /// An edge that held only `Empty` still does after other sides were
    /// contracted.
    pub proof fn lemma_edge_stays_empty(self, earlier: GridView, dir: Direction)
        requires
            self.same_cells(earlier),
            self.side(dir) == earlier.side(dir),
        ensures
            earlier.edge_empty(dir) ==> self.edge_empty(dir),
    {
        if earlier.edge_empty(dir) {
            match dir {
                Direction::UP => {
                    assert forall|x: int| (#[trigger] self.at(x, self.top())) is Empty by {
                        assert(self.at(x, self.top()) == earlier.at(x, earlier.top()));
                    }
                },
                Direction::LEFT => {
                    assert forall|y: int| (#[trigger] self.at(-self.left(), y)) is Empty by {
                        assert(self.at(-self.left(), y) == earlier.at(-earlier.left(), y));
                    }
                },
                Direction::DOWN => {
                    assert forall|x: int| (#[trigger] self.at(x, -self.bottom())) is Empty by {
                        assert(self.at(x, -self.bottom()) == earlier.at(x, -earlier.bottom()));
                    }
                },
                Direction::RIGHT => {
                    assert forall|y: int| (#[trigger] self.at(self.right(), y)) is Empty by {
                        assert(self.at(self.right(), y) == earlier.at(earlier.right(), y));
                    }
                },
            }
        }
    }

    /// Holding the same cells is transitive.
    pub proof fn lemma_same_cells_chain(self, earlier: GridView, later: GridView)
        requires
            self.same_cells(earlier),
            later.same_cells(self),
        ensures
            later.same_cells(earlier),
    {
        assert forall|x: int, y: int| #[trigger] later.at(x, y) == earlier.at(x, y) by {
            assert(later.at(x, y) == self.at(x, y));
            assert(self.at(x, y) == earlier.at(x, y));
        }
    }

    /// Only one number is tight on a side.
    pub proof fn lemma_tight_unique(self, dir: Direction, m: int, n: int)
        requires
            self.is_tight(dir, m),
            self.is_tight(dir, n),
        ensures
            m == n,
    {
        if m < n {
            self.lemma_empty_beyond_grows(dir, m, n - 1);
        }
        if n < m {
            self.lemma_empty_beyond_grows(dir, n, m - 1);
        }
    }

    /// What is empty beyond `m` is empty beyond anything larger.
    pub proof fn lemma_empty_beyond_grows(self, dir: Direction, m: int, n: int)
        requires
            self.empty_beyond(dir, m),
            m <= n,
        ensures
            self.empty_beyond(dir, n),
    {
    }

    /// Some number on each side is tight, and it keeps within the grid.
    pub proof fn lemma_tight_exists(self, dir: Direction)
        requires
            self.wf(),
        ensures
            self.is_tight(dir, self.tight(dir)),
            self.tight(dir) <= self.side(dir),
    {
        self.lemma_tight_below(dir, self.side(dir));
        let n = choose|n: int| n <= self.side(dir) && self.is_tight(dir, n);
        self.lemma_tight_unique(dir, n, self.tight(dir));
    }

    proof fn lemma_tight_below(self, dir: Direction, m: int)
        requires
            0 <= m,
            self.empty_beyond(dir, m),
        ensures
            exists|n: int| n <= m && self.is_tight(dir, n),
        decreases m,
    {
        if m == 0 || !self.empty_beyond(dir, m - 1) {
            assert(self.is_tight(dir, m));
        } else {
            self.lemma_tight_below(dir, m - 1);
        }
    }

    /// A grid that holds the same cells as `self`, inside the sides of `self`,
    /// and none of whose sides could lose an empty edge, is `self` trimmed.
    pub proof fn lemma_trimmed_is(self, other: GridView)
        requires
            self.wf(),
            other.wf(),
            other.same_cells(self),
            forall|d: Direction| other.side(d) == 0 || !other.edge_empty(d),
        ensures
            other == self.trimmed(),
    {
        assert forall|d: Direction| self.is_tight(d, #[trigger] other.side(d)) by {
            assert(other.side(d) == 0 || !other.edge_empty(d));
            match d {
                Direction::UP => {
                    assert forall|x: int, y: int| y > other.top() implies (#[trigger] self.at(
                        x,
                        y,
                    )) is Empty by {
                        assert(other.at(x, y) == self.at(x, y));
                    }
                    if other.top() > 0 {
                        let x = choose|x: int| !((#[trigger] other.at(x, other.top())) is Empty);
                        assert(other.at(x, other.top()) == self.at(x, other.top()));
                    }
                },
                Direction::LEFT => {
                    assert forall|x: int, y: int| x < -other.left() implies (#[trigger] self.at(
                        x,
                        y,
                    )) is Empty by {
                        assert(other.at(x, y) == self.at(x, y));
                    }
                    if other.left() > 0 {
                        let y = choose|y: int| !((#[trigger] other.at(-other.left(), y)) is Empty);
                        assert(other.at(-other.left(), y) == self.at(-other.left(), y));
                    }
                },
                Direction::DOWN => {
                    assert forall|x: int, y: int| y < -other.bottom() implies (#[trigger] self.at(
                        x,
                        y,
                    )) is Empty by {
                        assert(other.at(x, y) == self.at(x, y));
                    }
                    if other.bottom() > 0 {
                        let x = choose|x: int|
                            !((#[trigger] other.at(x, -other.bottom())) is Empty);
                        assert(other.at(x, -other.bottom()) == self.at(x, -other.bottom()));
                    }
                },
                Direction::RIGHT => {
                    assert forall|x: int, y: int| x > other.right() implies (#[trigger] self.at(
                        x,
                        y,
                    )) is Empty by {
                        assert(other.at(x, y) == self.at(x, y));
                    }
                    if other.right() > 0 {
                        let y = choose|y: int| !((#[trigger] other.at(other.right(), y)) is Empty);
                        assert(other.at(other.right(), y) == self.at(other.right(), y));
                    }
                },
            }
        }
        assert(self.is_tight(Direction::UP, other.side(Direction::UP)));
        assert(self.is_tight(Direction::LEFT, other.side(Direction::LEFT)));
        assert(self.is_tight(Direction::DOWN, other.side(Direction::DOWN)));
        assert(self.is_tight(Direction::RIGHT, other.side(Direction::RIGHT)));
        self.lemma_tight_exists(Direction::UP);
        self.lemma_tight_exists(Direction::LEFT);
        self.lemma_tight_exists(Direction::DOWN);
        self.lemma_tight_exists(Direction::RIGHT);
        self.lemma_tight_unique(Direction::UP, other.top(), self.tight(Direction::UP));
        self.lemma_tight_unique(Direction::LEFT, other.left(), self.tight(Direction::LEFT));
        self.lemma_tight_unique(Direction::DOWN, other.bottom(), self.tight(Direction::DOWN));
        self.lemma_tight_unique(Direction::RIGHT, other.right(), self.tight(Direction::RIGHT));
        let t = self.trimmed();
        self.lemma_window(other.left(), other.right(), other.bottom(), other.top());
        assert forall|x: int, y: int| other.contains(x, y) implies other.at(x, y) == t.at(
            x,
            y,
        ) by {
            assert(other.at(x, y) == self.at(x, y));
        }
        other.lemma_equal_by_positions(t);
    }

    /// Trimming keeps the grid well formed and every cell other than `Empty`,
    /// and leaves on no side an empty edge that could go.
    pub proof fn lemma_trimmed(self)
        requires
            self.wf(),
        ensures
            self.trimmed().wf(),
            self.trimmed().same_cells(self),
            forall|d: Direction|
                0 <= #[trigger] self.trimmed().side(d) <= self.side(d) && (self.trimmed().side(d)
                    == 0 || !self.trimmed().edge_empty(d)),
    {
        let t = self.trimmed();
        self.lemma_tight_exists(Direction::UP);
        self.lemma_tight_exists(Direction::LEFT);
        self.lemma_tight_exists(Direction::DOWN);
        self.lemma_tight_exists(Direction::RIGHT);
        self.lemma_window(
            self.tight(Direction::LEFT),
            self.tight(Direction::RIGHT),
            self.tight(Direction::DOWN),
            self.tight(Direction::UP),
        );
        assert forall|x: int, y: int| #[trigger] t.at(x, y) == self.at(x, y) by {
            if !t.contains(x, y) {
                assert(self.empty_beyond(Direction::UP, t.top()));
                assert(self.empty_beyond(Direction::LEFT, t.left()));
                assert(self.empty_beyond(Direction::DOWN, t.bottom()));
                assert(self.empty_beyond(Direction::RIGHT, t.right()));
            }
        }
        assert forall|d: Direction|
            0 <= #[trigger] t.side(d) <= self.side(d) && (t.side(d) == 0 || !t.edge_empty(
                d,
            )) by {
            if t.side(d) > 0 && t.edge_empty(d) {
                match d {
                    Direction::UP => {
                        assert forall|x: int, y: int| y > t.top() - 1 implies (#[trigger] self.at(
                            x,
                            y,
                        )) is Empty by {
                            assert(t.at(x, y) == self.at(x, y));
                            assert(t.at(x, t.top()) is Empty);
                        }
                        assert(self.empty_beyond(d, t.top() - 1));
                    },
                    Direction::LEFT => {
                        assert forall|x: int, y: int|
                            x < -(t.left() - 1) implies (#[trigger] self.at(x, y)) is Empty by {
                            assert(t.at(x, y) == self.at(x, y));
                            assert(t.at(-t.left(), y) is Empty);
                        }
                        assert(self.empty_beyond(d, t.left() - 1));
                    },
                    Direction::DOWN => {
                        assert forall|x: int, y: int|
                            y < -(t.bottom() - 1) implies (#[trigger] self.at(x, y)) is Empty by {
                            assert(t.at(x, y) == self.at(x, y));
                            assert(t.at(x, -t.bottom()) is Empty);
                        }
                        assert(self.empty_beyond(d, t.bottom() - 1));
                    },
                    Direction::RIGHT => {
                        assert forall|x: int, y: int| x > t.right() - 1 implies (#[trigger] self.at(
                            x,
                            y,
                        )) is Empty by {
                            assert(t.at(x, y) == self.at(x, y));
                            assert(t.at(t.right(), y) is Empty);
                        }
                        assert(self.empty_beyond(d, t.right() - 1));
                    },
                }
            }
        }
    }

    /// Trimming twice is trimming once.
    pub proof fn lemma_trimmed_idempotent(self)
        requires
            self.wf(),
        ensures
            self.trimmed().trimmed() == self.trimmed(),
    {
        self.lemma_trimmed();
        let t = self.trimmed();
        assert(t.same_cells(t));
        t.lemma_trimmed_is(t);
    }
}

impl Grid {
    /// For each side, in the order top, bottom, left, right, whether its
    /// outermost row or column holds only `Empty`.
    fn empty_edges(&self) -> (flags: (bool, bool, bool, bool))
        requires
            self.wf(),
        ensures
            flags.0 == self@.edge_empty(Direction::UP),
            flags.1 == self@.edge_empty(Direction::DOWN),
            flags.2 == self@.edge_empty(Direction::LEFT),
            flags.3 == self@.edge_empty(Direction::RIGHT),
    {
        let ghost before = self@;
        let mut top: bool = true;
        let mut bottom: bool = true;
        let mut left: bool = true;
        let mut right: bool = true;
        let width: u32 = self.width;
        let height: u32 = self.height;

        let mut x: u32 = 0;
        while x < width
            invariant
                self.wf(),
                self@ == before,
                width == before.width,
                height == before.height,
                x <= width,
                bottom == (forall|u: int|
                    u < x - before.left() ==> (#[trigger] before.at(u, -before.bottom())) is Empty),
                top == (forall|u: int|
                    u < x - before.left() ==> (#[trigger] before.at(u, before.top())) is Empty),
            decreases width - x,
        {
            if !self.at_raw([x, 0]).same_type(&Cell::Empty) {
                bottom = false;
            }
            if !self.at_raw([x, height - 1]).same_type(&Cell::Empty) {
                top = false;
            }
            x += 1;
        }
        let mut y: u32 = 0;
        while y < height
            invariant
                self.wf(),
                self@ == before,
                width == before.width,
                height == before.height,
                y <= height,
                left == (forall|v: int|
                    v < y - before.bottom() ==> (#[trigger] before.at(-before.left(), v)) is Empty),
                right == (forall|v: int|
                    v < y - before.bottom() ==> (#[trigger] before.at(before.right(), v)) is Empty),
            decreases height - y,
        {
            if !self.at_raw([0, y]).same_type(&Cell::Empty) {
                left = false;
            }
            if !self.at_raw([width - 1, y]).same_type(&Cell::Empty) {
                right = false;
            }
            y += 1;
        }
        proof {
            if top {
                assert forall|u: int| (#[trigger] before.at(u, before.top())) is Empty by {}
            }
            if bottom {
                assert forall|u: int| (#[trigger] before.at(u, -before.bottom())) is Empty by {}
            }
            if left {
                assert forall|v: int| (#[trigger] before.at(-before.left(), v)) is Empty by {}
            }
            if right {
                assert forall|v: int| (#[trigger] before.at(before.right(), v)) is Empty by {}
            }
        }
        (top, bottom, left, right)
    }

    /// Contracts the side `dir` if `wanted`, which may only be asked of a side
    /// whose outermost row or column holds only `Empty`.
    fn contract_edge(&mut self, wanted: bool, dir: Direction) -> (done: bool)
        requires
            old(self).wf(),
            wanted ==> old(self)@.edge_empty(dir),
        ensures
            final(self).wf(),
            final(self)@ == old(self)@.contract_if(wanted, dir),
            done == (wanted && old(self)@.can_contract(dir)),
            final(self)@.same_cells(old(self)@),
            forall|d: Direction|
                #[trigger] final(self)@.side(d) == if d == dir && done {
                    old(self)@.side(d) - 1
                } else {
                    old(self)@.side(d)
                },
    {
        if wanted {
            proof {
                self@.lemma_contract(dir);
            }
            self.contract(dir)
        } else {
            false
        }
    }

    /// One round of trimming: every side whose outermost row or column holds
    /// only `Empty` when the round starts is contracted, where
    /// [`Self::contract`] does not refuse. Returns whether the grid changed.
    pub fn try_contract_empty(&mut self) -> (changed: bool)
        requires
            old(self).wf(),
        ensures
            final(self).wf(),
            final(self)@ == old(self)@.contract_round(),
            changed == (final(self)@ != old(self)@),
            final(self)@.same_cells(old(self)@),
            forall|d: Direction| 0 <= #[trigger] final(self)@.side(d) <= old(self)@.side(d),
            !changed ==> forall|d: Direction|
                #[trigger] old(self)@.side(d) == 0 || !old(self)@.edge_empty(d),
    {
        let ghost before = self@;
        let flags = self.empty_edges();
        let top: bool = self.contract_edge(flags.0, Direction::UP);
        let ghost after_top = self@;
        proof {
            after_top.lemma_edge_stays_empty(before, Direction::DOWN);
        }
        let bottom: bool = self.contract_edge(flags.1, Direction::DOWN);
        let ghost after_bottom = self@;
        proof {
            after_top.lemma_edge_stays_empty(before, Direction::LEFT);
            after_bottom.lemma_edge_stays_empty(after_top, Direction::LEFT);
        }
        let left: bool = self.contract_edge(flags.2, Direction::LEFT);
        let ghost after_left = self@;
        proof {
            after_top.lemma_edge_stays_empty(before, Direction::RIGHT);
            after_bottom.lemma_edge_stays_empty(after_top, Direction::RIGHT);
            after_left.lemma_edge_stays_empty(after_bottom, Direction::RIGHT);
        }
        let right: bool = self.contract_edge(flags.3, Direction::RIGHT);
        proof {
            let last = self@;
            after_top.lemma_same_cells_chain(before, after_bottom);
            after_bottom.lemma_same_cells_chain(before, after_left);
            after_left.lemma_same_cells_chain(before, last);
            assert forall|d: Direction| 0 <= #[trigger] last.side(d) <= before.side(d) by {
                assert(after_top.side(d) <= before.side(d));
                assert(after_bottom.side(d) <= after_top.side(d));
                assert(after_left.side(d) <= after_bottom.side(d));
                assert(last.side(d) <= after_left.side(d));
            }
            if top {
                assert(after_top.side(Direction::UP) < before.side(Direction::UP));
                assert(after_bottom.side(Direction::UP) == after_top.side(Direction::UP));
                assert(after_left.side(Direction::UP) == after_bottom.side(Direction::UP));
                assert(last.side(Direction::UP) == after_left.side(Direction::UP));
            } else if bottom {
                assert(after_bottom.side(Direction::DOWN) < after_top.side(Direction::DOWN));
                assert(after_top.side(Direction::DOWN) == before.side(Direction::DOWN));
                assert(after_left.side(Direction::DOWN) == after_bottom.side(Direction::DOWN));
                assert(last.side(Direction::DOWN) == after_left.side(Direction::DOWN));
            } else if left {
                assert(after_left.side(Direction::LEFT) < after_bottom.side(Direction::LEFT));
                assert(after_top.side(Direction::LEFT) == before.side(Direction::LEFT));
                assert(after_bottom.side(Direction::LEFT) == after_top.side(Direction::LEFT));
                assert(last.side(Direction::LEFT) == after_left.side(Direction::LEFT));
            } else if right {
                assert(last.side(Direction::RIGHT) < after_left.side(Direction::RIGHT));
                assert(after_top.side(Direction::RIGHT) == before.side(Direction::RIGHT));
                assert(after_bottom.side(Direction::RIGHT) == after_top.side(Direction::RIGHT));
                assert(after_left.side(Direction::RIGHT) == after_bottom.side(Direction::RIGHT));
            } else {
                assert(last == before);
                assert forall|d: Direction| #[trigger]
                    before.side(d) == 0 || !before.edge_empty(d) by {
                    match d {
                        Direction::UP => {},
                        Direction::LEFT => {},
                        Direction::DOWN => {},
                        Direction::RIGHT => {},
                    }
                }
            }
        }
        top || bottom || left || right
    }

    /// Trims the grid: takes away, side by side, every outermost row and
    /// column that holds only `Empty`, until none is left or only the row and
    /// column of the origin remain.
    pub fn contract_empty(&mut self)
        requires
            old(self).wf(),
        ensures
            final(self).wf(),
            final(self)@ == old(self)@.trimmed(),
    {
        let ghost before = self@;
        loop
            invariant
                self.wf(),
                self@.same_cells(before),
            ensures
                self.wf(),
                self@.same_cells(before),
                forall|d: Direction| #[trigger] self@.side(d) == 0 || !self@.edge_empty(d),
            decreases self@.width + self@.height,
        {
            let ghost step = self@;
            let changed: bool = self.try_contract_empty();
            proof {
                assert forall|u: int, v: int| #[trigger] self@.at(u, v) == before.at(u, v) by {
                    assert(self@.at(u, v) == step.at(u, v));
                }
            }
            if !changed {
                break ;
            }
            proof {
                assert(self@.side(Direction::UP) <= step.side(Direction::UP));
                assert(self@.side(Direction::DOWN) <= step.side(Direction::DOWN));
                assert(self@.side(Direction::LEFT) <= step.side(Direction::LEFT));
                assert(self@.side(Direction::RIGHT) <= step.side(Direction::RIGHT));
                if self@.width == step.width && self@.height == step.height {
                    step.lemma_equal_by_positions(self@);
                }
            }
        }
        proof {
            before.lemma_trimmed_is(self@);
        }
    }
}

impl GridView {
    /// The grid of one `Empty` cell.
    pub open spec fn blank() -> GridView {
        GridView { width: 1, height: 1, shift_x: 0, shift_y: 0, cells: seq![Cell::Empty] }
    }

    /// The grid turned by `dir` about its origin: the sides change places,
    /// every cell moves to its turned position, and every stem turns too.
    pub open spec fn rotated(self, dir: Direction) -> GridView {
        let left = self.turned_left(dir);
        let bottom = self.turned_bottom(dir);
        let width = left + self.turned_right(dir) + 1;
        let height = bottom + self.turned_top(dir) + 1;
        GridView {
            width,
            height,
            shift_x: left,
            shift_y: bottom,
            cells: Seq::new(
                (width * height) as nat,
                |i: int| self.stamped_at(0, 0, dir, i % width - left, i / width - bottom),
            ),
        }
    }

    /// `self` with every cell `Empty`.
    pub open spec fn cleared(self) -> GridView {
        GridView { cells: Seq::new(self.cells.len(), |i: int| Cell::Empty), ..self }
    }

    /// What a stamp does, position by position: where the pattern brings a
    /// cell other than `Empty`, that cell; everywhere else what was there. The
    /// sides are the least that keep `self` and reach the turned pattern.
    pub proof fn lemma_insert(self, other: GridView, x: int, y: int, dir: Direction)
        requires
            self.wf(),
            other.wf(),
            self.insert_fits(other, x, y, dir),
        ensures
            self.insert(other, x, y, dir).wf(),
            self.insert(other, x, y, dir).left() == max(self.left(), other.turned_left(dir) - x),
            self.insert(other, x, y, dir).right() == max(
                self.right(),
                other.turned_right(dir) + x,
            ),
            self.insert(other, x, y, dir).bottom() == max(
                self.bottom(),
                other.turned_bottom(dir) - y,
            ),
            self.insert(other, x, y, dir).top() == max(self.top(), other.turned_top(dir) + y),
            forall|u: int, v: int| #[trigger]
                self.insert(other, x, y, dir).at(u, v) == if other.stamped_at(x, y, dir, u, v)
                    is Empty {
                    self.at(u, v)
                } else {
                    other.stamped_at(x, y, dir, u, v)
                },
    {
        let l = max(self.left(), other.turned_left(dir) - x);
        let r = max(self.right(), other.turned_right(dir) + x);
        let b = max(self.bottom(), other.turned_bottom(dir) - y);
        let t = max(self.top(), other.turned_top(dir) + y);
        self.lemma_window(l, r, b, t);
        let g = self.window(l, r, b, t);
        let s = self.insert(other, x, y, dir);
        assert(s == g.stamp(other, x, y, dir));
        assert forall|u: int, v: int| #[trigger]
            s.at(u, v) == if other.stamped_at(x, y, dir, u, v) is Empty {
                self.at(u, v)
            } else {
                other.stamped_at(x, y, dir, u, v)
            } by {
            let (lx, ly) = dir.inverse().rotate_point(u - x, v - y);
            if g.contains(u, v) {
                g.lemma_position_round_trip(u, v);
                assert(g.at(u, v) == self.at(u, v));
            } else {
                if other.contains(lx, ly) {
                    other.lemma_turned_position(dir, lx, ly);
                    crate::l_system::cell::lemma_rotate_point_composes(dir, dir, u - x, v - y);
                }
            }
        }
    }

    /// Turning a grid is stamping it, turned, into the blank grid.
    pub proof fn lemma_rotated(self, dir: Direction)
        requires
            self.wf(),
            self.cells.len() <= usize::MAX,
        ensures
            GridView::blank().insert_fits(self, 0, 0, dir),
            GridView::blank().insert(self, 0, 0, dir) == self.rotated(dir),
            self.rotated(dir).wf(),
            forall|u: int, v: int| #[trigger]
                self.rotated(dir).at(u, v) == self.stamped_at(0, 0, dir, u, v),
    {
        let blank = GridView::blank();
        let l = self.turned_left(dir);
        let r = self.turned_right(dir);
        let b = self.turned_bottom(dir);
        let t = self.turned_top(dir);
        assert((l + r + 1) * (b + t + 1) == self.width * self.height) by (nonlinear_arith)
            requires
                (l + r + 1 == self.width && b + t + 1 == self.height) || (l + r + 1 == self.height
                    && b + t + 1 == self.width),
        ;
        blank.lemma_insert(self, 0, 0, dir);
        let s = blank.insert(self, 0, 0, dir);
        let q = self.rotated(dir);
        assert((l + r + 1) * (b + t + 1) >= 0);
        assert(q.wf());
        assert forall|u: int, v: int| #[trigger] q.at(u, v) == self.stamped_at(
            0,
            0,
            dir,
            u,
            v,
        ) by {
            let (lx, ly) = dir.inverse().rotate_point(u, v);
            if q.contains(u, v) {
                q.lemma_position_round_trip(u, v);
            } else {
                if self.contains(lx, ly) {
                    self.lemma_turned_position(dir, lx, ly);
                    crate::l_system::cell::lemma_rotate_point_composes(dir, dir, u, v);
                }
            }
        }
        assert forall|u: int, v: int| s.contains(u, v) implies s.at(u, v) == q.at(u, v) by {
            assert(blank.at(u, v) is Empty);
        }
        s.lemma_equal_by_positions(q);
    }
}

/// Walks the cells of a grid in buffer order, each with its logical position.
pub struct GridIterator<'a> {
    grid: &'a Grid,
    pos: usize,
}

impl<'a> GridIterator<'a> {
    /// The grid that is walked.
    pub closed spec fn grid(&self) -> GridView {
        self.grid@
    }

    /// Buffer index of the cell that comes next.
    pub closed spec fn position(&self) -> int {
        self.pos as int
    }

    /// The next cell with its logical position, `None` once all were given.
    pub fn next(&mut self) -> (item: Option<([i32; 2], Cell)>)
        requires
            old(self).grid().wf(),
            old(self).position() <= old(self).grid().cells.len(),
        ensures
            final(self).grid() == old(self).grid(),
            old(self).position() == old(self).grid().cells.len() ==> item.is_none()
                && final(self).position() == old(self).position(),
            old(self).position() < old(self).grid().cells.len() ==> {
                &&& final(self).position() == old(self).position() + 1
                &&& item.is_some()
                &&& item.unwrap().0[0] == old(self).grid().x_of(old(self).position())
                &&& item.unwrap().0[1] == old(self).grid().y_of(old(self).position())
                &&& item.unwrap().1 == old(self).grid().cells[old(self).position()]
            },
    {
        if self.pos >= self.grid.contents.len() {
            return None;
        }
        let cell: Cell = self.grid.contents[self.pos];
        let pos: [i32; 2] = self.grid.index_to_pos(self.pos);
        self.pos += 1;
        Some((pos, cell))
    }
}

impl Grid {
    /// A walk over all cells, from the first of the buffer.
    pub fn iter(&self) -> (it: GridIterator<'_>)
        ensures
            it.grid() == self@,
            it.position() == 0,
    {
        GridIterator { grid: self, pos: 0 }
    }

    /// Turns the grid by `dir` about its origin.
    pub fn rotate(&mut self, dir: Direction)
        requires
            old(self).wf(),
        ensures
            final(self).wf(),
            final(self)@ == old(self)@.rotated(dir),
    {
        let len: usize = self.contents.len();
        proof {
            self@.lemma_rotated(dir);
        }
        let mut turned: Grid = Grid::single(Cell::Empty);
        turned.insert(self, [0, 0], dir);
        *self = turned;
    }

    /// Makes every cell `Empty`; the size and the origin stay.
    pub fn clear(&mut self)
        requires
            old(self).wf(),
        ensures
            final(self).wf(),
            final(self)@ == old(self)@.cleared(),
    {
        let ghost before = self@;
        let len: usize = self.contents.len();
        let mut i: usize = 0;
        while i < len
            invariant
                len == before.cells.len(),
                i <= len,
                self@.width == before.width,
                self@.height == before.height,
                self@.shift_x == before.shift_x,
                self@.shift_y == before.shift_y,
                self@.cells.len() == len,
                forall|j: int| 0 <= j < i ==> self@.cells[j] is Empty,
            decreases len - i,
        {
            self.contents.set(i, Cell::Empty);
            i += 1;
        }
        proof {
            assert(self@.cells =~= before.cleared().cells);
        }
    }

    /// The buffer itself, for writing. The grid stays well formed as long as
    /// the length of the buffer is not changed.
    pub fn contents_mut(&mut self) -> (cells: &mut Vec<Cell>)
        ensures
            cells@ == old(self)@.cells,
            final(self)@ == (GridView { cells: final(cells)@, ..old(self)@ }),
    {
        &mut self.contents
    }
}

impl Clone for Grid {
    fn clone(&self) -> (copy: Grid)
        ensures
            copy@ == self@,
    {
        Grid {
            contents: vstd::slice::slice_to_vec(self.contents.as_slice()),
            width: self.width,
            height: self.height,
            shift: self.shift,
        }
    }
}

} // verus!
