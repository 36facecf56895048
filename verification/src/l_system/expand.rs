//! Random grids, and growth of a grid by a row or column of random cells.

use rand::rngs::StdRng;
use vstd::prelude::*;

use crate::l_system::cell::{Cell, Direction};
use crate::l_system::grid::{lemma_index_of_position, Grid, GridView};
use crate::random::draw_below;

verus! {

impl GridView {
    /// Whether the grid can still be stored with one more row or column on
    /// the side `dir`.
    pub open spec fn expand_fits(self, dir: Direction) -> bool {
        GridView::window_fits(
            self.left() + if dir == Direction::LEFT { 1int } else { 0int },
            self.right() + if dir == Direction::RIGHT { 1int } else { 0int },
            self.bottom() + if dir == Direction::DOWN { 1int } else { 0int },
            self.top() + if dir == Direction::UP { 1int } else { 0int },
        )
    }

    /// `self` is `before` with one more row or column on the side `dir`,
    /// whose stems, if any, refer to rules below `stem_types`.
    pub open spec fn is_expansion_of(self, before: GridView, dir: Direction, stem_types: int) -> bool {
        &&& self.wf()
        &&& self.can_contract(dir)
        &&& self.contract(dir) == before
        &&& forall|x: int, y: int|
            !before.contains(x, y) ==> (#[trigger] self.at(x, y)).stem_below(stem_types)
    }

    /// Every stem among the cells refers to a rule below `stem_types`.
    pub open spec fn cells_below(self, stem_types: int) -> bool {
        forall|i: int| 0 <= i < self.cells.len() ==> (#[trigger] self.cells[i]).stem_below(stem_types)
    }

    /// An expansion keeps what the grid held, and its stems stay below a
    /// bound that held them before and holds the new ones.
    pub proof fn lemma_expansion(self, before: GridView, dir: Direction, stem_types: int)
        requires
            before.wf(),
            self.is_expansion_of(before, dir, stem_types),
        ensures
            forall|x: int, y: int| before.contains(x, y) ==> #[trigger] self.at(x, y) == before.at(x, y),
            forall|d: Direction|
                #[trigger] self.side(d) == before.side(d) + if d == dir { 1int } else { 0int },
            before.cells_below(stem_types) ==> self.cells_below(stem_types),
    {
        self.lemma_contract(dir);
        assert forall|d: Direction|
            #[trigger] self.side(d) == before.side(d) + if d == dir { 1int } else { 0int } by {
            assert(self.contract(dir).side(d) == before.side(d));
        }
        assert forall|x: int, y: int| before.contains(x, y) implies #[trigger] self.at(x, y)
            == before.at(x, y) by {
            assert(self.contract(dir).at(x, y) == self.at(x, y));
        }
        if before.cells_below(stem_types) {
            assert forall|i: int| 0 <= i < self.cells.len() implies (#[trigger] self.cells[i]).stem_below(
                stem_types,
            ) by {
                self.lemma_index_round_trip(i);
                let x = self.x_of(i);
                let y = self.y_of(i);
                if before.contains(x, y) {
                    before.lemma_position_round_trip(x, y);
                    assert(self.at(x, y) == before.at(x, y));
                } else {
                    assert(self.at(x, y).stem_below(stem_types));
                }
            }
        }
    }
}

impl Grid {
    /// Whether [`Self::expand`] may be called on the side `direction`.
    pub fn can_expand(&self, direction: Direction) -> (r: bool)
        requires
            self.wf(),
        ensures
            r == self@.expand_fits(direction),
    {
        let shift: [u32; 2] = self.shift();
        let left: u64 = shift[0] as u64;
        let bottom: u64 = shift[1] as u64;
        let right: u64 = (self.width() - shift[0] - 1) as u64;
        let top: u64 = (self.height() - shift[1] - 1) as u64;
        let new_left: u64 = if let Direction::LEFT = direction { left + 1 } else { left };
        let new_right: u64 = if let Direction::RIGHT = direction { right + 1 } else { right };
        let new_bottom: u64 = if let Direction::DOWN = direction { bottom + 1 } else { bottom };
        let new_top: u64 = if let Direction::UP = direction { top + 1 } else { top };
        if new_left > i32::MAX as u64 || new_right > i32::MAX as u64 || new_bottom > i32::MAX as u64
            || new_top > i32::MAX as u64 {
            return false;
        }
        let width: u64 = new_left + new_right + 1;
        let height: u64 = new_bottom + new_top + 1;
        assert(width * height <= 0xffff_ffff * 0xffff_ffff) by (nonlinear_arith)
            requires
                width <= 0xffff_ffff,
                height <= 0xffff_ffff,
        ;
        width * height <= usize::MAX as u64
    }

    /// Builds a grid with the given sides: every position that `self` stores
    /// holds what `self` has there, every other one a cell drawn by
    /// [`Cell::random`].
    fn redrawn(&self, left: u32, right: u32, bottom: u32, top: u32, rng: &mut StdRng, stem_types: u8) -> (grid: Grid)
        requires
            self.wf(),
            stem_types > 0,
            GridView::window_fits(left as int, right as int, bottom as int, top as int),
        ensures
            grid.wf(),
            grid@.left() == left,
            grid@.right() == right,
            grid@.bottom() == bottom,
            grid@.top() == top,
            forall|x: int, y: int|
                grid@.contains(x, y) && self@.contains(x, y) ==> #[trigger] grid@.at(x, y) == self@.at(
                    x,
                    y,
                ),
            forall|x: int, y: int|
                !self@.contains(x, y) ==> (#[trigger] grid@.at(x, y)).stem_below(stem_types as int),
    {
        let width: u32 = left + right + 1;
        let height: u32 = bottom + top + 1;
        let mut cells: Vec<Cell> = Vec::new();
        let mut y: u32 = 0;
        while y < height
            invariant
                self.wf(),
                stem_types > 0,
                width == left + right + 1,
                height == bottom + top + 1,
                left <= i32::MAX,
                right <= i32::MAX,
                bottom <= i32::MAX,
                top <= i32::MAX,
                width * height <= usize::MAX,
                y <= height,
                cells.len() == y * width,
                forall|i: int|
                    0 <= i < cells.len() ==> if self@.contains(i % (width as int) - left, i / (width as int) - bottom) {
                        #[trigger] cells[i] == self@.at(i % (width as int) - left, i / (width as int) - bottom)
                    } else {
                        cells[i].stem_below(stem_types as int)
                    },
            decreases height - y,
        {
            let mut x: u32 = 0;
            while x < width
                invariant
                    self.wf(),
                    stem_types > 0,
                    width == left + right + 1,
                    height == bottom + top + 1,
                    left <= i32::MAX,
                    right <= i32::MAX,
                    bottom <= i32::MAX,
                    top <= i32::MAX,
                    width * height <= usize::MAX,
                    y < height,
                    x <= width,
                    cells.len() == y * width + x,
                    forall|i: int|
                        0 <= i < cells.len() ==> if self@.contains(
                            i % (width as int) - left,
                            i / (width as int) - bottom,
                        ) {
                            #[trigger] cells[i] == self@.at(
                                i % (width as int) - left,
                                i / (width as int) - bottom,
                            )
                        } else {
                            cells[i].stem_below(stem_types as int)
                        },
                decreases width - x,
            {
                let pos: [i32; 2] = [(x as i64 - left as i64) as i32, (y as i64 - bottom as i64) as i32];
                proof {
                    lemma_index_of_position(x as int, y as int, width as int, height as int);
                }
                let cell: Cell = if self.contains(pos) {
                    self.at(pos)
                } else {
                    Cell::random(rng, stem_types)
                };
                cells.push(cell);
                x += 1;
            }
            proof {
                assert((y + 1) * width == y * width + width) by (nonlinear_arith);
            }
            y += 1;
        }
        proof {
            assert(height * width == width * height) by (nonlinear_arith);
        }
        let grid = Grid::new(width, height, cells, [left, bottom]);
        proof {
            assert forall|u: int, v: int| grid@.contains(u, v) implies (if self@.contains(u, v) {
                #[trigger] grid@.at(u, v) == self@.at(u, v)
            } else {
                grid@.at(u, v).stem_below(stem_types as int)
            }) by {
                grid@.lemma_position_round_trip(u, v);
            }
        }
        grid
    }

    /// Grows the grid by one row or column on the side `direction`; the new
    /// cells are drawn by [`Cell::random`] with the bound `stem_types`.
    pub fn expand(&mut self, direction: Direction, rng: &mut StdRng, stem_types: u8)
        requires
            old(self).wf(),
            stem_types > 0,
            old(self)@.expand_fits(direction),
        ensures
            final(self)@.is_expansion_of(old(self)@, direction, stem_types as int),
    {
        let ghost before = self@;
        let shift: [u32; 2] = self.shift();
        let left: u32 = shift[0];
        let bottom: u32 = shift[1];
        let right: u32 = self.width() - shift[0] - 1;
        let top: u32 = self.height() - shift[1] - 1;
        let grown: Grid = match direction {
            Direction::UP => self.redrawn(left, right, bottom, top + 1, rng, stem_types),
            Direction::LEFT => self.redrawn(left + 1, right, bottom, top, rng, stem_types),
            Direction::DOWN => self.redrawn(left, right, bottom + 1, top, rng, stem_types),
            Direction::RIGHT => self.redrawn(left, right + 1, bottom, top, rng, stem_types),
        };
        proof {
            grown@.lemma_contract(direction);
            let cut = grown@.contract(direction);
            assert forall|x: int, y: int| cut.contains(x, y) implies cut.at(x, y) == before.at(
                x,
                y,
            ) by {
                assert(cut.at(x, y) == grown@.at(x, y));
            }
            assert(cut.side(Direction::UP) == before.side(Direction::UP));
            assert(cut.side(Direction::LEFT) == before.side(Direction::LEFT));
            assert(cut.side(Direction::DOWN) == before.side(Direction::DOWN));
            assert(cut.side(Direction::RIGHT) == before.side(Direction::RIGHT));
            cut.lemma_equal_by_positions(before);
        }
        *self = grown;
    }

    /// A random rule: its width and its height are each drawn from 1 to 4,
    /// its cells by [`Cell::random`] with the bound `stem_types`, and its
    /// origin among its positions.
    pub fn random(rng: &mut StdRng, stem_types: u8) -> (grid: Grid)
        requires
            stem_types > 0,
        ensures
            grid.wf(),
            1 <= grid@.width <= 4,
            1 <= grid@.height <= 4,
            grid@.cells_below(stem_types as int),
    {
        let width: u32 = draw_below(rng, 4) as u32 + 1;
        let height: u32 = draw_below(rng, 4) as u32 + 1;
        assert(width * height <= 16) by (nonlinear_arith)
            requires
                1 <= width <= 4,
                1 <= height <= 4,
        ;
        let count: u32 = width * height;
        let mut contents: Vec<Cell> = Vec::new();
        let mut i: u32 = 0;
        while i < count
            invariant
                stem_types > 0,
                i <= count,
                contents.len() == i,
                forall|k: int| 0 <= k < i ==> (#[trigger] contents[k]).stem_below(stem_types as int),
            decreases count - i,
        {
            contents.push(Cell::random(rng, stem_types));
            i += 1;
        }
        let shift_x: u32 = draw_below(rng, width as u64) as u32;
        let shift_y: u32 = draw_below(rng, height as u64) as u32;
        Grid::new(width, height, contents, [shift_x, shift_y])
    }
}

} // verus!
