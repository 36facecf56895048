//! How alike two grids are: positions that agree in kind count for, positions
//! that differ count against.

use vstd::math::max;
use vstd::prelude::*;

use crate::l_system::cell::Cell;
use crate::l_system::grid::{Grid, GridView};

verus! {

/// Sum of `f(x, y)` over the `n` columns of row `y` from column `x0` on.
pub open spec fn row_sum(f: spec_fn(int, int) -> int, y: int, x0: int, n: int) -> int
    decreases n,
{
    if n <= 0 {
        0
    } else {
        row_sum(f, y, x0, n - 1) + f(x0 + n - 1, y)
    }
}

/// Sum of `f` over the box of `n` columns from `x0` on and `m` rows from `y0` on.
pub open spec fn box_sum(f: spec_fn(int, int) -> int, x0: int, n: int, y0: int, m: int) -> int
    decreases m,
{
    if m <= 0 {
        0
    } else {
        box_sum(f, x0, n, y0, m - 1) + row_sum(f, y0 + m - 1, x0, n)
    }
}

/// 1 where the position holds something other than `Empty`.
pub open spec fn filled_at(a: GridView) -> spec_fn(int, int) -> int {
    |x: int, y: int|
        if a.at(x, y) is Empty {
            0int
        } else {
            1int
        }
}

/// 1 where both grids hold the same kind of cell and it is not `Empty`.
pub open spec fn same_at(a: GridView, b: GridView) -> spec_fn(int, int) -> int {
    |x: int, y: int|
        if a.at(x, y).kind() == b.at(x, y).kind() && !(a.at(x, y) is Empty) {
            1int
        } else {
            0int
        }
}

/// 1 where the two grids hold cells of different kinds.
pub open spec fn different_at(a: GridView, b: GridView) -> spec_fn(int, int) -> int {
    |x: int, y: int|
        if a.at(x, y).kind() != b.at(x, y).kind() {
            1int
        } else {
            0int
        }
}

/// 1 where `b` holds something other than `Empty` outside the rectangle of `a`.
pub open spec fn beyond_at(a: GridView, b: GridView) -> spec_fn(int, int) -> int {
    |x: int, y: int|
        if !a.contains(x, y) && !(b.at(x, y) is Empty) {
            1int
        } else {
            0int
        }
}

/// 1 where the two grids differ inside the rectangle of `a`.
pub open spec fn within_at(a: GridView, b: GridView) -> spec_fn(int, int) -> int {
    |x: int, y: int|
        if a.contains(x, y) && a.at(x, y).kind() != b.at(x, y).kind() {
            1int
        } else {
            0int
        }
}

impl GridView {
    /// Sum of `f` over the stored positions.
    pub open spec fn sum_over(self, f: spec_fn(int, int) -> int) -> int {
        box_sum(f, -self.left(), self.width, -self.bottom(), self.height)
    }

    /// Number of cells other than `Empty`.
    pub open spec fn filled(self) -> int {
        self.sum_over(filled_at(self))
    }

    /// Number of positions at which both grids hold the same kind of cell,
    /// other than `Empty`.
    pub open spec fn same(self, other: GridView) -> int {
        self.sum_over(same_at(self, other))
    }

    /// Number of positions at which the two grids hold cells of different
    /// kinds, counted over the least rectangle that holds both grids; beyond
    /// it both are `Empty` and nothing differs.
    pub open spec fn different(self, other: GridView) -> int {
        let left = max(self.left(), other.left());
        let right = max(self.right(), other.right());
        let bottom = max(self.bottom(), other.bottom());
        let top = max(self.top(), other.top());
        box_sum(different_at(self, other), -left, left + right + 1, -bottom, bottom + top + 1)
    }

    /// One for every position of agreement, minus one for every position of
    /// difference.
    pub open spec fn similarity(self, other: GridView) -> int {
        self.same(other) - self.different(other)
    }
}

/// Where `f` is `g + h` at every position of a row, so are the sums.
pub proof fn lemma_row_sum_add(
    f: spec_fn(int, int) -> int,
    g: spec_fn(int, int) -> int,
    h: spec_fn(int, int) -> int,
    y: int,
    x0: int,
    n: int,
)
    requires
        forall|x: int| x0 <= x < x0 + n ==> #[trigger] f(x, y) == g(x, y) + h(x, y),
    ensures
        row_sum(f, y, x0, n) == row_sum(g, y, x0, n) + row_sum(h, y, x0, n),
    decreases n,
{
    if n > 0 {
        lemma_row_sum_add(f, g, h, y, x0, n - 1);
        assert(f(x0 + n - 1, y) == g(x0 + n - 1, y) + h(x0 + n - 1, y));
    }
}

/// A row of values between 0 and 1 sums to between 0 and its length; a row
/// of zeros sums to zero.
pub proof fn lemma_row_sum_bounds(f: spec_fn(int, int) -> int, y: int, x0: int, n: int)
    requires
        0 <= n,
        forall|x: int| x0 <= x < x0 + n ==> 0 <= #[trigger] f(x, y) <= 1,
    ensures
        0 <= row_sum(f, y, x0, n) <= n,
        (forall|x: int| x0 <= x < x0 + n ==> #[trigger] f(x, y) == 0) ==> row_sum(f, y, x0, n)
            == 0,
    decreases n,
{
    if n > 0 {
        lemma_row_sum_bounds(f, y, x0, n - 1);
        assert(0 <= f(x0 + n - 1, y) <= 1);
    }
}

/// A row splits into its first `k` columns and the rest.
pub proof fn lemma_row_sum_split(f: spec_fn(int, int) -> int, y: int, x0: int, k: int, n: int)
    requires
        0 <= k <= n,
    ensures
        row_sum(f, y, x0, n) == row_sum(f, y, x0, k) + row_sum(f, y, x0 + k, n - k),
    decreases n,
{
    if n > k {
        lemma_row_sum_split(f, y, x0, k, n - 1);
    }
}

/// A row may be widened over columns where `f` is zero.
pub proof fn lemma_row_sum_window(
    f: spec_fn(int, int) -> int,
    y: int,
    x0: int,
    n: int,
    wide_x0: int,
    wide_n: int,
)
    requires
        0 <= n,
        wide_x0 <= x0,
        x0 + n <= wide_x0 + wide_n,
        forall|x: int|
            wide_x0 <= x < wide_x0 + wide_n && !(x0 <= x < x0 + n) ==> #[trigger] f(x, y) == 0,
    ensures
        row_sum(f, y, wide_x0, wide_n) == row_sum(f, y, x0, n),
{
    let before = x0 - wide_x0;
    lemma_row_sum_split(f, y, wide_x0, before, wide_n);
    lemma_row_sum_split(f, y, x0, n, wide_n - before);
    assert forall|x: int| wide_x0 <= x < wide_x0 + before implies 0 <= #[trigger] f(x, y)
        <= 1 by {}
    lemma_row_sum_bounds(f, y, wide_x0, before);
    assert forall|x: int| x0 + n <= x < x0 + n + (wide_n - before - n) implies 0
        <= #[trigger] f(x, y) <= 1 by {}
    lemma_row_sum_bounds(f, y, x0 + n, wide_n - before - n);
}

/// Where `f` is `g + h` at every position of a box, so are the sums.
pub proof fn lemma_box_sum_add(
    f: spec_fn(int, int) -> int,
    g: spec_fn(int, int) -> int,
    h: spec_fn(int, int) -> int,
    x0: int,
    n: int,
    y0: int,
    m: int,
)
    requires
        forall|x: int, y: int|
            x0 <= x < x0 + n && y0 <= y < y0 + m ==> #[trigger] f(x, y) == g(x, y) + h(x, y),
    ensures
        box_sum(f, x0, n, y0, m) == box_sum(g, x0, n, y0, m) + box_sum(h, x0, n, y0, m),
    decreases m,
{
    if m > 0 {
        lemma_box_sum_add(f, g, h, x0, n, y0, m - 1);
        lemma_row_sum_add(f, g, h, y0 + m - 1, x0, n);
    }
}

/// A box of values between 0 and 1 sums to between 0 and its area; a box of
/// zeros sums to zero.
pub proof fn lemma_box_sum_bounds(f: spec_fn(int, int) -> int, x0: int, n: int, y0: int, m: int)
    requires
        0 <= n,
        0 <= m,
        forall|x: int, y: int|
            x0 <= x < x0 + n && y0 <= y < y0 + m ==> 0 <= #[trigger] f(x, y) <= 1,
    ensures
        0 <= box_sum(f, x0, n, y0, m) <= n * m,
        (forall|x: int, y: int|
            x0 <= x < x0 + n && y0 <= y < y0 + m ==> #[trigger] f(x, y) == 0) ==> box_sum(
            f,
            x0,
            n,
            y0,
            m,
        ) == 0,
    decreases m,
{
    if m > 0 {
        lemma_box_sum_bounds(f, x0, n, y0, m - 1);
        lemma_row_sum_bounds(f, y0 + m - 1, x0, n);
        assert(n * (m - 1) + n == n * m) by (nonlinear_arith);
    } else {
        assert(n * m == 0) by (nonlinear_arith)
            requires
                m == 0,
        ;
    }
}

/// A box splits into its first `k` rows and the rest.
pub proof fn lemma_box_sum_split(
    f: spec_fn(int, int) -> int,
    x0: int,
    n: int,
    y0: int,
    k: int,
    m: int,
)
    requires
        0 <= k <= m,
    ensures
        box_sum(f, x0, n, y0, m) == box_sum(f, x0, n, y0, k) + box_sum(f, x0, n, y0 + k, m - k),
    decreases m,
{
    if m > k {
        lemma_box_sum_split(f, x0, n, y0, k, m - 1);
    }
}

/// Every row of a box may be widened over columns where `f` is zero.
pub proof fn lemma_box_sum_widen(
    f: spec_fn(int, int) -> int,
    x0: int,
    n: int,
    wide_x0: int,
    wide_n: int,
    y0: int,
    m: int,
)
    requires
        0 <= n,
        wide_x0 <= x0,
        x0 + n <= wide_x0 + wide_n,
        forall|x: int, y: int|
            y0 <= y < y0 + m && wide_x0 <= x < wide_x0 + wide_n && !(x0 <= x < x0 + n)
                ==> #[trigger] f(x, y) == 0,
    ensures
        box_sum(f, wide_x0, wide_n, y0, m) == box_sum(f, x0, n, y0, m),
    decreases m,
{
    if m > 0 {
        lemma_box_sum_widen(f, x0, n, wide_x0, wide_n, y0, m - 1);
        lemma_row_sum_window(f, y0 + m - 1, x0, n, wide_x0, wide_n);
    }
}

/// A box may be enlarged over positions where `f`, which is 0 or 1
/// everywhere, is zero.
pub proof fn lemma_box_sum_window(
    f: spec_fn(int, int) -> int,
    x0: int,
    n: int,
    y0: int,
    m: int,
    wide_x0: int,
    wide_n: int,
    wide_y0: int,
    wide_m: int,
)
    requires
        0 <= n,
        0 <= m,
        wide_x0 <= x0,
        x0 + n <= wide_x0 + wide_n,
        wide_y0 <= y0,
        y0 + m <= wide_y0 + wide_m,
        forall|x: int, y: int| 0 <= #[trigger] f(x, y) <= 1,
        forall|x: int, y: int|
            !(x0 <= x < x0 + n && y0 <= y < y0 + m) ==> #[trigger] f(x, y) == 0,
    ensures
        box_sum(f, wide_x0, wide_n, wide_y0, wide_m) == box_sum(f, x0, n, y0, m),
{
    let below = y0 - wide_y0;
    lemma_box_sum_split(f, wide_x0, wide_n, wide_y0, below, wide_m);
    lemma_box_sum_split(f, wide_x0, wide_n, y0, m, wide_m - below);
    lemma_box_sum_bounds(f, wide_x0, wide_n, wide_y0, below);
    lemma_box_sum_bounds(f, wide_x0, wide_n, y0 + m, wide_m - below - m);
    lemma_box_sum_widen(f, x0, n, wide_x0, wide_n, y0, m);
}

impl GridView {
    /// The count of differences falls into the part inside the rectangle of
    /// `self` and the cells of `other` that lie beyond it.
    pub proof fn lemma_different_parts(self, other: GridView)
        requires
            self.wf(),
            other.wf(),
        ensures
            self.different(other) == self.sum_over(within_at(self, other)) + other.sum_over(
                beyond_at(self, other),
            ),
    {
        let left = max(self.left(), other.left());
        let right = max(self.right(), other.right());
        let bottom = max(self.bottom(), other.bottom());
        let top = max(self.top(), other.top());
        let d = different_at(self, other);
        let w = within_at(self, other);
        let o = beyond_at(self, other);
        assert forall|x: int, y: int| #[trigger] d(x, y) == w(x, y) + o(x, y) by {}
        lemma_box_sum_add(d, w, o, -left, left + right + 1, -bottom, bottom + top + 1);
        lemma_box_sum_window(
            w,
            -self.left(),
            self.width,
            -self.bottom(),
            self.height,
            -left,
            left + right + 1,
            -bottom,
            bottom + top + 1,
        );
        lemma_box_sum_window(
            o,
            -other.left(),
            other.width,
            -other.bottom(),
            other.height,
            -left,
            left + right + 1,
            -bottom,
            bottom + top + 1,
        );
    }

    /// Both counts are at least zero; agreements are no more than the cells
    /// of `self`, differences no more than the cells of both grids.
    pub proof fn lemma_similarity_bounds(self, other: GridView)
        requires
            self.wf(),
            other.wf(),
        ensures
            0 <= self.same(other) <= self.cells.len(),
            0 <= self.different(other) <= self.cells.len() + other.cells.len(),
            0 <= self.filled() <= self.cells.len(),
    {
        self.lemma_different_parts(other);
        lemma_box_sum_bounds(
            same_at(self, other),
            -self.left(),
            self.width,
            -self.bottom(),
            self.height,
        );
        lemma_box_sum_bounds(filled_at(self), -self.left(), self.width, -self.bottom(), self.height);
        lemma_box_sum_bounds(
            within_at(self, other),
            -self.left(),
            self.width,
            -self.bottom(),
            self.height,
        );
        lemma_box_sum_bounds(
            beyond_at(self, other),
            -other.left(),
            other.width,
            -other.bottom(),
            other.height,
        );
    }

    /// A grid compared with itself scores the number of its cells that are
    /// not `Empty`.
    pub proof fn lemma_similarity_with_itself(self)
        requires
            self.wf(),
        ensures
            self.same(self) == self.filled(),
            self.different(self) == 0,
            self.similarity(self) == self.filled(),
    {
        let zero = |x: int, y: int| 0int;
        lemma_box_sum_add(
            same_at(self, self),
            filled_at(self),
            zero,
            -self.left(),
            self.width,
            -self.bottom(),
            self.height,
        );
        lemma_box_sum_bounds(zero, -self.left(), self.width, -self.bottom(), self.height);
        lemma_box_sum_bounds(
            different_at(self, self),
            -self.left(),
            self.width,
            -self.bottom(),
            self.height,
        );
    }

    /// Two grids that nowhere both hold something other than `Empty` score
    /// minus the number of cells other than `Empty` of both together.
    pub proof fn lemma_similarity_of_disjoint(self, other: GridView)
        requires
            self.wf(),
            other.wf(),
            forall|x: int, y: int| (#[trigger] self.at(x, y)) is Empty || other.at(x, y) is Empty,
        ensures
            self.same(other) == 0,
            self.different(other) == self.filled() + other.filled(),
            self.similarity(other) == -(self.filled() + other.filled()),
    {
        let left = max(self.left(), other.left());
        let right = max(self.right(), other.right());
        let bottom = max(self.bottom(), other.bottom());
        let top = max(self.top(), other.top());
        let s = same_at(self, other);
        assert forall|x: int, y: int| #[trigger] s(x, y) == 0 by {
            assert(self.at(x, y) is Empty || other.at(x, y) is Empty);
        }
        lemma_box_sum_bounds(s, -self.left(), self.width, -self.bottom(), self.height);
        let d = different_at(self, other);
        let fa = filled_at(self);
        let fb = filled_at(other);
        assert forall|x: int, y: int| #[trigger] d(x, y) == fa(x, y) + fb(x, y) by {
            assert(self.at(x, y) is Empty || other.at(x, y) is Empty);
        }
        lemma_box_sum_add(d, fa, fb, -left, left + right + 1, -bottom, bottom + top + 1);
        lemma_box_sum_window(
            fa,
            -self.left(),
            self.width,
            -self.bottom(),
            self.height,
            -left,
            left + right + 1,
            -bottom,
            bottom + top + 1,
        );
        lemma_box_sum_window(
            fb,
            -other.left(),
            other.width,
            -other.bottom(),
            other.height,
            -left,
            left + right + 1,
            -bottom,
            bottom + top + 1,
        );
    }
}

impl Grid {
    /// Sums over the stored positions of `self`: the agreements with `other`,
    /// the differences from `other`, and the cells other than `Empty` that lie
    /// outside `outer`.
    fn tally(&self, other: &Grid, outer: &Grid) -> (counts: (u128, u128, u128))
        requires
            self.wf(),
            other.wf(),
            outer.wf(),
        ensures
            counts.0 == self@.sum_over(same_at(self@, other@)),
            counts.1 == self@.sum_over(within_at(self@, other@)),
            counts.2 == self@.sum_over(beyond_at(outer@, self@)),
            counts.0 <= self@.cells.len(),
            counts.1 <= self@.cells.len(),
            counts.2 <= self@.cells.len(),
    {
        let ghost s = same_at(self@, other@);
        let ghost w = within_at(self@, other@);
        let ghost o = beyond_at(outer@, self@);
        let ghost x0 = -self@.left();
        let ghost y0 = -self@.bottom();
        let width: u32 = self.width();
        let height: u32 = self.height();
        let len: usize = self.contents().len();
        let mut same: u128 = 0;
        let mut within: u128 = 0;
        let mut beyond: u128 = 0;
        let mut y: u32 = 0;
        while y < height
            invariant
                self.wf(),
                other.wf(),
                outer.wf(),
                width == self@.width,
                height == self@.height,
                len == self@.cells.len(),
                x0 == -self@.left(),
                y0 == -self@.bottom(),
                s == same_at(self@, other@),
                w == within_at(self@, other@),
                o == beyond_at(outer@, self@),
                y <= height,
                same == box_sum(s, x0, width as int, y0, y as int),
                within == box_sum(w, x0, width as int, y0, y as int),
                beyond == box_sum(o, x0, width as int, y0, y as int),
                same <= y * width,
                within <= y * width,
                beyond <= y * width,
            decreases height - y,
        {
            let ghost same_rows = same;
            let ghost within_rows = within;
            let ghost beyond_rows = beyond;
            let mut x: u32 = 0;
            proof {
                crate::l_system::grid::lemma_index_of_position(
                    0,
                    y as int,
                    width as int,
                    height as int,
                );
                assert(y * width + width <= width * height) by (nonlinear_arith)
                    requires
                        y + 1 <= height,
                        width >= 0,
                ;
            }
            while x < width
                invariant
                    self.wf(),
                    other.wf(),
                    outer.wf(),
                    width == self@.width,
                    height == self@.height,
                    len == self@.cells.len(),
                    x0 == -self@.left(),
                    y0 == -self@.bottom(),
                    s == same_at(self@, other@),
                    w == within_at(self@, other@),
                    o == beyond_at(outer@, self@),
                    y < height,
                    x <= width,
                    y * width + width <= len,
                    same == same_rows + row_sum(s, y0 + y, x0, x as int),
                    within == within_rows + row_sum(w, y0 + y, x0, x as int),
                    beyond == beyond_rows + row_sum(o, y0 + y, x0, x as int),
                    same_rows <= y * width,
                    within_rows <= y * width,
                    beyond_rows <= y * width,
                    same <= y * width + x,
                    within <= y * width + x,
                    beyond <= y * width + x,
                decreases width - x,
            {
                let cell: Cell = self.at_raw_unchecked([x, y]);
                let pos: [i32; 2] = self.raw_pos_to_pos([x, y]);
                let there: Cell = other.at(pos);
                if cell.same_type(&there) {
                    if !cell.same_type(&Cell::Empty) {
                        same += 1;
                    }
                } else {
                    within += 1;
                }
                if !outer.contains(pos) && !cell.same_type(&Cell::Empty) {
                    beyond += 1;
                }
                x += 1;
            }
            proof {
                assert((y + 1) * width == y * width + width) by (nonlinear_arith);
            }
            y += 1;
        }
        proof {
            assert(height * width == width * height) by (nonlinear_arith);
        }
        (same, within, beyond)
    }

    /// The number of positions at which both grids hold the same kind of cell
    /// other than `Empty`, and the number of positions at which they hold
    /// different kinds. A position outside a grid counts as `Empty` there.
    pub fn similarity_counts(&self, other: &Self) -> (counts: (u128, u128))
        requires
            self.wf(),
            other.wf(),
        ensures
            counts.0 == self@.same(other@),
            counts.1 == self@.different(other@),
    {
        let here = self.tally(other, self);
        let there = other.tally(self, self);
        let cells: usize = self.contents().len();
        let other_cells: usize = other.contents().len();
        proof {
            self@.lemma_different_parts(other@);
        }
        (here.0, here.1 + there.2)
    }

    /// The similarity of two grids: one for every position at which both hold
    /// the same kind of cell other than `Empty`, minus one for every position
    /// at which they hold different kinds.
    pub fn score_simmilarity(&self, other: &Self) -> (score: i128)
        requires
            self.wf(),
            other.wf(),
        ensures
            score == self@.similarity(other@),
    {
        let counts = self.similarity_counts(other);
        let cells: usize = self.contents().len();
        let other_cells: usize = other.contents().len();
        proof {
            self@.lemma_similarity_bounds(other@);
        }
        counts.0 as i128 - counts.1 as i128
    }
}

} // verus!
