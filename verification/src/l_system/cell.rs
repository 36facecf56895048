//! Cells of a grid and the four orientations they can take.

use rand::rngs::StdRng;
use vstd::prelude::*;

use crate::random::draw_below;

verus! {

/// One of the four axis directions. A direction also stands for the rotation
/// that carries `UP` onto it: `LEFT` is a quarter turn counter-clockwise,
/// `DOWN` a half turn, `RIGHT` three quarter turns.
#[derive(Clone, Copy, Debug, PartialEq, Eq, Structural)]
pub enum Direction {
    UP,
    LEFT,
    DOWN,
    RIGHT,
}

/// What one position of a grid holds.
#[derive(Clone, Copy, Debug, PartialEq, Eq, Structural)]
pub enum Cell {
    /// A growth point: the index of the rule that rewrites it, and the way it faces.
    Stem(u8, Direction),
    /// Inert filled cell.
    Passive,
    /// Nothing.
    Empty,
}

/// The coarse kind of a cell, which forgets what a stem carries.
#[derive(Clone, Copy, Debug, PartialEq, Eq, Structural)]
pub enum CellKind {
    Stem,
    Passive,
    Empty,
}

impl Direction {
    /// Number of counter-clockwise quarter turns that carry `UP` onto `self`.
    pub open spec fn turns(self) -> int {
        match self {
            Direction::UP => 0,
            Direction::LEFT => 1,
            Direction::DOWN => 2,
            Direction::RIGHT => 3,
        }
    }

    /// The direction reached from `UP` by `n` quarter turns, `n` taken modulo 4.
    pub open spec fn from_turns(n: int) -> Direction {
        let k = n % 4;
        if k == 0 {
            Direction::UP
        } else if k == 1 {
            Direction::LEFT
        } else if k == 2 {
            Direction::DOWN
        } else {
            Direction::RIGHT
        }
    }

    /// The rotation `self` applied after the rotation `dir`.
    pub open spec fn compose(self, dir: Direction) -> Direction {
        Direction::from_turns(self.turns() + dir.turns())
    }

    /// The rotation that undoes `self`.
    pub open spec fn inverse(self) -> Direction {
        Direction::from_turns(4 - self.turns())
    }

    /// The point `(x, y)` turned about the origin by `self`.
    pub open spec fn rotate_point(self, x: int, y: int) -> (int, int) {
        match self {
            Direction::UP => (x, y),
            Direction::LEFT => (-y, x),
            Direction::DOWN => (-x, -y),
            Direction::RIGHT => (y, -x),
        }
    }

    /// Four values named in counter-clockwise order (top, left, bottom, right),
    /// after the thing they are measured on was turned by `self`: entry `i` of
    /// the result is entry `i - turns` of the input, indices modulo 4.
    pub open spec fn rotate_four<T>(self, a: T, b: T, c: T, d: T) -> Seq<T> {
        Seq::new(4, |i: int| seq![a, b, c, d][(i + 4 - self.turns()) % 4])
    }

    /// The byte that stands for `self` in the grid byte format.
    pub open spec fn byte(self) -> u8 {
        self.turns() as u8
    }

    /// A uniformly drawn direction.
    pub fn random(rng: &mut StdRng) -> Direction {
        Direction::from_index(draw_below(rng, 4) as u32)
    }

    /// The direction with the given number of quarter turns; every index from
    /// 3 on gives `RIGHT`.
    pub fn from_index(index: u32) -> (dir: Direction)
        ensures
            dir == Direction::from_turns(if index < 3 { index as int } else { 3 }),
    {
        if index == 0 {
            Direction::UP
        } else if index == 1 {
            Direction::LEFT
        } else if index == 2 {
            Direction::DOWN
        } else {
            Direction::RIGHT
        }
    }

    /// Four values named in the order top, left, bottom, right, after a
    /// turn by `self`: see [`Self::rotate_four`].
    pub fn rotate_vals<T: Copy>(&self, a: T, b: T, c: T, d: T) -> (r: [T; 4])
        ensures
            r@ == self.rotate_four(a, b, c, d),
    {
        let r = match self {
            Direction::UP => [a, b, c, d],
            Direction::LEFT => [d, a, b, c],
            Direction::DOWN => [c, d, a, b],
            Direction::RIGHT => [b, c, d, a],
        };
        assert(r@ =~= self.rotate_four(a, b, c, d));
        r
    }

    /// Turns a coordinate pair about the origin. A coordinate that gets negated
    /// must have a negative in `i32`.
    pub fn rotate_coords(&self, v: [i32; 2]) -> (r: [i32; 2])
        requires
            (*self == Direction::DOWN || *self == Direction::RIGHT) ==> v[0] > i32::MIN,
            (*self == Direction::DOWN || *self == Direction::LEFT) ==> v[1] > i32::MIN,
        ensures
            (r[0] as int, r[1] as int) == self.rotate_point(v[0] as int, v[1] as int),
    {
        match self {
            Direction::UP => [v[0], v[1]],
            Direction::LEFT => [-v[1], v[0]],
            Direction::DOWN => [-v[0], -v[1]],
            Direction::RIGHT => [v[1], -v[0]],
        }
    }

    /// The cell turned by `self`: a stem turns, anything else stays.
    pub fn rotate_cell(&self, cell: Cell) -> (r: Cell)
        ensures
            r == cell.rotated(*self),
    {
        match cell {
            Cell::Stem(n, d) => Cell::Stem(n, self.rotate_dir(d)),
            c => c,
        }
    }

    /// The direction `dir` turned by `self`.
    pub fn rotate_dir(&self, dir: Direction) -> (r: Direction)
        ensures
            r == self.compose(dir),
    {
        match self {
            Direction::UP => dir,
            Direction::LEFT => match dir {
                Direction::UP => Direction::LEFT,
                Direction::LEFT => Direction::DOWN,
                Direction::DOWN => Direction::RIGHT,
                Direction::RIGHT => Direction::UP,
            },
            Direction::DOWN => match dir {
                Direction::UP => Direction::DOWN,
                Direction::LEFT => Direction::RIGHT,
                Direction::DOWN => Direction::UP,
                Direction::RIGHT => Direction::LEFT,
            },
            Direction::RIGHT => match dir {
                Direction::UP => Direction::RIGHT,
                Direction::LEFT => Direction::UP,
                Direction::DOWN => Direction::LEFT,
                Direction::RIGHT => Direction::DOWN,
            },
        }
    }

    /// The byte written for this direction: its number of quarter turns.
    pub fn to_byte(&self) -> (b: u8)
        ensures
            b == self.byte(),
    {
        match self {
            Direction::UP => 0,
            Direction::LEFT => 1,
            Direction::DOWN => 2,
            Direction::RIGHT => 3,
        }
    }

    /// Reads a direction byte; a byte above 3 names no direction.
    pub fn from_byte(b: u8) -> (r: Option<Direction>)
        ensures
            b <= 3 ==> r == Some(Direction::from_turns(b as int)),
            b > 3 ==> r.is_none(),
    {
        if b == 0 {
            Some(Direction::UP)
        } else if b == 1 {
            Some(Direction::LEFT)
        } else if b == 2 {
            Some(Direction::DOWN)
        } else if b == 3 {
            Some(Direction::RIGHT)
        } else {
            None
        }
    }

    /// The one-character picture of a direction.
    pub fn symbol(&self) -> (c: char)
        ensures
            c == match *self {
                Direction::UP => '^',
                Direction::LEFT => '<',
                Direction::DOWN => 'v',
                Direction::RIGHT => '>',
            },
    {
        match self {
            Direction::UP => '^',
            Direction::LEFT => '<',
            Direction::DOWN => 'v',
            Direction::RIGHT => '>',
        }
    }
}

impl CellKind {
    /// The kind that a draw among eight stands for: 0 is a stem, 1 to 4 are
    /// passive, everything else is empty.
    pub open spec fn drawn(draw: int) -> CellKind {
        if draw == 0 {
            CellKind::Stem
        } else if 1 <= draw <= 4 {
            CellKind::Passive
        } else {
            CellKind::Empty
        }
    }

    /// See [`Self::drawn`].
    pub fn for_draw(draw: u32) -> (kind: CellKind)
        ensures
            kind == CellKind::drawn(draw as int),
    {
        if draw == 0 {
            CellKind::Stem
        } else if draw <= 4 {
            CellKind::Passive
        } else {
            CellKind::Empty
        }
    }
}

impl Cell {
    /// The kind of the cell.
    pub open spec fn kind(self) -> CellKind {
        match self {
            Cell::Stem(_, _) => CellKind::Stem,
            Cell::Passive => CellKind::Passive,
            Cell::Empty => CellKind::Empty,
        }
    }

    /// The cell after a turn by `by`: a stem turns with it, anything else is unchanged.
    pub open spec fn rotated(self, by: Direction) -> Cell {
        match self {
            Cell::Stem(n, d) => Cell::Stem(n, by.compose(d)),
            c => c,
        }
    }

    /// A stem of this cell refers to a rule below `stem_types`.
    pub open spec fn stem_below(self, stem_types: int) -> bool {
        self matches Cell::Stem(n, _) ==> n < stem_types
    }

    /// Draws a cell. A first draw among eight decides its kind, see
    /// [`CellKind::for_draw`]: with one chance in eight a stem, with four in
    /// eight `Passive`, with three in eight `Empty`. The type of a stem is
    /// then drawn below `stem_types` and its orientation among the four.
    pub fn random(rng: &mut StdRng, stem_types: u8) -> (cell: Cell)
        requires
            stem_types > 0,
        ensures
            cell.stem_below(stem_types as int),
    {
        let draw: u32 = draw_below(rng, 8) as u32;
        match CellKind::for_draw(draw) {
            CellKind::Stem => {
                let stem: u64 = draw_below(rng, stem_types as u64);
                Cell::Stem(stem as u8, Direction::random(rng))
            },
            CellKind::Passive => Cell::Passive,
            CellKind::Empty => Cell::Empty,
        }
    }

    /// Whether two cells are of the same kind, whatever a stem carries.
    pub fn same_type(&self, other: &Self) -> (r: bool)
        ensures
            r == (self.kind() == other.kind()),
    {
        match self {
            Cell::Stem(_, _) => match other {
                Cell::Stem(_, _) => true,
                Cell::Passive => false,
                Cell::Empty => false,
            },
            Cell::Passive => match other {
                Cell::Stem(_, _) => false,
                Cell::Passive => true,
                Cell::Empty => false,
            },
            Cell::Empty => match other {
                Cell::Stem(_, _) => false,
                Cell::Passive => false,
                Cell::Empty => true,
            },
        }
    }
}

/// The four rotations form a cyclic group under `compose`: `UP` is neutral,
/// `inverse` undoes, and composition is associative and commutative.
pub proof fn lemma_rotation_group(a: Direction, b: Direction, c: Direction)
    ensures
        Direction::UP.compose(a) == a,
        a.compose(Direction::UP) == a,
        a.compose(a.inverse()) == Direction::UP,
        a.inverse().compose(a) == Direction::UP,
        a.compose(b) == b.compose(a),
        a.compose(b.compose(c)) == a.compose(b).compose(c),
        Direction::from_turns(a.turns()) == a,
{
}

/// Turning a point by `b` and then by `a` is turning it by `a.compose(b)`, and
/// turning by the inverse brings it back.
pub proof fn lemma_rotate_point_composes(a: Direction, b: Direction, x: int, y: int)
    ensures
        ({
            let (bx, by) = b.rotate_point(x, y);
            a.rotate_point(bx, by) == a.compose(b).rotate_point(x, y)
        }),
        ({
            let (ax, ay) = a.rotate_point(x, y);
            a.inverse().rotate_point(ax, ay) == (x, y)
        }),
        ({
            let (ix, iy) = a.inverse().rotate_point(x, y);
            a.rotate_point(ix, iy) == (x, y)
        }),
{
}

/// Turning a cell by `b` and then by `a` is turning it by `a.compose(b)`; a
/// turn never changes the kind of a cell, nor the rule a stem refers to.
pub proof fn lemma_rotated_cell(a: Direction, b: Direction, cell: Cell)
    ensures
        cell.rotated(b).rotated(a) == cell.rotated(a.compose(b)),
        cell.rotated(Direction::UP) == cell,
        cell.rotated(a).kind() == cell.kind(),
        forall|n: int| cell.stem_below(n) == #[trigger] cell.rotated(a).stem_below(n),
{
}

} // verus!
