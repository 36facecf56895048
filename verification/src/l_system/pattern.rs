//! Grids drawn as text: one line for each row, the top row first, a dot for
//! an empty cell and any other character for a passive one.

use vstd::prelude::*;

use crate::l_system::cell::Cell;
use crate::l_system::codec::header_fits;
use crate::l_system::grid::{lemma_index_of_position, Grid, GridView};

verus! {

/// A line without the carriage return at its end, if it has one.
pub open spec fn strip_cr(line: Seq<char>) -> Seq<char> {
    if line.len() > 0 && line.last() == '\r' {
        line.drop_last()
    } else {
        line
    }
}

/// The lines that a text has closed by a line feed, and what follows the
/// last line feed. A carriage return just before a line feed belongs to
/// the line ending.
pub open spec fn split_lines(text: Seq<char>) -> (Seq<Seq<char>>, Seq<char>)
    decreases text.len(),
{
    if text.len() == 0 {
        (Seq::empty(), Seq::empty())
    } else {
        let (done, current) = split_lines(text.drop_last());
        if text.last() == '\n' {
            (done.push(strip_cr(current)), Seq::empty())
        } else {
            (done, current.push(text.last()))
        }
    }
}

/// The lines of a text. The last line need not be closed by a line feed.
pub open spec fn lines_of(text: Seq<char>) -> Seq<Seq<char>> {
    let (done, current) = split_lines(text);
    if current.len() > 0 {
        done.push(current)
    } else {
        done
    }
}

/// The cell that a character stands for.
pub open spec fn pattern_cell(c: char) -> Cell {
    if c == '.' {
        Cell::Empty
    } else {
        Cell::Passive
    }
}

/// Whether lines draw a grid with the origin at the given buffer position:
/// there is a line, all lines are equally long and not empty, and the origin
/// lies inside.
pub open spec fn pattern_fits(lines: Seq<Seq<char>>, shift_x: int, shift_y: int) -> bool {
    &&& lines.len() > 0
    &&& lines[0].len() > 0
    &&& forall|i: int| 0 <= i < lines.len() ==> (#[trigger] lines[i]).len() == lines[0].len()
    &&& lines.len() <= u32::MAX
    &&& lines[0].len() <= u32::MAX
    &&& header_fits(lines[0].len() as int, lines.len() as int, shift_x, shift_y)
}

/// The grid that lines draw: the last line is the bottom row.
pub open spec fn pattern(lines: Seq<Seq<char>>, shift_x: int, shift_y: int) -> GridView {
    let width = lines[0].len() as int;
    let height = lines.len() as int;
    GridView {
        width,
        height,
        shift_x,
        shift_y,
        cells: Seq::new(
            (width * height) as nat,
            |i: int| pattern_cell(lines[height - 1 - i / width][i % width]),
        ),
    }
}

/// The contents of lines held as vectors.
pub open spec fn line_views(lines: Seq<Vec<char>>) -> Seq<Seq<char>> {
    lines.map_values(|line: Vec<char>| line@)
}

/// The lines of a text.
fn lines(text: &str) -> (lines: Vec<Vec<char>>)
    ensures
        line_views(lines@) == lines_of(text@),
{
    let mut done: Vec<Vec<char>> = Vec::new();
    let mut current: Vec<char> = Vec::new();
    assert(line_views(done@) =~= Seq::<Seq<char>>::empty());
    assert(text@.take(0) =~= Seq::<char>::empty());
    for ch in it: text.chars()
        invariant
            it.seq() == text@,
            (line_views(done@), current@) == split_lines(text@.take(it.index() as int)),
    {
        let ghost seen = text@.take(it.index() as int);
        let ghost more = text@.take(it.index() + 1);
        let ghost closed = line_views(done@);
        proof {
            assert(more.drop_last() =~= seen);
            assert(more.last() == ch);
        }
        if ch == '\n' {
            let count: usize = current.len();
            if count > 0 && current[count - 1] == '\r' {
                let _ = current.pop();
            }
            let ghost line = current@;
            done.push(current);
            current = Vec::new();
            assert(line_views(done@) =~= closed.push(line));
        } else {
            current.push(ch);
        }
    }
    assert(text@.take(text@.len() as int) =~= text@);
    if current.len() > 0 {
        let ghost closed = line_views(done@);
        let ghost line = current@;
        done.push(current);
        assert(line_views(done@) =~= closed.push(line));
    }
    done
}

impl Grid {
    /// The grid that a text draws, with its origin at buffer position
    /// `shift`. Each line of the text is a row, the last line the bottom
    /// row; a dot stands for `Empty`, any other character for `Passive`.
    /// There is no such grid where the text has no line, an empty line or
    /// lines of different lengths, or where `shift` lies outside.
    pub fn from_string(string: &str, shift: [u32; 2]) -> (grid: Option<Grid>)
        ensures
            grid is Some <==> pattern_fits(lines_of(string@), shift[0] as int, shift[1] as int),
            grid matches Some(g) ==> g.wf() && g@ == pattern(
                lines_of(string@),
                shift[0] as int,
                shift[1] as int,
            ),
    {
        let rows: Vec<Vec<char>> = lines(string);
        let ghost drawn = lines_of(string@);
        if rows.len() == 0 || rows.len() > u32::MAX as usize {
            return None;
        }
        assert(drawn[0] == rows@[0]@);
        let width: usize = rows[0].len();
        if width == 0 || width > u32::MAX as usize {
            return None;
        }
        let height: usize = rows.len();
        let mut k: usize = 0;
        while k < height
            invariant
                height == rows.len(),
                drawn == line_views(rows@),
                drawn == lines_of(string@),
                width == drawn[0].len(),
                k <= height,
                forall|i: int| 0 <= i < k ==> (#[trigger] drawn[i]).len() == width,
            decreases height - k,
        {
            assert(drawn[k as int] == rows@[k as int]@);
            if rows[k].len() != width {
                assert(drawn[k as int].len() != drawn[0].len());
                assert(!pattern_fits(drawn, shift[0] as int, shift[1] as int));
                return None;
            }
            k += 1;
        }
        if !(shift[0] < width as u32 && shift[1] < height as u32 && shift[0] <= i32::MAX as u32
            && shift[1] <= i32::MAX as u32 && width as u32 - shift[0] - 1 <= i32::MAX as u32
            && height as u32 - shift[1] - 1 <= i32::MAX as u32) {
            return None;
        }
        let ghost target = pattern(drawn, shift[0] as int, shift[1] as int);
        let mut contents: Vec<Cell> = Vec::new();
        let mut y: usize = 0;
        while y < height
            invariant
                height == rows.len(),
                drawn == line_views(rows@),
                0 < width <= u32::MAX,
                0 < height <= u32::MAX,
                width == drawn[0].len(),
                forall|i: int| 0 <= i < height ==> (#[trigger] drawn[i]).len() == width,
                target == pattern(drawn, shift[0] as int, shift[1] as int),
                y <= height,
                contents.len() == y * width,
                forall|i: int| 0 <= i < contents.len() ==> contents[i] == target.cells[i],
            decreases height - y,
        {
            let row: &Vec<char> = &rows[height - 1 - y];
            assert(drawn[height - 1 - y] == row@);
            let mut x: usize = 0;
            while x < width
                invariant
                    0 < width <= u32::MAX,
                    0 < height <= u32::MAX,
                    height == drawn.len(),
                    width == drawn[0].len(),
                    row@ == drawn[height - 1 - y],
                    row@.len() == width,
                    target == pattern(drawn, shift[0] as int, shift[1] as int),
                    y < height,
                    x <= width,
                    contents.len() == y * width + x,
                    forall|i: int| 0 <= i < contents.len() ==> contents[i] == target.cells[i],
                decreases width - x,
            {
                proof {
                    lemma_index_of_position(x as int, y as int, width as int, height as int);
                }
                let cell: Cell = if row[x] == '.' {
                    Cell::Empty
                } else {
                    Cell::Passive
                };
                contents.push(cell);
                x += 1;
            }
            proof {
                assert((y + 1) * width == y * width + width) by (nonlinear_arith);
            }
            y += 1;
        }
        proof {
            assert(height * width == width * height) by (nonlinear_arith);
            assert(contents@ =~= target.cells);
        }
        Some(Grid::new(width as u32, height as u32, contents, shift))
    }
}

} // verus!
