//! The byte format of a grid: a header of four big-endian 32-bit numbers
//! (width, height, origin column, origin row), then the cells in buffer order,
//! one byte for `Empty` (0) and `Passive` (1), three for a stem (2, its rule,
//! its direction).

use vstd::prelude::*;

use crate::l_system::cell::{Cell, Direction};
use crate::l_system::grid::{Grid, GridView};

verus! {

/// Why a sequence of bytes is no grid.
#[derive(Clone, Copy, Debug, PartialEq, Eq, Structural)]
pub enum DecodeError {
    /// Fewer than 16 bytes are left for the header.
    Header,
    /// A cell starts with a byte other than 0, 1 or 2, or a stem names a
    /// direction above 3.
    Tag,
    /// A stem is cut short: the two bytes after its tag are not both there.
    Stem,
    /// The number of cells is not the width times the height of the header.
    CellCount,
    /// The origin of the header lies outside the buffer, or the buffer reaches
    /// further from the origin than positions can name.
    Origin,
}

impl DecodeError {
    /// The sentence that tells the user of the error.
    pub open spec fn text(self) -> Seq<char> {
        match self {
            DecodeError::Header => "the data ends before a grid header is complete"@,
            DecodeError::Tag => "the data holds a cell of unknown kind or direction"@,
            DecodeError::Stem => "the data ends in the middle of a stem cell"@,
            DecodeError::CellCount => "the number of cells does not match the grid header"@,
            DecodeError::Origin => "the grid header puts the origin outside the grid"@,
        }
    }

    /// A sentence for the user.
    pub fn message(&self) -> (message: &'static str)
        ensures
            message@ == self.text(),
    {
        match self {
            DecodeError::Header => "the data ends before a grid header is complete",
            DecodeError::Tag => "the data holds a cell of unknown kind or direction",
            DecodeError::Stem => "the data ends in the middle of a stem cell",
            DecodeError::CellCount => "the number of cells does not match the grid header",
            DecodeError::Origin => "the grid header puts the origin outside the grid",
        }
    }
}

/// No message is empty, and no two errors share a message.
pub proof fn lemma_messages_differ(a: DecodeError, b: DecodeError)
    ensures
        a.text().len() > 0,
        a != b ==> a.text() != b.text(),
{
    reveal_strlit("the data ends before a grid header is complete");
    reveal_strlit("the data holds a cell of unknown kind or direction");
    reveal_strlit("the data ends in the middle of a stem cell");
    reveal_strlit("the number of cells does not match the grid header");
    reveal_strlit("the grid header puts the origin outside the grid");
    if a != b && a.text() == b.text() {
        assert(a.text().len() == b.text().len());
        assert(a.text()[4] == b.text()[4]);
    }
}

/// The four bytes of a 32-bit number, most significant first.
pub open spec fn be_bytes(n: int) -> Seq<u8> {
    seq![
        (n / 0x100_0000) as u8,
        ((n / 0x1_0000) % 0x100) as u8,
        ((n / 0x100) % 0x100) as u8,
        (n % 0x100) as u8,
    ]
}

/// The number whose four bytes, most significant first, start at `at`.
pub open spec fn be_value(data: Seq<u8>, at: int) -> int {
    data[at] * 0x100_0000 + data[at + 1] * 0x1_0000 + data[at + 2] * 0x100 + data[at + 3]
}

/// The bytes of one cell.
pub open spec fn cell_bytes(cell: Cell) -> Seq<u8> {
    match cell {
        Cell::Empty => seq![0u8],
        Cell::Passive => seq![1u8],
        Cell::Stem(n, dir) => seq![2u8, n, dir.byte()],
    }
}

/// The bytes of a sequence of cells, one after the other.
pub open spec fn cells_bytes(cells: Seq<Cell>) -> Seq<u8>
    decreases cells.len(),
{
    if cells.len() == 0 {
        Seq::empty()
    } else {
        cells_bytes(cells.drop_last()) + cell_bytes(cells.last())
    }
}

impl GridView {
    /// The header of the grid in the byte format.
    pub open spec fn header_bytes(self) -> Seq<u8> {
        be_bytes(self.width) + be_bytes(self.height) + be_bytes(self.shift_x) + be_bytes(
            self.shift_y,
        )
    }

    /// The grid in the byte format.
    pub open spec fn bytes(self) -> Seq<u8> {
        self.header_bytes() + cells_bytes(self.cells)
    }
}

/// Reads the cell that starts at `at`: the cell and where the next one starts.
pub open spec fn parse_cell(data: Seq<u8>, at: int) -> Result<(Cell, int), DecodeError> {
    if at >= data.len() {
        Err(DecodeError::CellCount)
    } else if data[at] == 0 {
        Ok((Cell::Empty, at + 1))
    } else if data[at] == 1 {
        Ok((Cell::Passive, at + 1))
    } else if data[at] == 2 {
        if at + 2 >= data.len() {
            Err(DecodeError::Stem)
        } else if data[at + 2] > 3 {
            Err(DecodeError::Tag)
        } else {
            Ok((Cell::Stem(data[at + 1], Direction::from_turns(data[at + 2] as int)), at + 3))
        }
    } else {
        Err(DecodeError::Tag)
    }
}

/// Reads `count` cells one after the other from `start` on: the cells and
/// where the data after them starts, or what was wrong with the first cell
/// that could not be read.
pub open spec fn parse_cells(data: Seq<u8>, start: int, count: int) -> Result<
    (Seq<Cell>, int),
    DecodeError,
>
    decreases count,
{
    if count <= 0 {
        Ok((Seq::empty(), start))
    } else {
        match parse_cells(data, start, count - 1) {
            Err(e) => Err(e),
            Ok((cells, at)) => match parse_cell(data, at) {
                Err(e) => Err(e),
                Ok((cell, next)) => Ok((cells.push(cell), next)),
            },
        }
    }
}

/// Whether a header names a rectangle with its origin inside, no side of
/// which reaches further than positions can name.
pub open spec fn header_fits(width: int, height: int, shift_x: int, shift_y: int) -> bool {
    &&& shift_x < width
    &&& shift_y < height
    &&& shift_x <= i32::MAX
    &&& shift_y <= i32::MAX
    &&& width - shift_x - 1 <= i32::MAX
    &&& height - shift_y - 1 <= i32::MAX
}

/// Reads the grid that starts at `start`: the grid and where the data after
/// it starts. The header is read first, then the cells it announces, and the
/// header is judged last.
pub open spec fn decode_record(data: Seq<u8>, start: int) -> Result<(GridView, int), DecodeError> {
    if data.len() - start < 16 {
        Err(DecodeError::Header)
    } else {
        let width = be_value(data, start);
        let height = be_value(data, start + 4);
        let shift_x = be_value(data, start + 8);
        let shift_y = be_value(data, start + 12);
        match parse_cells(data, start + 16, width * height) {
            Err(e) => Err(e),
            Ok((cells, end)) => if header_fits(width, height, shift_x, shift_y) {
                Ok((GridView { width, height, shift_x, shift_y, cells }, end))
            } else {
                Err(DecodeError::Origin)
            },
        }
    }
}

/// Reads data that must be one grid and nothing else.
pub open spec fn decode(data: Seq<u8>) -> Result<GridView, DecodeError> {
    match decode_record(data, 0) {
        Err(e) => Err(e),
        Ok((grid, end)) => if end == data.len() {
            Ok(grid)
        } else {
            Err(DecodeError::CellCount)
        },
    }
}

/// Four bytes give back the number they were made from.
pub proof fn lemma_be_round_trip(n: int)
    requires
        0 <= n <= u32::MAX,
    ensures
        be_bytes(n).len() == 4,
        be_value(be_bytes(n), 0) == n,
{
}

/// A number read from four bytes is a 32-bit number that writes as those bytes.
pub proof fn lemma_be_value(data: Seq<u8>, at: int)
    requires
        0 <= at,
        at + 4 <= data.len(),
    ensures
        0 <= be_value(data, at) <= u32::MAX,
        be_bytes(be_value(data, at)) == data.subrange(at, at + 4),
{
    lemma_be_digits(data[at] as int, data[at + 1] as int, data[at + 2] as int, data[at + 3] as int);
    assert(be_bytes(be_value(data, at)) =~= data.subrange(at, at + 4));
}

/// Four digits to the base 256 can be read off the number they make.
proof fn lemma_be_digits(a: int, b: int, c: int, d: int)
    requires
        0 <= a < 0x100,
        0 <= b < 0x100,
        0 <= c < 0x100,
        0 <= d < 0x100,
    ensures
        0 <= a * 0x100_0000 + b * 0x1_0000 + c * 0x100 + d <= u32::MAX,
        (a * 0x100_0000 + b * 0x1_0000 + c * 0x100 + d) / 0x100_0000 == a,
        ((a * 0x100_0000 + b * 0x1_0000 + c * 0x100 + d) / 0x1_0000) % 0x100 == b,
        ((a * 0x100_0000 + b * 0x1_0000 + c * 0x100 + d) / 0x100) % 0x100 == c,
        (a * 0x100_0000 + b * 0x1_0000 + c * 0x100 + d) % 0x100 == d,
{
}

/// The bytes of cells followed by one more cell.
pub proof fn lemma_cells_bytes_push(cells: Seq<Cell>, cell: Cell)
    ensures
        cells_bytes(cells.push(cell)) == cells_bytes(cells) + cell_bytes(cell),
{
    assert(cells.push(cell).drop_last() =~= cells);
}

/// Reading a cell succeeds exactly on the bytes of a cell, and gives that cell.
pub proof fn lemma_parse_cell(data: Seq<u8>, at: int, cell: Cell)
    requires
        0 <= at,
    ensures
        (at + cell_bytes(cell).len() <= data.len() && data.subrange(
            at,
            at + cell_bytes(cell).len(),
        ) == cell_bytes(cell)) <==> parse_cell(data, at) == Ok::<(Cell, int), DecodeError>(
            (cell, at + cell_bytes(cell).len()),
        ),
        parse_cell(data, at) is Ok ==> parse_cell(data, at).unwrap().1 == at + cell_bytes(
            parse_cell(data, at).unwrap().0,
        ).len(),
{
    let bytes = cell_bytes(cell);
    let end = at + bytes.len();
    if end <= data.len() && data.subrange(at, end) == bytes {
        assert(data[at] == data.subrange(at, end)[0]);
        if cell is Stem {
            assert(data[at + 1] == data.subrange(at, end)[1]);
            assert(data[at + 2] == data.subrange(at, end)[2]);
        }
    }
    if parse_cell(data, at) == Ok::<(Cell, int), DecodeError>((cell, end)) {
        assert(data.subrange(at, end) =~= bytes);
    }
}

/// Reading cells succeeds exactly on the bytes of cells: where `count` cells
/// can be read, the bytes read are the bytes of those cells; and the bytes of
/// `count` cells read as those cells, whatever follows them.
pub proof fn lemma_parse_cells(data: Seq<u8>, start: int, count: int)
    requires
        0 <= start <= data.len(),
        0 <= count,
    ensures
        parse_cells(data, start, count) matches Ok((cells, end)) ==> {
            &&& cells.len() == count
            &&& start <= end <= data.len()
            &&& data.subrange(start, end) == cells_bytes(cells)
        },
        forall|cells: Seq<Cell>|
            cells.len() == count && start + cells_bytes(cells).len() <= data.len()
                && #[trigger] cells_bytes(cells) == data.subrange(
                start,
                start + cells_bytes(cells).len(),
            ) ==> parse_cells(data, start, count) == Ok::<(Seq<Cell>, int), DecodeError>(
                (cells, start + cells_bytes(cells).len()),
            ),
    decreases count,
{
    if count == 0 {
        assert(data.subrange(start, start) =~= cells_bytes(Seq::<Cell>::empty()));
        assert forall|cells: Seq<Cell>| cells.len() == 0 implies cells =~= Seq::<Cell>::empty()
            && #[trigger] cells_bytes(cells).len() == 0 by {}
    } else {
        lemma_parse_cells(data, start, count - 1);
        if let Ok((cells, at)) = parse_cells(data, start, count - 1) {
            if let Ok((cell, next)) = parse_cell(data, at) {
                lemma_parse_cell(data, at, cell);
                lemma_cells_bytes_push(cells, cell);
                assert(data.subrange(start, next) =~= data.subrange(start, at) + data.subrange(
                    at,
                    next,
                ));
            }
        }
        assert forall|cells: Seq<Cell>|
            cells.len() == count && start + cells_bytes(cells).len() <= data.len()
                && #[trigger] cells_bytes(cells) == data.subrange(
                start,
                start + cells_bytes(cells).len(),
            ) implies parse_cells(data, start, count) == Ok::<(Seq<Cell>, int), DecodeError>(
            (cells, start + cells_bytes(cells).len()),
        ) by {
            let front = cells.drop_last();
            let last = cells.last();
            let middle = start + cells_bytes(front).len();
            let end = start + cells_bytes(cells).len();
            assert(cells_bytes(front) =~= data.subrange(start, middle)) by {
                assert(cells_bytes(front) =~= cells_bytes(cells).subrange(
                    0,
                    cells_bytes(front).len() as int,
                ));
            }
            assert(cell_bytes(last) =~= data.subrange(middle, end)) by {
                assert(cell_bytes(last) =~= cells_bytes(cells).subrange(
                    cells_bytes(front).len() as int,
                    cells_bytes(cells).len() as int,
                ));
            }
            lemma_parse_cell(data, middle, last);
            assert(front.push(last) =~= cells);
        }
    }
}

impl GridView {
    /// Wherever the bytes of a grid stand in the data, they read back as the
    /// grid, whatever stands before and after them.
    pub proof fn lemma_decode_record_at(self, data: Seq<u8>, start: int)
        requires
            self.wf(),
            0 <= start,
            start + self.bytes().len() <= data.len(),
            data.subrange(start, start + self.bytes().len()) == self.bytes(),
        ensures
            decode_record(data, start) == Ok::<(GridView, int), DecodeError>(
                (self, start + self.bytes().len()),
            ),
    {
        let bytes = self.bytes();
        lemma_be_round_trip(self.width);
        lemma_be_round_trip(self.height);
        lemma_be_round_trip(self.shift_x);
        lemma_be_round_trip(self.shift_y);
        let header = self.header_bytes();
        assert(header.len() == 16);
        assert forall|k: int| 0 <= k < bytes.len() implies data[start + k] == #[trigger] bytes[k] by {
            assert(data.subrange(start, start + bytes.len())[k] == data[start + k]);
        }
        assert(be_value(data, start) == be_value(be_bytes(self.width), 0)) by {
            assert(bytes[0] == be_bytes(self.width)[0]);
            assert(bytes[1] == be_bytes(self.width)[1]);
            assert(bytes[2] == be_bytes(self.width)[2]);
            assert(bytes[3] == be_bytes(self.width)[3]);
        }
        assert(be_value(data, start + 4) == be_value(be_bytes(self.height), 0)) by {
            assert(bytes[4] == be_bytes(self.height)[0]);
            assert(bytes[5] == be_bytes(self.height)[1]);
            assert(bytes[6] == be_bytes(self.height)[2]);
            assert(bytes[7] == be_bytes(self.height)[3]);
        }
        assert(be_value(data, start + 8) == be_value(be_bytes(self.shift_x), 0)) by {
            assert(bytes[8] == be_bytes(self.shift_x)[0]);
            assert(bytes[9] == be_bytes(self.shift_x)[1]);
            assert(bytes[10] == be_bytes(self.shift_x)[2]);
            assert(bytes[11] == be_bytes(self.shift_x)[3]);
        }
        assert(be_value(data, start + 12) == be_value(be_bytes(self.shift_y), 0)) by {
            assert(bytes[12] == be_bytes(self.shift_y)[0]);
            assert(bytes[13] == be_bytes(self.shift_y)[1]);
            assert(bytes[14] == be_bytes(self.shift_y)[2]);
            assert(bytes[15] == be_bytes(self.shift_y)[3]);
        }
        let body = cells_bytes(self.cells);
        assert(data.subrange(start + 16, start + 16 + body.len()) =~= body) by {
            assert forall|k: int| 0 <= k < body.len() implies data[start + 16 + k] == body[k] by {
                assert(bytes[16 + k] == body[k]);
            }
        }
        lemma_parse_cells(data, start + 16, self.width * self.height);
    }

    /// The bytes of a grid read back as the same grid, whatever follows them.
    pub proof fn lemma_decode_record_of_bytes(self, rest: Seq<u8>)
        requires
            self.wf(),
        ensures
            decode_record(self.bytes() + rest, 0) == Ok::<(GridView, int), DecodeError>(
                (self, self.bytes().len() as int),
            ),
    {
        let data = self.bytes() + rest;
        assert(data.subrange(0, self.bytes().len() as int) =~= self.bytes());
        self.lemma_decode_record_at(data, 0);
    }

    /// The bytes of a grid decode to the grid.
    pub proof fn lemma_decode_of_bytes(self)
        requires
            self.wf(),
        ensures
            decode(self.bytes()) == Ok::<GridView, DecodeError>(self),
    {
        self.lemma_decode_record_of_bytes(Seq::empty());
        assert(self.bytes() + Seq::<u8>::empty() =~= self.bytes());
    }
}

/// Only the bytes of a well-formed grid read as a grid: what was read is well
/// formed, and the bytes read are its bytes.
pub proof fn lemma_decode_record_exact(data: Seq<u8>, start: int)
    requires
        0 <= start <= data.len(),
    ensures
        decode_record(data, start) matches Ok((grid, end)) ==> {
            &&& grid.wf()
            &&& start + 16 <= end <= data.len()
            &&& data.subrange(start, end) == grid.bytes()
        },
{
    if let Ok((grid, end)) = decode_record(data, start) {
        lemma_be_value(data, start);
        lemma_be_value(data, start + 4);
        lemma_be_value(data, start + 8);
        lemma_be_value(data, start + 12);
        assert(grid.width * grid.height >= 0) by (nonlinear_arith)
            requires
                grid.width >= 0,
                grid.height >= 0,
        ;
        lemma_parse_cells(data, start + 16, grid.width * grid.height);
        assert(data.subrange(start, end) =~= data.subrange(start, start + 4) + data.subrange(
            start + 4,
            start + 8,
        ) + data.subrange(start + 8, start + 12) + data.subrange(start + 12, start + 16)
            + data.subrange(start + 16, end));
    }
}

/// Appends the four bytes of `n`, most significant first.
fn push_be(data: &mut Vec<u8>, n: u32)
    ensures
        final(data)@ == old(data)@ + be_bytes(n as int),
{
    data.push((n / 0x100_0000) as u8);
    data.push(((n / 0x1_0000) % 0x100) as u8);
    data.push(((n / 0x100) % 0x100) as u8);
    data.push((n % 0x100) as u8);
    assert(data@ =~= old(data)@ + be_bytes(n as int));
}

/// Reads the number whose four bytes start at `at`.
fn read_be(data: &[u8], at: usize) -> (n: u32)
    requires
        at + 4 <= data.len(),
    ensures
        n == be_value(data@, at as int),
{
    data[at] as u32 * 0x100_0000 + data[at + 1] as u32 * 0x1_0000 + data[at + 2] as u32 * 0x100
        + data[at + 3] as u32
}

/// Reads the cell that starts at `at`.
fn read_cell(data: &[u8], at: usize) -> (r: Result<(Cell, usize), DecodeError>)
    requires
        at <= data.len(),
    ensures
        r matches Ok((cell, next)) ==> parse_cell(data@, at as int) == Ok::<
            (Cell, int),
            DecodeError,
        >((cell, next as int)) && at < next <= data.len(),
        r matches Err(e) ==> parse_cell(data@, at as int) == Err::<(Cell, int), DecodeError>(e),
{
    if at >= data.len() {
        return Err(DecodeError::CellCount);
    }
    let tag: u8 = data[at];
    if tag == 0 {
        Ok((Cell::Empty, at + 1))
    } else if tag == 1 {
        Ok((Cell::Passive, at + 1))
    } else if tag == 2 {
        if data.len() - at <= 2 {
            return Err(DecodeError::Stem);
        }
        match Direction::from_byte(data[at + 2]) {
            Some(dir) => Ok((Cell::Stem(data[at + 1], dir), at + 3)),
            None => Err(DecodeError::Tag),
        }
    } else {
        Err(DecodeError::Tag)
    }
}

impl Grid {
    /// The grid in the byte format.
    pub fn serialize(&self) -> (data: Vec<u8>)
        requires
            self.wf(),
        ensures
            data@ == self@.bytes(),
    {
        let mut data: Vec<u8> = Vec::new();
        let shift: [u32; 2] = self.shift();
        push_be(&mut data, self.width());
        push_be(&mut data, self.height());
        push_be(&mut data, shift[0]);
        push_be(&mut data, shift[1]);
        assert(data@ =~= self@.header_bytes());
        let cells: &Vec<Cell> = self.contents();
        let mut i: usize = 0;
        while i < cells.len()
            invariant
                cells@ == self@.cells,
                i <= cells.len(),
                data@ == self@.header_bytes() + cells_bytes(cells@.take(i as int)),
            decreases cells.len() - i,
        {
            let ghost before = data@;
            match cells[i] {
                Cell::Empty => data.push(0),
                Cell::Passive => data.push(1),
                Cell::Stem(n, dir) => {
                    data.push(2);
                    data.push(n);
                    data.push(dir.to_byte());
                },
            }
            proof {
                assert(data@ =~= before + cell_bytes(cells@[i as int]));
                assert(cells@.take(i + 1) =~= cells@.take(i as int).push(cells@[i as int]));
                lemma_cells_bytes_push(cells@.take(i as int), cells@[i as int]);
            }
            i += 1;
        }
        assert(cells@.take(i as int) =~= cells@);
        data
    }

    /// Reads the grid that starts at `start` in `data`, and says where the
    /// data after it starts. Fails where the header is cut short, a cell is
    /// malformed or cut short, the data ends before all cells are read, or
    /// the header is not that of a grid.
    pub fn deserialize_record(data: &[u8], start: usize) -> (r: Result<(Grid, usize), DecodeError>)
        requires
            start <= data.len(),
        ensures
            r matches Ok((grid, end)) ==> grid.wf() && decode_record(data@, start as int) == Ok::<
                (GridView, int),
                DecodeError,
            >((grid@, end as int)) && start < end <= data.len(),
            r matches Err(e) ==> decode_record(data@, start as int) == Err::<
                (GridView, int),
                DecodeError,
            >(e),
    {
        if data.len() - start < 16 {
            return Err(DecodeError::Header);
        }
        let width: u32 = read_be(data, start);
        let height: u32 = read_be(data, start + 4);
        let shift_x: u32 = read_be(data, start + 8);
        let shift_y: u32 = read_be(data, start + 12);
        assert(width * height <= 0xffff_ffff * 0xffff_ffff) by (nonlinear_arith)
            requires
                0 <= width <= 0xffff_ffff,
                0 <= height <= 0xffff_ffff,
        ;
        let count: u64 = width as u64 * height as u64;
        let mut contents: Vec<Cell> = Vec::new();
        let mut at: usize = start + 16;
        let mut read: u64 = 0;
        while read < count
            invariant
                read <= count,
                count == width * height,
                width == be_value(data@, start as int),
                height == be_value(data@, start + 4),
                start + 16 <= at <= data.len(),
                contents.len() == read,
                parse_cells(data@, start + 16, read as int) == Ok::<(Seq<Cell>, int), DecodeError>(
                    (contents@, at as int),
                ),
            ensures
                read == count,
            decreases count - read,
        {
            match read_cell(data, at) {
                Err(e) => {
                    proof {
                        assert(parse_cells(data@, start + 16, read + 1) == Err::<
                            (Seq<Cell>, int),
                            DecodeError,
                        >(e));
                        lemma_parse_cells_fails_on(data@, start + 16, read + 1, count as int);
                    }
                    return Err(e);
                },
                Ok((cell, next)) => {
                    contents.push(cell);
                    at = next;
                    read += 1;
                },
            }
        }
        if !(shift_x < width && shift_y < height && shift_x <= i32::MAX as u32 && shift_y
            <= i32::MAX as u32 && width - shift_x - 1 <= i32::MAX as u32 && height - shift_y - 1
            <= i32::MAX as u32) {
            return Err(DecodeError::Origin);
        }
        Ok((Grid::new(width, height, contents, [shift_x, shift_y]), at))
    }

    /// Reads data that holds one grid and nothing else.
    pub fn deserialize(data: &[u8]) -> (r: Result<Grid, DecodeError>)
        ensures
            r matches Ok(grid) ==> grid.wf() && decode(data@) == Ok::<GridView, DecodeError>(
                grid@,
            ),
            r matches Err(e) ==> decode(data@) == Err::<GridView, DecodeError>(e),
    {
        match Grid::deserialize_record(data, 0) {
            Err(e) => Err(e),
            Ok((grid, end)) => {
                if end == data.len() {
                    Ok(grid)
                } else {
                    Err(DecodeError::CellCount)
                }
            },
        }
    }
}

/// Where cells cannot be read up to some count, they cannot be read up to a
/// larger one, and what is wrong is the same.
pub proof fn lemma_parse_cells_fails_on(data: Seq<u8>, start: int, failing: int, count: int)
    requires
        failing <= count,
        parse_cells(data, start, failing) is Err,
    ensures
        parse_cells(data, start, count) == parse_cells(data, start, failing),
    decreases count - failing,
{
    if failing < count {
        lemma_parse_cells_fails_on(data, start, failing, count - 1);
    }
}

} // verus!
