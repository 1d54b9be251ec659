//! The 11 x 11 grid: cells, coordinates and the four directions of movement.
use vstd::prelude::*;

verus! {

/// Number of columns.
pub const W: i8 = 11;

/// Number of rows.
pub const H: i8 = 11;

/// Number of cells on the board.
pub const CELLS: usize = 121;

/// A cell is encoded as `y * W + x`; the cells of the board are `0..121`.
pub type Cell = u8;

/// `(x, y)` lies on the board.
pub open spec fn on_board(x: int, y: int) -> bool {
    0 <= x < W && 0 <= y < H
}

/// `c` is the encoding of a board cell.
pub open spec fn is_cell(c: Cell) -> bool {
    c < CELLS
}

/// The column of a cell.
pub open spec fn col(c: Cell) -> int {
    c as int % 11
}

/// The row of a cell.
pub open spec fn row(c: Cell) -> int {
    c as int / 11
}

/// The encoding of a position, as a number.
pub open spec fn code(x: int, y: int) -> int {
    y * 11 + x
}

/// Absolute value.
pub open spec fn magnitude(n: int) -> int {
    if n < 0 {
        -n
    } else {
        n
    }
}

/// The Manhattan distance between two cells.
pub open spec fn gap(a: Cell, b: Cell) -> int {
    magnitude(col(a) - col(b)) + magnitude(row(a) - row(b))
}

/// Two board cells that share an edge.
pub open spec fn adjacent(a: Cell, b: Cell) -> bool {
    is_cell(a) && is_cell(b) && gap(a, b) == 1
}

/// Encodes a position. A position off the board whose code is still an `i8` is
/// encoded too; a negative code wraps around to the top of the `u8` range.
pub fn cell(x: i8, y: i8) -> (c: Cell)
    requires
        -128 <= y * 11 <= 127,
        -128 <= code(x as int, y as int) <= 127,
    ensures
        code(x as int, y as int) >= 0 ==> c == code(x as int, y as int),
        code(x as int, y as int) < 0 ==> c == code(x as int, y as int) + 256,
        on_board(x as int, y as int) ==> is_cell(c) && col(c) == x && row(c) == y,
{
    let v: i8 = y * W + x;
    assert(v < 0 ==> (v as u8) == v + 256) by (bit_vector);
    v as Cell
}

/// The column of a cell.
pub fn cx(c: Cell) -> (x: i8)
    requires
        c < 128,
    ensures
        x == col(c),
{
    (c as i8) % W
}

/// The row of a cell.
pub fn cy(c: Cell) -> (y: i8)
    requires
        c < 128,
    ensures
        y == row(c),
{
    (c as i8) / W
}

/// Does a position lie on the board?
pub fn in_bounds(x: i8, y: i8) -> (b: bool)
    ensures
        b == on_board(x as int, y as int),
{
    x >= 0 && x < W && y >= 0 && y < H
}

/// Absolute value of a small number.
pub fn abs(n: i32) -> (r: i32)
    requires
        n > i32::MIN,
    ensures
        r == magnitude(n as int),
{
    if n < 0 {
        -n
    } else {
        n
    }
}

/// The Manhattan distance between two cells.
pub fn manhattan(a: Cell, b: Cell) -> (d: i32)
    requires
        a < 128,
        b < 128,
    ensures
        d == gap(a, b),
        0 <= d <= 21,
{
    abs(cx(a) as i32 - cx(b) as i32) + abs(cy(a) as i32 - cy(b) as i32)
}

/// A direction of movement. `Up` increases `y`.
#[derive(Clone, Copy, PartialEq, Eq, Debug, Structural)]
pub enum Dir {
    Up,
    Down,
    Left,
    Right,
}

/// The directions in the order in which every search tries them.
pub const DIRS: [Dir; 4] = [Dir::Up, Dir::Down, Dir::Left, Dir::Right];

impl Dir {
    /// Change of column.
    pub open spec fn dx(self) -> int {
        match self {
            Dir::Up => 0,
            Dir::Down => 0,
            Dir::Left => -1,
            Dir::Right => 1,
        }
    }

    /// Change of row.
    pub open spec fn dy(self) -> int {
        match self {
            Dir::Up => 1,
            Dir::Down => -1,
            Dir::Left => 0,
            Dir::Right => 0,
        }
    }

    /// The cell one move away, if it is on the board.
    pub open spec fn target(self, c: Cell) -> Option<Cell> {
        if on_board(col(c) + self.dx(), row(c) + self.dy()) {
            Some(code(col(c) + self.dx(), row(c) + self.dy()) as Cell)
        } else {
            None
        }
    }

    /// The name of the direction in the protocol.
    pub open spec fn name(self) -> Seq<char> {
        match self {
            Dir::Up => "up"@,
            Dir::Down => "down"@,
            Dir::Left => "left"@,
            Dir::Right => "right"@,
        }
    }

    /// The change of position that a move makes.
    pub fn delta(self) -> (d: (i8, i8))
        ensures
            d.0 == self.dx(),
            d.1 == self.dy(),
    {
        match self {
            Dir::Up => (0, 1),
            Dir::Down => (0, -1),
            Dir::Left => (-1, 0),
            Dir::Right => (1, 0),
        }
    }

    /// The cell one move away, or `None` where the move leaves the board.
    pub fn step(self, c: Cell) -> (r: Option<Cell>)
        requires
            c < 128,
        ensures
            r == self.target(c),
            r is Some ==> is_cell(r->0),
    {
        let (dx, dy) = self.delta();
        let nx: i8 = cx(c) + dx;
        let ny: i8 = cy(c) + dy;
        if in_bounds(nx, ny) {
            Some(cell(nx, ny))
        } else {
            None
        }
    }

    /// The name of the direction in the protocol.
    pub fn as_str(self) -> (s: &'static str)
        ensures
            s@ == self.name(),
    {
        match self {
            Dir::Up => "up",
            Dir::Down => "down",
            Dir::Left => "left",
            Dir::Right => "right",
        }
    }
}

/// The cell from which a move in direction `d` led to `c`.
pub fn reverse_step(d: Dir, c: Cell) -> (r: Cell)
    requires
        c < 128,
        -128 <= (row(c) - d.dy()) * 11 <= 127,
        -128 <= code(col(c) - d.dx(), row(c) - d.dy()) <= 127,
    ensures
        code(col(c) - d.dx(), row(c) - d.dy()) >= 0 ==> r == code(
            col(c) - d.dx(),
            row(c) - d.dy(),
        ),
        code(col(c) - d.dx(), row(c) - d.dy()) < 0 ==> r == code(
            col(c) - d.dx(),
            row(c) - d.dy(),
        ) + 256,
        forall|p: Cell| is_cell(p) && #[trigger] d.target(p) == Some(c) ==> r == p,
{
    let (dx, dy) = d.delta();
    let x: i8 = cx(c) - dx;
    let y: i8 = cy(c) - dy;
    cell(x, y)
}

/// The encoding is one to one on the board: the coordinates of a cell give the
/// cell back, and cells with the same coordinates are the same cell.
pub proof fn cell_encoding_is_injective(x: int, y: int, u: int, v: int)
    requires
        on_board(x, y),
        on_board(u, v),
    ensures
        0 <= code(x, y) < CELLS,
        col(code(x, y) as Cell) == x,
        row(code(x, y) as Cell) == y,
        code(x, y) == code(u, v) ==> x == u && y == v,
{
}

/// Every cell of the board is the encoding of its own coordinates, which lie on
/// the board.
pub proof fn coordinates_give_the_cell(c: Cell)
    requires
        is_cell(c),
    ensures
        on_board(col(c), row(c)),
        code(col(c), row(c)) == c,
{
}

/// A move leads to an adjacent cell, and every adjacent cell is reached by a move.
pub proof fn moves_are_adjacency(a: Cell, b: Cell)
    requires
        is_cell(a),
    ensures
        adjacent(a, b) <==> exists|k: int| 0 <= k < 4 && #[trigger] DIRS@[k].target(a) == Some(b),
        adjacent(a, b) <==> adjacent(b, a),
{
    assert(DIRS@[0] == Dir::Up && DIRS@[1] == Dir::Down && DIRS@[2] == Dir::Left && DIRS@[3]
        == Dir::Right);
    if adjacent(a, b) {
        if col(b) == col(a) && row(b) == row(a) + 1 {
            assert(DIRS@[0].target(a) == Some(b));
        } else if col(b) == col(a) && row(b) == row(a) - 1 {
            assert(DIRS@[1].target(a) == Some(b));
        } else if row(b) == row(a) && col(b) == col(a) - 1 {
            assert(DIRS@[2].target(a) == Some(b));
        } else {
            assert(DIRS@[3].target(a) == Some(b));
        }
    }
}

/// Where the directions lead: up and down a row of 11 cells, left and right one
/// cell, and nowhere over the edge of the board.
pub proof fn directions_lead_to_neighbours(c: Cell)
    requires
        is_cell(c),
    ensures
        Dir::Up.target(c) == (if c < 110 {
            Some((c + 11) as Cell)
        } else {
            None
        }),
        Dir::Down.target(c) == (if c >= 11 {
            Some((c - 11) as Cell)
        } else {
            None
        }),
        Dir::Left.target(c) == (if c % 11 != 0 {
            Some((c - 1) as Cell)
        } else {
            None
        }),
        Dir::Right.target(c) == (if c % 11 != 10 {
            Some((c + 1) as Cell)
        } else {
            None
        }),
{
}

/// The Manhattan distance grows by one with every row and every column between.
pub proof fn gaps_count_rows_and_columns(x: int, y: int, u: int, v: int)
    requires
        on_board(x, y),
        on_board(u, v),
    ensures
        ({
            let g = gap((y * 11 + x) as Cell, (v * 11 + u) as Cell);
            &&& g == gap((v * 11 + u) as Cell, (y * 11 + x) as Cell)
            &&& x <= u && y <= v ==> g == (u - x) + (v - y)
            &&& x <= u && y >= v ==> g == (u - x) + (y - v)
            &&& x >= u && y <= v ==> g == (x - u) + (v - y)
            &&& x >= u && y >= v ==> g == (x - u) + (y - v)
        }),
{
    cell_encoding_is_injective(x, y, u, v);
    cell_encoding_is_injective(u, v, x, y);
}

} // verus!
