//! The hex grid: cells, directions, offset-coordinate adjacency.

use vstd::prelude::*;

verus! {

/// Side length of the square board.
pub const MAP_SZ: usize = 10;

/// The index that stands for "off the board". No cell has it.
pub const INVALID: usize = 9999;

/// What occupies a board position.
#[derive(Copy, Clone, Debug, PartialEq, Eq, Structural)]
pub enum MapSpaceContents {
    /// Not part of the board at all.
    NotInMap,
    /// Part of the board, but filled by decoration.
    Blocked,
    /// A cell that can be played on.
    Playable,
}

impl Default for MapSpaceContents {
    fn default() -> (r: Self)
        ensures
            r == MapSpaceContents::NotInMap,
    {
        MapSpaceContents::NotInMap
    }
}

/// The six directions of a hex cell.
#[derive(Copy, Clone, Debug, PartialEq, Eq, Structural)]
pub enum MapDirection {
    North,
    NorthEast,
    NorthWest,
    South,
    SouthWest,
    SouthEast,
}

/// Quotient of `n` by ten, rounded toward zero.
pub open spec fn quot10(n: int) -> int {
    if n >= 0 {
        n / 10
    } else {
        -((-n) / 10)
    }
}

/// Remainder of `n` by ten, with the sign of `n`.
pub open spec fn rem10(n: int) -> int {
    n - 10 * quot10(n)
}

/// Whether `ndx` is the index of a cell.
pub open spec fn on_board(ndx: int) -> bool {
    0 <= ndx < 100
}

/// The flat index of `(row, col)`, or the sentinel off the board.
pub open spec fn map_index_spec(row: int, col: int) -> int {
    if 0 <= row < 10 && 0 <= col < 10 {
        row * 10 + col
    } else {
        INVALID as int
    }
}

/// The index one step from `ndx` in direction `dir`. Odd columns sit half a
/// cell lower than even ones, so the diagonal steps depend on the column's
/// parity. Row and column are taken from `ndx` by division that rounds
/// toward zero, so an index below zero has no odd column.
pub open spec fn move_dir_spec(ndx: int, dir: MapDirection) -> int {
    let row = quot10(ndx);
    let col = rem10(ndx);
    if col % 2 == 1 && col >= 0 {
        match dir {
            MapDirection::North => map_index_spec(row + 1, col),
            MapDirection::NorthEast => map_index_spec(row, col + 1),
            MapDirection::NorthWest => map_index_spec(row, col - 1),
            MapDirection::South => map_index_spec(row - 1, col),
            MapDirection::SouthWest => map_index_spec(row - 1, col - 1),
            MapDirection::SouthEast => map_index_spec(row - 1, col + 1),
        }
    } else {
        match dir {
            MapDirection::North => map_index_spec(row + 1, col),
            MapDirection::NorthEast => map_index_spec(row + 1, col + 1),
            MapDirection::NorthWest => map_index_spec(row + 1, col - 1),
            MapDirection::South => map_index_spec(row - 1, col),
            MapDirection::SouthWest => map_index_spec(row, col - 1),
            MapDirection::SouthEast => map_index_spec(row, col + 1),
        }
    }
}

/// Flat index of the cell at `(row, col)`; `INVALID` when either coordinate
/// lies outside the board.
pub fn map_index(row: i32, col: i32) -> (r: i32)
    ensures
        r == map_index_spec(row as int, col as int),
        r == INVALID || on_board(r as int),
{
    if (row < 0) || (col < 0) || (row >= MAP_SZ as i32) || (col >= MAP_SZ as i32) {
        INVALID as i32
    } else {
        (row * (MAP_SZ as i32)) + col
    }
}

/// The neighbour of `ndx` in direction `dir`, or `INVALID` where the board
/// ends.
pub fn move_dir(ndx: i32, dir: MapDirection) -> (r: i32)
    ensures
        r == move_dir_spec(ndx as int, dir),
        r == INVALID || on_board(r as int),
{
    let row: i32 = ndx / (MAP_SZ as i32);
    let col: i32 = ndx % (MAP_SZ as i32);
    if col % 2 == 1 {
        match dir {
            MapDirection::North => map_index(row + 1, col),
            MapDirection::NorthEast => map_index(row, col + 1),
            MapDirection::NorthWest => map_index(row, col - 1),
            MapDirection::South => map_index(row - 1, col),
            MapDirection::SouthWest => map_index(row - 1, col - 1),
            MapDirection::SouthEast => map_index(row - 1, col + 1),
        }
    } else {
        match dir {
            MapDirection::North => map_index(row + 1, col),
            MapDirection::NorthEast => map_index(row + 1, col + 1),
            MapDirection::NorthWest => map_index(row + 1, col - 1),
            MapDirection::South => map_index(row - 1, col),
            MapDirection::SouthWest => map_index(row, col - 1),
            MapDirection::SouthEast => map_index(row, col + 1),
        }
    }
}

impl MapDirection {
    /// The six directions in the order in which every scan of the library
    /// visits them.
    pub fn iterator() -> (r: [MapDirection; 6])
        ensures
            forall|k: int| 0 <= k < 6 ==> r[k] == dir_at(k),
    {
        [
            MapDirection::North,
            MapDirection::NorthEast,
            MapDirection::SouthEast,
            MapDirection::South,
            MapDirection::SouthWest,
            MapDirection::NorthWest,
        ]
    }

    /// The direction that leads back.
    pub open spec fn opposite_spec(self) -> MapDirection {
        match self {
            MapDirection::North => MapDirection::South,
            MapDirection::NorthEast => MapDirection::SouthWest,
            MapDirection::NorthWest => MapDirection::SouthEast,
            MapDirection::South => MapDirection::North,
            MapDirection::SouthWest => MapDirection::NorthEast,
            MapDirection::SouthEast => MapDirection::NorthWest,
        }
    }

    /// The direction that leads back.
    #[verifier::when_used_as_spec(opposite_spec)]
    pub fn opposite(self) -> (r: MapDirection)
        ensures
            r == self.opposite_spec(),
    {
        match self {
            MapDirection::North => MapDirection::South,
            MapDirection::NorthEast => MapDirection::SouthWest,
            MapDirection::NorthWest => MapDirection::SouthEast,
            MapDirection::South => MapDirection::North,
            MapDirection::SouthWest => MapDirection::NorthEast,
            MapDirection::SouthEast => MapDirection::NorthWest,
        }
    }
}

/// The `k`-th direction of the scan order: clockwise from north.
pub open spec fn dir_at(k: int) -> MapDirection {
    if k == 0 {
        MapDirection::North
    } else if k == 1 {
        MapDirection::NorthEast
    } else if k == 2 {
        MapDirection::SouthEast
    } else if k == 3 {
        MapDirection::South
    } else if k == 4 {
        MapDirection::SouthWest
    } else {
        MapDirection::NorthWest
    }
}

/// `b` is what one step from `a` in some direction gives.
pub open spec fn adjacent(a: int, b: int) -> bool {
    b == move_dir_spec(a, MapDirection::North) || b == move_dir_spec(a, MapDirection::NorthEast)
        || b == move_dir_spec(a, MapDirection::SouthEast) || b == move_dir_spec(
        a,
        MapDirection::South,
    ) || b == move_dir_spec(a, MapDirection::SouthWest) || b == move_dir_spec(
        a,
        MapDirection::NorthWest,
    )
}

/// Between cells of the board, being neighbours is mutual.
pub proof fn lemma_adjacent_symmetric(a: int, b: int)
    requires
        on_board(a),
        on_board(b),
        adjacent(a, b),
    ensures
        adjacent(b, a),
{
    if b == move_dir_spec(a, MapDirection::North) {
        lemma_step_back(a, MapDirection::North);
    } else if b == move_dir_spec(a, MapDirection::NorthEast) {
        lemma_step_back(a, MapDirection::NorthEast);
    } else if b == move_dir_spec(a, MapDirection::SouthEast) {
        lemma_step_back(a, MapDirection::SouthEast);
    } else if b == move_dir_spec(a, MapDirection::South) {
        lemma_step_back(a, MapDirection::South);
    } else if b == move_dir_spec(a, MapDirection::SouthWest) {
        lemma_step_back(a, MapDirection::SouthWest);
    } else {
        lemma_step_back(a, MapDirection::NorthWest);
    }
}

/// Stepping to a cell and then back in the opposite direction returns to the
/// cell one started from.
pub proof fn lemma_step_back(c: int, d: MapDirection)
    requires
        on_board(c),
        move_dir_spec(c, d) != INVALID,
    ensures
        on_board(move_dir_spec(c, d)),
        move_dir_spec(move_dir_spec(c, d), d.opposite_spec()) == c,
{
}

/// A step ends on the board or at the sentinel, wherever it starts, and a
/// step from a cell of the board never stays in place.
pub proof fn lemma_step_lands(c: int, d: MapDirection)
    ensures
        move_dir_spec(c, d) == INVALID || on_board(move_dir_spec(c, d)),
        on_board(c) ==> move_dir_spec(c, d) != c,
{
}

} // verus!
