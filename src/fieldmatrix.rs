//! The board: 24 rows of 10 cell codes.

use vstd::prelude::*;

verus! {

/// Width of the board in cells.
pub const WIDTH: usize = 10;

/// Height of the board in cells.
pub const HEIGHT: usize = 24;

/// A board: 24 rows of 10 cells, top row first. A cell holds 0 when empty,
/// 1 to 7 for a piece-type marker and 8 for a grey obstacle.
pub type FieldMatrix = [[u8; 10]; 24];

/// The cell in column `x` of row `y`.
pub open spec fn cell(f: FieldMatrix, x: int, y: int) -> u8 {
    f@[y]@[x]
}

/// Whether `(x, y)` names a cell of the board.
pub open spec fn on_board(x: int, y: int) -> bool {
    0 <= x < 10 && 0 <= y < 24
}

/// Whether every cell of the board holds a code in 0..=8.
pub open spec fn well_formed(f: FieldMatrix) -> bool {
    forall|x: int, y: int| on_board(x, y) ==> cell(f, x, y) <= 8
}

/// Writes `v` into column `x` of row `y`, leaving every other cell as it was.
pub fn set_cell(f: &mut FieldMatrix, x: usize, y: usize, v: u8)
    requires
        x < 10,
        y < 24,
    ensures
        forall|i: int, j: int|
            on_board(i, j) ==> cell(*final(f), i, j) == if i == x && j == y {
                v
            } else {
                cell(*old(f), i, j)
            },
{
    let mut row = f[y];
    row[x] = v;
    f[y] = row;
}

/// A board with every cell empty.
pub fn empty_field() -> (f: FieldMatrix)
    ensures
        forall|x: int, y: int| on_board(x, y) ==> cell(f, x, y) == 0,
{
    [[0u8; 10]; 24]
}

} // verus!
