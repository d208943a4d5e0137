//! Whole-board transforms, and the options of the analysis.

use vstd::prelude::*;

use crate::fieldmatrix::{cell, on_board, set_cell, FieldMatrix};

verus! {

/// Number of rows that `discard_bottom` clears at the bottom of the board.
pub const BOTTOM_ROW_DISCARD_COUNT: usize = 1;

/// Which movements the analysis allows.
#[derive(Clone, Copy, Debug)]
pub struct PercentageOptions {
    /// Holding a piece back (not modelled by the analysis).
    pub hold: bool,
    /// Rotating a piece into place (not modelled by the analysis).
    pub spin: bool,
    /// Sliding a piece sideways after a partial drop.
    pub soft_drop: bool,
}

impl PercentageOptions {
    /// The options with each movement allowed or not.
    pub fn new(hold: bool, soft_drop: bool, spin: bool) -> (r: Self)
        ensures
            r.hold == hold,
            r.soft_drop == soft_drop,
            r.spin == spin,
    {
        PercentageOptions { hold, spin, soft_drop }
    }
}

/// The obstacle half of a cell: grey stays, everything else is emptied.
pub open spec fn uncolored(v: u8) -> u8 {
    if v == 8 {
        8
    } else {
        0
    }
}

/// The marker half of a cell: codes 0 to 7 stay, grey and above are emptied.
pub open spec fn colored(v: u8) -> u8 {
    if v >= 8 {
        0
    } else {
        v
    }
}

/// Splits a board into its obstacles and its piece markers.
pub fn split_color(matrix: FieldMatrix) -> (r: (FieldMatrix, FieldMatrix))
    ensures
        forall|x: int, y: int|
            on_board(x, y) ==> cell(r.0, x, y) == uncolored(cell(matrix, x, y)) && cell(r.1, x, y)
                == colored(cell(matrix, x, y)),
{
    (uncolor(matrix), get_color(matrix))
}

fn uncolor(matrix: FieldMatrix) -> (r: FieldMatrix)
    ensures
        forall|x: int, y: int| on_board(x, y) ==> cell(r, x, y) == uncolored(cell(matrix, x, y)),
{
    let mut m = matrix;
    let mut y: usize = 0;
    while y < 24
        invariant
            y <= 24,
            forall|i: int, j: int|
                on_board(i, j) ==> cell(m, i, j) == if j < y {
                    uncolored(cell(matrix, i, j))
                } else {
                    cell(matrix, i, j)
                },
        decreases 24 - y,
    {
        let mut x: usize = 0;
        while x < 10
            invariant
                x <= 10,
                y < 24,
                forall|i: int, j: int|
                    on_board(i, j) ==> cell(m, i, j) == if j < y || (j == y && i < x) {
                        uncolored(cell(matrix, i, j))
                    } else {
                        cell(matrix, i, j)
                    },
            decreases 10 - x,
        {
            if m[y][x] != 8 {
                set_cell(&mut m, x, y, 0);
            }
            x += 1;
        }
        y += 1;
    }
    m
}

fn get_color(matrix: FieldMatrix) -> (r: FieldMatrix)
    ensures
        forall|x: int, y: int| on_board(x, y) ==> cell(r, x, y) == colored(cell(matrix, x, y)),
{
    let mut m = matrix;
    let mut y: usize = 0;
    while y < 24
        invariant
            y <= 24,
            forall|i: int, j: int|
                on_board(i, j) ==> cell(m, i, j) == if j < y {
                    colored(cell(matrix, i, j))
                } else {
                    cell(matrix, i, j)
                },
        decreases 24 - y,
    {
        let mut x: usize = 0;
        while x < 10
            invariant
                x <= 10,
                y < 24,
                forall|i: int, j: int|
                    on_board(i, j) ==> cell(m, i, j) == if j < y || (j == y && i < x) {
                        colored(cell(matrix, i, j))
                    } else {
                        cell(matrix, i, j)
                    },
            decreases 10 - x,
        {
            if m[y][x] >= 8 {
                set_cell(&mut m, x, y, 0);
            }
            x += 1;
        }
        y += 1;
    }
    m
}

/// Empties the bottom `BOTTOM_ROW_DISCARD_COUNT` rows and hands back what
/// they held, bottom row first.
pub fn discard_bottom(field: FieldMatrix) -> (r: (FieldMatrix, Vec<[u8; 10]>))
    ensures
        r.1@.len() == BOTTOM_ROW_DISCARD_COUNT,
        forall|i: int, x: int|
            0 <= i < BOTTOM_ROW_DISCARD_COUNT && 0 <= x < 10 ==> r.1@[i]@[x] == cell(field, x, 23 - i),
        forall|x: int, y: int|
            on_board(x, y) ==> cell(r.0, x, y) == if y >= 24 - BOTTOM_ROW_DISCARD_COUNT {
                0
            } else {
                cell(field, x, y)
            },
{
    let mut f = field;
    let mut old_rows: Vec<[u8; 10]> = Vec::new();
    let mut i: usize = 0;
    while i < BOTTOM_ROW_DISCARD_COUNT
        invariant
            i <= BOTTOM_ROW_DISCARD_COUNT,
            old_rows@.len() == i,
            forall|k: int, x: int| 0 <= k < i && 0 <= x < 10 ==> old_rows@[k]@[x] == cell(field, x, 23 - k),
            forall|x: int, y: int|
                on_board(x, y) ==> cell(f, x, y) == if y >= 24 - i {
                    0
                } else {
                    cell(field, x, y)
                },
        decreases BOTTOM_ROW_DISCARD_COUNT - i,
    {
        let u_index: usize = 23 - i;
        let row = f[u_index];
        assert forall|x: int| 0 <= x < 10 implies row@[x] == cell(field, x, u_index as int) by {
            assert(on_board(x, u_index as int));
            assert(row@[x] == cell(f, x, u_index as int));
        }
        old_rows.push(row);
        f[u_index] = [0u8; 10];
        i += 1;
    }
    (f, old_rows)
}

} // verus!
