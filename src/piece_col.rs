//! The occupancy grids of piece shapes in each rotation.

use vstd::prelude::*;

use crate::piece::Rotation;

verus! {

/// The occupancy grids of one piece shape: a `size` by `size` grid for each
/// rotation, stored row-major in the first `size * size` of 16 cells.
/// Rotations are kept clockwise: Normal, Right, Double, Left.
#[derive(Clone, Copy, Debug)]
pub struct PieceCollision {
    pub data: [[u8; 16]; 4],
    pub cur_rotation: Rotation,
    pub size: usize,
}

/// The grid turned a quarter clockwise.
pub open spec fn right_of(col: Seq<u8>, s: int) -> Seq<u8> {
    Seq::new(
        16,
        |i: int|
            if i < s * s && col[(s - 1 - i % s) * s + i / s] == 1 {
                1u8
            } else {
                0u8
            },
    )
}

/// The grid turned a quarter counter-clockwise.
pub open spec fn left_of(col: Seq<u8>, s: int) -> Seq<u8> {
    Seq::new(
        16,
        |i: int|
            if i < s * s && col[(i % s) * s + (s - 1 - i / s)] == 1 {
                1u8
            } else {
                0u8
            },
    )
}

/// The grid turned half a turn: the first `s * s` cells in reverse order.
pub open spec fn double_of(col: Seq<u8>, s: int) -> Seq<u8> {
    Seq::new(16, |i: int| if i < s * s { col[s * s - 1 - i] } else { 0u8 })
}

/// What `rotate` makes of a grid.
pub open spec fn rotated(col: Seq<u8>, s: int, r: Rotation) -> Seq<u8> {
    match r {
        Rotation::Normal => col,
        Rotation::Right => right_of(col, s),
        Rotation::Double => double_of(col, s),
        Rotation::Left => left_of(col, s),
    }
}

/// The slot of each rotation in `PieceCollision::data`.
pub open spec fn rotation_index(r: Rotation) -> int {
    match r {
        Rotation::Normal => 0,
        Rotation::Right => 1,
        Rotation::Double => 2,
        Rotation::Left => 3,
    }
}

/// The four grids derived from a grid at Normal rotation.
pub open spec fn all_rotations(col: Seq<u8>, s: int) -> Seq<Seq<u8>> {
    seq![col, right_of(col, s), double_of(col, s), double_of(right_of(col, s), s)]
}

/// A grid whose cells past the first `s * s` are empty.
pub open spec fn padded(col: Seq<u8>, s: int) -> bool {
    col.len() == 16 && forall|i: int| s * s <= i < 16 ==> col[i] == 0
}

/// The square of a side from 1 to 4 fits the 16 stored cells.
pub proof fn lemma_square_size(s: int)
    requires
        1 <= s <= 4,
    ensures
        1 <= s * s <= 16,
{
    assert(1 <= s * s <= 16) by (nonlinear_arith)
        requires
            1 <= s <= 4,
    ;
}

/// Row and column of a cell index in a square grid, and the indices that
/// the quarter turns read from.
pub proof fn lemma_square_index(s: int, i: int)
    requires
        1 <= s <= 4,
        0 <= i < s * s,
    ensures
        0 <= i % s < s,
        0 <= i / s < s,
        i == (i / s) * s + i % s,
        0 <= (s - 1 - i % s) * s + i / s < s * s,
        0 <= (i % s) * s + (s - 1 - i / s) < s * s,
        s * s <= 16,
{
    assert(0 <= i % s < s && i == (i / s) * s + i % s) by (nonlinear_arith)
        requires
            s >= 1,
    ;
    assert(0 <= i / s < s) by (nonlinear_arith)
        requires
            s >= 1,
            0 <= i < s * s,
            i == (i / s) * s + i % s,
            0 <= i % s < s,
    ;
    assert(s * s <= 16) by (nonlinear_arith)
        requires
            1 <= s <= 4,
    ;
    let (a, b) = (i % s, i / s);
    assert(0 <= (s - 1 - a) * s + b < s * s) by (nonlinear_arith)
        requires
            0 <= a < s,
            0 <= b < s,
    ;
    assert(0 <= a * s + (s - 1 - b) < s * s) by (nonlinear_arith)
        requires
            0 <= a < s,
            0 <= b < s,
    ;
}

/// Turns a grid of side `size` to the given rotation.
fn rotate(col: [u8; 16], size: usize, rotation: Rotation) -> (r: [u8; 16])
    requires
        1 <= size <= 4,
    ensures
        r@ == rotated(col@, size as int, rotation),
{
    let mut new_data = [0u8; 16];
    proof {
        lemma_square_size(size as int);
    }
    let n: usize = size * size;
    match rotation {
        Rotation::Normal => col,
        Rotation::Double => {
            let mut j: usize = 0;
            while j < n
                invariant
                    1 <= size <= 4,
                    n == size * size,
                    n <= 16,
                    j <= n,
                    forall|k: int| 0 <= k < j ==> new_data@[k] == double_of(col@, size as int)[k],
                    forall|k: int| j <= k < 16 ==> new_data@[k] == 0,
                decreases n - j,
            {
                new_data[j] = col[n - 1 - j];
                j += 1;
            }
            assert(new_data@ =~= double_of(col@, size as int));
            new_data
        },
        Rotation::Right => {
            let mut j: usize = 0;
            while j < n
                invariant
                    1 <= size <= 4,
                    n == size * size,
                    n <= 16,
                    j <= n,
                    forall|k: int| 0 <= k < j ==> new_data@[k] == right_of(col@, size as int)[k],
                    forall|k: int| j <= k < 16 ==> new_data@[k] == 0,
                decreases n - j,
            {
                proof {
                    lemma_square_index(size as int, j as int);
                }
                let src: usize = (size - 1 - j % size) * size + j / size;
                if col[src] == 1 {
                    new_data[j] = 1;
                }
                j += 1;
            }
            assert(new_data@ =~= right_of(col@, size as int));
            new_data
        },
        Rotation::Left => {
            let mut j: usize = 0;
            while j < n
                invariant
                    1 <= size <= 4,
                    n == size * size,
                    n <= 16,
                    j <= n,
                    forall|k: int| 0 <= k < j ==> new_data@[k] == left_of(col@, size as int)[k],
                    forall|k: int| j <= k < 16 ==> new_data@[k] == 0,
                decreases n - j,
            {
                proof {
                    lemma_square_index(size as int, j as int);
                }
                let src: usize = (j % size) * size + (size - 1 - j / size);
                if col[src] == 1 {
                    new_data[j] = 1;
                }
                j += 1;
            }
            assert(new_data@ =~= left_of(col@, size as int));
            new_data
        },
    }
}

impl PieceCollision {
    /// The grid of the given rotation.
    pub open spec fn grid(&self, r: Rotation) -> Seq<u8> {
        self.data@[rotation_index(r)]@
    }

    /// Whether the four grids are those derived from `col` at side `s`.
    pub open spec fn derived_from(&self, col: Seq<u8>, s: int) -> bool {
        &&& self.size == s
        &&& forall|k: int| 0 <= k < 4 ==> #[trigger] self.data@[k]@ == all_rotations(col, s)[k]
    }

    fn add_rotations(col: [u8; 16], size: usize) -> (data: [[u8; 16]; 4])
        requires
            1 <= size <= 4,
        ensures
            forall|k: int| 0 <= k < 4 ==> #[trigger] data@[k]@ == all_rotations(col@, size as int)[k],
    {
        let mut data = [[0u8; 16]; 4];
        let col_r = rotate(col, size, Rotation::Right);
        data[0] = col;
        data[1] = col_r;
        data[2] = rotate(col, size, Rotation::Double);
        data[3] = rotate(col_r, size, Rotation::Double);
        data
    }

    /// Builds the collision of a shape given at Normal rotation in a 3 by 3 grid.
    pub fn new_3(array: [[u8; 3]; 3]) -> (r: PieceCollision)
        ensures
            r.derived_from(flat_3(array), 3),
            r.cur_rotation == Rotation::Normal,
    {
        let mut flat_array = [0u8; 16];
        let mut i: usize = 0;
        while i < 9
            invariant
                i <= 9,
                forall|k: int| 0 <= k < i ==> flat_array@[k] == flat_3(array)[k],
                forall|k: int| i <= k < 16 ==> flat_array@[k] == 0,
            decreases 9 - i,
        {
            flat_array[i] = array[i / 3][i % 3];
            i += 1;
        }
        assert(flat_array@ =~= flat_3(array));
        let data = PieceCollision::add_rotations(flat_array, 3);
        PieceCollision { data, cur_rotation: Rotation::Normal, size: 3 }
    }

    /// Builds the collision of a shape given at Normal rotation in a 2 by 2 grid.
    pub fn new_2(array: [[u8; 2]; 2]) -> (r: PieceCollision)
        ensures
            r.derived_from(flat_2(array), 2),
            r.cur_rotation == Rotation::Normal,
    {
        let mut flat_array = [0u8; 16];
        let mut i: usize = 0;
        while i < 4
            invariant
                i <= 4,
                forall|k: int| 0 <= k < i ==> flat_array@[k] == flat_2(array)[k],
                forall|k: int| i <= k < 16 ==> flat_array@[k] == 0,
            decreases 4 - i,
        {
            flat_array[i] = array[i / 2][i % 2];
            i += 1;
        }
        assert(flat_array@ =~= flat_2(array));
        let data = PieceCollision::add_rotations(flat_array, 2);
        PieceCollision { data, cur_rotation: Rotation::Normal, size: 2 }
    }

    /// Builds the collision of a shape given at Normal rotation in a 4 by 4 grid.
    pub fn new_4(array: [[u8; 4]; 4]) -> (r: PieceCollision)
        ensures
            r.derived_from(flat_4(array), 4),
            r.cur_rotation == Rotation::Normal,
    {
        let mut flat_array = [0u8; 16];
        let mut i: usize = 0;
        while i < 16
            invariant
                i <= 16,
                forall|k: int| 0 <= k < i ==> flat_array@[k] == flat_4(array)[k],
                forall|k: int| i <= k < 16 ==> flat_array@[k] == 0,
            decreases 16 - i,
        {
            flat_array[i] = array[i / 4][i % 4];
            i += 1;
        }
        assert(flat_array@ =~= flat_4(array));
        let data = PieceCollision::add_rotations(flat_array, 4);
        PieceCollision { data, cur_rotation: Rotation::Normal, size: 4 }
    }

    /// Selects the rotation that `flat_iter` reads.
    pub fn set_rotation(&mut self, rot: Rotation)
        ensures
            *final(self) == (PieceCollision { cur_rotation: rot, ..*old(self) }),
    {
        self.cur_rotation = rot;
    }

    /// The slot of the current rotation in `data`.
    fn rotation_i(&self) -> (i: usize)
        ensures
            i == rotation_index(self.cur_rotation),
    {
        match self.cur_rotation {
            Rotation::Normal => 0,
            Rotation::Right => 1,
            Rotation::Double => 2,
            Rotation::Left => 3,
        }
    }

    /// The cell in column `x` of row `y` of the current rotation's grid.
    pub fn index(&self, x: usize, y: usize) -> (v: u8)
        requires
            1 <= self.size <= 4,
            x < self.size,
            y < self.size,
        ensures
            v == self.grid(self.cur_rotation)[y * self.size + x],
    {
        let s = self.size;
        assert(s * y + x < s * s <= 16 && s * y == y * s) by (nonlinear_arith)
            requires
                x < s,
                y < s,
                s <= 4,
        ;
        let i = s * y + x;
        self.data[self.rotation_i()][i]
    }

    /// The `size * size` cells of the current rotation, row-major.
    pub fn flat_iter(&self) -> (cells: Vec<u8>)
        requires
            1 <= self.size <= 4,
        ensures
            cells@ == self.grid(self.cur_rotation).subrange(0, self.size * self.size),
    {
        let g = self.data[self.rotation_i()];
        proof {
            lemma_square_size(self.size as int);
        }
        let n: usize = self.size * self.size;
        let mut cells: Vec<u8> = Vec::new();
        let mut i: usize = 0;
        while i < n
            invariant
                n <= 16,
                i <= n,
                g@ == self.grid(self.cur_rotation),
                cells@ == g@.subrange(0, i as int),
            decreases n - i,
        {
            cells.push(g[i]);
            assert(cells@ =~= g@.subrange(0, i + 1));
            i += 1;
        }
        cells
    }
}

/// A 3 by 3 grid laid out row-major in 16 cells.
pub open spec fn flat_3(a: [[u8; 3]; 3]) -> Seq<u8> {
    Seq::new(16, |i: int| if i < 9 { a@[i / 3]@[i % 3] } else { 0u8 })
}

/// A 2 by 2 grid laid out row-major in 16 cells.
pub open spec fn flat_2(a: [[u8; 2]; 2]) -> Seq<u8> {
    Seq::new(16, |i: int| if i < 4 { a@[i / 2]@[i % 2] } else { 0u8 })
}

/// A 4 by 4 grid laid out row-major in 16 cells.
pub open spec fn flat_4(a: [[u8; 4]; 4]) -> Seq<u8> {
    Seq::new(16, |i: int| a@[i / 4]@[i % 4])
}

} // verus!
