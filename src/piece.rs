//! Pieces, their cells on the board, and dropping them.

use vstd::prelude::*;

use crate::fieldmatrix::{cell, on_board, set_cell, FieldMatrix};
use crate::piece_col::{all_rotations, lemma_square_index, lemma_square_size, rotation_index, PieceCollision};

verus! {

/// The seven tetromino types.
#[derive(Clone, Copy, PartialEq, Eq, Debug, Structural)]
pub enum PieceType {
    S,
    Z,
    L,
    J,
    T,
    O,
    I,
}

/// The four orientations of a piece.
#[derive(Clone, Copy, PartialEq, Eq, Debug, Structural)]
pub enum Rotation {
    Normal,
    Right,
    Left,
    Double,
}

/// A piece of a given type and rotation whose bounding box has its top-left
/// corner at `position` (column, row).
#[derive(Clone, Copy, Debug)]
pub struct Piece {
    pub piece_type: PieceType,
    pub rotation: Rotation,
    pub position: (isize, isize),
}

impl PieceType {
    /// The letter that names the type.
    pub fn to_letter(&self) -> (c: char)
        ensures
            c == letter_of(*self),
    {
        match self {
            PieceType::S => 'S',
            PieceType::Z => 'Z',
            PieceType::O => 'O',
            PieceType::I => 'I',
            PieceType::T => 'T',
            PieceType::L => 'L',
            PieceType::J => 'J',
        }
    }
}

/// The letter of each piece type.
pub open spec fn letter_of(t: PieceType) -> char {
    match t {
        PieceType::S => 'S',
        PieceType::Z => 'Z',
        PieceType::O => 'O',
        PieceType::I => 'I',
        PieceType::T => 'T',
        PieceType::L => 'L',
        PieceType::J => 'J',
    }
}

/// The marker code of each piece type.
pub open spec fn marker_of(t: PieceType) -> u8 {
    match t {
        PieceType::I => 1,
        PieceType::L => 2,
        PieceType::O => 3,
        PieceType::Z => 4,
        PieceType::T => 5,
        PieceType::J => 6,
        PieceType::S => 7,
    }
}

/// The marker code of a piece type.
pub fn piece_type_to_fumen_index(piece: PieceType) -> (i: u8)
    ensures
        i == marker_of(piece),
        1 <= i <= 7,
{
    match piece {
        PieceType::I => 1,
        PieceType::L => 2,
        PieceType::O => 3,
        PieceType::Z => 4,
        PieceType::T => 5,
        PieceType::J => 6,
        PieceType::S => 7,
    }
}

/// The piece type of a marker code; codes outside 1..=7 are refused.
pub fn fumen_index_to_piece_type(i: u8) -> (r: Result<PieceType, &'static str>)
    ensures
        r.is_ok() <==> 1 <= i <= 7,
        r matches Ok(t) ==> marker_of(t) == i,
{
    match i {
        1 => Ok(PieceType::I),
        2 => Ok(PieceType::L),
        3 => Ok(PieceType::O),
        4 => Ok(PieceType::Z),
        5 => Ok(PieceType::T),
        6 => Ok(PieceType::J),
        7 => Ok(PieceType::S),
        _ => Err("incorrect index"),
    }
}

/// The side of the square grid that holds a piece type's shape.
pub open spec fn shape_size(t: PieceType) -> int {
    match t {
        PieceType::O => 2,
        PieceType::I => 4,
        _ => 3,
    }
}

/// The shape of each piece type at Normal rotation, row-major in 16 cells.
pub open spec fn normal_grid(t: PieceType) -> Seq<u8> {
    match t {
        PieceType::S => seq![0u8, 1, 1, 1, 1, 0, 0, 0, 0, 0, 0, 0, 0, 0, 0, 0],
        PieceType::Z => seq![1u8, 1, 0, 0, 1, 1, 0, 0, 0, 0, 0, 0, 0, 0, 0, 0],
        PieceType::L => seq![0u8, 0, 1, 1, 1, 1, 0, 0, 0, 0, 0, 0, 0, 0, 0, 0],
        PieceType::J => seq![1u8, 0, 0, 1, 1, 1, 0, 0, 0, 0, 0, 0, 0, 0, 0, 0],
        PieceType::T => seq![0u8, 1, 0, 1, 1, 1, 0, 0, 0, 0, 0, 0, 0, 0, 0, 0],
        PieceType::O => seq![1u8, 1, 1, 1, 0, 0, 0, 0, 0, 0, 0, 0, 0, 0, 0, 0],
        PieceType::I => seq![0u8, 0, 0, 0, 1, 1, 1, 1, 0, 0, 0, 0, 0, 0, 0, 0],
    }
}

/// The grid of a piece at its rotation.
pub open spec fn piece_grid(p: Piece) -> Seq<u8> {
    all_rotations(normal_grid(p.piece_type), shape_size(p.piece_type))[rotation_index(p.rotation)]
}

/// The board cells of the filled grid cells among the first `n`, in grid order,
/// for a grid of side `s` placed with its top-left corner at `(x, y)`.
pub open spec fn footprint(g: Seq<u8>, s: int, x: int, y: int, n: nat) -> Seq<(int, int)>
    decreases n,
{
    if n == 0 {
        seq![]
    } else {
        let prev = footprint(g, s, x, y, (n - 1) as nat);
        let i = n - 1;
        if g[i] == 1 {
            prev.push((i % s + x, i / s + y))
        } else {
            prev
        }
    }
}

/// The board cells that a piece covers, in grid order.
pub open spec fn piece_cells(p: Piece) -> Seq<(int, int)> {
    let s = shape_size(p.piece_type);
    footprint(piece_grid(p), s, p.position.0 as int, p.position.1 as int, (s * s) as nat)
}

/// Whether every cell that a piece covers lies on the board.
pub open spec fn cells_on_board(p: Piece) -> bool {
    forall|k: int|
        0 <= k < piece_cells(p).len() ==> on_board(#[trigger] piece_cells(p)[k].0, piece_cells(p)[k].1)
}

/// Whether `v` lists the cells `c`, as unsigned pairs.
pub open spec fn lists_cells(v: Seq<(usize, usize)>, c: Seq<(int, int)>) -> bool {
    &&& v.len() == c.len()
    &&& forall|k: int|
        0 <= k < v.len() ==> #[trigger] v[k].0 == c[k].0 && v[k].1 == c[k].1
}

/// Every covered cell holds the value `v`.
pub open spec fn covers_only(p: Piece, f: FieldMatrix, v: u8) -> bool {
    forall|k: int|
        0 <= k < piece_cells(p).len() ==> cell(f, #[trigger] piece_cells(p)[k].0, piece_cells(p)[k].1)
            == v
}

/// No filled cell stands above row `y` in column `x`.
pub open spec fn column_clear_above(f: FieldMatrix, x: int, y: int) -> bool {
    forall|r: int| 0 <= r < y ==> cell(f, x, r) == 0
}

/// The cell `(x, y)` rests on the floor or on a filled cell.
pub open spec fn supported_at(f: FieldMatrix, x: int, y: int) -> bool {
    y == 23 || cell(f, x, y + 1) != 0
}

/// Some cell of the piece rests on the floor or on a filled cell.
pub open spec fn is_supported(p: Piece, f: FieldMatrix) -> bool {
    exists|k: int|
        0 <= k < piece_cells(p).len() && supported_at(f, #[trigger] piece_cells(p)[k].0, piece_cells(p)[k].1)
}

/// A piece can be dropped straight into place: each of its columns is clear
/// above it, and it rests on something.
pub open spec fn hard_drop_ok(p: Piece, f: FieldMatrix) -> bool {
    &&& forall|k: int|
        0 <= k < piece_cells(p).len() ==> column_clear_above(f, #[trigger] piece_cells(p)[k].0, piece_cells(p)[k].1)
    &&& is_supported(p, f)
}

/// Whether the piece covers the cell `(x, y)`.
pub open spec fn covers(p: Piece, x: int, y: int) -> bool {
    piece_cells(p).contains((x, y))
}

/// The piece moved by `(-dx, -dy)`.
pub open spec fn offset(p: Piece, dx: int, dy: int) -> Piece {
    Piece {
        position: ((p.position.0 - dx) as isize, (p.position.1 - dy) as isize),
        ..p
    }
}

proof fn lemma_footprint_prefix(g: Seq<u8>, s: int, x: int, y: int, m: nat, n: nat)
    requires
        m <= n,
    ensures
        footprint(g, s, x, y, m).len() <= footprint(g, s, x, y, n).len(),
        forall|k: int|
            0 <= k < footprint(g, s, x, y, m).len() ==> footprint(g, s, x, y, n)[k] == footprint(
                g,
                s,
                x,
                y,
                m,
            )[k],
    decreases n,
{
    if m < n {
        lemma_footprint_prefix(g, s, x, y, m, (n - 1) as nat);
    }
}

proof fn lemma_footprint_shape(g: Seq<u8>, s: int, x: int, y: int, n: nat)
    requires
        1 <= s <= 4,
        n <= s * s,
    ensures
        forall|k: int|
            #![trigger footprint(g, s, x, y, n)[k]]
            0 <= k < footprint(g, s, x, y, n).len() ==> {
                let c = footprint(g, s, x, y, n)[k];
                x <= c.0 < x + s && y <= c.1 < y + s
            },
    decreases n,
{
    if n > 0 {
        let prev = footprint(g, s, x, y, (n - 1) as nat);
        lemma_footprint_shape(g, s, x, y, (n - 1) as nat);
        lemma_square_index(s, n - 1);
        assert forall|k: int| 0 <= k < footprint(g, s, x, y, n).len() implies {
            let c = #[trigger] footprint(g, s, x, y, n)[k];
            x <= c.0 < x + s && y <= c.1 < y + s
        } by {
            if k < prev.len() {
                assert(footprint(g, s, x, y, n)[k] == prev[k]);
            }
        }
    }
}

proof fn lemma_footprint_nonempty(g: Seq<u8>, s: int, x: int, y: int, n: nat, j: int)
    requires
        0 <= j < n,
        g[j] == 1,
    ensures
        footprint(g, s, x, y, n).len() > 0,
    decreases n,
{
    if j < n - 1 {
        lemma_footprint_nonempty(g, s, x, y, (n - 1) as nat, j);
    }
}

/// A piece covers at least one cell, and its cells lie within the square of
/// side `shape_size` whose top-left corner is its anchor.
pub proof fn lemma_piece_cells_shape(p: Piece)
    ensures
        piece_cells(p).len() > 0,
        2 <= shape_size(p.piece_type) <= 4,
        forall|k: int|
            #![trigger piece_cells(p)[k]]
            0 <= k < piece_cells(p).len() ==> {
                let c = piece_cells(p)[k];
                p.position.0 <= c.0 < p.position.0 + shape_size(p.piece_type) && p.position.1 <= c.1
                    < p.position.1 + shape_size(p.piece_type)
            },
{
    let s = shape_size(p.piece_type);
    let g = piece_grid(p);
    let (x, y) = (p.position.0 as int, p.position.1 as int);
    lemma_square_size(s);
    lemma_footprint_shape(g, s, x, y, (s * s) as nat);
    let j: int = match p.piece_type {
        PieceType::O => 0,
        PieceType::I => match p.rotation {
            Rotation::Normal => 4,
            Rotation::Right => 2,
            Rotation::Double => 8,
            Rotation::Left => 13,
        },
        _ => 4,
    };
    assert(g[j] == 1);
    lemma_footprint_nonempty(g, s, x, y, (s * s) as nat, j);
}

impl Piece {
    /// The collision grids of this piece's type, set to its rotation.
    pub fn collision(&self) -> (col: PieceCollision)
        ensures
            col.derived_from(normal_grid(self.piece_type), shape_size(self.piece_type)),
            col.cur_rotation == self.rotation,
    {
        let mut piece = match self.piece_type {
            PieceType::I => {
                let c = PieceCollision::new_4([[0, 0, 0, 0], [1, 1, 1, 1], [0, 0, 0, 0], [0, 0, 0, 0]]);
                assert(crate::piece_col::flat_4([[0, 0, 0, 0], [1, 1, 1, 1], [0, 0, 0, 0], [0, 0, 0, 0]]) =~= normal_grid(PieceType::I));
                c
            },
            PieceType::S => {
                let c = PieceCollision::new_3([[0, 1, 1], [1, 1, 0], [0, 0, 0]]);
                assert(crate::piece_col::flat_3([[0, 1, 1], [1, 1, 0], [0, 0, 0]]) =~= normal_grid(PieceType::S));
                c
            },
            PieceType::Z => {
                let c = PieceCollision::new_3([[1, 1, 0], [0, 1, 1], [0, 0, 0]]);
                assert(crate::piece_col::flat_3([[1, 1, 0], [0, 1, 1], [0, 0, 0]]) =~= normal_grid(PieceType::Z));
                c
            },
            PieceType::O => {
                let c = PieceCollision::new_2([[1, 1], [1, 1]]);
                assert(crate::piece_col::flat_2([[1, 1], [1, 1]]) =~= normal_grid(PieceType::O));
                c
            },
            PieceType::L => {
                let c = PieceCollision::new_3([[0, 0, 1], [1, 1, 1], [0, 0, 0]]);
                assert(crate::piece_col::flat_3([[0, 0, 1], [1, 1, 1], [0, 0, 0]]) =~= normal_grid(PieceType::L));
                c
            },
            PieceType::J => {
                let c = PieceCollision::new_3([[1, 0, 0], [1, 1, 1], [0, 0, 0]]);
                assert(crate::piece_col::flat_3([[1, 0, 0], [1, 1, 1], [0, 0, 0]]) =~= normal_grid(PieceType::J));
                c
            },
            PieceType::T => {
                let c = PieceCollision::new_3([[0, 1, 0], [1, 1, 1], [0, 0, 0]]);
                assert(crate::piece_col::flat_3([[0, 1, 0], [1, 1, 1], [0, 0, 0]]) =~= normal_grid(PieceType::T));
                c
            },
        };
        piece.set_rotation(self.rotation);
        piece
    }

    /// The same piece moved by `(-dx, -dy)`.
    pub fn clone_with_offset(&self, dx: isize, dy: isize) -> (new: Piece)
        requires
            isize::MIN <= self.position.0 - dx <= isize::MAX,
            isize::MIN <= self.position.1 - dy <= isize::MAX,
        ensures
            new == offset(*self, dx as int, dy as int),
    {
        let (x, y) = self.position;
        let mut new = *self;
        new.position = (x - dx, y - dy);
        new
    }
}

/// How many distinct rotations a piece type has.
pub open spec fn rotation_times(t: PieceType) -> int {
    match t {
        PieceType::O => 1,
        PieceType::S | PieceType::Z | PieceType::I => 2,
        _ => 4,
    }
}

/// The shift from a marker cell to the anchor of a piece whose first filled
/// cell is that marker cell, at Normal rotation.
pub open spec fn check_offset(t: PieceType) -> (isize, isize) {
    match t {
        PieceType::O => (0isize, 0isize),
        PieceType::I => (-2isize, -1isize),
        _ => (-1isize, -1isize),
    }
}

pub(crate) fn get_rotation_times(piece: PieceType) -> (n: usize)
    ensures
        n == rotation_times(piece),
{
    match piece {
        PieceType::O => 1,
        PieceType::S | PieceType::Z | PieceType::I => 2,
        _ => 4,
    }
}

pub(crate) fn piece_check_offset(piece_type: PieceType) -> (r: (isize, isize))
    ensures
        r == check_offset(piece_type),
{
    match piece_type {
        PieceType::O => (0, 0),
        PieceType::I => (-2, -1),
        _ => (-1, -1),
    }
}

fn inbounds(x: usize, y: usize) -> (r: bool)
    ensures
        r == on_board(x as int, y as int),
{
    x < 10 && y < 24
}

/// The board cells that a piece covers, or `None` when one of them is off the board.
pub fn piece_block_positions(piece: Piece) -> (r: Option<Vec<(usize, usize)>>)
    ensures
        r.is_some() <==> cells_on_board(piece),
        r matches Some(v) ==> lists_cells(v@, piece_cells(piece)),
{
    let col = piece.collision();
    let ghost g = piece_grid(piece);
    let ghost s = shape_size(piece.piece_type);
    let size = col.size;
    assert(col.data@[rotation_index(piece.rotation)]@ == g);
    let cells = col.flat_iter();
    let (x, y) = piece.position;
    proof {
        lemma_square_size(s);
    }
    let n: usize = size * size;
    let mut positions: Vec<(usize, usize)> = Vec::new();
    let mut i: usize = 0;
    while i < n
        invariant
            size == s,
            1 <= s <= 4,
            n == s * s,
            n <= 16,
            i <= n,
            g == piece_grid(piece),
            s == shape_size(piece.piece_type),
            (x, y) == piece.position,
            cells@ == g.subrange(0, n as int),
            lists_cells(positions@, footprint(g, s, x as int, y as int, i as nat)),
            forall|k: int|
                0 <= k < footprint(g, s, x as int, y as int, i as nat).len() ==> on_board(
                    #[trigger] footprint(g, s, x as int, y as int, i as nat)[k].0,
                    footprint(g, s, x as int, y as int, i as nat)[k].1,
                ),
        decreases n - i,
    {
        let ghost prev = footprint(g, s, x as int, y as int, i as nat);
        let ghost next = footprint(g, s, x as int, y as int, (i + 1) as nat);
        if cells[i] == 1 {
            proof {
                lemma_square_index(s, i as int);
            }
            let cx = (i % size) as isize;
            let cy = (i / size) as isize;
            if x < -cx || x > 9 - cx || y < -cy || y > 23 - cy {
                proof {
                    lemma_footprint_prefix(g, s, x as int, y as int, (i + 1) as nat, n as nat);
                    assert(piece_cells(piece) == footprint(g, s, x as int, y as int, n as nat));
                    assert(next[prev.len() as int] == (cx + x, cy + y));
                    assert(next[prev.len() as int] == piece_cells(piece)[prev.len() as int]);
                    assert(!on_board(piece_cells(piece)[prev.len() as int].0, piece_cells(piece)[prev.len() as int].1));
                }
                return None;
            }
            positions.push(((x + cx) as usize, (y + cy) as usize));
        }
        assert(lists_cells(positions@, next));
        i += 1;
    }
    assert(piece_cells(piece) == footprint(g, s, x as int, y as int, n as nat));
    Some(positions)
}

/// Whether every cell that the piece covers holds `cover_type`; `None` when
/// the piece is partly off the board.
pub fn piece_fits_over(piece: Piece, cover_type: u8, field: &FieldMatrix) -> (r: Option<bool>)
    ensures
        r.is_some() <==> cells_on_board(piece),
        r matches Some(b) ==> (b <==> covers_only(piece, *field, cover_type)),
{
    let positions = match piece_block_positions(piece) {
        Some(v) => v,
        None => return None,
    };
    let mut k: usize = 0;
    while k < positions.len()
        invariant
            cells_on_board(piece),
            lists_cells(positions@, piece_cells(piece)),
            k <= positions@.len(),
            forall|j: int|
                0 <= j < k ==> cell(*field, #[trigger] piece_cells(piece)[j].0, piece_cells(piece)[j].1)
                    == cover_type,
        decreases positions@.len() - k,
    {
        let (x, y) = positions[k];
        assert(on_board(piece_cells(piece)[k as int].0, piece_cells(piece)[k as int].1));
        if !inbounds(x, y) {
            return None;
        }
        if field[y][x] != cover_type {
            return Some(false);
        }
        k += 1;
    }
    Some(true)
}

/// Whether some cell of the piece rests on the floor or on a filled cell.
fn piece_is_supported(positions: &Vec<(usize, usize)>, piece: Piece, field: &FieldMatrix) -> (r: bool)
    requires
        cells_on_board(piece),
        lists_cells(positions@, piece_cells(piece)),
    ensures
        r == is_supported(piece, *field),
{
    let mut k: usize = 0;
    while k < positions.len()
        invariant
            cells_on_board(piece),
            lists_cells(positions@, piece_cells(piece)),
            k <= positions@.len(),
            forall|j: int|
                0 <= j < k ==> !supported_at(*field, #[trigger] piece_cells(piece)[j].0, piece_cells(piece)[j].1),
        decreases positions@.len() - k,
    {
        let (x, y) = positions[k];
        assert(on_board(piece_cells(piece)[k as int].0, piece_cells(piece)[k as int].1));
        if y == 23 || field[y + 1][x] != 0 {
            return true;
        }
        k += 1;
    }
    false
}

/// Whether no filled cell stands above row `y` in column `x`.
fn column_is_clear(field: &FieldMatrix, x: usize, y: usize) -> (r: bool)
    requires
        x < 10,
        y < 24,
    ensures
        r == column_clear_above(*field, x as int, y as int),
{
    let mut row: usize = 0;
    while row < y
        invariant
            x < 10,
            y < 24,
            row <= y,
            forall|r: int| 0 <= r < row ==> cell(*field, x as int, r) == 0,
        decreases y - row,
    {
        if field[row][x] != 0 {
            assert(cell(*field, x as int, row as int) != 0);
            return false;
        }
        row += 1;
    }
    true
}

/// Whether the piece can be dropped straight down into its place: nothing
/// stands above it in any of its columns, and it rests on the floor or on a
/// filled cell.
pub fn can_harddrop(piece: Piece, field: &FieldMatrix) -> (r: bool)
    requires
        cells_on_board(piece),
    ensures
        r == hard_drop_ok(piece, *field),
{
    let positions = match piece_block_positions(piece) {
        Some(v) => v,
        None => return false,
    };
    let mut k: usize = 0;
    while k < positions.len()
        invariant
            cells_on_board(piece),
            lists_cells(positions@, piece_cells(piece)),
            k <= positions@.len(),
            forall|j: int|
                0 <= j < k ==> column_clear_above(*field, #[trigger] piece_cells(piece)[j].0, piece_cells(piece)[j].1),
        decreases positions@.len() - k,
    {
        let (x, y) = positions[k];
        assert(on_board(piece_cells(piece)[k as int].0, piece_cells(piece)[k as int].1));
        if !column_is_clear(field, x, y) {
            return false;
        }
        k += 1;
    }
    piece_is_supported(&positions, piece, field)
}

/// Writes `v` into every cell that the piece covers.
pub(crate) fn fill_piece(piece: Piece, field: &mut FieldMatrix, v: u8)
    requires
        cells_on_board(piece),
    ensures
        forall|x: int, y: int|
            on_board(x, y) ==> cell(*final(field), x, y) == if covers(piece, x, y) {
                v
            } else {
                cell(*old(field), x, y)
            },
{
    let positions = match piece_block_positions(piece) {
        Some(p) => p,
        None => return,
    };
    let ghost c = piece_cells(piece);
    let mut k: usize = 0;
    while k < positions.len()
        invariant
            cells_on_board(piece),
            c == piece_cells(piece),
            lists_cells(positions@, c),
            k <= positions@.len(),
            forall|x: int, y: int|
                on_board(x, y) ==> cell(*field, x, y) == if c.subrange(0, k as int).contains((x, y)) {
                    v
                } else {
                    cell(*old(field), x, y)
                },
        decreases positions@.len() - k,
    {
        let (x, y) = positions[k];
        assert(on_board(c[k as int].0, c[k as int].1));
        set_cell(field, x, y, v);
        assert forall|i: int, j: int| on_board(i, j) implies cell(*field, i, j) == if c.subrange(
            0,
            k + 1,
        ).contains((i, j)) {
            v
        } else {
            cell(*old(field), i, j)
        } by {
            let pre = c.subrange(0, k as int);
            let post = c.subrange(0, k + 1);
            assert(post =~= pre.push(c[k as int]));
            if pre.contains((i, j)) {
                let w = choose|w: int| 0 <= w < pre.len() && pre[w] == (i, j);
                assert(post[w] == (i, j));
            }
            if post.contains((i, j)) && !pre.contains((i, j)) {
                let w = choose|w: int| 0 <= w < post.len() && post[w] == (i, j);
                if w < k {
                    assert(pre[w] == (i, j));
                }
            }
            if i == x && j == y {
                assert(post[k as int] == (i, j));
            }
        }
        k += 1;
    }
    assert(c.subrange(0, c.len() as int) =~= c);
}

/// Writes the piece's marker code into every cell it covers, whatever those
/// cells held.
pub fn place_piece_on_field(piece: Piece, field: &mut FieldMatrix)
    requires
        cells_on_board(piece),
    ensures
        forall|x: int, y: int|
            on_board(x, y) ==> cell(*final(field), x, y) == if covers(piece, x, y) {
                marker_of(piece.piece_type)
            } else {
                cell(*old(field), x, y)
            },
{
    let piece_index = piece_type_to_fumen_index(piece.piece_type);
    fill_piece(piece, field, piece_index);
}

/// The pieces none of whose cells rest on the floor or on a filled cell:
/// such a piece can never be placed by dropping it.
pub fn impossibilites(pieces: &Vec<Piece>, field: &FieldMatrix) -> (r: Vec<Piece>)
    requires
        forall|i: int| 0 <= i < pieces@.len() ==> cells_on_board(#[trigger] pieces@[i]),
    ensures
        r@ == pieces@.filter(|p: Piece| !is_supported(p, *field)),
{
    let mut impossible_pieces: Vec<Piece> = Vec::new();
    let mut i: usize = 0;
    while i < pieces.len()
        invariant
            i <= pieces@.len(),
            forall|j: int| 0 <= j < pieces@.len() ==> cells_on_board(#[trigger] pieces@[j]),
            impossible_pieces@ == pieces@.subrange(0, i as int).filter(
                |p: Piece| !is_supported(p, *field),
            ),
        decreases pieces@.len() - i,
    {
        let piece = pieces[i];
        assert(cells_on_board(pieces@[i as int]));
        let positions = match piece_block_positions(piece) {
            Some(v) => v,
            None => return impossible_pieces,
        };
        let supported = piece_is_supported(&positions, piece, field);
        proof {
            let pre = pieces@.subrange(0, i as int);
            let post = pieces@.subrange(0, i + 1);
            assert(post.drop_last() =~= pre);
            reveal(Seq::filter);
        }
        if !supported {
            impossible_pieces.push(piece);
        }
        i += 1;
    }
    assert(pieces@.subrange(0, pieces@.len() as int) =~= pieces@);
    impossible_pieces
}

} // verus!
