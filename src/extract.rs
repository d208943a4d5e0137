//! Turning a grid of piece markers into the pieces it asks for.

use vstd::prelude::*;

use crate::field::colored;
use crate::fieldmatrix::{cell, empty_field, on_board, set_cell, FieldMatrix};
use crate::piece::{
    cells_on_board, check_offset, covers, covers_only, fill_piece, fumen_index_to_piece_type,
    get_rotation_times, piece_block_positions, piece_check_offset, piece_fits_over,
    rotation_times, Piece, PieceType, Rotation,
};

verus! {

/// Why a marker grid could not be turned into pieces.
#[derive(Debug)]
pub enum ExtractError {
    /// A cell holds this code, which names no piece type.
    UnknownMarker(u8),
    /// The cells, row-major, that more than one candidate piece claims.
    Ambiguous(Vec<(usize, usize)>),
    /// The marker cells, row-major, that no candidate piece claims.
    Unused(Vec<(usize, usize)>),
}

/// The piece type that a marker code in 1..=7 names.
pub open spec fn marker_type(v: u8) -> PieceType {
    if v == 1 {
        PieceType::I
    } else if v == 2 {
        PieceType::L
    } else if v == 3 {
        PieceType::O
    } else if v == 4 {
        PieceType::Z
    } else if v == 5 {
        PieceType::T
    } else if v == 6 {
        PieceType::J
    } else {
        PieceType::S
    }
}

/// The rotations in clockwise order from Normal.
pub open spec fn rotation_at(r: int) -> Rotation {
    if r == 0 {
        Rotation::Normal
    } else if r == 1 {
        Rotation::Right
    } else if r == 2 {
        Rotation::Double
    } else {
        Rotation::Left
    }
}

/// The piece of type `t` at the `r`-th rotation, anchored so that its grid
/// lines up with the marker cell `(x, y)`.
pub open spec fn candidate(t: PieceType, r: int, x: int, y: int) -> Piece {
    Piece {
        piece_type: t,
        rotation: rotation_at(r),
        position: ((x + check_offset(t).0) as isize, (y + check_offset(t).1) as isize),
    }
}

/// The candidates of the marker cell `(x, y)` among its first `n` rotations:
/// those lying on the board with every cell holding the same marker.
pub open spec fn cell_candidates(f: FieldMatrix, x: int, y: int, n: nat) -> Seq<Piece>
    decreases n,
{
    if n == 0 {
        seq![]
    } else {
        let prev = cell_candidates(f, x, y, (n - 1) as nat);
        let v = cell(f, x, y);
        let p = candidate(marker_type(v), n - 1, x, y);
        if cells_on_board(p) && covers_only(p, f, v) {
            prev.push(p)
        } else {
            prev
        }
    }
}

/// The candidates of the first `n` cells of the board in row-major order.
pub open spec fn candidates_upto(f: FieldMatrix, n: nat) -> Seq<Piece>
    decreases n,
{
    if n == 0 {
        seq![]
    } else {
        let i = n - 1;
        let v = cell(f, i % 10, i / 10);
        let here = if 1 <= v <= 7 {
            cell_candidates(f, i % 10, i / 10, rotation_times(marker_type(v)) as nat)
        } else {
            seq![]
        };
        candidates_upto(f, (n - 1) as nat) + here
    }
}

/// Every candidate piece of a marker grid.
pub open spec fn candidates(f: FieldMatrix) -> Seq<Piece> {
    candidates_upto(f, 240)
}

/// Some cell holds a code above 7.
pub open spec fn has_unknown_marker(f: FieldMatrix) -> bool {
    exists|x: int, y: int| on_board(x, y) && cell(f, x, y) > 7
}

/// How many of the pieces cover `(x, y)`.
pub open spec fn cover_count(ps: Seq<Piece>, x: int, y: int) -> nat
    decreases ps.len(),
{
    if ps.len() == 0 {
        0
    } else {
        cover_count(ps.drop_last(), x, y) + if covers(ps.last(), x, y) {
            1nat
        } else {
            0nat
        }
    }
}

/// Some piece lying on the board covers `(x, y)`.
pub open spec fn covered_by(ps: Seq<Piece>, x: int, y: int) -> bool
    decreases ps.len(),
{
    if ps.len() == 0 {
        false
    } else {
        covered_by(ps.drop_last(), x, y) || (cells_on_board(ps.last()) && covers(ps.last(), x, y))
    }
}

/// The cells among the first `n`, row-major, covered more than once.
pub open spec fn ambiguous_upto(ps: Seq<Piece>, n: nat) -> Seq<(int, int)>
    decreases n,
{
    if n == 0 {
        seq![]
    } else {
        let i = n - 1;
        let prev = ambiguous_upto(ps, (n - 1) as nat);
        if cover_count(ps, i % 10, i / 10) > 1 {
            prev.push((i % 10, i / 10))
        } else {
            prev
        }
    }
}

/// The cells, row-major, that more than one of the pieces covers.
pub open spec fn ambiguous_points(ps: Seq<Piece>) -> Seq<(int, int)> {
    ambiguous_upto(ps, 240)
}

/// The cells among the first `n`, row-major, that hold a marker no piece covers.
pub open spec fn unused_upto(ps: Seq<Piece>, f: FieldMatrix, n: nat) -> Seq<(int, int)>
    decreases n,
{
    if n == 0 {
        seq![]
    } else {
        let i = n - 1;
        let prev = unused_upto(ps, f, (n - 1) as nat);
        if colored(cell(f, i % 10, i / 10)) != 0 && !covered_by(ps, i % 10, i / 10) {
            prev.push((i % 10, i / 10))
        } else {
            prev
        }
    }
}

/// The cells, row-major, that hold a marker (grey cells aside) that none of the
/// pieces lying on the board covers.
pub open spec fn unused_points(ps: Seq<Piece>, f: FieldMatrix) -> Seq<(int, int)> {
    unused_upto(ps, f, 240)
}

/// Whether `v` lists the points `c`, as unsigned pairs.
pub open spec fn lists_points(v: Seq<(usize, usize)>, c: Seq<(int, int)>) -> bool {
    &&& v.len() == c.len()
    &&& forall|k: int| 0 <= k < v.len() ==> #[trigger] v[k].0 == c[k].0 && v[k].1 == c[k].1
}

proof fn lemma_coords(i: int)
    requires
        0 <= i < 240,
    ensures
        on_board(i % 10, i / 10),
        (i / 10) * 10 + i % 10 == i,
{
}

proof fn lemma_index(x: int, y: int)
    requires
        on_board(x, y),
    ensures
        (y * 10 + x) % 10 == x,
        (y * 10 + x) / 10 == y,
        0 <= y * 10 + x < 240,
{
}

/// Whether cell `(x, y)` comes before the `n`-th cell in row-major order.
pub open spec fn before(x: int, y: int, n: int) -> bool {
    y * 10 + x < n
}

fn find_ambiguous_points(pieces: &Vec<Piece>) -> (r: Vec<(usize, usize)>)
    requires
        forall|i: int| 0 <= i < pieces@.len() ==> cells_on_board(#[trigger] pieces@[i]),
    ensures
        lists_points(r@, ambiguous_points(pieces@)),
{
    let mut counts = empty_field();
    let mut i: usize = 0;
    while i < pieces.len()
        invariant
            i <= pieces@.len(),
            forall|j: int| 0 <= j < pieces@.len() ==> cells_on_board(#[trigger] pieces@[j]),
            forall|x: int, y: int|
                on_board(x, y) ==> cell(counts, x, y) as nat == if cover_count(
                    pieces@.subrange(0, i as int),
                    x,
                    y,
                ) >= 2 {
                    2
                } else {
                    cover_count(pieces@.subrange(0, i as int), x, y)
                },
        decreases pieces@.len() - i,
    {
        let piece = pieces[i];
        assert(cells_on_board(pieces@[i as int]));
        let mut mark = empty_field();
        fill_piece(piece, &mut mark, 1);
        let ghost before_counts = counts;
        let mut idx: usize = 0;
        while idx < 240
            invariant
                idx <= 240,
                forall|x: int, y: int|
                    on_board(x, y) ==> cell(mark, x, y) == if covers(piece, x, y) {
                        1u8
                    } else {
                        0u8
                    },
                forall|x: int, y: int|
                    on_board(x, y) ==> cell(before_counts, x, y) <= 2,
                forall|x: int, y: int|
                    on_board(x, y) ==> cell(counts, x, y) == if before(x, y, idx as int) {
                        if cell(mark, x, y) != 0 && cell(before_counts, x, y) < 2 {
                            (cell(before_counts, x, y) + 1) as u8
                        } else {
                            cell(before_counts, x, y)
                        }
                    } else {
                        cell(before_counts, x, y)
                    },
            decreases 240 - idx,
        {
            let x: usize = idx % 10;
            let y: usize = idx / 10;
            proof {
                lemma_coords(idx as int);
            }
            if mark[y][x] != 0 && counts[y][x] < 2 {
                let c = counts[y][x];
                set_cell(&mut counts, x, y, c + 1);
            }
            idx += 1;
            assert forall|i: int, j: int| on_board(i, j) implies before(i, j, idx as int) == (before(
                i,
                j,
                idx - 1,
            ) || (i == x && j == y)) by {
                lemma_index(i, j);
            }
        }
        proof {
            let pre = pieces@.subrange(0, i as int);
            let post = pieces@.subrange(0, i + 1);
            assert(post.drop_last() =~= pre);
            assert forall|x: int, y: int| on_board(x, y) implies cell(counts, x, y) as nat == if cover_count(
                post,
                x,
                y,
            ) >= 2 {
                2
            } else {
                cover_count(post, x, y)
            } by {
                lemma_index(x, y);
                assert(before(x, y, 240));
            }
        }
        i += 1;
    }
    assert(pieces@.subrange(0, pieces@.len() as int) =~= pieces@);
    let mut points: Vec<(usize, usize)> = Vec::new();
    let mut idx: usize = 0;
    while idx < 240
        invariant
            idx <= 240,
            forall|x: int, y: int|
                on_board(x, y) ==> (cell(counts, x, y) > 1 <==> cover_count(pieces@, x, y) > 1),
            lists_points(points@, ambiguous_upto(pieces@, idx as nat)),
        decreases 240 - idx,
    {
        let x: usize = idx % 10;
        let y: usize = idx / 10;
        proof {
            lemma_coords(idx as int);
        }
        if counts[y][x] > 1 {
            points.push((x, y));
        }
        idx += 1;
    }
    points
}

/// The marker cells, row-major, that none of the pieces lying on the board
/// covers; grey cells (8 and above) are never reported.
pub fn find_unused_points(pieces: &Vec<Piece>, field: &FieldMatrix) -> (r: Vec<(usize, usize)>)
    ensures
        lists_points(r@, unused_points(pieces@, *field)),
{
    let mut test_field = *field;
    let mut idx: usize = 0;
    while idx < 240
        invariant
            idx <= 240,
            forall|x: int, y: int|
                on_board(x, y) ==> cell(test_field, x, y) == if before(x, y, idx as int) {
                    colored(cell(*field, x, y))
                } else {
                    cell(*field, x, y)
                },
        decreases 240 - idx,
    {
        let x: usize = idx % 10;
        let y: usize = idx / 10;
        proof {
            lemma_coords(idx as int);
        }
        if test_field[y][x] >= 8 {
            set_cell(&mut test_field, x, y, 0);
        }
        idx += 1;
        assert forall|i: int, j: int| on_board(i, j) implies before(i, j, idx as int) == (before(
            i,
            j,
            idx - 1,
        ) || (i == x && j == y)) by {
            lemma_index(i, j);
        }
    }
    assert forall|x: int, y: int| on_board(x, y) implies before(x, y, 240) by {
        lemma_index(x, y);
    }
    let mut i: usize = 0;
    while i < pieces.len()
        invariant
            i <= pieces@.len(),
            forall|x: int, y: int|
                on_board(x, y) ==> cell(test_field, x, y) == if covered_by(
                    pieces@.subrange(0, i as int),
                    x,
                    y,
                ) {
                    0
                } else {
                    colored(cell(*field, x, y))
                },
        decreases pieces@.len() - i,
    {
        let piece = pieces[i];
        proof {
            let pre = pieces@.subrange(0, i as int);
            let post = pieces@.subrange(0, i + 1);
            assert(post.drop_last() =~= pre);
        }
        match piece_block_positions(piece) {
            Some(_) => {
                fill_piece(piece, &mut test_field, 0);
            },
            None => {},
        }
        i += 1;
    }
    assert(pieces@.subrange(0, pieces@.len() as int) =~= pieces@);
    let mut points: Vec<(usize, usize)> = Vec::new();
    let mut idx: usize = 0;
    while idx < 240
        invariant
            idx <= 240,
            forall|x: int, y: int|
                on_board(x, y) ==> (cell(test_field, x, y) != 0 <==> (colored(cell(*field, x, y)) != 0
                    && !covered_by(pieces@, x, y))),
            lists_points(points@, unused_upto(pieces@, *field, idx as nat)),
        decreases 240 - idx,
    {
        let x: usize = idx % 10;
        let y: usize = idx / 10;
        proof {
            lemma_coords(idx as int);
        }
        if test_field[y][x] != 0 {
            points.push((x, y));
        }
        idx += 1;
    }
    points
}

/// The candidates of the marker cell `(x, y)` holding `v`, appended to `pieces`.
fn push_cell_candidates(
    pieces: &mut Vec<Piece>,
    field: &FieldMatrix,
    x: usize,
    y: usize,
    piece_type: PieceType,
)
    requires
        on_board(x as int, y as int),
        1 <= cell(*field, x as int, y as int) <= 7,
        piece_type == marker_type(cell(*field, x as int, y as int)),
    ensures
        final(pieces)@ == old(pieces)@ + cell_candidates(
            *field,
            x as int,
            y as int,
            rotation_times(piece_type) as nat,
        ),
{
    let rotations = [Rotation::Normal, Rotation::Right, Rotation::Double, Rotation::Left];
    let fumen_index = field[y][x];
    let (offset_x, offset_y) = piece_check_offset(piece_type);
    let mut piece = Piece {
        piece_type,
        rotation: Rotation::Normal,
        position: (x as isize + offset_x, y as isize + offset_y),
    };
    let times = get_rotation_times(piece_type);
    let ghost start = pieces@;
    let mut r: usize = 0;
    while r < times
        invariant
            on_board(x as int, y as int),
            fumen_index == cell(*field, x as int, y as int),
            piece_type == marker_type(fumen_index),
            times == rotation_times(piece_type),
            times <= 4,
            r <= times,
            piece.piece_type == piece_type,
            piece.position == candidate(piece_type, 0, x as int, y as int).position,
            rotations@ == seq![Rotation::Normal, Rotation::Right, Rotation::Double, Rotation::Left],
            pieces@ == start + cell_candidates(*field, x as int, y as int, r as nat),
        decreases times - r,
    {
        piece.rotation = rotations[r];
        assert(piece == candidate(piece_type, r as int, x as int, y as int));
        let fits = piece_fits_over(piece, fumen_index, field);
        match fits {
            Some(true) => {
                pieces.push(piece);
            },
            _ => {},
        }
        assert(pieces@ =~= start + cell_candidates(*field, x as int, y as int, (r + 1) as nat));
        r += 1;
    }
}

/// Turns a marker grid into the pieces it asks for. For each marker cell,
/// every distinct rotation of its piece type is tried, anchored on that cell;
/// a placement is kept when all its cells lie on the board and hold the same
/// marker. The grid is refused when a cell holds a code above 7, when some
/// cell is claimed by two kept placements, or when some marker cell is
/// claimed by none, in that order.
pub fn color_field_to_pieces(field: FieldMatrix) -> (r: Result<Vec<Piece>, ExtractError>)
    ensures
        r matches Err(ExtractError::UnknownMarker(v)) ==> v > 7,
        (r matches Err(ExtractError::UnknownMarker(_))) <==> has_unknown_marker(field),
        !has_unknown_marker(field) ==> match r {
            Ok(ps) => ambiguous_points(candidates(field)).len() == 0 && unused_points(
                candidates(field),
                field,
            ).len() == 0 && ps@ == candidates(field),
            Err(ExtractError::Ambiguous(pts)) => ambiguous_points(candidates(field)).len() > 0
                && lists_points(pts@, ambiguous_points(candidates(field))),
            Err(ExtractError::Unused(pts)) => ambiguous_points(candidates(field)).len() == 0
                && unused_points(candidates(field), field).len() > 0 && lists_points(
                pts@,
                unused_points(candidates(field), field),
            ),
            Err(ExtractError::UnknownMarker(_)) => false,
        },
{
    let mut piece_possibilities: Vec<Piece> = Vec::new();
    let mut idx: usize = 0;
    while idx < 240
        invariant
            idx <= 240,
            forall|x: int, y: int| on_board(x, y) && before(x, y, idx as int) ==> cell(field, x, y) <= 7,
            piece_possibilities@ == candidates_upto(field, idx as nat),
        decreases 240 - idx,
    {
        let x: usize = idx % 10;
        let y: usize = idx / 10;
        proof {
            lemma_coords(idx as int);
        }
        let fumen_index = field[y][x];
        if fumen_index != 0 {
            let piece_type = match fumen_index_to_piece_type(fumen_index) {
                Ok(t) => t,
                Err(_) => {
                    return Err(ExtractError::UnknownMarker(fumen_index));
                },
            };
            push_cell_candidates(&mut piece_possibilities, &field, x, y, piece_type);
        }
        assert(piece_possibilities@ =~= candidates_upto(field, (idx + 1) as nat));
        idx += 1;
        assert forall|i: int, j: int| on_board(i, j) implies before(i, j, idx as int) == (before(
            i,
            j,
            idx - 1,
        ) || (i == x && j == y)) by {
            lemma_index(i, j);
        }
    }
    assert(!has_unknown_marker(field)) by {
        assert forall|x: int, y: int| on_board(x, y) implies cell(field, x, y) <= 7 by {
            lemma_index(x, y);
        }
    }
    proof {
        lemma_candidates_on_board(field, 240);
    }
    let ambiguous = find_ambiguous_points(&piece_possibilities);
    if ambiguous.len() > 0 {
        return Err(ExtractError::Ambiguous(ambiguous));
    }
    let unused = find_unused_points(&piece_possibilities, &field);
    if unused.len() > 0 {
        return Err(ExtractError::Unused(unused));
    }
    Ok(piece_possibilities)
}

proof fn lemma_cell_candidates_on_board(f: FieldMatrix, x: int, y: int, n: nat)
    ensures
        forall|i: int|
            0 <= i < cell_candidates(f, x, y, n).len() ==> cells_on_board(
                #[trigger] cell_candidates(f, x, y, n)[i],
            ),
    decreases n,
{
    if n > 0 {
        let prev = cell_candidates(f, x, y, (n - 1) as nat);
        lemma_cell_candidates_on_board(f, x, y, (n - 1) as nat);
        assert forall|i: int| 0 <= i < cell_candidates(f, x, y, n).len() implies cells_on_board(
            #[trigger] cell_candidates(f, x, y, n)[i],
        ) by {
            if i < prev.len() {
                assert(cell_candidates(f, x, y, n)[i] == prev[i]);
            }
        }
    }
}

/// Every candidate lies on the board.
proof fn lemma_candidates_on_board(f: FieldMatrix, n: nat)
    ensures
        forall|i: int|
            0 <= i < candidates_upto(f, n).len() ==> cells_on_board(#[trigger] candidates_upto(f, n)[i]),
    decreases n,
{
    if n > 0 {
        let m = (n - 1) as nat;
        lemma_candidates_on_board(f, m);
        let i = n - 1;
        let v = cell(f, i % 10, i / 10);
        if 1 <= v <= 7 {
            lemma_cell_candidates_on_board(f, i % 10, i / 10, rotation_times(marker_type(v)) as nat);
        }
        let prev = candidates_upto(f, m);
        assert forall|k: int| 0 <= k < candidates_upto(f, n).len() implies cells_on_board(
            #[trigger] candidates_upto(f, n)[k],
        ) by {
            if k < prev.len() {
                assert(candidates_upto(f, n)[k] == prev[k]);
            }
        }
    }
}

proof fn lemma_cover_count_one(ps: Seq<Piece>, i: int, x: int, y: int)
    requires
        0 <= i < ps.len(),
        covers(ps[i], x, y),
    ensures
        cover_count(ps, x, y) >= 1,
    decreases ps.len(),
{
    if i < ps.len() - 1 {
        lemma_cover_count_one(ps.drop_last(), i, x, y);
    }
}

proof fn lemma_cover_count_two(ps: Seq<Piece>, i: int, j: int, x: int, y: int)
    requires
        0 <= i < j < ps.len(),
        covers(ps[i], x, y),
        covers(ps[j], x, y),
    ensures
        cover_count(ps, x, y) >= 2,
    decreases ps.len(),
{
    if j < ps.len() - 1 {
        lemma_cover_count_two(ps.drop_last(), i, j, x, y);
    } else {
        lemma_cover_count_one(ps.drop_last(), i, x, y);
    }
}

proof fn lemma_ambiguous_nonempty(ps: Seq<Piece>, n: nat, x: int, y: int)
    requires
        on_board(x, y),
        y * 10 + x < n <= 240,
        cover_count(ps, x, y) > 1,
    ensures
        ambiguous_upto(ps, n).len() > 0,
    decreases n,
{
    lemma_index(x, y);
    if y * 10 + x < n - 1 {
        lemma_ambiguous_nonempty(ps, (n - 1) as nat, x, y);
    }
}

proof fn lemma_ambiguous_upto_exact(ps: Seq<Piece>, n: nat)
    requires
        n <= 240,
    ensures
        forall|x: int, y: int|
            #![trigger ambiguous_upto(ps, n).contains((x, y))]
            ambiguous_upto(ps, n).contains((x, y)) <==> (on_board(x, y) && y * 10 + x < n && cover_count(
                ps,
                x,
                y,
            ) > 1),
    decreases n,
{
    if n > 0 {
        let m = (n - 1) as nat;
        lemma_ambiguous_upto_exact(ps, m);
        let i = n - 1;
        lemma_coords(i);
        let prev = ambiguous_upto(ps, m);
        assert forall|x: int, y: int|
            ambiguous_upto(ps, n).contains((x, y)) <==> (on_board(x, y) && y * 10 + x < n && cover_count(
                ps,
                x,
                y,
            ) > 1) by {
            if on_board(x, y) {
                lemma_index(x, y);
            }
            if cover_count(ps, i % 10, i / 10) > 1 {
                let post = prev.push((i % 10, i / 10));
                if post.contains((x, y)) && !prev.contains((x, y)) {
                    let w = choose|w: int| 0 <= w < post.len() && post[w] == (x, y);
                    if w < prev.len() {
                        assert(prev[w] == (x, y));
                    }
                }
                if prev.contains((x, y)) {
                    let w = choose|w: int| 0 <= w < prev.len() && prev[w] == (x, y);
                    assert(post[w] == (x, y));
                }
                if (x, y) == (i % 10, i / 10) {
                    assert(post[prev.len() as int] == (x, y));
                }
            }
        }
    }
}

/// The ambiguous points of a list of pieces are exactly the cells that two
/// or more of them cover.
pub proof fn lemma_ambiguous_points_exact(ps: Seq<Piece>)
    ensures
        forall|x: int, y: int|
            #![trigger ambiguous_points(ps).contains((x, y))]
            ambiguous_points(ps).contains((x, y)) <==> (on_board(x, y) && cover_count(ps, x, y) >= 2),
{
    lemma_ambiguous_upto_exact(ps, 240);
    assert forall|x: int, y: int| on_board(x, y) implies y * 10 + x < 240 by {
        lemma_index(x, y);
    }
}

/// Two distinct candidate placements that claim the same cell make the
/// marker grid ambiguous, and that cell is among the points named, so
/// `color_field_to_pieces` refuses the grid before any piece is handed on.
pub proof fn lemma_overlap_is_ambiguous(f: FieldMatrix, i: int, j: int, x: int, y: int)
    requires
        0 <= i < j < candidates(f).len(),
        on_board(x, y),
        covers(candidates(f)[i], x, y),
        covers(candidates(f)[j], x, y),
    ensures
        ambiguous_points(candidates(f)).len() > 0,
        ambiguous_points(candidates(f)).contains((x, y)),
{
    lemma_ambiguous_points_exact(candidates(f));
    lemma_cover_count_two(candidates(f), i, j, x, y);
    lemma_index(x, y);
    lemma_ambiguous_nonempty(candidates(f), 240, x, y);
}

} // verus!
