//! Whether a piece can reach its place: hard drop, or drop and slide.

use vstd::prelude::*;
use vstd::set_lib::*;

use crate::field::PercentageOptions;
use crate::fieldmatrix::{cell, on_board, FieldMatrix};
use crate::piece::{
    can_harddrop, cells_on_board, covers_only, hard_drop_ok, lemma_piece_cells_shape, piece_cells,
    piece_fits_over, Piece,
};

verus! {

/// The anchor of a piece.
pub open spec fn anchor(p: Piece) -> (int, int) {
    (p.position.0 as int, p.position.1 as int)
}

/// The piece moved to anchor `a`.
pub open spec fn at(p: Piece, a: (int, int)) -> Piece {
    Piece { position: (a.0 as isize, a.1 as isize), ..p }
}

/// The piece lies on the board over empty cells only.
pub open spec fn free_at(f: FieldMatrix, p: Piece) -> bool {
    cells_on_board(p) && covers_only(p, f, 0)
}

/// One move of a piece traced back from its final place: a cell left, a cell
/// right or a cell up, onto a free position.
pub open spec fn step(f: FieldMatrix, p: Piece, a: (int, int), b: (int, int)) -> bool {
    &&& (b == (a.0 - 1, a.1) || b == (a.0 + 1, a.1) || b == (a.0, a.1 - 1))
    &&& free_at(f, at(p, b))
}

/// A sequence of moves from the piece's own anchor.
pub open spec fn is_path(f: FieldMatrix, p: Piece, path: Seq<(int, int)>) -> bool {
    &&& path.len() >= 1
    &&& path[0] == anchor(p)
    &&& forall|i: int| 0 <= i < path.len() - 1 ==> step(f, p, #[trigger] path[i], path[i + 1])
}

/// Anchor `a` can be reached from the piece's place by moves.
pub open spec fn reachable(f: FieldMatrix, p: Piece, a: (int, int)) -> bool {
    exists|path: Seq<(int, int)>| is_path(f, p, path) && path.last() == a
}

/// The piece could be hard-dropped to anchor `a`.
pub open spec fn droppable_at(f: FieldMatrix, p: Piece, a: (int, int)) -> bool {
    cells_on_board(at(p, a)) && hard_drop_ok(at(p, a), f)
}

/// One move left or right, onto a free position.
pub open spec fn slide(f: FieldMatrix, p: Piece, a: (int, int), b: (int, int)) -> bool {
    &&& (b == (a.0 - 1, a.1) || b == (a.0 + 1, a.1))
    &&& free_at(f, at(p, b))
}

/// The piece can get to its place by a hard drop to some position, then a
/// move sideways, then moves left, right and down over empty cells: traced
/// back, some anchor reachable from the place has a sideways neighbour where
/// a hard drop lands.
pub open spec fn softdrop_reachable(f: FieldMatrix, p: Piece) -> bool {
    exists|a: (int, int), b: (int, int)|
        #[trigger] reachable(f, p, a) && #[trigger] slide(f, p, a, b) && droppable_at(f, p, b)
}

/// Whether the piece can be placed under the given options: by a hard drop,
/// or, with soft drop allowed, by a hard drop followed by slides.
pub open spec fn can_place(f: FieldMatrix, p: Piece, options: PercentageOptions) -> bool {
    hard_drop_ok(p, f) || (options.soft_drop && softdrop_reachable(f, p))
}

/// The anchors that a piece on the board can have.
pub open spec fn in_domain(a: (int, int)) -> bool {
    -3 <= a.0 <= 9 && -3 <= a.1 <= 23
}

/// Grid of anchors seen by the search, shifted by 3 in each direction.
pub type Visited = [[bool; 13]; 27];

/// The search has seen anchor `a`.
pub open spec fn vis(v: Visited, a: (int, int)) -> bool {
    in_domain(a) && v@[a.1 + 3]@[a.0 + 3]
}

/// The anchor with index `i`.
pub open spec fn unidx(i: int) -> (int, int) {
    (i % 13 - 3, i / 13 - 3)
}

/// The index of anchor `a`, from 0 to 350.
pub open spec fn idx(a: (int, int)) -> int {
    (a.1 + 3) * 13 + (a.0 + 3)
}

/// The anchors seen, by index.
pub open spec fn seen_set(v: Visited) -> Set<int> {
    Set::new(|i: int| 0 <= i < 351 && vis(v, unidx(i)))
}

/// A stack entry as an anchor.
pub open spec fn pos(q: (isize, isize)) -> (int, int) {
    (q.0 as int, q.1 as int)
}

/// Each free neighbour of `a` has been seen, and no hard drop lands on a
/// free sideways neighbour.
pub open spec fn closed(f: FieldMatrix, p: Piece, v: Visited, a: (int, int)) -> bool {
    &&& free_at(f, at(p, (a.0 - 1, a.1))) ==> vis(v, (a.0 - 1, a.1)) && !droppable_at(f, p, (a.0 - 1, a.1))
    &&& free_at(f, at(p, (a.0 + 1, a.1))) ==> vis(v, (a.0 + 1, a.1)) && !droppable_at(f, p, (a.0 + 1, a.1))
    &&& free_at(f, at(p, (a.0, a.1 - 1))) ==> vis(v, (a.0, a.1 - 1))
}

/// What holds of the search at every step: every anchor seen is reachable;
/// every anchor on the stack is seen; every anchor seen is on the stack, is
/// `pending`, or is closed.
pub open spec fn search_inv(
    f: FieldMatrix,
    p: Piece,
    v: Visited,
    stack: Seq<(isize, isize)>,
    pending: Option<(int, int)>,
) -> bool {
    &&& forall|a: (int, int)| #[trigger] vis(v, a) ==> reachable(f, p, a)
    &&& forall|k: int| 0 <= k < stack.len() ==> vis(v, pos(#[trigger] stack[k]))
    &&& forall|a: (int, int)|
        #[trigger] vis(v, a) ==> stack.map_values(|q: (isize, isize)| pos(q)).contains(a) || pending
            == Some(a) || closed(f, p, v, a)
}

/// How much work the search has left at most.
pub open spec fn measure(v: Visited, stack: Seq<(isize, isize)>) -> int {
    2 * (351 - seen_set(v).len()) + stack.len()
}

proof fn lemma_index_roundtrip(a: (int, int))
    requires
        in_domain(a),
    ensures
        0 <= idx(a) < 351,
        unidx(idx(a)) == a,
{
}

proof fn lemma_unidx(i: int)
    requires
        0 <= i < 351,
    ensures
        in_domain(unidx(i)),
        idx(unidx(i)) == i,
{
}

proof fn lemma_seen_bounded(v: Visited)
    ensures
        seen_set(v).finite(),
        seen_set(v).len() <= 351,
{
    lemma_int_range(0, 351);
    assert(seen_set(v).subset_of(set_int_range(0, 351)));
    lemma_len_subset(seen_set(v), set_int_range(0, 351));
}

/// A piece lying on the board has its anchor in the search's domain.
proof fn lemma_seen_insert(v: Visited, v2: Visited, b: (int, int))
    requires
        in_domain(b),
        !vis(v, b),
        forall|q: (int, int)| #[trigger] vis(v2, q) == (vis(v, q) || q == b),
    ensures
        seen_set(v2).len() == seen_set(v).len() + 1,
{
    lemma_seen_bounded(v);
    lemma_index_roundtrip(b);
    assert forall|i: int| #[trigger] seen_set(v2).contains(i) == seen_set(v).insert(idx(b)).contains(i) by {
        if 0 <= i < 351 {
            lemma_unidx(i);
            assert(vis(v2, unidx(i)) == (vis(v, unidx(i)) || unidx(i) == b));
        }
    }
    assert(seen_set(v2) =~= seen_set(v).insert(idx(b)));
    assert(!seen_set(v).contains(idx(b)));
}

proof fn lemma_on_board_in_domain(q: Piece)
    requires
        cells_on_board(q),
    ensures
        in_domain(anchor(q)),
{
    lemma_piece_cells_shape(q);
    let c = piece_cells(q)[0];
    assert(on_board(c.0, c.1));
}

proof fn lemma_at_anchor(p: Piece)
    ensures
        at(p, anchor(p)) == p,
{
}

fn mark(v: &mut Visited, x: isize, y: isize)
    requires
        in_domain((x as int, y as int)),
    ensures
        forall|a: (int, int)|
            #[trigger] vis(*final(v), a) == (vis(*old(v), a) || a == (x as int, y as int)),
{
    let yi = (y + 3) as usize;
    let xi = (x + 3) as usize;
    let mut row = v[yi];
    row[xi] = true;
    v[yi] = row;
}

fn is_seen(v: &Visited, x: isize, y: isize) -> (r: bool)
    requires
        in_domain((x as int, y as int)),
    ensures
        r == vis(*v, (x as int, y as int)),
{
    v[(y + 3) as usize][(x + 3) as usize]
}

/// Looks at anchor `b`, one move away from the seen anchor `a`: when the
/// piece is free there, `true` comes back if `b` is beside `a` and a hard
/// drop lands there; otherwise a new `b` is marked seen and pushed.
fn try_visit(
    piece: Piece,
    field: &FieldMatrix,
    v: &mut Visited,
    stack: &mut Vec<(isize, isize)>,
    a: (isize, isize),
    b: (isize, isize),
) -> (found: bool)
    requires
        search_inv(*field, piece, *old(v), old(stack)@, Some(pos(a))),
        vis(*old(v), pos(a)),
        pos(b) == (a.0 - 1, a.1 as int) || pos(b) == (a.0 + 1, a.1 as int) || pos(b) == (
            a.0 as int,
            a.1 - 1,
        ),
    ensures
        found ==> softdrop_reachable(*field, piece),
        !found ==> search_inv(*field, piece, *final(v), final(stack)@, Some(pos(a))),
        !found ==> measure(*final(v), final(stack)@) <= measure(*old(v), old(stack)@),
        !found ==> forall|q: (int, int)| vis(*old(v), q) ==> #[trigger] vis(*final(v), q),
        !found ==> (free_at(*field, at(piece, pos(b))) ==> vis(*final(v), pos(b))),
        !found ==> (free_at(*field, at(piece, pos(b))) && b.1 == a.1 ==> !droppable_at(
            *field,
            piece,
            pos(b),
        )),
{
    let (bx, by) = b;
    let cand = Piece { position: (bx, by), ..piece };
    assert(cand == at(piece, pos(b)));
    if bx < -3 || bx > 9 || by < -3 || by > 23 {
        proof {
            if free_at(*field, cand) {
                lemma_on_board_in_domain(cand);
            }
        }
        return false;
    }
    match piece_fits_over(cand, 0, field) {
        Some(true) => {},
        _ => {
            return false;
        },
    }
    if by == a.1 && can_harddrop(cand, field) {
        let ghost path = choose|path: Seq<(int, int)>| is_path(*field, piece, path) && path.last() == pos(a);
        assert(reachable(*field, piece, pos(a)));
        assert(slide(*field, piece, pos(a), pos(b)));
        assert(droppable_at(*field, piece, pos(b)));
        return true;
    }
    if is_seen(v, bx, by) {
        return false;
    }
    let ghost path = choose|path: Seq<(int, int)>| is_path(*field, piece, path) && path.last() == pos(a);
    proof {
        let np = path.push(pos(b));
        assert forall|i: int| 0 <= i < np.len() - 1 implies step(*field, piece, #[trigger] np[i], np[i + 1]) by {
            if i < path.len() - 1 {
                assert(np[i] == path[i] && np[i + 1] == path[i + 1]);
            }
        }
        assert(is_path(*field, piece, np));
        assert(np.last() == pos(b));
        assert(reachable(*field, piece, pos(b)));
    }
    let ghost old_v = *v;
    let ghost old_stack = stack@;
    mark(v, bx, by);
    stack.push(b);
    proof {
        let f = *field;
        lemma_seen_insert(old_v, *v, pos(b));
        assert forall|q: (int, int)| #[trigger] vis(*v, q) implies reachable(f, piece, q) by {
            if q != pos(b) {
                assert(vis(old_v, q));
            }
        }
        assert forall|k: int| 0 <= k < stack@.len() implies vis(*v, pos(#[trigger] stack@[k])) by {
            if k < old_stack.len() {
                assert(stack@[k] == old_stack[k]);
                assert(vis(old_v, pos(old_stack[k])));
            }
        }
        let m_old = old_stack.map_values(|q: (isize, isize)| pos(q));
        let m_new = stack@.map_values(|q: (isize, isize)| pos(q));
        assert forall|q: (int, int)| #[trigger] vis(*v, q) implies m_new.contains(q) || Some(pos(a)) == Some(q)
            || closed(f, piece, *v, q) by {
            if q == pos(b) {
                assert(m_new[old_stack.len() as int] == q);
            } else {
                assert(vis(old_v, q));
                if m_old.contains(q) {
                    let w = choose|w: int| 0 <= w < m_old.len() && m_old[w] == q;
                    assert(m_new[w] == q);
                } else if Some(pos(a)) != Some(q) {
                    assert(closed(f, piece, old_v, q));
                }
            }
        }
    }
    false
}

proof fn lemma_paths_seen(f: FieldMatrix, p: Piece, v: Visited, path: Seq<(int, int)>, i: int)
    requires
        is_path(f, p, path),
        vis(v, anchor(p)),
        forall|a: (int, int)| #[trigger] vis(v, a) ==> closed(f, p, v, a),
        0 <= i < path.len(),
    ensures
        vis(v, path[i]),
    decreases i,
{
    if i > 0 {
        lemma_paths_seen(f, p, v, path, i - 1);
        assert(step(f, p, path[i - 1], path[i]));
        assert(closed(f, p, v, path[i - 1]));
    }
}

/// Whether the piece can reach its place by a hard drop to some position,
/// a move sideways, then moves left, right and down over empty cells.
/// Searches the anchors reachable from the piece's place by moves up, left
/// and right: each anchor is pushed at most once, so the search ends (its
/// measure counts the unseen anchors of the 351 possible and the stack), and
/// its answer is `softdrop_reachable` of the board and the piece alone,
/// whatever order the stack is worked in.
fn softdrop_stem_check(base_piece: Piece, base_field: &FieldMatrix) -> (r: bool)
    requires
        cells_on_board(base_piece),
    ensures
        r == softdrop_reachable(*base_field, base_piece),
{
    let ghost f = *base_field;
    let ghost p = base_piece;
    let (x0, y0) = base_piece.position;
    proof {
        lemma_on_board_in_domain(base_piece);
        lemma_at_anchor(base_piece);
        let path = seq![anchor(p)];
        assert(path[0] == anchor(p));
        assert(path.last() == anchor(p));
        assert(is_path(f, p, path));
        assert(reachable(f, p, anchor(p)));
    }
    let mut visited: Visited = [[false; 13]; 27];
    mark(&mut visited, x0, y0);
    let mut stack: Vec<(isize, isize)> = Vec::new();
    stack.push((x0, y0));
    proof {
        assert forall|q: (int, int)| #[trigger] vis(visited, q) implies stack@.map_values(
            |q: (isize, isize)| pos(q),
        ).contains(q) by {
            assert(stack@.map_values(|q: (isize, isize)| pos(q))[0] == q);
        }
        lemma_seen_bounded(visited);
        assert(search_inv(f, p, visited, stack@, None));
    }
    while stack.len() > 0
        invariant
            search_inv(f, p, visited, stack@, None),
            f == *base_field,
            p == base_piece,
            vis(visited, anchor(p)),
            seen_set(visited).finite(),
            seen_set(visited).len() <= 351,
        decreases measure(visited, stack@),
    {
        let ghost s0 = stack@;
        let a = stack.pop().unwrap();
        let ghost rest = stack@;
        proof {
            assert(s0 == rest.push(a));
            assert(s0[s0.len() - 1] == a);
            assert(vis(visited, pos(a)));
            let m0 = s0.map_values(|q: (isize, isize)| pos(q));
            let m1 = rest.map_values(|q: (isize, isize)| pos(q));
            assert forall|k: int| 0 <= k < rest.len() implies vis(visited, pos(#[trigger] rest[k])) by {
                assert(rest[k] == s0[k]);
            }
            assert forall|q: (int, int)| #[trigger] vis(visited, q) implies m1.contains(q) || Some(pos(a))
                == Some(q) || closed(f, p, visited, q) by {
                if m0.contains(q) {
                    let w = choose|w: int| 0 <= w < m0.len() && m0[w] == q;
                    if w < rest.len() {
                        assert(m1[w] == q);
                    }
                }
            }
            assert(search_inv(f, p, visited, rest, Some(pos(a))));
        }
        let (x, y) = a;
        if try_visit(base_piece, base_field, &mut visited, &mut stack, a, (x - 1, y)) {
            return true;
        }
        if try_visit(base_piece, base_field, &mut visited, &mut stack, a, (x + 1, y)) {
            return true;
        }
        if try_visit(base_piece, base_field, &mut visited, &mut stack, a, (x, y - 1)) {
            return true;
        }
        proof {
            assert(closed(f, p, visited, pos(a)));
            let m = stack@.map_values(|q: (isize, isize)| pos(q));
            assert forall|q: (int, int)| #[trigger] vis(visited, q) implies m.contains(q) || None::<(int, int)>
                == Some(q) || closed(f, p, visited, q) by {
                if q != pos(a) {
                    assert(m.contains(q) || Some(pos(a)) == Some(q) || closed(f, p, visited, q));
                }
            }
            lemma_seen_bounded(visited);
        }
    }
    proof {
        assert forall|q: (int, int)| #[trigger] vis(visited, q) implies closed(f, p, visited, q) by {
            assert(!stack@.map_values(|q: (isize, isize)| pos(q)).contains(q));
        }
        if softdrop_reachable(f, p) {
            let (q, b) = choose|q: (int, int), b: (int, int)|
                reachable(f, p, q) && slide(f, p, q, b) && droppable_at(f, p, b);
            let path = choose|path: Seq<(int, int)>| is_path(f, p, path) && path.last() == q;
            lemma_paths_seen(f, p, visited, path, path.len() - 1);
            assert(closed(f, p, visited, q));
        }
    }
    false
}

/// Whether the piece can be placed under the given options: by a hard drop,
/// or, with soft drop allowed, by a hard drop to some position followed by
/// moves left, right and down over empty cells.
pub fn piece_can_be_placed(piece: Piece, base_field: &FieldMatrix, options: PercentageOptions) -> (r: bool)
    requires
        cells_on_board(piece),
    ensures
        r == can_place(*base_field, piece, options),
{
    if can_harddrop(piece, base_field) {
        return true;
    }
    if options.soft_drop {
        return softdrop_stem_check(piece, base_field);
    }
    false
}

} // verus!
