//! Counting the orders in which every piece can be placed.

use vstd::prelude::*;
use vstd::set_lib::*;

use permutohedron::LexicalPermutation;

use crate::field::PercentageOptions;
use crate::fieldmatrix::{cell, on_board, FieldMatrix};
use crate::piece::{cells_on_board, covers, marker_of, place_piece_on_field, Piece};
use crate::placement::{can_place, piece_can_be_placed};

verus! {

broadcast use vstd::seq_lib::group_to_multiset_ensures;

/// `g` is the board `f` with the piece's marker written over its cells.
pub open spec fn place_rel(f: FieldMatrix, p: Piece, g: FieldMatrix) -> bool {
    forall|x: int, y: int|
        on_board(x, y) ==> cell(g, x, y) == if covers(p, x, y) {
            marker_of(p.piece_type)
        } else {
            cell(f, x, y)
        }
}

/// The board `f` once the piece is locked in.
pub open spec fn placed(f: FieldMatrix, p: Piece) -> FieldMatrix {
    choose|g: FieldMatrix| place_rel(f, p, g)
}

/// Starting from board `f`, each piece in turn can be placed on the board
/// that the pieces before it left.
pub open spec fn sequence_works(f: FieldMatrix, ps: Seq<Piece>, options: PercentageOptions) -> bool
    decreases ps.len(),
{
    if ps.len() == 0 {
        true
    } else {
        can_place(f, ps[0], options) && sequence_works(placed(f, ps[0]), ps.drop_first(), options)
    }
}

/// The pieces taken in the order that the indices give.
pub open spec fn ordered(pieces: Seq<Piece>, order: Seq<usize>) -> Seq<Piece> {
    order.map_values(|i: usize| pieces[i as int])
}

/// The indices `0..n` in increasing order.
pub open spec fn identity(n: nat) -> Seq<usize> {
    Seq::new(n, |i: int| i as usize)
}

/// Each element is at most the one before it.
pub open spec fn non_increasing(s: Seq<usize>) -> bool {
    forall|i: int| 0 < i < s.len() ==> s[i - 1] >= #[trigger] s[i]
}

/// `a` and `b` agree before index `k` and `a` is smaller at `k`.
pub open spec fn first_less_at(a: Seq<usize>, b: Seq<usize>, k: int) -> bool {
    &&& 0 <= k < a.len()
    &&& k < b.len()
    &&& forall|i: int| 0 <= i < k ==> a[i] == b[i]
    &&& a[k] < b[k]
}

/// `a` comes before `b` in lexical order; both have the same length.
pub open spec fn lex_less(a: Seq<usize>, b: Seq<usize>) -> bool {
    a.len() == b.len() && exists|k: int| #[trigger] first_less_at(a, b, k)
}

/// `s` is an ordering of the indices `0..n`: those indices, each once.
pub open spec fn is_ordering(s: Seq<usize>, n: nat) -> bool {
    s.to_multiset() == identity(n).to_multiset()
}

/// Every ordering of the indices `0..n`.
pub open spec fn orderings(n: nat) -> Set<Seq<usize>> {
    Set::new(|s: Seq<usize>| is_ordering(s, n))
}

/// The orderings of `pieces` under which every piece can be placed.
pub open spec fn working_orderings(
    f: FieldMatrix,
    pieces: Seq<Piece>,
    options: PercentageOptions,
) -> Set<Seq<usize>> {
    Set::new(
        |s: Seq<usize>| is_ordering(s, pieces.len()) && sequence_works(f, ordered(pieces, s), options),
    )
}

/// The orderings counted, and how many of them let every piece be placed.
#[derive(Clone, Copy, Debug)]
pub struct OrderingCount {
    pub works: u64,
    pub total: u64,
}

/// Two boards with the same cells are the same board.
proof fn lemma_field_ext(a: FieldMatrix, b: FieldMatrix)
    requires
        forall|x: int, y: int| on_board(x, y) ==> cell(a, x, y) == cell(b, x, y),
    ensures
        a == b,
{
    assert forall|y: int| 0 <= y < 24 implies a[y] == b[y] by {
        assert forall|x: int| 0 <= x < 10 implies a[y][x] == b[y][x] by {
            assert(on_board(x, y));
        }
        assert(a[y] =~= b[y]);
    }
    assert(a =~= b);
}

/// Whether every piece, taken in order, can be placed on the board left by
/// those before it.
fn permutation_works(base_field: &FieldMatrix, piece_perm: &Vec<Piece>, options: PercentageOptions) -> (r: bool)
    requires
        forall|i: int| 0 <= i < piece_perm@.len() ==> cells_on_board(#[trigger] piece_perm@[i]),
    ensures
        r == sequence_works(*base_field, piece_perm@, options),
{
    let mut field = *base_field;
    let ghost ps = piece_perm@;
    let ghost n = ps.len() as int;
    let mut i: usize = 0;
    assert(ps.subrange(0, n) =~= ps);
    while i < piece_perm.len()
        invariant
            ps == piece_perm@,
            n == ps.len(),
            i <= n,
            forall|j: int| 0 <= j < n ==> cells_on_board(#[trigger] ps[j]),
            sequence_works(*base_field, ps, options) == sequence_works(field, ps.subrange(i as int, n), options),
        decreases n - i,
    {
        let piece = piece_perm[i];
        assert(ps.subrange(i as int, n).drop_first() =~= ps.subrange(i + 1, n));
        assert(ps.subrange(i as int, n)[0] == piece);
        assert(cells_on_board(ps[i as int]));
        if piece_can_be_placed(piece, &field, options) {
            let ghost before = field;
            place_piece_on_field(piece, &mut field);
            proof {
                assert(place_rel(before, piece, field));
                lemma_field_ext(field, placed(before, piece));
            }
        } else {
            return false;
        }
        i += 1;
    }
    assert(ps.subrange(n, n) =~= Seq::<Piece>::empty());
    true
}

/// Whether every piece can be placed when they come in the order that
/// `order` gives as indices into `pieces`.
pub fn ordering_works(
    base_field: &FieldMatrix,
    pieces: &Vec<Piece>,
    order: &Vec<usize>,
    options: PercentageOptions,
) -> (r: bool)
    requires
        forall|i: int| 0 <= i < pieces@.len() ==> cells_on_board(#[trigger] pieces@[i]),
        forall|k: int| 0 <= k < order@.len() ==> #[trigger] order@[k] < pieces@.len(),
    ensures
        r == sequence_works(*base_field, ordered(pieces@, order@), options),
{
    let mut perm: Vec<Piece> = Vec::new();
    let mut k: usize = 0;
    while k < order.len()
        invariant
            k <= order@.len(),
            forall|j: int| 0 <= j < order@.len() ==> #[trigger] order@[j] < pieces@.len(),
            perm@ == ordered(pieces@, order@.subrange(0, k as int)),
        decreases order@.len() - k,
    {
        let i = order[k];
        perm.push(pieces[i]);
        assert(perm@ =~= ordered(pieces@, order@.subrange(0, k + 1)));
        k += 1;
    }
    assert(order@.subrange(0, order@.len() as int) =~= order@);
    permutation_works(base_field, &perm, options)
}

/// Relies on permutohedron's `LexicalPermutation::next_permutation` for
/// slices: it rearranges the slice in place into the next permutation in
/// lexical order, the least rearrangement of its elements that comes after
/// it; it returns false, leaving the slice as it was, when the slice is
/// already the last one, which is when it is in non-increasing order.
#[verifier::external_body]
fn next_ordering(order: &mut Vec<usize>) -> (advanced: bool)
    ensures
        final(order)@.to_multiset() == old(order)@.to_multiset(),
        advanced <==> !non_increasing(old(order)@),
        !advanced ==> final(order)@ == old(order)@,
        !advanced <==> forall|t: Seq<usize>|
            t.to_multiset() == old(order)@.to_multiset() ==> !#[trigger] lex_less(old(order)@, t),
        advanced ==> lex_less(old(order)@, final(order)@),
        advanced ==> forall|t: Seq<usize>|
            t.to_multiset() == old(order)@.to_multiset() && #[trigger] lex_less(old(order)@, t)
                ==> !lex_less(t, final(order)@),
{
    order.as_mut_slice().next_permutation()
}

proof fn lemma_lex_asym(a: Seq<usize>, b: Seq<usize>)
    requires
        lex_less(a, b),
    ensures
        !lex_less(b, a),
{
    let k1 = choose|k: int| #[trigger] first_less_at(a, b, k);
    if lex_less(b, a) {
        let k2 = choose|k: int| #[trigger] first_less_at(b, a, k);
        if k1 < k2 {
            assert(b[k1] == a[k1]);
        } else if k2 < k1 {
            assert(a[k2] == b[k2]);
        }
    }
}

proof fn lemma_lex_trans(a: Seq<usize>, b: Seq<usize>, c: Seq<usize>)
    requires
        lex_less(a, b),
        lex_less(b, c),
    ensures
        lex_less(a, c),
{
    let k1 = choose|k: int| #[trigger] first_less_at(a, b, k);
    let k2 = choose|k: int| #[trigger] first_less_at(b, c, k);
    if k1 <= k2 {
        assert(first_less_at(a, c, k1));
    } else {
        assert(first_less_at(a, c, k2));
    }
}

proof fn lemma_lex_total_from(a: Seq<usize>, b: Seq<usize>, k: int)
    requires
        a.len() == b.len(),
        0 <= k <= a.len(),
        forall|i: int| 0 <= i < k ==> a[i] == b[i],
        a != b,
    ensures
        lex_less(a, b) || lex_less(b, a),
    decreases a.len() - k,
{
    if k == a.len() {
        assert(a =~= b);
    } else if a[k] < b[k] {
        assert(first_less_at(a, b, k));
    } else if b[k] < a[k] {
        assert(first_less_at(b, a, k));
    } else {
        lemma_lex_total_from(a, b, k + 1);
    }
}

/// Two different sequences of one length are ordered one way or the other.
proof fn lemma_lex_total(a: Seq<usize>, b: Seq<usize>)
    requires
        a.len() == b.len(),
        a != b,
    ensures
        lex_less(a, b) || lex_less(b, a),
{
    lemma_lex_total_from(a, b, 0);
}

/// No ordering of `0..n` comes before the increasing one.
proof fn lemma_identity_first(s: Seq<usize>, n: nat)
    requires
        is_ordering(s, n),
        n <= usize::MAX,
    ensures
        s.len() == n,
        !lex_less(s, identity(n)),
{
    let id = identity(n);
    assert(s.len() == id.len()) by {
        assert(s.to_multiset().len() == s.len());
        assert(id.to_multiset().len() == id.len());
    }
    assert forall|i: int, j: int| 0 <= i < id.len() && 0 <= j < id.len() && i != j implies id[i] != id[j] by {
        assert(id[i] == i as usize && id[j] == j as usize);
    }
    assert(id.no_duplicates());
    id.lemma_multiset_has_no_duplicates();
    s.lemma_multiset_has_no_duplicates_conv();
    if lex_less(s, id) {
        let k = choose|k: int| #[trigger] first_less_at(s, id, k);
        let j = s[k] as int;
        assert(s[j] == id[j]);
        assert(s[j] == s[k]);
    }
}

/// `n!`, the number of orderings of `n` things.
pub open spec fn factorial(n: nat) -> nat
    decreases n,
{
    if n == 0 {
        1
    } else {
        n * factorial((n - 1) as nat)
    }
}

proof fn lemma_factorial_bound(n: nat)
    requires
        n <= 20,
    ensures
        1 <= factorial(n) <= factorial(20),
        factorial(20) == 2432902008176640000,
    decreases n,
{
    reveal_with_fuel(factorial, 21);
    if n < 20 {
        lemma_factorial_up(n, 20);
    }
}

proof fn lemma_factorial_up(a: nat, b: nat)
    requires
        a <= b,
    ensures
        1 <= factorial(a) <= factorial(b),
    decreases b,
{
    if a < b {
        lemma_factorial_up(a, (b - 1) as nat);
        assert(factorial((b - 1) as nat) <= b * factorial((b - 1) as nat)) by (nonlinear_arith)
            requires
                b >= 1,
                factorial((b - 1) as nat) >= 1,
        ;
    } else if b > 0 {
        lemma_factorial_up((b - 1) as nat, (b - 1) as nat);
        assert(1 <= b * factorial((b - 1) as nat)) by (nonlinear_arith)
            requires
                b >= 1,
                factorial((b - 1) as nat) >= 1,
        ;
    }
}

/// The orderings of `0..n + 1` with `n` at index `k`.
pub open spec fn with_last_at(n: nat, k: int) -> Set<Seq<usize>> {
    Set::new(|t: Seq<usize>| is_ordering(t, n + 1) && 0 <= k < t.len() && t[k] == n as usize)
}

/// The orderings of `0..n + 1` with `n` at an index below `m`.
pub open spec fn last_within(n: nat, m: int) -> Set<Seq<usize>>
    decreases m,
{
    if m <= 0 {
        Set::empty()
    } else {
        last_within(n, m - 1) + with_last_at(n, m - 1)
    }
}

/// An ordering of `0..n` has length `n`, no repeated index and every index below `n`.
proof fn lemma_ordering_shape(t: Seq<usize>, n: nat)
    requires
        is_ordering(t, n),
        n <= usize::MAX,
    ensures
        t.len() == n,
        t.no_duplicates(),
        forall|i: int| 0 <= i < t.len() ==> (#[trigger] t[i] as int) < n,
{
    lemma_identity_first(t, n);
    let id = identity(n);
    assert forall|i: int, j: int| 0 <= i < id.len() && 0 <= j < id.len() && i != j implies id[i] != id[j] by {
        assert(id[i] == i as usize && id[j] == j as usize);
    }
    id.lemma_multiset_has_no_duplicates();
    t.lemma_multiset_has_no_duplicates_conv();
    assert forall|i: int| 0 <= i < t.len() implies (#[trigger] t[i] as int) < n by {
        assert(t.contains(t[i]));
        assert(t.to_multiset().count(t[i]) > 0);
        assert(id.contains(t[i]));
    }
}

proof fn lemma_identity_push(n: nat)
    requires
        n < usize::MAX,
    ensures
        identity(n + 1) == identity(n).push(n as usize),
{
    assert(identity(n + 1) =~= identity(n).push(n as usize));
}

/// Putting `n` at index `k` of the orderings of `0..n` gives those of
/// `0..n + 1` with `n` there, one for one.
proof fn lemma_part(n: nat, k: int)
    requires
        n < usize::MAX,
        0 <= k <= n,
        orderings(n).finite(),
    ensures
        with_last_at(n, k).finite(),
        with_last_at(n, k).len() == orderings(n).len(),
{
    let f = |s: Seq<usize>| s.insert(k, n as usize);
    lemma_identity_push(n);
    let id1 = identity(n + 1);
    assert(id1.to_multiset() == identity(n).to_multiset().insert(n as usize));
    assert forall|s1: Seq<usize>, s2: Seq<usize>|
        orderings(n).contains(s1) && orderings(n).contains(s2) && #[trigger] f(s1) == #[trigger] f(s2) implies s1
        == s2 by {
        lemma_identity_first(s1, n);
        lemma_identity_first(s2, n);
        assert(s1 =~= f(s1).remove(k));
        assert(s2 =~= f(s2).remove(k));
    }
    assert forall|t: Seq<usize>| #[trigger] orderings(n).map(f).contains(t) <==> with_last_at(n, k).contains(t) by {
        if orderings(n).map(f).contains(t) {
            let s = choose|s: Seq<usize>| orderings(n).contains(s) && t == f(s);
            lemma_identity_first(s, n);
            assert(t.to_multiset() == s.to_multiset().insert(n as usize));
            assert(t[k] == n as usize);
        }
        if with_last_at(n, k).contains(t) {
            lemma_ordering_shape(t, n + 1);
            let s = t.remove(k);
            assert(s.to_multiset() == t.to_multiset().remove(n as usize));
            assert(id1.to_multiset().remove(n as usize) =~= identity(n).to_multiset());
            assert(f(s) =~= t);
            assert(orderings(n).contains(s));
        }
    }
    assert(orderings(n).map(f) =~= with_last_at(n, k));
    lemma_map_size(orderings(n), with_last_at(n, k), f);
}

proof fn lemma_last_within(n: nat, m: int)
    requires
        n < usize::MAX,
        0 <= m <= n + 1,
        orderings(n).finite(),
    ensures
        last_within(n, m).finite(),
        last_within(n, m).len() == m * orderings(n).len(),
        forall|t: Seq<usize>|
            #[trigger] last_within(n, m).contains(t) <==> exists|j: int|
                0 <= j < m && #[trigger] with_last_at(n, j).contains(t),
    decreases m,
{
    if m > 0 {
        lemma_last_within(n, m - 1);
        lemma_part(n, m - 1);
        let a = last_within(n, m - 1);
        let b = with_last_at(n, m - 1);
        assert(a.disjoint(b)) by {
            assert forall|t: Seq<usize>| !(a.contains(t) && b.contains(t)) by {
                if a.contains(t) && b.contains(t) {
                    let j = choose|j: int| 0 <= j < m - 1 && #[trigger] with_last_at(n, j).contains(t);
                    lemma_ordering_shape(t, n + 1);
                    assert(t[j] == t[m - 1]);
                }
            }
        }
        lemma_set_disjoint_lens(a, b);
        let l = orderings(n).len();
        assert((m - 1) * l + l == m * l) by (nonlinear_arith);
        assert forall|t: Seq<usize>|
            #[trigger] last_within(n, m).contains(t) <==> exists|j: int|
                0 <= j < m && #[trigger] with_last_at(n, j).contains(t) by {
            if b.contains(t) {
                assert(with_last_at(n, m - 1).contains(t));
            }
            if exists|j: int| 0 <= j < m && #[trigger] with_last_at(n, j).contains(t) {
                let j = choose|j: int| 0 <= j < m && #[trigger] with_last_at(n, j).contains(t);
                if j < m - 1 {
                    assert(a.contains(t));
                }
            }
        }
    } else {
        assert(last_within(n, m) =~= Set::<Seq<usize>>::empty());
    }
}

/// There are `n!` orderings of `0..n`.
pub proof fn lemma_orderings_count(n: nat)
    requires
        n <= usize::MAX,
    ensures
        orderings(n).finite(),
        orderings(n).len() == factorial(n),
    decreases n,
{
    if n == 0 {
        assert forall|t: Seq<usize>| orderings(0).contains(t) <==> t == Seq::<usize>::empty() by {
            if orderings(0).contains(t) {
                lemma_identity_first(t, 0);
                assert(t =~= Seq::<usize>::empty());
            }
            if t == Seq::<usize>::empty() {
                assert(t =~= identity(0));
            }
        }
        assert(orderings(0) =~= Set::<Seq<usize>>::empty().insert(Seq::<usize>::empty()));
    } else {
        let m = (n - 1) as nat;
        lemma_orderings_count(m);
        lemma_last_within(m, n as int);
        assert forall|t: Seq<usize>| #[trigger] orderings(n).contains(t) <==> last_within(m, n as int).contains(t) by {
            if orderings(n).contains(t) {
                lemma_ordering_shape(t, n);
                lemma_identity_push(m);
                assert(identity(n).contains(m as usize)) by {
                    assert(identity(n)[m as int] == m as usize);
                }
                assert(identity(n).to_multiset().count(m as usize) > 0);
                assert(t.contains(m as usize));
                let k = choose|k: int| 0 <= k < t.len() && t[k] == m as usize;
                assert(with_last_at(m, k).contains(t));
            }
        }
        assert(orderings(n) =~= last_within(m, n as int));
    }
}

/// Sequences with the same elements keep the same elements through a map.
proof fn lemma_map_multiset(s1: Seq<usize>, s2: Seq<usize>, h: spec_fn(usize) -> usize)
    requires
        s1.to_multiset() == s2.to_multiset(),
    ensures
        s1.map_values(h).to_multiset() == s2.map_values(h).to_multiset(),
    decreases s1.len(),
{
    broadcast use vstd::multiset::group_multiset_axioms;

    assert(s1.len() == s2.len()) by {
        assert(s1.to_multiset().len() == s1.len());
        assert(s2.to_multiset().len() == s2.len());
    }
    if s1.len() > 0 {
        let x = s1.last();
        assert(s1.contains(x)) by {
            assert(s1[s1.len() - 1] == x);
        }
        assert(s2.to_multiset().count(x) > 0);
        assert(s2.contains(x));
        let i = choose|i: int| 0 <= i < s2.len() && s2[i] == x;
        let r1 = s1.drop_last();
        let r2 = s2.remove(i);
        assert(s1 =~= r1.push(x));
        assert(r1.to_multiset() =~= s1.to_multiset().remove(x)) by {
            assert(s1.to_multiset() == r1.to_multiset().insert(x));
        }
        assert(r2.to_multiset() == s2.to_multiset().remove(x));
        lemma_map_multiset(r1, r2, h);
        let m1 = s1.map_values(h);
        let m2 = s2.map_values(h);
        assert(m1 =~= r1.map_values(h).push(h(x)));
        assert(m2.remove(i) =~= r2.map_values(h));
        assert(m2[i] == h(x));
        assert(m2.remove(i).to_multiset() == m2.to_multiset().remove(h(x)));
        assert(m2.to_multiset().count(h(x)) > 0) by {
            assert(m2.contains(h(x)));
        }
        assert(m2.to_multiset() =~= m2.to_multiset().remove(h(x)).insert(h(x)));
    } else {
        assert(s1.map_values(h) =~= s2.map_values(h));
    }
}

/// The index of `v` in `perm`.
pub open spec fn position_in(perm: Seq<usize>, v: usize) -> usize {
    (choose|j: int| 0 <= j < perm.len() && perm[j] == v) as usize
}

/// Taking the pieces in another order leaves the number of orderings that
/// let every piece be placed unchanged: the result depends on the pieces
/// alone, not on the order in which they are listed.
pub proof fn lemma_reorder_invariant(
    f: FieldMatrix,
    pieces: Seq<Piece>,
    perm: Seq<usize>,
    options: PercentageOptions,
)
    requires
        is_ordering(perm, pieces.len()),
        pieces.len() <= usize::MAX,
    ensures
        working_orderings(f, ordered(pieces, perm), options).len() == working_orderings(
            f,
            pieces,
            options,
        ).len(),
{
    let n = pieces.len();
    let pieces2 = ordered(pieces, perm);
    lemma_ordering_shape(perm, n);
    assert(pieces2.len() == n);
    let g = |s: Seq<usize>| s.map_values(|i: usize| perm[i as int]);
    let h = |v: usize| position_in(perm, v);
    let w1 = working_orderings(f, pieces, options);
    let w2 = working_orderings(f, pieces2, options);
    lemma_orderings_count(n);
    assert(w2.subset_of(orderings(n)));
    lemma_len_subset(w2, orderings(n));
    let id = identity(n);
    // perm, as a map, is undone by `h`
    assert forall|v: usize| (v as int) < n implies 0 <= #[trigger] h(v) < n && perm[h(v) as int] == v by {
        assert(id[v as int] == v);
        assert(id.contains(v));
        assert(id.to_multiset().count(v) > 0);
        assert(perm.contains(v));
    }
    assert(perm.map_values(h) =~= id) by {
        assert forall|j: int| 0 <= j < n implies perm.map_values(h)[j] == id[j] by {
            let v = perm[j];
            assert(perm[h(v) as int] == v);
            if h(v) as int != j {
                assert(perm.no_duplicates());
            }
        }
    }
    lemma_map_multiset(perm, id, h);
    assert(id.map_values(h).to_multiset() == id.to_multiset());
    assert forall|s: Seq<usize>| is_ordering(s, n) implies is_ordering(#[trigger] g(s), n) by {
        lemma_ordering_shape(s, n);
        lemma_map_multiset(s, id, |i: usize| perm[i as int]);
        assert(id.map_values(|i: usize| perm[i as int]) =~= perm);
    }
    assert forall|s: Seq<usize>| is_ordering(s, n) implies ordered(pieces2, s) == ordered(pieces, #[trigger] g(s)) by {
        lemma_ordering_shape(s, n);
        assert(ordered(pieces2, s) =~= ordered(pieces, g(s)));
    }
    assert forall|s1: Seq<usize>, s2: Seq<usize>|
        w2.contains(s1) && w2.contains(s2) && #[trigger] g(s1) == #[trigger] g(s2) implies s1 == s2 by {
        lemma_ordering_shape(s1, n);
        lemma_ordering_shape(s2, n);
        assert forall|k: int| 0 <= k < n implies s1[k] == s2[k] by {
            assert(g(s1)[k] == g(s2)[k]);
            if s1[k] != s2[k] {
                assert(perm.no_duplicates());
            }
        }
        assert(s1 =~= s2);
    }
    assert forall|t: Seq<usize>| #[trigger] w2.map(g).contains(t) <==> w1.contains(t) by {
        if w1.contains(t) {
            lemma_ordering_shape(t, n);
            let s = t.map_values(h);
            lemma_map_multiset(t, id, h);
            assert(is_ordering(s, n));
            assert(g(s) =~= t) by {
                assert forall|k: int| 0 <= k < n implies g(s)[k] == t[k] by {
                    assert(perm[h(t[k]) as int] == t[k]);
                }
            }
            assert(w2.contains(s));
        }
    }
    assert(w2.map(g) =~= w1);
    lemma_map_size(w2, w1, g);
}

/// Counts the orderings of `pieces` that let every piece be placed, trying
/// each ordering that permutohedron's lexical enumeration yields from the
/// identity ordering, until the enumeration ends or the count reaches
/// `u64::MAX`. The share `works / total` is the setup's percentage; with no
/// piece the one empty ordering counts as working. Equal pieces are not
/// merged: each ordering of the list counts.
pub fn count_working_orders(
    base_field: &FieldMatrix,
    pieces: &Vec<Piece>,
    options: PercentageOptions,
) -> (r: OrderingCount)
    requires
        forall|i: int| 0 <= i < pieces@.len() ==> cells_on_board(#[trigger] pieces@[i]),
    ensures
        r.works <= r.total,
        r.total >= 1,
        pieces@.len() <= 1 ==> r.total == 1 && (r.works == 1 <==> sequence_works(
            *base_field,
            pieces@,
            options,
        )),
        pieces@.len() == 1 ==> (r.works == r.total <==> can_place(*base_field, pieces@[0], options)),
        r.total < u64::MAX ==> {
            &&& r.total == factorial(pieces@.len())
            &&& r.total == orderings(pieces@.len()).len()
            &&& r.works == working_orderings(*base_field, pieces@, options).len()
        },
        pieces@.len() <= 20 ==> r.total < u64::MAX,
{
    let n = pieces.len();
    let mut order: Vec<usize> = Vec::new();
    let mut i: usize = 0;
    while i < n
        invariant
            i <= n,
            n == pieces@.len(),
            order@ == identity(i as nat),
        decreases n - i,
    {
        order.push(i);
        assert(order@ =~= identity((i + 1) as nat));
        i += 1;
    }
    let ghost ident = order@;
    assert(ordered(pieces@, ident) =~= pieces@);
    let mut works: u64 = 0;
    let mut total: u64 = 0;
    let ghost mut seen: Set<Seq<usize>> = Set::empty();
    let ghost mut good: Set<Seq<usize>> = Set::empty();
    proof {
        lemma_orderings_count(n as nat);
        assert forall|t: Seq<usize>| seen.contains(t) <==> is_ordering(t, n as nat) && lex_less(t, order@) by {
            if is_ordering(t, n as nat) {
                lemma_identity_first(t, n as nat);
            }
        }
    }
    loop
        invariant_except_break
            total < u64::MAX,
            n <= 1 ==> order@ == ident && total == 0,
            forall|t: Seq<usize>| seen.contains(t) <==> is_ordering(t, n as nat) && lex_less(t, order@),
        invariant
            n == pieces@.len(),
            ident == identity(n as nat),
            order@.to_multiset() == ident.to_multiset(),
            forall|i: int| 0 <= i < pieces@.len() ==> cells_on_board(#[trigger] pieces@[i]),
            works <= total,
            seen.finite(),
            good.finite(),
            total == seen.len(),
            works == good.len(),
            seen.subset_of(orderings(n as nat)),
            orderings(n as nat).finite(),
            orderings(n as nat).len() == factorial(n as nat),
            forall|t: Seq<usize>|
                good.contains(t) <==> seen.contains(t) && sequence_works(
                    *base_field,
                    ordered(pieces@, t),
                    options,
                ),
        ensures
            works <= total,
            total >= 1,
            n <= 1 ==> total == 1 && (works == 1 <==> sequence_works(
                *base_field,
                ordered(pieces@, ident),
                options,
            )),
            total < u64::MAX ==> seen == orderings(n as nat) && good == working_orderings(
                *base_field,
                pieces@,
                options,
            ),
            n <= 20 ==> total < u64::MAX,
            total == seen.len(),
            orderings(n as nat).len() == factorial(n as nat),
        decreases u64::MAX - total,
    {
        proof {
            assert forall|k: int| 0 <= k < order@.len() implies #[trigger] order@[k] < pieces@.len() by {
                assert(order@.contains(order@[k]));
                assert(order@.to_multiset().count(order@[k]) > 0);
                assert(ident.contains(order@[k]));
            }
        }
        let ok = ordering_works(base_field, pieces, &order, options);
        let ghost cur = order@;
        proof {
            if lex_less(cur, cur) {
                lemma_lex_asym(cur, cur);
            }
            assert(!seen.contains(cur));
            let old_good = good;
            seen = seen.insert(cur);
            if ok {
                good = good.insert(cur);
                assert(!old_good.contains(cur));
            }
            assert forall|t: Seq<usize>|
                good.contains(t) <==> seen.contains(t) && sequence_works(
                    *base_field,
                    ordered(pieces@, t),
                    options,
                ) by {}
        }
        proof {
            assert(seen.subset_of(orderings(n as nat)));
            lemma_len_subset(seen, orderings(n as nat));
            if n <= 20 {
                lemma_factorial_bound(n as nat);
            }
        }
        if ok {
            works += 1;
        }
        total += 1;
        if total == u64::MAX {
            break;
        }
        let advanced = next_ordering(&mut order);
        proof {
            let nn = n as nat;
            assert(is_ordering(cur, nn));
            if !advanced {
                assert forall|t: Seq<usize>| seen.contains(t) <==> orderings(nn).contains(t) by {
                    if is_ordering(t, nn) && t != cur {
                        lemma_identity_first(t, nn);
                        lemma_identity_first(cur, nn);
                        lemma_lex_total(t, cur);
                        assert(!lex_less(cur, t));
                    }
                }
                assert(seen =~= orderings(nn));
                assert forall|t: Seq<usize>|
                    good.contains(t) <==> working_orderings(*base_field, pieces@, options).contains(t) by {}
                assert(good =~= working_orderings(*base_field, pieces@, options));
            } else {
                assert forall|t: Seq<usize>| seen.contains(t) <==> is_ordering(t, nn) && lex_less(t, order@) by {
                    if seen.contains(t) && t != cur {
                        lemma_lex_trans(t, cur, order@);
                    }
                    if is_ordering(t, nn) && lex_less(t, order@) && t != cur {
                        lemma_identity_first(t, nn);
                        lemma_identity_first(cur, nn);
                        lemma_lex_total(t, cur);
                        if lex_less(cur, t) {
                            assert(!lex_less(t, order@));
                        }
                    }
                }
            }
        }
        if !advanced {
            break;
        }
        assert(n >= 2) by {
            if n <= 1 {
                assert(non_increasing(ident));
            }
        }
    }
    proof {
        if n == 1 {
            let ps = pieces@;
            assert(ps.drop_first() =~= Seq::<Piece>::empty());
            assert(sequence_works(placed(*base_field, ps[0]), ps.drop_first(), options));
        }
    }
    OrderingCount { works, total }
}

} // verus!
