//! Writing boards and their comments as board strings.

use vstd::prelude::*;

use vstd::array::spec_array_fill_for_copy_type;
use vstd::string::StringSliceAdditionalSpecFns;

use crate::fieldmatrix::{cell, on_board, well_formed, FieldMatrix};
use vstd::arithmetic::div_mod::{
    lemma_div_denominator, lemma_fundamental_div_mod, lemma_fundamental_div_mod_converse,
};

use crate::fumen::{
    ascii_string, comment_digits, decode_spec, enc_value, frame_of, group_digits, payload_of,
    runs_from, DecodeError,
};

verus! {

/// The cells of a board, row-major.
pub open spec fn cells_of(f: FieldMatrix) -> Seq<usize> {
    Seq::new(240, |k: int| cell(f, k % 10, k / 10) as usize)
}

/// The code of each cell of board `f` written against the board `prev`
/// before it: the difference of the two cells plus 8.
pub open spec fn delta_codes(f: FieldMatrix, prev: FieldMatrix) -> Seq<usize> {
    Seq::new(240, |k: int| (cell(f, k % 10, k / 10) + 8 - cell(prev, k % 10, k / 10)) as usize)
}

/// The board with every cell empty.
pub open spec fn blank() -> FieldMatrix {
    spec_array_fill_for_copy_type::<[u8; 10], 24>(spec_array_fill_for_copy_type::<u8, 10>(0u8))
}

/// The end of the run of codes equal to `cells[j]` that goes on from `e`.
pub open spec fn run_end(cells: Seq<usize>, j: int, e: int) -> int
    decreases 240 - e,
{
    if 0 <= e < 240 && cells[e] == cells[j] {
        run_end(cells, j, e + 1)
    } else {
        e
    }
}

/// The length of the run written at cell `j`: the codes equal to `cells[j]`
/// from there on, but never 239 unchanged cells, which would read as a
/// repeated frame.
pub open spec fn run_at(cells: Seq<usize>, j: int) -> int {
    let r = run_end(cells, j, j + 1) - j;
    if cells[j] == 8 && r == 239 {
        238
    } else {
        r
    }
}

/// The value that encodes the run at cell `j`.
pub open spec fn run_value(cells: Seq<usize>, j: int) -> int {
    cells[j] * 240 + run_at(cells, j) - 1
}

/// The payload values of the runs of codes from cell `j` on, two per run.
pub open spec fn rle(cells: Seq<usize>, j: int) -> Seq<u8>
    decreases 240 - j,
{
    if j < 0 || j >= 240 || run_at(cells, j) < 1 || j + run_at(cells, j) > 240 {
        seq![]
    } else {
        let v = run_value(cells, j);
        seq![(v % 64) as u8, (v / 64) as u8] + rle(cells, j + run_at(cells, j))
    }
}

/// The flag block: the guideline-colour flag, and the comment flag when
/// there is a comment.
pub open spec fn flag_values(c: Seq<u8>) -> Seq<u8> {
    if c.len() == 0 {
        seq![0u8, 0, 30]
    } else {
        seq![0u8, 0, 45]
    }
}

/// Comment digit `k`: the character's place in the printable table, or 0
/// past the end.
pub open spec fn comment_digit(c: Seq<u8>, k: int) -> int {
    if k < c.len() {
        c[k] - 32
    } else {
        0
    }
}

/// The number that packs the four digits of comment group `q`.
pub open spec fn group_number(c: Seq<u8>, q: int) -> int {
    comment_digit(c, 4 * q) + 96 * comment_digit(c, 4 * q + 1) + 9216 * comment_digit(c, 4 * q + 2)
        + 884736 * comment_digit(c, 4 * q + 3)
}

/// The five payload values of comment group `q`.
pub open spec fn group_values(c: Seq<u8>, q: int) -> Seq<u8> {
    let v = group_number(c, q);
    seq![
        (v % 64) as u8,
        ((v / 64) % 64) as u8,
        ((v / 4096) % 64) as u8,
        ((v / 262144) % 64) as u8,
        (v / 16777216) as u8,
    ]
}

/// The payload values of the first `q` comment groups.
pub open spec fn groups(c: Seq<u8>, q: nat) -> Seq<u8>
    decreases q,
{
    if q == 0 {
        seq![]
    } else {
        groups(c, (q - 1) as nat) + group_values(c, q - 1)
    }
}

/// The comment block: the comment's length and its groups.
pub open spec fn comment_block(c: Seq<u8>) -> Seq<u8> {
    seq![(c.len() % 64) as u8, (c.len() / 64) as u8] + groups(c, ((c.len() + 3) / 4) as nat)
}

/// The comment block of a first frame: nothing without a comment.
pub open spec fn comment_values(c: Seq<u8>) -> Seq<u8> {
    if c.len() == 0 {
        seq![]
    } else {
        comment_block(c)
    }
}

/// All payload values of a one-frame board string.
pub open spec fn frame_values(f: FieldMatrix, c: Seq<u8>) -> Seq<u8> {
    rle(delta_codes(f, blank()), 0) + flag_values(c) + comment_values(c)
}

/// The flag block of a frame: the guideline-colour flag on the first frame,
/// and the comment flag when the comment differs from the one before.
pub open spec fn flags_of(first: bool, changed: bool) -> Seq<u8> {
    seq![0u8, 0, ((if first { 30int } else { 0int }) + (if changed { 15int } else { 0int })) as u8]
}

/// The payload values of a frame written after board `prev` and comment `prev_c`.
pub open spec fn frame_block(
    f: FieldMatrix,
    prev: FieldMatrix,
    c: Seq<u8>,
    prev_c: Seq<u8>,
    first: bool,
) -> Seq<u8> {
    rle(delta_codes(f, prev), 0) + flags_of(first, c != prev_c) + if c != prev_c {
        comment_block(c)
    } else {
        seq![]
    }
}

/// The payload values of the first `n` frames; the first is written against
/// a blank board and an empty comment.
pub open spec fn frames_values(frames: Seq<(FieldMatrix, Seq<u8>)>, n: nat) -> Seq<u8>
    decreases n,
{
    if n == 0 {
        seq![]
    } else {
        let k = n - 1;
        let (prev, prev_c) = if k == 0 {
            (blank(), Seq::<u8>::empty())
        } else {
            frames[k - 1]
        };
        frames_values(frames, (n - 1) as nat) + frame_block(frames[k].0, prev, frames[k].1, prev_c, k == 0)
    }
}

/// The board string of a sequence of frames, as bytes.
pub open spec fn encode_frames_bytes(frames: Seq<(FieldMatrix, Seq<u8>)>) -> Seq<u8> {
    let p = frames_values(frames, frames.len());
    seq![118u8, 49, 49, 53, 64] + with_breaks(p, p.len())
}

/// The frames with each comment as its bytes.
pub open spec fn frame_seq(frames: Seq<(FieldMatrix, &str)>) -> Seq<(FieldMatrix, Seq<u8>)> {
    frames.map_values(|fr: (FieldMatrix, &str)| (fr.0, fr.1.spec_bytes()))
}

/// The symbol of a value in the 64-symbol alphabet `A-Za-z0-9+/`.
pub open spec fn enc_symbol(v: u8) -> u8 {
    if v < 26 {
        (65 + v) as u8
    } else if v < 52 {
        (97 + v - 26) as u8
    } else if v < 62 {
        (48 + v - 52) as u8
    } else if v == 62 {
        43u8
    } else {
        47u8
    }
}

/// The symbols of the first `n` values, with a `?` before every 47th.
pub open spec fn with_breaks(p: Seq<u8>, n: nat) -> Seq<u8>
    decreases n,
{
    if n == 0 {
        seq![]
    } else {
        let k = n - 1;
        let prev = with_breaks(p, (n - 1) as nat);
        if k > 0 && k % 47 == 0 {
            prev.push(63u8).push(enc_symbol(p[k]))
        } else {
            prev.push(enc_symbol(p[k]))
        }
    }
}

/// The board string of one frame, as bytes: the version tag `v115@` and the
/// payload symbols.
pub open spec fn encode_bytes(f: FieldMatrix, c: Seq<u8>) -> Seq<u8> {
    let p = frame_values(f, c);
    seq![118u8, 49, 49, 53, 64] + with_breaks(p, p.len())
}

/// A comment that the format can carry: under 4096 printable characters.
pub open spec fn printable_comment(c: Seq<u8>) -> bool {
    c.len() < 4096 && forall|k: int| 0 <= k < c.len() ==> 32 <= #[trigger] c[k] <= 126
}

proof fn lemma_run_end_bounds(cells: Seq<usize>, j: int, e: int)
    requires
        0 <= e <= 240,
    ensures
        e <= run_end(cells, j, e) <= 240,
        run_end(cells, j, e) < 240 ==> cells[run_end(cells, j, e)] != cells[j],
        forall|k: int| e <= k < run_end(cells, j, e) ==> #[trigger] cells[k] == cells[j],
    decreases 240 - e,
{
    if 0 <= e < 240 && cells[e] == cells[j] {
        lemma_run_end_bounds(cells, j, e + 1);
    }
}

/// The codes of board `field` written against board `prev`.
fn frame_codes(field: &FieldMatrix, prev: &FieldMatrix) -> (codes: Vec<usize>)
    requires
        well_formed(*field),
        well_formed(*prev),
    ensures
        codes@ == delta_codes(*field, *prev),
        forall|k: int| 0 <= k < 240 ==> #[trigger] codes@[k] <= 16,
{
    let mut codes: Vec<usize> = Vec::new();
    let mut n: usize = 0;
    while n < 240
        invariant
            n <= 240,
            well_formed(*field),
            well_formed(*prev),
            codes@ == delta_codes(*field, *prev).subrange(0, n as int),
            forall|k: int| 0 <= k < n ==> #[trigger] codes@[k] <= 16,
        decreases 240 - n,
    {
        assert(on_board(n as int % 10, n as int / 10));
        let v = field[n / 10][n % 10] as usize;
        let w = prev[n / 10][n % 10] as usize;
        codes.push(v + 8 - w);
        assert(codes@ =~= delta_codes(*field, *prev).subrange(0, n + 1));
        n += 1;
    }
    assert(delta_codes(*field, *prev).subrange(0, 240) =~= delta_codes(*field, *prev));
    codes
}

/// Appends the runs of the 240 codes.
fn encode_runs(cells: &Vec<usize>, values: &mut Vec<u8>)
    requires
        cells@.len() == 240,
        forall|k: int| 0 <= k < 240 ==> #[trigger] cells@[k] <= 16,
    ensures
        final(values)@ == old(values)@ + rle(cells@, 0),
        forall|k: int| 0 <= k < final(values)@.len() ==> #[trigger] final(values)@[k] < 64 || (
            k < old(values)@.len() && final(values)@[k] == old(values)@[k]),
{
    let ghost start = values@;
    let mut j: usize = 0;
    assert(start + rle(cells@, 0) =~= values@ + rle(cells@, 0));
    while j < 240
        invariant
            cells@.len() == 240,
            forall|k: int| 0 <= k < 240 ==> #[trigger] cells@[k] <= 16,
            j <= 240,
            start + rle(cells@, 0) == values@ + rle(cells@, j as int),
            values@.len() >= start.len(),
            forall|k: int| 0 <= k < values@.len() ==> #[trigger] values@[k] < 64 || (k < start.len()
                && values@[k] == start[k]),
        decreases 240 - j,
    {
        let c = cells[j];
        let mut e: usize = j + 1;
        proof {
            lemma_run_end_bounds(cells@, j as int, j + 1);
        }
        while e < 240 && cells[e] == c
            invariant
                cells@.len() == 240,
                j < e <= 240,
                c == cells@[j as int],
                run_end(cells@, j as int, j + 1) == run_end(cells@, j as int, e as int),
            decreases 240 - e,
        {
            e += 1;
        }
        let mut run: usize = e - j;
        if c == 8 && run == 239 {
            run = 238;
        }
        assert(run as int == run_at(cells@, j as int));
        let v: usize = c * 240 + run - 1;
        let ghost tail = rle(cells@, j + run);
        assert(rle(cells@, j as int) == seq![(v % 64) as u8, (v / 64) as u8] + tail);
        values.push((v % 64) as u8);
        values.push((v / 64) as u8);
        proof {
            assert(values@ + tail =~= (values@.drop_last().drop_last()) + (seq![(v % 64) as u8, (v / 64) as u8]
                + tail));
        }
        j = j + run;
    }
    assert(rle(cells@, 240) =~= Seq::<u8>::empty());
    assert(values@ + Seq::<u8>::empty() =~= values@);
}

/// Comment digit `k`, or 0 past the end.
fn digit_at(c: &[u8], k: usize) -> (d: usize)
    requires
        printable_comment(c@),
    ensures
        d as int == comment_digit(c@, k as int),
        d <= 94,
{
    if k < c.len() {
        (c[k] - 32) as usize
    } else {
        0
    }
}

/// Appends the comment block.
fn encode_comment(c: &[u8], values: &mut Vec<u8>)
    requires
        printable_comment(c@),
    ensures
        final(values)@ == old(values)@ + comment_block(c@),
        forall|k: int| old(values)@.len() <= k < final(values)@.len() ==> #[trigger] final(values)@[k] < 64,
{
    let len = c.len();
    let ghost start = values@;
    values.push((len % 64) as u8);
    values.push((len / 64) as u8);
    let g: usize = (len + 3) / 4;
    let mut q: usize = 0;
    assert(values@ =~= start + seq![(len % 64) as u8, (len / 64) as u8] + groups(c@, 0));
    while q < g
        invariant
            printable_comment(c@),
            len == c@.len(),
            len < 4096,
            g == (len + 3) / 4,
            q <= g,
            values@ == start + seq![(len % 64) as u8, (len / 64) as u8] + groups(c@, q as nat),
            forall|k: int| start.len() <= k < values@.len() ==> #[trigger] values@[k] < 64,
        decreases g - q,
    {
        let d0 = digit_at(c, 4 * q);
        let d1 = digit_at(c, 4 * q + 1);
        let d2 = digit_at(c, 4 * q + 2);
        let d3 = digit_at(c, 4 * q + 3);
        let v: usize = d0 + 96 * d1 + 9216 * d2 + 884736 * d3;
        assert(v as int == group_number(c@, q as int));
        let ghost before = values@;
        values.push((v % 64) as u8);
        values.push(((v / 64) % 64) as u8);
        values.push(((v / 4096) % 64) as u8);
        values.push(((v / 262144) % 64) as u8);
        values.push((v / 16777216) as u8);
        assert(values@ =~= before + group_values(c@, q as int));
        assert(values@ =~= start + seq![(len % 64) as u8, (len / 64) as u8] + groups(c@, (q + 1) as nat));
        q += 1;
    }
    assert(values@ =~= start + comment_block(c@));
}

/// The symbol of a value in the 64-symbol alphabet.
fn enc_char(v: u8) -> (c: u8)
    requires
        v < 64,
    ensures
        c == enc_symbol(v),
        c < 128,
{
    if v < 26 {
        65 + v
    } else if v < 52 {
        97 + v - 26
    } else if v < 62 {
        48 + v - 52
    } else if v == 62 {
        43
    } else {
        47
    }
}

/// Whether two byte strings are equal.
fn same_bytes(a: &[u8], b: &[u8]) -> (r: bool)
    ensures
        r == (a@ == b@),
{
    if a.len() != b.len() {
        return false;
    }
    let mut k: usize = 0;
    while k < a.len()
        invariant
            a@.len() == b@.len(),
            k <= a@.len(),
            forall|t: int| 0 <= t < k ==> a@[t] == b@[t],
        decreases a@.len() - k,
    {
        if a[k] != b[k] {
            return false;
        }
        k += 1;
    }
    assert(a@ =~= b@);
    true
}

/// Appends the symbols of the payload values, with a `?` before every 47th,
/// to the version tag.
fn write_symbols(values: &Vec<u8>) -> (out: Vec<u8>)
    requires
        forall|t: int| 0 <= t < values@.len() ==> #[trigger] values@[t] < 64,
    ensures
        out@ == seq![118u8, 49, 49, 53, 64] + with_breaks(values@, values@.len()),
        forall|t: int| 0 <= t < out@.len() ==> #[trigger] out@[t] < 128,
{
    let ghost p = values@;
    let mut out: Vec<u8> = Vec::new();
    out.push(118);
    out.push(49);
    out.push(49);
    out.push(53);
    out.push(64);
    let mut k: usize = 0;
    assert(out@ =~= seq![118u8, 49, 49, 53, 64] + with_breaks(p, 0));
    while k < values.len()
        invariant
            p == values@,
            forall|t: int| 0 <= t < p.len() ==> #[trigger] p[t] < 64,
            k <= p.len(),
            out@ == seq![118u8, 49, 49, 53, 64] + with_breaks(p, k as nat),
            forall|t: int| 0 <= t < out@.len() ==> #[trigger] out@[t] < 128,
        decreases p.len() - k,
    {
        if k > 0 && k % 47 == 0 {
            out.push(63);
        }
        let sym = enc_char(values[k]);
        out.push(sym);
        assert(out@ =~= seq![118u8, 49, 49, 53, 64] + with_breaks(p, (k + 1) as nat));
        k += 1;
    }
    out
}

/// Writes a sequence of boards with their comments as a board string. Each
/// frame holds the runs of its cells written against the board before it
/// (a blank board for the first), its flag block, and, when its comment
/// differs from the one before (the empty comment for the first), the
/// comment packed four characters to five symbols. A `?` goes before every
/// 47th payload symbol.
pub fn encode(frames: &Vec<(FieldMatrix, &str)>) -> (r: String)
    requires
        forall|i: int|
            0 <= i < frames@.len() ==> well_formed(#[trigger] frames@[i].0) && printable_comment(
                frames@[i].1.spec_bytes(),
            ),
    ensures
        r@ == encode_frames_bytes(frame_seq(frames@)).map_values(|b: u8| b as char),
{
    let ghost fs = frame_seq(frames@);
    let mut values: Vec<u8> = Vec::new();
    let mut prev: FieldMatrix = [[0u8; 10]; 24];
    let no_comment: Vec<u8> = Vec::new();
    let mut prev_c: &[u8] = no_comment.as_slice();
    assert(prev == blank());
    let mut i: usize = 0;
    while i < frames.len()
        invariant
            fs == frame_seq(frames@),
            i <= frames@.len(),
            forall|t: int|
                0 <= t < frames@.len() ==> well_formed(#[trigger] frames@[t].0) && printable_comment(
                    frames@[t].1.spec_bytes(),
                ),
            values@ == frames_values(fs, i as nat),
            forall|t: int| 0 <= t < values@.len() ==> #[trigger] values@[t] < 64,
            well_formed(prev),
            i == 0 ==> prev == blank() && prev_c@ == Seq::<u8>::empty(),
            i > 0 ==> prev == fs[i - 1].0 && prev_c@ == fs[i - 1].1,
        decreases frames@.len() - i,
    {
        let (field, comment) = frames[i];
        let c = comment.as_bytes();
        assert(fs[i as int] == (field, c@));
        let ghost before = values@;
        let codes = frame_codes(&field, &prev);
        encode_runs(&codes, &mut values);
        let changed = !same_bytes(c, prev_c);
        values.push(0);
        values.push(0);
        let flag: u8 = if i == 0 {
            if changed {
                45
            } else {
                30
            }
        } else if changed {
            15
        } else {
            0
        };
        values.push(flag);
        if changed {
            encode_comment(c, &mut values);
        }
        proof {
            let (pf, pc) = if i == 0 {
                (blank(), Seq::<u8>::empty())
            } else {
                fs[i - 1]
            };
            assert(pf == prev && pc == prev_c@);
            assert(values@ =~= before + frame_block(field, prev, c@, prev_c@, i == 0));
            assert(values@ =~= frames_values(fs, (i + 1) as nat));
        }
        prev = field;
        prev_c = c;
        i += 1;
    }
    let out = write_symbols(&values);
    ascii_string(out)
}

/// Four digits below 96 come back out of the number that packs them.
proof fn lemma_base96(d0: int, d1: int, d2: int, d3: int)
    requires
        0 <= d0 < 96,
        0 <= d1 < 96,
        0 <= d2 < 96,
        0 <= d3 < 96,
    ensures
        ({
            let v = d0 + 96 * d1 + 9216 * d2 + 884736 * d3;
            &&& 0 <= v < 84934656
            &&& v % 96 == d0
            &&& (v / 96) % 96 == d1
            &&& (v / 9216) % 96 == d2
            &&& (v / 884736) % 96 == d3
        }),
{
    let v = d0 + 96 * d1 + 9216 * d2 + 884736 * d3;
    let t1 = d1 + 96 * d2 + 9216 * d3;
    let t2 = d2 + 96 * d3;
    lemma_fundamental_div_mod_converse(v, 96, t1, d0);
    lemma_fundamental_div_mod_converse(t1, 96, t2, d1);
    lemma_fundamental_div_mod_converse(t2, 96, d3, d2);
    lemma_fundamental_div_mod_converse(d3, 96, 0, d3);
    lemma_div_denominator(v, 96, 96);
    lemma_div_denominator(v, 9216, 96);
}

/// A number below 64 to the fifth is the sum of its five base-64 digits.
proof fn lemma_base64(v: int)
    requires
        0 <= v < 1073741824,
    ensures
        v == v % 64 + ((v / 64) % 64) * 64 + ((v / 4096) % 64) * 4096 + ((v / 262144) % 64) * 262144 + (v
            / 16777216) * 16777216,
        0 <= v / 16777216 < 64,
{
    lemma_fundamental_div_mod(v, 64);
    lemma_fundamental_div_mod(v / 64, 64);
    lemma_div_denominator(v, 64, 64);
    lemma_fundamental_div_mod(v / 4096, 64);
    lemma_div_denominator(v, 4096, 64);
    lemma_fundamental_div_mod(v / 262144, 64);
    lemma_div_denominator(v, 262144, 64);
    lemma_fundamental_div_mod_converse(v, 16777216, v / 16777216, v % 16777216);
}

/// A number below 4096 is the sum of its two base-64 digits.
proof fn lemma_base64_pair(v: int)
    requires
        0 <= v < 4096,
    ensures
        v == v % 64 + (v / 64) * 64,
        0 <= v / 64 < 64,
{
    lemma_fundamental_div_mod(v, 64);
}

/// Every alphabet symbol reads back as its value, and none is `?`.
proof fn lemma_symbol(v: u8)
    requires
        v < 64,
    ensures
        enc_value(enc_symbol(v)) == v,
        enc_symbol(v) != 63,
{
}

/// The payload of the symbols with their line breaks is the values.
proof fn lemma_payload_of_breaks(p: Seq<u8>, n: nat)
    requires
        n <= p.len(),
        forall|t: int| 0 <= t < p.len() ==> #[trigger] p[t] < 64,
    ensures
        payload_of(with_breaks(p, n)) == Ok::<Seq<u8>, DecodeError>(p.subrange(0, n as int)),
    decreases n,
{
    if n > 0 {
        let k = n - 1;
        let prev = with_breaks(p, (n - 1) as nat);
        lemma_payload_of_breaks(p, (n - 1) as nat);
        lemma_symbol(p[k]);
        if k > 0 && k % 47 == 0 {
            let x = prev.push(63u8);
            assert(x.drop_last() =~= prev);
            assert(x.last() == 63u8);
            assert(payload_of(x) == payload_of(prev));
            let y = x.push(enc_symbol(p[k]));
            assert(y.drop_last() =~= x);
            assert(y.last() == enc_symbol(p[k]));
            assert(payload_of(y) == Ok::<Seq<u8>, DecodeError>(p.subrange(0, k).push(p[k])));
        } else {
            let y = prev.push(enc_symbol(p[k]));
            assert(y.drop_last() =~= prev);
            assert(y.last() == enc_symbol(p[k]));
            assert(payload_of(y) == Ok::<Seq<u8>, DecodeError>(p.subrange(0, k).push(p[k])));
        }
        assert(p.subrange(0, k).push(p[k]) =~= p.subrange(0, n as int));
    } else {
        assert(p.subrange(0, 0) =~= Seq::<u8>::empty());
    }
}

/// Reading the runs written from cell `j` gives back each code less 8.
proof fn lemma_runs_read_back(codes: Seq<usize>, d: Seq<u8>, i: int, j: int)
    requires
        0 <= i,
        codes.len() == 240,
        forall|k: int| 0 <= k < 240 ==> 8 <= #[trigger] codes[k] <= 16,
        0 <= j <= 240,
        i + rle(codes, j).len() <= d.len(),
        d.subrange(i, i + rle(codes, j).len()) == rle(codes, j),
    ensures
        runs_from(d, i as nat, j as nat) == Ok::<(Seq<usize>, nat), DecodeError>(
            (
                Seq::new((240 - j) as nat, |k: int| (codes[j + k] - 8) as usize),
                (i + rle(codes, j).len()) as nat,
            ),
        ),
    decreases 240 - j,
{
    if j == 240 {
        assert(Seq::new(0, |k: int| (codes[j + k] - 8) as usize) =~= Seq::<usize>::empty());
    } else {
        lemma_run_end_bounds(codes, j, j + 1);
        let r = run_at(codes, j);
        let v = run_value(codes, j);
        let c = codes[j];
        let tail = rle(codes, j + r);
        assert(rle(codes, j) == seq![(v % 64) as u8, (v / 64) as u8] + tail);
        assert(d[i] == (v % 64) as u8) by {
            assert(d.subrange(i, i + rle(codes, j).len())[0] == d[i]);
        }
        assert(d[i + 1] == (v / 64) as u8) by {
            assert(d.subrange(i, i + rle(codes, j).len())[1] == d[i + 1]);
        }
        lemma_base64_pair(v);
        lemma_fundamental_div_mod_converse(v, 240, c as int, r - 1);
        assert(d.subrange(i + 2, i + 2 + tail.len()) =~= tail) by {
            assert forall|t: int| 0 <= t < tail.len() implies d.subrange(i + 2, i + 2 + tail.len())[t]
                == tail[t] by {
                assert(d.subrange(i, i + rle(codes, j).len())[t + 2] == rle(codes, j)[t + 2]);
            }
        }
        lemma_runs_read_back(codes, d, i + 2, j + r);
        assert(Seq::new(r as nat, |_k: int| (c - 8) as usize) + Seq::new(
            (240 - (j + r)) as nat,
            |k: int| (codes[j + r + k] - 8) as usize,
        ) =~= Seq::new((240 - j) as nat, |k: int| (codes[j + k] - 8) as usize));
    }
}

proof fn lemma_rle_small(cells: Seq<usize>, j: int)
    requires
        cells.len() == 240,
        forall|k: int| 0 <= k < 240 ==> #[trigger] cells[k] <= 16,
        0 <= j <= 240,
    ensures
        forall|t: int| 0 <= t < rle(cells, j).len() ==> #[trigger] rle(cells, j)[t] < 64,
    decreases 240 - j,
{
    if j < 240 {
        lemma_run_end_bounds(cells, j, j + 1);
        let r = run_at(cells, j);
        let v = run_value(cells, j);
        lemma_base64_pair(v);
        lemma_rle_small(cells, j + r);
        let tail = rle(cells, j + r);
        assert forall|t: int| 0 <= t < rle(cells, j).len() implies #[trigger] rle(cells, j)[t] < 64 by {
            if t >= 2 {
                assert(rle(cells, j)[t] == tail[t - 2]);
            }
        }
    }
}

proof fn lemma_groups_shape(c: Seq<u8>, q: nat)
    requires
        printable_comment(c),
    ensures
        groups(c, q).len() == 5 * q,
        forall|t: int| 0 <= t < groups(c, q).len() ==> #[trigger] groups(c, q)[t] < 64,
    decreases q,
{
    if q > 0 {
        lemma_groups_shape(c, (q - 1) as nat);
        let k = q - 1;
        let v = group_number(c, k);
        lemma_digit_range(c, 4 * k);
        lemma_digit_range(c, 4 * k + 1);
        lemma_digit_range(c, 4 * k + 2);
        lemma_digit_range(c, 4 * k + 3);
        lemma_base96(
            comment_digit(c, 4 * k),
            comment_digit(c, 4 * k + 1),
            comment_digit(c, 4 * k + 2),
            comment_digit(c, 4 * k + 3),
        );
        lemma_base64(v);
        let prev = groups(c, (q - 1) as nat);
        assert forall|t: int| 0 <= t < groups(c, q).len() implies #[trigger] groups(c, q)[t] < 64 by {
            if t < prev.len() {
                assert(groups(c, q)[t] == prev[t]);
            }
        }
    }
}

proof fn lemma_digit_range(c: Seq<u8>, k: int)
    requires
        printable_comment(c),
        0 <= k,
    ensures
        0 <= comment_digit(c, k) <= 94,
{
}

/// Reading back the comment groups written at `start` gives the digits of
/// the comment, padded with zeros.
proof fn lemma_groups_read_back(c: Seq<u8>, d: Seq<u8>, start: int, g: nat)
    requires
        printable_comment(c),
        0 <= start,
        start + 5 * g <= d.len(),
        d.subrange(start, start + 5 * g) == groups(c, g),
    ensures
        comment_digits(d, start, g).len() == 4 * g,
        forall|k: int| 0 <= k < 4 * g ==> #[trigger] comment_digits(d, start, g)[k] == comment_digit(c, k),
    decreases g,
{
    reveal(comment_digits);
    if g > 0 {
        let q = (g - 1) as nat;
        lemma_groups_shape(c, q);
        lemma_groups_shape(c, g);
        let prev = groups(c, q);
        let gv = group_values(c, q as int);
        assert(groups(c, g) == prev + gv);
        assert(d.subrange(start, start + 5 * q) =~= prev) by {
            assert forall|t: int| 0 <= t < prev.len() implies d.subrange(start, start + 5 * q)[t] == prev[t] by {
                assert(d.subrange(start, start + 5 * g)[t] == groups(c, g)[t]);
            }
        }
        lemma_groups_read_back(c, d, start, q);
        let base = start + 5 * q;
        assert forall|m: int| 0 <= m < 5 implies d[base + m] == gv[m] by {
            assert(d.subrange(start, start + 5 * g)[5 * q + m] == groups(c, g)[5 * q + m]);
        }
        let qi = q as int;
        let v = group_number(c, qi);
        lemma_digit_range(c, 4 * qi);
        lemma_digit_range(c, 4 * qi + 1);
        lemma_digit_range(c, 4 * qi + 2);
        lemma_digit_range(c, 4 * qi + 3);
        lemma_base96(
            comment_digit(c, 4 * qi),
            comment_digit(c, 4 * qi + 1),
            comment_digit(c, 4 * qi + 2),
            comment_digit(c, 4 * qi + 3),
        );
        lemma_base64(v);
        reveal(group_digits);
        let m0: int = 0;
        let m1: int = 1;
        let m2: int = 2;
        let m3: int = 3;
        let m4: int = 4;
        assert(d[base + m0] == gv[m0]);
        assert(d[base + m1] == gv[m1]);
        assert(d[base + m2] == gv[m2]);
        assert(d[base + m3] == gv[m3]);
        assert(d[base + m4] == gv[m4]);
        let val = d[base] + d[base + 1] * 64 + d[base + 2] * 4096 + d[base + 3] * 262144 + d[base + 4]
            * 16777216;
        assert(val == v);
        let gd = group_digits(d, base);
        let before = comment_digits(d, start, q);
        assert(comment_digits(d, start, g) == before + gd);
        assert forall|k: int| 0 <= k < 4 * g implies #[trigger] comment_digits(d, start, g)[k] == comment_digit(
            c,
            k,
        ) by {
            if k < 4 * q {
                assert(comment_digits(d, start, g)[k] == before[k]);
            } else {
                assert(comment_digits(d, start, g)[k] == gd[k - 4 * q]);
            }
        }
    }
}

/// The codes of a first frame are its cells plus 8.
proof fn lemma_first_codes(f: FieldMatrix)
    requires
        well_formed(f),
    ensures
        delta_codes(f, blank()).len() == 240,
        forall|k: int| 0 <= k < 240 ==> 8 <= #[trigger] delta_codes(f, blank())[k] <= 16,
        Seq::new(240, |k: int| (delta_codes(f, blank())[k] - 8) as usize) == cells_of(f),
{
    let codes = delta_codes(f, blank());
    assert forall|k: int| 0 <= k < 240 implies 8 <= #[trigger] codes[k] <= 16 && codes[k] - 8 == cells_of(f)[k] by {
        assert(on_board(k % 10, k / 10));
        assert(cell(blank(), k % 10, k / 10) == 0);
    }
    assert(Seq::new(240, |k: int| (codes[k] - 8) as usize) =~= cells_of(f));
}

/// Every payload value of a frame lies below 64.
proof fn lemma_frame_values_small(f: FieldMatrix, c: Seq<u8>)
    requires
        well_formed(f),
        printable_comment(c),
    ensures
        forall|t: int| 0 <= t < frame_values(f, c).len() ==> #[trigger] frame_values(f, c)[t] < 64,
{
    let codes = delta_codes(f, blank());
    lemma_first_codes(f);
    let r = rle(codes, 0);
    let fl = flag_values(c);
    let cv = comment_values(c);
    let p = frame_values(f, c);
    lemma_rle_small(codes, 0);
    let len = c.len() as int;
    let g = ((len + 3) / 4) as nat;
    lemma_groups_shape(c, g);
    if len > 0 {
        lemma_base64_pair(len);
    }
    assert forall|t: int| 0 <= t < p.len() implies #[trigger] p[t] < 64 by {
        if t < r.len() {
            assert(p[t] == r[t]);
        } else if t < r.len() + 3 {
            assert(p[t] == fl[t - r.len()]);
        } else {
            assert(p[t] == cv[t - r.len() - 3]);
            if t - r.len() - 3 >= 2 {
                assert(cv[t - r.len() - 3] == groups(c, g)[t - r.len() - 5]);
            }
        }
    }
}

/// The payload values of a frame read back as its cells and its comment.
#[verifier::rlimit(50)]
proof fn lemma_frame_read_back(f: FieldMatrix, c: Seq<u8>)
    requires
        well_formed(f),
        printable_comment(c),
    ensures
        frame_of(frame_values(f, c)) == Ok::<(Seq<usize>, Seq<u8>), DecodeError>((cells_of(f), c)),
{
    let codes = delta_codes(f, blank());
    lemma_first_codes(f);
    let r = rle(codes, 0);
    let fl = flag_values(c);
    let cv = comment_values(c);
    let p = frame_values(f, c);
    let len = c.len() as int;
    let g = ((len + 3) / 4) as nat;
    lemma_groups_shape(c, g);
    reveal(frame_of);
    assert(p.subrange(0, r.len() as int) =~= r);
    lemma_runs_read_back(codes, p, 0, 0);
    assert(Seq::new((240 - 0) as nat, |k: int| (codes[0 + k] - 8) as usize) =~= cells_of(f));
    let i = r.len() as int;
    assert(p[i] == fl[0] && p[i + 1] == fl[1] && p[i + 2] == fl[2]);
    if len == 0 {
        assert(c =~= Seq::<u8>::empty());
        assert(p.len() == i + 3);
    } else {
        lemma_base64_pair(len);
        assert(p[i + 3] == cv[0] && p[i + 4] == cv[1]);
        let start = i + 5;
        assert(p.len() == start + 5 * g);
        assert(p.subrange(start, start + 5 * g) =~= groups(c, g)) by {
            assert forall|t: int| 0 <= t < 5 * g implies p.subrange(start, start + 5 * g)[t] == groups(c, g)[t] by {
                assert(p[start + t] == cv[t + 2]);
            }
        }
        lemma_groups_read_back(c, p, start, g);
        let digits = comment_digits(p, start, g);
        assert forall|k: int| 0 <= k < 4 * g implies !(#[trigger] comment_digits(p, start, g)[k] >= 95) by {
            lemma_digit_range(c, k);
        }
        assert(digits.subrange(0, len).map_values(|v: int| (v + 32) as u8) =~= c);
    }
}

/// A list of one frame is written as that frame alone.
proof fn lemma_one_frame(f: FieldMatrix, c: Seq<u8>)
    ensures
        encode_frames_bytes(seq![(f, c)]) == encode_bytes(f, c),
{
    let fs = seq![(f, c)];
    assert(frames_values(fs, 0) =~= Seq::<u8>::empty());
    assert((c != Seq::<u8>::empty()) == (c.len() != 0)) by {
        if c.len() == 0 {
            assert(c =~= Seq::<u8>::empty());
        }
    }
    assert(flags_of(true, c != Seq::<u8>::empty()) =~= flag_values(c));
    assert(frames_values(fs, 1) =~= frame_values(f, c));
}

/// Decoding the string that `encode` writes for one board with cells in
/// 0..=8 and a comment of under 4096 printable characters gives back the
/// same cells and the same comment.
pub proof fn lemma_round_trip(f: FieldMatrix, c: Seq<u8>)
    requires
        well_formed(f),
        printable_comment(c),
    ensures
        decode_spec(encode_frames_bytes(seq![(f, c)])) == Ok::<(Seq<usize>, Seq<u8>), DecodeError>(
            (cells_of(f), c),
        ),
{
    let p = frame_values(f, c);
    let b = encode_bytes(f, c);
    lemma_one_frame(f, c);
    lemma_frame_values_small(f, c);
    assert(b.subrange(5, b.len() as int) =~= with_breaks(p, p.len()));
    lemma_payload_of_breaks(p, p.len());
    assert(p.subrange(0, p.len() as int) =~= p);
    lemma_frame_read_back(f, c);
}

} // verus!
