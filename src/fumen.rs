//! Reading board strings: a version tag, runs of cells and a comment.

use vstd::prelude::*;

use vstd::string::StringSliceAdditionalSpecFns;

use crate::fieldmatrix::{cell, on_board, FieldMatrix};

verus! {

/// Number of cells in a frame: 24 rows of 10.
pub const FIELD_CELLS: usize = 240;

/// The cells of one frame, row-major, top row first.
pub type FieldData = [usize; 240];

/// Why a board string could not be read.
#[derive(Clone, Copy, PartialEq, Eq, Debug, Structural)]
pub enum DecodeError {
    /// The string is shorter than its 5-character version tag.
    TooShort,
    /// A byte of the payload that is neither `?` nor in the 64-symbol alphabet.
    BadCharacter(u8),
    /// The payload ends before the frame does.
    Truncated,
    /// A run whose cell code lies below the bias, so that the cell would be negative.
    BadCell,
    /// A run of 239 empty cells, which marks a repeated frame.
    RepeatedFrame,
    /// A run that would go past the last cell of the board.
    RunOverflow,
    /// A comment digit that names no printable character.
    BadCommentChar,
    /// Data left after the first frame.
    TrailingData,
}

/// The value of a payload byte in the alphabet `A-Za-z0-9+/`, or -1.
pub open spec fn enc_value(c: u8) -> int {
    if 65 <= c <= 90 {
        c - 65
    } else if 97 <= c <= 122 {
        c - 97 + 26
    } else if 48 <= c <= 57 {
        c - 48 + 52
    } else if c == 43 {
        62
    } else if c == 47 {
        63
    } else {
        -1
    }
}

/// The payload values of the bytes: `?` is skipped, every other byte must be
/// in the alphabet.
pub open spec fn payload_of(b: Seq<u8>) -> Result<Seq<u8>, DecodeError>
    decreases b.len(),
{
    if b.len() == 0 {
        Ok(seq![])
    } else {
        match payload_of(b.drop_last()) {
            Err(e) => Err(e),
            Ok(p) => {
                let c = b.last();
                if c == 63 {
                    Ok(p)
                } else if enc_value(c) < 0 {
                    Err(DecodeError::BadCharacter(c))
                } else {
                    Ok(p.push(enc_value(c) as u8))
                }
            },
        }
    }
}

/// The runs read from payload position `i` once `j` cells are filled: the
/// remaining cells and the position after the last run.
pub open spec fn runs_from(d: Seq<u8>, i: nat, j: nat) -> Result<(Seq<usize>, nat), DecodeError>
    decreases 240 - j,
{
    if j >= 240 {
        Ok((seq![], i))
    } else if i + 1 >= d.len() {
        Err(DecodeError::Truncated)
    } else {
        let val = d[i as int] + d[i + 1int] * 64;
        let run = val % 240 + 1;
        let code = (val / 240) % 17;
        if code < 8 {
            Err(DecodeError::BadCell)
        } else if code == 8 && run == 239 {
            Err(DecodeError::RepeatedFrame)
        } else if j + run > 240 {
            Err(DecodeError::RunOverflow)
        } else {
            match runs_from(d, i + 2, (j + run) as nat) {
                Err(e) => Err(e),
                Ok((rest, k)) => Ok((Seq::new(run as nat, |_k: int| (code - 8) as usize) + rest, k)),
            }
        }
    }
}

/// The four base-96 digits of the comment group at payload position `i`.
#[verifier::opaque]
pub open spec fn group_digits(d: Seq<u8>, i: int) -> Seq<int> {
    let val = d[i] + d[i + 1] * 64 + d[i + 2] * 4096 + d[i + 3] * 262144 + d[i + 4] * 16777216;
    seq![val % 96, (val / 96) % 96, (val / 9216) % 96, (val / 884736) % 96]
}

/// The digits of the first `g` comment groups from payload position `i`.
#[verifier::opaque]
pub open spec fn comment_digits(d: Seq<u8>, i: int, g: nat) -> Seq<int>
    decreases g,
{
    if g == 0 {
        seq![]
    } else {
        comment_digits(d, i, (g - 1) as nat) + group_digits(d, i + 5 * (g - 1))
    }
}

/// The frame that a payload holds: its 240 cells and its comment, or why it
/// cannot be read.
#[verifier::opaque]
pub open spec fn frame_of(d: Seq<u8>) -> Result<(Seq<usize>, Seq<u8>), DecodeError> {
    match runs_from(d, 0, 0) {
        Err(e) => Err(e),
        Ok((cells, i)) => {
            let i = i as int;
            if i + 3 > d.len() {
                Err(DecodeError::Truncated)
            } else {
                let val = d[i] + d[i + 1] * 64 + d[i + 2] * 4096;
                if (val / 61440) % 2 == 0 {
                    if i + 3 < d.len() {
                        Err(DecodeError::TrailingData)
                    } else {
                        Ok((cells, seq![]))
                    }
                } else if i + 5 > d.len() {
                    Err(DecodeError::Truncated)
                } else {
                    let len = (d[i + 3] + d[i + 4] * 64) % 4096;
                    let g = (len + 3) / 4;
                    let start = i + 5;
                    if start + 5 * g > d.len() {
                        Err(DecodeError::Truncated)
                    } else if exists|k: int|
                        0 <= k < 4 * g && #[trigger] comment_digits(d, start, g as nat)[k] >= 95 {
                        Err(DecodeError::BadCommentChar)
                    } else if start + 5 * g < d.len() {
                        Err(DecodeError::TrailingData)
                    } else {
                        Ok(
                            (
                                cells,
                                comment_digits(d, start, g as nat).subrange(0, len).map_values(
                                    |v: int| (v + 32) as u8,
                                ),
                            ),
                        )
                    }
                }
            }
        },
    }
}

/// What a board string holds: its 240 cells and its comment, or why it
/// cannot be read.
pub open spec fn decode_spec(s: Seq<u8>) -> Result<(Seq<usize>, Seq<u8>), DecodeError> {
    if s.len() < 5 {
        Err(DecodeError::TooShort)
    } else {
        match payload_of(s.subrange(5, s.len() as int)) {
            Err(e) => Err(e),
            Ok(d) => frame_of(d),
        }
    }
}

/// Lays 240 cells out as a board, row-major.
pub fn field_to_matrix(field: FieldData) -> (matrix: FieldMatrix)
    requires
        forall|k: int| 0 <= k < 240 ==> field@[k] < 256,
    ensures
        forall|x: int, y: int| on_board(x, y) ==> cell(matrix, x, y) as usize == field@[y * 10 + x],
{
    let mut matrix: FieldMatrix = [[0u8; 10]; 24];
    let mut n: usize = 0;
    while n < 240
        invariant
            n <= 240,
            forall|k: int| 0 <= k < 240 ==> field@[k] < 256,
            forall|x: int, y: int|
                on_board(x, y) ==> cell(matrix, x, y) as usize == if y * 10 + x < n {
                    field@[y * 10 + x]
                } else {
                    0
                },
        decreases 240 - n,
    {
        let y = n / 10;
        let x = n % 10;
        let mut row = matrix[y];
        row[x] = field[n] as u8;
        matrix[y] = row;
        n += 1;
    }
    matrix
}

/// The runs `pre` followed by what `r` decodes.
pub open spec fn after_prefix(
    pre: Seq<usize>,
    r: Result<(Seq<usize>, nat), DecodeError>,
) -> Result<(Seq<usize>, nat), DecodeError> {
    match r {
        Ok((rest, k)) => Ok((pre + rest, k)),
        Err(e) => Err(e),
    }
}

/// The value of a byte in the 64-symbol alphabet.
fn enc_index(c: u8) -> (r: Option<u8>)
    ensures
        match r {
            Some(v) => v as int == enc_value(c) && v < 64,
            None => enc_value(c) < 0,
        },
{
    if 65 <= c && c <= 90 {
        Some(c - 65)
    } else if 97 <= c && c <= 122 {
        Some(c - 97 + 26)
    } else if 48 <= c && c <= 57 {
        Some(c - 48 + 52)
    } else if c == 43 {
        Some(62)
    } else if c == 47 {
        Some(63)
    } else {
        None
    }
}

/// The payload values of the bytes after the 5-byte version tag.
fn payload_values(b: &[u8]) -> (r: Result<Vec<u8>, DecodeError>)
    requires
        b@.len() >= 5,
    ensures
        match payload_of(b@.subrange(5, b@.len() as int)) {
            Ok(d) => r matches Ok(v) && v@ == d,
            Err(e) => r == Err::<Vec<u8>, DecodeError>(e),
        },
        r matches Ok(v) ==> forall|t: int| 0 <= t < v@.len() ==> #[trigger] v@[t] < 64,
{
    let mut data: Vec<u8> = Vec::new();
    let mut k: usize = 5;
    assert(b@.subrange(5, 5) =~= Seq::<u8>::empty());
    while k < b.len()
        invariant
            5 <= k <= b@.len(),
            payload_of(b@.subrange(5, k as int)) == Ok::<Seq<u8>, DecodeError>(data@),
            forall|t: int| 0 <= t < data@.len() ==> #[trigger] data@[t] < 64,
        decreases b@.len() - k,
    {
        let c = b[k];
        assert(b@.subrange(5, k + 1).drop_last() =~= b@.subrange(5, k as int));
        if c != 63 {
            match enc_index(c) {
                Some(v) => {
                    data.push(v);
                },
                None => {
                    proof {
                        lemma_payload_error_stays(b@, (k + 1) as nat, DecodeError::BadCharacter(c));
                    }
                    return Err(DecodeError::BadCharacter(c));
                },
            }
        }
        k += 1;
    }
    Ok(data)
}

/// Once the payload of a prefix fails, that of every longer prefix fails alike.
proof fn lemma_payload_error_stays(b: Seq<u8>, k: nat, e: DecodeError)
    requires
        5 <= k <= b.len(),
        payload_of(b.subrange(5, k as int)) == Err::<Seq<u8>, DecodeError>(e),
    ensures
        payload_of(b.subrange(5, b.len() as int)) == Err::<Seq<u8>, DecodeError>(e),
    decreases b.len() - k,
{
    if k < b.len() {
        assert(b.subrange(5, k + 1int).drop_last() =~= b.subrange(5, k as int));
        lemma_payload_error_stays(b, k + 1, e);
    }
}

/// Reads the 240 cells of the first frame from the payload.
fn decode_runs(d: &Vec<u8>) -> (r: Result<(FieldData, usize), DecodeError>)
    requires
        forall|t: int| 0 <= t < d@.len() ==> #[trigger] d@[t] < 64,
    ensures
        match runs_from(d@, 0, 0) {
            Ok((cells, k)) => r matches Ok((f, i)) && f@ == cells && i == k,
            Err(e) => r matches Err(e2) && e2 == e,
        },
{
    let mut field: FieldData = [0usize; 240];
    let mut i: usize = 0;
    let mut j: usize = 0;
    assert(field@.subrange(0, 0) + Seq::<usize>::empty() =~= Seq::<usize>::empty());
    assert(after_prefix(field@.subrange(0, 0), runs_from(d@, 0, 0)) == runs_from(d@, 0, 0)) by {
        match runs_from(d@, 0, 0) {
            Ok((rest, k)) => {
                assert(field@.subrange(0, 0) + rest =~= rest);
            },
            Err(_) => {},
        }
    }
    while j < 240
        invariant
            j <= 240,
            i <= d@.len(),
            forall|t: int| 0 <= t < d@.len() ==> #[trigger] d@[t] < 64,
            runs_from(d@, 0, 0) == after_prefix(field@.subrange(0, j as int), runs_from(d@, i as nat, j as nat)),
        decreases 240 - j,
    {
        if d.len() - i < 2 {
            return Err(DecodeError::Truncated);
        }
        let val: usize = d[i] as usize + (d[i + 1] as usize) * 64;
        let run_len: usize = (val % 240) + 1;
        let code: usize = (val / 240) % 17;
        if code < 8 {
            return Err(DecodeError::BadCell);
        }
        if code == 8 && run_len == 239 {
            return Err(DecodeError::RepeatedFrame);
        }
        if j + run_len > 240 {
            return Err(DecodeError::RunOverflow);
        }
        let block = code - 8;
        let ghost pre = field@.subrange(0, j as int);
        let ghost j0 = j;
        let mut t: usize = 0;
        while t < run_len
            invariant
                j0 + run_len <= 240,
                j == j0 + t,
                t <= run_len,
                field@.subrange(0, j0 as int) == pre,
                forall|u: int| j0 <= u < j ==> field@[u] == block,
            decreases run_len - t,
        {
            field[j] = block;
            assert(field@.subrange(0, j0 as int) =~= pre);
            j += 1;
            t += 1;
        }
        proof {
            let run_seq = Seq::new(run_len as nat, |_k: int| block);
            assert(field@.subrange(0, j as int) =~= pre + run_seq);
            let next = runs_from(d@, (i + 2) as nat, j as nat);
            assert(runs_from(d@, i as nat, j0 as nat) == after_prefix(run_seq, next));
            match next {
                Ok((rest, k)) => {
                    assert(pre + (run_seq + rest) =~= (pre + run_seq) + rest);
                },
                Err(_) => {},
            }
        }
        i += 2;
    }
    proof {
        assert(runs_from(d@, i as nat, j as nat) == Ok::<(Seq<usize>, nat), DecodeError>((seq![], i as nat)));
        assert(field@.subrange(0, 240) + Seq::<usize>::empty() =~= field@);
    }
    Ok((field, i))
}

/// The digits of `g` groups are four per group, and those of fewer groups
/// come first.
proof fn lemma_comment_digits_prefix(d: Seq<u8>, i: int, q: nat, g: nat)
    requires
        q <= g,
    ensures
        comment_digits(d, i, g).len() == 4 * g,
        forall|k: int|
            0 <= k < 4 * q ==> #[trigger] comment_digits(d, i, g)[k] == comment_digits(d, i, q)[k],
    decreases g,
{
    reveal(comment_digits);
    reveal(group_digits);
    if g > 0 {
        if q < g {
            lemma_comment_digits_prefix(d, i, q, (g - 1) as nat);
        } else {
            lemma_comment_digits_prefix(d, i, (g - 1) as nat, (g - 1) as nat);
        }
    }
}

/// The digits of group `q` stand at `4 * q` in the digits of `g > q` groups.
proof fn lemma_group_in_digits(d: Seq<u8>, i: int, q: nat, g: nat)
    requires
        q < g,
    ensures
        comment_digits(d, i, g).len() == 4 * g,
        comment_digits(d, i, q + 1) == comment_digits(d, i, q) + group_digits(d, i + 5 * q),
        forall|m: int|
            0 <= m < 4 ==> #[trigger] comment_digits(d, i, g)[4 * q + m] == group_digits(d, i + 5 * q)[m],
{
    reveal(comment_digits);
    reveal(group_digits);
    lemma_comment_digits_prefix(d, i, q + 1, g);
    lemma_comment_digits_prefix(d, i, q, q);
    let next = comment_digits(d, i, q + 1);
    assert(next == comment_digits(d, i, q) + group_digits(d, i + 5 * q));
    assert forall|m: int| 0 <= m < 4 implies #[trigger] comment_digits(d, i, g)[4 * q + m] == group_digits(
        d,
        i + 5 * q,
    )[m] by {
        assert(comment_digits(d, i, g)[4 * q + m] == next[4 * q + m]);
    }
}

/// Digit `m` of group `q` in the digits of `g > q` groups.
proof fn lemma_group_digit(d: Seq<u8>, i: int, q: nat, g: nat, m: int)
    requires
        q < g,
        0 <= m < 4,
    ensures
        comment_digits(d, i, g)[4 * q + m] == group_digits(d, i + 5 * q)[m],
{
    lemma_group_in_digits(d, i, q, g);
}

/// Every cell that the runs give lies in 0..=8.
proof fn lemma_runs_cells(d: Seq<u8>, i: nat, j: nat)
    ensures
        runs_from(d, i, j) matches Ok((cells, _)) ==> forall|k: int|
            0 <= k < cells.len() ==> #[trigger] cells[k] <= 8,
        i <= d.len() ==> (runs_from(d, i, j) matches Ok((_, n)) ==> n <= d.len()),
    decreases 240 - j,
{
    if j < 240 && i + 1 < d.len() {
        let val = d[i as int] + d[i + 1int] * 64;
        let run = val % 240 + 1;
        if j + run <= 240 {
            lemma_runs_cells(d, i + 2, (j + run) as nat);
        }
    }
}

/// The four digits of the comment group at payload position `i`.
fn group_at(d: &Vec<u8>, i: usize) -> (r: (usize, usize, usize, usize))
    requires
        forall|t: int| 0 <= t < d@.len() ==> #[trigger] d@[t] < 64,
        i + 5 <= d@.len(),
    ensures
        group_digits(d@, i as int).len() == 4,
        group_digits(d@, i as int)[0] == r.0 as int,
        group_digits(d@, i as int)[1] == r.1 as int,
        group_digits(d@, i as int)[2] == r.2 as int,
        group_digits(d@, i as int)[3] == r.3 as int,
{
    let n = d.len();
    let a0 = d[i] as usize;
    let a1 = d[i + 1] as usize;
    let a2 = d[i + 2] as usize;
    let a3 = d[i + 3] as usize;
    let a4 = d[i + 4] as usize;
    assert(a0 < 64 && a1 < 64 && a2 < 64 && a3 < 64 && a4 < 64);
    let val: usize = a0 + a1 * 64 + a2 * 4096 + a3 * 262144 + a4 * 16777216;
    let r = (val % 96, (val / 96) % 96, (val / 9216) % 96, (val / 884736) % 96);
    reveal(group_digits);
    r
}

/// Reads the `(len + 3) / 4` comment groups at payload position `start` and
/// keeps the first `len` characters.
#[verifier::rlimit(50)]
fn decode_comment(d: &Vec<u8>, start: usize, len: usize) -> (r: Result<Vec<u8>, DecodeError>)
    requires
        forall|t: int| 0 <= t < d@.len() ==> #[trigger] d@[t] < 64,
        len < 4096,
        start + 5 * ((len + 3) / 4) <= d@.len(),
    ensures
        ({
            let g = ((len + 3) / 4) as nat;
            let digits = comment_digits(d@, start as int, g);
            if exists|k: int| 0 <= k < 4 * g && #[trigger] digits[k] >= 95 {
                r == Err::<Vec<u8>, DecodeError>(DecodeError::BadCommentChar)
            } else {
                r matches Ok(c) && c@ == digits.subrange(0, len as int).map_values(|v: int| (v + 32) as u8)
            }
        }),
        r matches Ok(c) ==> forall|k: int| 0 <= k < c@.len() ==> #[trigger] c@[k] < 128,
{
    let g: usize = (len + 3) / 4;
    let ghost digits = comment_digits(d@, start as int, g as nat);
    proof {
        lemma_comment_digits_prefix(d@, start as int, g as nat, g as nat);
    }
    let mut chars: Vec<u8> = Vec::new();
    let mut q: usize = 0;
    let n = d.len();
    while q < g
        invariant
            n == d@.len(),
            forall|t: int| 0 <= t < d@.len() ==> #[trigger] d@[t] < 64,
            forall|t: int| 0 <= t < chars@.len() ==> #[trigger] chars@[t] < 128,
            g == (len + 3) / 4,
            start + 5 * g <= d@.len(),
            q <= g,
            digits == comment_digits(d@, start as int, g as nat),
            digits.len() == 4 * g,
            chars@.len() == 4 * q,
            forall|k: int| 0 <= k < 4 * q ==> #[trigger] digits[k] < 95,
            forall|k: int| 0 <= k < 4 * q ==> #[trigger] chars@[k] == (digits[k] + 32) as u8,
        decreases g - q,
    {
        let i = start + 5 * q;
        let (c0, c1, c2, c3) = group_at(d, i);
        proof {
            lemma_group_in_digits(d@, start as int, q as nat, g as nat);
            let gd = group_digits(d@, start + 5 * q);
            let cd = comment_digits(d@, start as int, g as nat);
            assert(gd[0] == c0 && gd[1] == c1 && gd[2] == c2 && gd[3] == c3);
            assert(cd[4 * q + 0] == gd[0]) by {
                lemma_group_digit(d@, start as int, q as nat, g as nat, 0);
            }
            assert(cd[4 * q + 1] == gd[1]) by {
                lemma_group_digit(d@, start as int, q as nat, g as nat, 1);
            }
            assert(cd[4 * q + 2] == gd[2]) by {
                lemma_group_digit(d@, start as int, q as nat, g as nat, 2);
            }
            assert(cd[4 * q + 3] == gd[3]) by {
                lemma_group_digit(d@, start as int, q as nat, g as nat, 3);
            }
        }
        if c0 >= 95 || c1 >= 95 || c2 >= 95 || c3 >= 95 {
            proof {
                let cd = comment_digits(d@, start as int, g as nat);
                let k = if c0 >= 95 {
                    4 * q
                } else if c1 >= 95 {
                    4 * q + 1
                } else if c2 >= 95 {
                    4 * q + 2
                } else {
                    4 * q + 3
                };
                assert(0 <= k < 4 * g && comment_digits(d@, start as int, ((len + 3) / 4) as nat)[k] >= 95);
            }
            return Err(DecodeError::BadCommentChar);
        }
        chars.push((c0 + 32) as u8);
        chars.push((c1 + 32) as u8);
        chars.push((c2 + 32) as u8);
        chars.push((c3 + 32) as u8);
        q += 1;
    }
    let mut comment: Vec<u8> = Vec::new();
    let mut k: usize = 0;
    while k < len
        invariant
            len <= 4 * g,
            digits.len() == 4 * g,
            chars@.len() == 4 * g,
            forall|t: int| 0 <= t < 4 * g ==> #[trigger] digits[t] < 95,
            forall|t: int| 0 <= t < 4 * g ==> #[trigger] chars@[t] == (digits[t] + 32) as u8,
            forall|t: int| 0 <= t < chars@.len() ==> #[trigger] chars@[t] < 128,
            k <= len,
            comment@ =~= digits.subrange(0, k as int).map_values(|v: int| (v + 32) as u8),
            forall|t: int| 0 <= t < comment@.len() ==> #[trigger] comment@[t] < 128,
        decreases len - k,
    {
        comment.push(chars[k]);
        assert(comment@ =~= digits.subrange(0, k + 1).map_values(|v: int| (v + 32) as u8));
        k += 1;
    }
    Ok(comment)
}

/// Relies on std's `String::from_utf8`: bytes below 128 are valid UTF-8,
/// each the character of its own code.
#[verifier::external_body]
pub(crate) fn ascii_string(bytes: Vec<u8>) -> (s: String)
    requires
        forall|k: int| 0 <= k < bytes@.len() ==> #[trigger] bytes@[k] < 128,
    ensures
        s@ == bytes@.map_values(|b: u8| b as char),
{
    String::from_utf8(bytes).unwrap_or_default()
}

/// Reads the frame that a payload holds.
fn decode_frame(data: &Vec<u8>) -> (r: Result<(FieldMatrix, Vec<u8>), DecodeError>)
    requires
        forall|t: int| 0 <= t < data@.len() ==> #[trigger] data@[t] < 64,
    ensures
        match frame_of(data@) {
            Err(e) => r matches Err(e2) && e2 == e,
            Ok((cells, comment)) => r matches Ok((m, c)) && (forall|x: int, y: int|
                on_board(x, y) ==> cell(m, x, y) as usize == cells[y * 10 + x]) && c@ == comment,
        },
        r matches Ok((_, c)) ==> forall|k: int| 0 <= k < c@.len() ==> #[trigger] c@[k] < 128,
{
    reveal(frame_of);
    let (field, mut i) = match decode_runs(data) {
        Ok(r) => r,
        Err(e) => return Err(e),
    };
    proof {
        lemma_runs_cells(data@, 0, 0);
    }
    if data.len() - i < 3 {
        return Err(DecodeError::Truncated);
    }
    let val: usize = data[i] as usize + (data[i + 1] as usize) * 64 + (data[i + 2] as usize) * 4096;
    i += 3;
    let comment_bytes = if (val / 61440) % 2 == 0 {
        if data.len() > i {
            return Err(DecodeError::TrailingData);
        }
        Vec::new()
    } else {
        if data.len() - i < 2 {
            return Err(DecodeError::Truncated);
        }
        let len: usize = (data[i] as usize + (data[i + 1] as usize) * 64) % 4096;
        i += 2;
        let g: usize = (len + 3) / 4;
        if (data.len() - i) / 5 < g {
            return Err(DecodeError::Truncated);
        }
        let c = match decode_comment(data, i, len) {
            Ok(c) => c,
            Err(e) => return Err(e),
        };
        if data.len() - i > 5 * g {
            return Err(DecodeError::TrailingData);
        }
        c
    };
    let matrix = field_to_matrix(field);
    Ok((matrix, comment_bytes))
}

/// Reads a board string: a 5-character version tag, then the payload in the
/// 64-symbol alphabet (`?` ignored), holding one frame of 240 cells and an
/// optional comment.
pub fn decode(fumen_str: &str) -> (r: Result<(FieldMatrix, String), DecodeError>)
    ensures
        match decode_spec(fumen_str.spec_bytes()) {
            Err(e) => r matches Err(e2) && e2 == e,
            Ok((cells, comment)) => r matches Ok((m, c)) && (forall|x: int, y: int|
                on_board(x, y) ==> cell(m, x, y) as usize == cells[y * 10 + x]) && c@
                == comment.map_values(|b: u8| b as char),
        },
{
    let bytes = fumen_str.as_bytes();
    if bytes.len() < 5 {
        return Err(DecodeError::TooShort);
    }
    let data = match payload_values(bytes) {
        Ok(v) => v,
        Err(e) => return Err(e),
    };
    let (matrix, comment_bytes) = match decode_frame(&data) {
        Ok(r) => r,
        Err(e) => return Err(e),
    };
    let comment = ascii_string(comment_bytes);
    Ok((matrix, comment))
}

} // verus!
