use setup_percent::fumen::{decode, field_to_matrix, DecodeError};

#[test]
fn empty_board_without_comment() {
    let (field, comment) = decode("v115@vhAAg").unwrap();
    assert_eq!(field, [[0; 10]; 24]);
    assert_eq!(comment, "");
}

#[test]
fn line_breaks_are_ignored() {
    let (field, comment) = decode("v115@vh?AAg").unwrap();
    assert_eq!(field, [[0; 10]; 24]);
    assert_eq!(comment, "");
}

#[test]
fn grey_bottom_row() {
    let (field, _) = decode("v115@lhJ8AAg").unwrap();
    for y in 0..24 {
        for x in 0..10 {
            let expected = if y == 23 { 8 } else { 0 };
            assert_eq!(field[y][x], expected);
        }
    }
}

#[test]
fn comment_is_read() {
    let (field, comment) = decode("v115@vhAAPEABU4nD").unwrap();
    assert_eq!(field, [[0; 10]; 24]);
    assert_eq!(comment, "abcd");
}

#[test]
fn comment_padding_is_cut() {
    // declared length 3, the group still holds four characters
    let (_, comment) = decode("v115@vhAAPDABU4nD").unwrap();
    assert_eq!(comment, "abc");
}

#[test]
fn too_short() {
    assert_eq!(decode("v115"), Err(DecodeError::TooShort));
}

#[test]
fn bad_character() {
    assert_eq!(decode("v115@vh!Ag"), Err(DecodeError::BadCharacter(b'!')));
}

#[test]
fn truncated() {
    assert_eq!(decode("v115@v"), Err(DecodeError::Truncated));
    assert_eq!(decode("v115@vhAA"), Err(DecodeError::Truncated));
    assert_eq!(decode("v115@vhAAPEABU4n"), Err(DecodeError::Truncated));
}

#[test]
fn negative_cell() {
    assert_eq!(decode("v115@AA"), Err(DecodeError::BadCell));
}

#[test]
fn repeated_frame() {
    assert_eq!(decode("v115@uhAAg"), Err(DecodeError::RepeatedFrame));
}

#[test]
fn run_past_the_board() {
    assert_eq!(decode("v115@u/BeAAg"), Err(DecodeError::RunOverflow));
}

#[test]
fn unprintable_comment_digit() {
    assert_eq!(decode("v115@vhAAPEAfBAAA"), Err(DecodeError::BadCommentChar));
}

#[test]
fn trailing_data() {
    assert_eq!(decode("v115@vhAAgH"), Err(DecodeError::TrailingData));
    assert_eq!(decode("v115@vhAAPEABU4nDA"), Err(DecodeError::TrailingData));
}

#[test]
fn cells_laid_out_row_major() {
    let mut data = [0usize; 240];
    data[0] = 1;
    data[15] = 8;
    data[239] = 7;
    let m = field_to_matrix(data);
    assert_eq!(m[0][0], 1);
    assert_eq!(m[1][5], 8);
    assert_eq!(m[23][9], 7);
    assert_eq!(m[12][3], 0);
}
