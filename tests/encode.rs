use setup_percent::encoder::encode;
use setup_percent::fieldmatrix::FieldMatrix;
use setup_percent::fumen::decode;

fn empty() -> FieldMatrix {
    [[0; 10]; 24]
}

#[test]
fn empty_board_encodes_to_one_run() {
    assert_eq!(encode(&vec![(empty(), "")]), "v115@vhAAe");
}

#[test]
fn comment_is_packed() {
    assert_eq!(encode(&vec![(empty(), "abcd")]), "v115@vhAAtEABU4nD");
    let (field, comment) = decode("v115@vhAAtEABU4nD").unwrap();
    assert_eq!(field, empty());
    assert_eq!(comment, "abcd");
}

#[test]
fn run_of_239_empty_cells_is_split() {
    let mut field = empty();
    field[23][9] = 8;
    let text = encode(&vec![(field, "")]);
    assert_eq!(text, "v115@thAeA8AAe");
    let (back, comment) = decode(&text).unwrap();
    assert_eq!(back, field);
    assert_eq!(comment, "");
}

#[test]
fn long_output_gets_line_breaks() {
    let comment = "0123456789012345678901234567890123456789";
    let text = encode(&vec![(empty(), comment)]);
    assert_eq!(text.as_bytes()[5 + 47], b'?');
    assert_eq!(text.matches('?').count(), 1);
    let (back, c) = decode(&text).unwrap();
    assert_eq!(back, empty());
    assert_eq!(c, comment);
}

#[test]
fn round_trip_of_a_busy_board() {
    let mut field = empty();
    for y in 0..24 {
        for x in 0..10 {
            field[y][x] = ((x * 7 + y * 3) % 9) as u8;
        }
    }
    let comment = "Setup: { ~ } [x] #1 (all clears!)";
    let text = encode(&vec![(field, comment)]);
    let (back, c) = decode(&text).unwrap();
    assert_eq!(back, field);
    assert_eq!(c, comment);
}

#[test]
fn round_trip_of_the_longest_comment() {
    let comment: String = std::iter::repeat("~ ").take(2047).collect::<String>() + "!";
    assert_eq!(comment.len(), 4095);
    let mut field = empty();
    field[0][0] = 5;
    let text = encode(&vec![(field, comment.as_str())]);
    let (back, c) = decode(&text).unwrap();
    assert_eq!(back, field);
    assert_eq!(c, comment);
}

#[test]
fn unchanged_second_frame() {
    let text = encode(&vec![(empty(), ""), (empty(), "")]);
    assert_eq!(text, "v115@vhAAevhAAA");
}

#[test]
fn second_frame_with_a_new_comment() {
    let text = encode(&vec![(empty(), ""), (empty(), "x")]);
    assert_eq!(text, "v115@vhAAevhAAPBAYBAAA");
}

#[test]
fn second_frame_is_written_against_the_first() {
    let mut first = empty();
    first[0][0] = 8;
    let text = encode(&vec![(first, ""), (empty(), "")]);
    // first frame: one grey cell, then 239 empty cells split as 238 and 1;
    // second frame: the grey cell removed (code 0), then 239 unchanged cells
    assert_eq!(text, "v115@A8thAeAAeAAthAeAAA");
}
