use setup_percent::field::{discard_bottom, split_color, PercentageOptions};
use setup_percent::fieldmatrix::FieldMatrix;
use setup_percent::percentage::{count_working_orders, ordering_works};
use setup_percent::piece::{Piece, PieceType, Rotation};
use setup_percent::placement::piece_can_be_placed;

fn empty() -> FieldMatrix {
    [[0; 10]; 24]
}

fn o_piece(x: isize, y: isize) -> Piece {
    Piece {
        piece_type: PieceType::O,
        position: (x, y),
        rotation: Rotation::Normal,
    }
}

fn roofed() -> FieldMatrix {
    let mut field = empty();
    for x in 0..6 {
        field[20][x] = 8;
    }
    field
}

#[test]
fn soft_drop_reaches_under_a_roof() {
    let field = roofed();
    let piece = o_piece(0, 22);
    assert!(!piece_can_be_placed(piece, &field, PercentageOptions::new(false, false, false)));
    assert!(piece_can_be_placed(piece, &field, PercentageOptions::new(false, true, false)));
}

#[test]
fn soft_drop_cannot_reach_a_closed_pocket() {
    let mut field = roofed();
    field[22][2] = 8;
    field[23][2] = 8;
    let piece = o_piece(0, 22);
    assert!(!piece_can_be_placed(piece, &field, PercentageOptions::new(false, true, false)));
}

#[test]
fn floating_piece_is_never_placed() {
    let field = empty();
    let piece = o_piece(3, 5);
    assert!(!piece_can_be_placed(piece, &field, PercentageOptions::new(false, true, false)));
}

#[test]
fn single_placeable_piece_is_full_percentage() {
    let r = count_working_orders(&empty(), &vec![o_piece(4, 22)], PercentageOptions::new(false, false, false));
    assert_eq!(r.total, 1);
    assert_eq!(r.works, 1);
}

#[test]
fn single_unplaceable_piece_is_zero_percentage() {
    let r = count_working_orders(&roofed(), &vec![o_piece(0, 22)], PercentageOptions::new(false, false, false));
    assert_eq!(r.total, 1);
    assert_eq!(r.works, 0);
}

#[test]
fn stacked_pieces_work_in_one_order_of_two() {
    let pieces = vec![o_piece(0, 20), o_piece(0, 22)];
    let r = count_working_orders(&empty(), &pieces, PercentageOptions::new(false, true, false));
    assert_eq!(r.total, 2);
    assert_eq!(r.works, 1);
    assert!(ordering_works(&empty(), &pieces, &vec![1, 0], PercentageOptions::new(false, true, false)));
    assert!(!ordering_works(&empty(), &pieces, &vec![0, 1], PercentageOptions::new(false, true, false)));
}

#[test]
fn three_pieces_give_six_orders() {
    let pieces = vec![o_piece(0, 22), o_piece(4, 22), o_piece(8, 22)];
    let r = count_working_orders(&empty(), &pieces, PercentageOptions::new(false, false, false));
    assert_eq!(r.total, 6);
    assert_eq!(r.works, 6);
}

#[test]
fn no_pieces_is_one_working_order() {
    let r = count_working_orders(&empty(), &Vec::new(), PercentageOptions::new(false, false, false));
    assert_eq!(r.total, 1);
    assert_eq!(r.works, 1);
}

#[test]
fn options_keep_their_flags() {
    let o = PercentageOptions::new(true, false, true);
    assert!(o.hold);
    assert!(!o.soft_drop);
    assert!(o.spin);
}

#[test]
fn split_keeps_grey_apart_from_markers() {
    let mut field = empty();
    field[0][0] = 8;
    field[0][1] = 3;
    let (grey, markers) = split_color(field);
    assert_eq!(grey[0][0], 8);
    assert_eq!(grey[0][1], 0);
    assert_eq!(markers[0][0], 0);
    assert_eq!(markers[0][1], 3);
}

#[test]
fn bottom_row_is_discarded() {
    let mut field = empty();
    field[23][4] = 8;
    field[22][4] = 8;
    let (rest, rows) = discard_bottom(field);
    assert_eq!(rows.len(), 1);
    assert_eq!(rows[0][4], 8);
    assert_eq!(rest[23][4], 0);
    assert_eq!(rest[22][4], 8);
}

#[test]
fn four_pieces_give_twenty_four_orders() {
    let pieces = vec![o_piece(0, 22), o_piece(0, 20), o_piece(4, 22), o_piece(8, 22)];
    let r = count_working_orders(&empty(), &pieces, PercentageOptions::new(false, false, false));
    assert_eq!(r.total, 24);
    // the stacked O must come after the one below it: half of the orders
    assert_eq!(r.works, 12);
}

#[test]
fn reordering_the_pieces_keeps_the_count() {
    let pieces = vec![o_piece(0, 20), o_piece(0, 22), o_piece(6, 22)];
    let mut reversed = pieces.clone();
    reversed.reverse();
    let options = PercentageOptions::new(false, true, false);
    let a = count_working_orders(&empty(), &pieces, options);
    let b = count_working_orders(&empty(), &reversed, options);
    assert_eq!(a.total, 6);
    // the upper O works after the lower one, or after the O at (6, 22),
    // onto which it can drop before sliding left
    assert_eq!(a.works, 4);
    assert_eq!(b.total, a.total);
    assert_eq!(b.works, a.works);
}

#[test]
fn hard_drop_in_a_shaft_without_sideways_room() {
    // a one-wide shaft: the I piece can only come straight down
    let mut field = empty();
    for y in 0..24 {
        field[y][0] = 8;
        field[y][2] = 8;
    }
    let piece = Piece {
        piece_type: PieceType::I,
        position: (-1, 20),
        rotation: Rotation::Right,
    };
    assert!(piece_can_be_placed(piece, &field, PercentageOptions::new(false, true, false)));
    assert!(piece_can_be_placed(piece, &field, PercentageOptions::new(false, false, false)));
}
