use setup_percent::extract::{color_field_to_pieces, find_unused_points, ExtractError};
use setup_percent::fieldmatrix::FieldMatrix;
use setup_percent::piece::{Piece, PieceType, Rotation};

fn empty() -> FieldMatrix {
    [[0; 10]; 24]
}

fn i_piece(x: isize, y: isize, rotation: Rotation) -> Piece {
    Piece {
        piece_type: PieceType::I,
        position: (x, y),
        rotation,
    }
}

#[test]
fn piece_explains_its_own_footprint() {
    let pieces = vec![i_piece(1, 1, Rotation::Normal)];
    let mut field = empty();
    assert!(find_unused_points(&pieces, &field).is_empty());
    for x in 1..5 {
        field[2][x] = 1;
    }
    assert!(find_unused_points(&pieces, &field).is_empty());
}

#[test]
fn unrelated_marker_is_one_unused_point() {
    let pieces = vec![i_piece(1, 1, Rotation::Normal)];
    let mut field = empty();
    for x in 1..5 {
        field[2][x] = 1;
    }
    field[0][0] = 2;
    assert_eq!(find_unused_points(&pieces, &field), vec![(0, 0)]);
}

#[test]
fn second_piece_footprint_leaves_nothing_unused() {
    let vertical = i_piece(0, 1, Rotation::Right);
    let pieces = vec![i_piece(1, 1, Rotation::Normal), vertical];
    let mut field = empty();
    for y in 1..5 {
        field[y][2] = 3;
    }
    assert!(find_unused_points(&pieces, &field).is_empty());
}

#[test]
fn unused_points_come_in_row_major_order_and_skip_grey() {
    let pieces: Vec<Piece> = Vec::new();
    let mut field = empty();
    field[5][3] = 4;
    field[1][7] = 1;
    field[1][2] = 6;
    field[9][9] = 8;
    assert_eq!(find_unused_points(&pieces, &field), vec![(2, 1), (7, 1), (3, 5)]);
}

#[test]
fn single_i_piece_is_extracted() {
    let mut field = empty();
    for x in 0..4 {
        field[23][x] = 1;
    }
    let pieces = color_field_to_pieces(field).unwrap();
    assert_eq!(pieces.len(), 1);
    assert_eq!(pieces[0].piece_type, PieceType::I);
    assert_eq!(pieces[0].rotation, Rotation::Normal);
    assert_eq!(pieces[0].position, (0, 22));
}

#[test]
fn vertical_piece_is_extracted() {
    let mut field = empty();
    for y in 20..24 {
        field[y][9] = 1;
    }
    let pieces = color_field_to_pieces(field).unwrap();
    assert_eq!(pieces.len(), 1);
    assert_eq!(pieces[0].rotation, Rotation::Right);
    assert_eq!(pieces[0].position, (7, 20));
}

#[test]
fn overlapping_candidates_are_ambiguous() {
    let mut field = empty();
    for x in 0..5 {
        field[23][x] = 1;
    }
    match color_field_to_pieces(field) {
        Err(ExtractError::Ambiguous(points)) => {
            assert_eq!(points, vec![(1, 23), (2, 23), (3, 23)]);
        }
        other => panic!("expected ambiguity, got {:?}", other),
    }
}

#[test]
fn lone_marker_is_unused() {
    let mut field = empty();
    field[23][4] = 2;
    match color_field_to_pieces(field) {
        Err(ExtractError::Unused(points)) => assert_eq!(points, vec![(4, 23)]),
        other => panic!("expected unused points, got {:?}", other),
    }
}

#[test]
fn unknown_marker_is_refused() {
    let mut field = empty();
    field[3][3] = 9;
    match color_field_to_pieces(field) {
        Err(ExtractError::UnknownMarker(9)) => {}
        other => panic!("expected an unknown marker, got {:?}", other),
    }
}

#[test]
fn empty_marker_grid_has_no_pieces() {
    let pieces = color_field_to_pieces(empty()).unwrap();
    assert!(pieces.is_empty());
}

#[test]
fn test_unused_points() {
    let piece = Piece {
        piece_type: PieceType::I,
        position: (1, 1),
        rotation: Rotation::Normal,
    };

    let mut pieces = Vec::new();
    pieces.push(piece);

    let mut field = [[0; 10]; 24];
    assert!(find_unused_points(&pieces, &field).len() == 0);

    // An I marker that the piece does not cover is unused: only grey cells
    // are cleared before the check.
    field[1][5] = 1;
    assert!(find_unused_points(&pieces, &field) == vec![(5, 1)]);

    field[0][0] = 2;
    let points = find_unused_points(&pieces, &field);
    assert!(points.len() == 2);
    assert!(points[0] == (0, 0));
    field[0][0] = 0;

    field[1][2] = 3;
    field[2][2] = 3;
    field[3][2] = 3;
    field[4][2] = 3;

    // The piece covers (2, 2) only; the other markers stay unused.
    assert!(find_unused_points(&pieces, &field) == vec![(2, 1), (5, 1), (2, 3), (2, 4)]);
}
