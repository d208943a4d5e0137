use setup_percent::fieldmatrix::FieldMatrix;
use setup_percent::piece::{
    can_harddrop, fumen_index_to_piece_type, impossibilites, piece_block_positions,
    piece_fits_over, piece_type_to_fumen_index, place_piece_on_field, Piece, PieceType, Rotation,
};
use setup_percent::piece_col::PieceCollision;

fn empty() -> FieldMatrix {
    [[0; 10]; 24]
}

#[test]
fn test_piece_block_positions() {
    let mut piece = Piece {
        piece_type: PieceType::I,
        position: (1, 1),
        rotation: Rotation::Normal,
    };

    assert!(piece_block_positions(piece) != None);

    piece.position = (0, 0);
    assert!(piece_block_positions(piece) != None);

    piece.position = (9, 0);
    assert!(piece_block_positions(piece) == None);

    piece.position = (7, 16);
    piece.rotation = Rotation::Right;
    assert!(piece_block_positions(piece) == Some(vec![(9, 16), (9, 17), (9, 18), (9, 19)]));
}

#[test]
fn test_can_harddrop() {
    let mut piece = Piece {
        piece_type: PieceType::I,
        position: (1, 1),
        rotation: Rotation::Normal,
    };

    let field = [[0; 10]; 24];

    assert!(can_harddrop(piece, &field) == false);

    piece.position = (0, 22);
    assert!(can_harddrop(piece, &field) == true);

    piece.position = (6, 22);
    assert!(can_harddrop(piece, &field) == true);
}

#[test]
fn hard_drop_at_row_22_in_every_column() {
    let field = empty();
    for x in 0..=6 {
        let piece = Piece {
            piece_type: PieceType::I,
            position: (x, 22),
            rotation: Rotation::Normal,
        };
        assert!(can_harddrop(piece, &field));
    }
}

#[test]
fn hard_drop_blocked_from_above() {
    let mut field = empty();
    field[10][0] = 8;
    let piece = Piece {
        piece_type: PieceType::I,
        position: (0, 22),
        rotation: Rotation::Normal,
    };
    assert!(!can_harddrop(piece, &field));
}

#[test]
fn block_positions_off_board() {
    let piece = Piece {
        piece_type: PieceType::I,
        position: (8, 16),
        rotation: Rotation::Right,
    };
    assert_eq!(piece_block_positions(piece), None);
    let far = Piece {
        piece_type: PieceType::T,
        position: (isize::MAX, isize::MIN),
        rotation: Rotation::Left,
    };
    assert_eq!(piece_block_positions(far), None);
}

#[test]
fn block_positions_of_each_rotation() {
    let mut t = Piece {
        piece_type: PieceType::T,
        position: (0, 0),
        rotation: Rotation::Normal,
    };
    assert_eq!(piece_block_positions(t), Some(vec![(1, 0), (0, 1), (1, 1), (2, 1)]));
    t.rotation = Rotation::Right;
    assert_eq!(piece_block_positions(t), Some(vec![(1, 0), (1, 1), (2, 1), (1, 2)]));
    t.rotation = Rotation::Double;
    assert_eq!(piece_block_positions(t), Some(vec![(0, 1), (1, 1), (2, 1), (1, 2)]));
    t.rotation = Rotation::Left;
    assert_eq!(piece_block_positions(t), Some(vec![(1, 0), (0, 1), (1, 1), (1, 2)]));
    let o = Piece {
        piece_type: PieceType::O,
        position: (8, 22),
        rotation: Rotation::Double,
    };
    assert_eq!(piece_block_positions(o), Some(vec![(8, 22), (9, 22), (8, 23), (9, 23)]));
}

#[test]
fn collision_rotations() {
    let mut col = PieceCollision::new_3([[0, 1, 0], [1, 1, 1], [0, 0, 0]]);
    assert_eq!(col.flat_iter(), vec![0, 1, 0, 1, 1, 1, 0, 0, 0]);
    col.set_rotation(Rotation::Right);
    assert_eq!(col.flat_iter(), vec![0, 1, 0, 0, 1, 1, 0, 1, 0]);
    col.set_rotation(Rotation::Double);
    assert_eq!(col.flat_iter(), vec![0, 0, 0, 1, 1, 1, 0, 1, 0]);
    col.set_rotation(Rotation::Left);
    assert_eq!(col.flat_iter(), vec![0, 1, 0, 1, 1, 0, 0, 1, 0]);
    let o = PieceCollision::new_2([[1, 1], [1, 1]]);
    assert_eq!(o.flat_iter(), vec![1, 1, 1, 1]);
    let mut i = PieceCollision::new_4([[0, 0, 0, 0], [1, 1, 1, 1], [0, 0, 0, 0], [0, 0, 0, 0]]);
    i.set_rotation(Rotation::Right);
    assert_eq!(i.flat_iter(), vec![0, 0, 1, 0, 0, 0, 1, 0, 0, 0, 1, 0, 0, 0, 1, 0]);
}

#[test]
fn marker_codes_round_trip() {
    let types = [
        PieceType::S,
        PieceType::Z,
        PieceType::L,
        PieceType::J,
        PieceType::T,
        PieceType::O,
        PieceType::I,
    ];
    for t in types.iter() {
        let i = piece_type_to_fumen_index(*t);
        assert!((1..=7).contains(&i));
        assert_eq!(fumen_index_to_piece_type(i), Ok(*t));
    }
    assert_eq!(piece_type_to_fumen_index(PieceType::I), 1);
    assert_eq!(piece_type_to_fumen_index(PieceType::S), 7);
    assert!(fumen_index_to_piece_type(0).is_err());
    assert!(fumen_index_to_piece_type(8).is_err());
}

#[test]
fn letters_of_piece_types() {
    assert_eq!(PieceType::S.to_letter(), 'S');
    assert_eq!(PieceType::J.to_letter(), 'J');
    assert_eq!(PieceType::I.to_letter(), 'I');
}

#[test]
fn fits_over_markers() {
    let mut field = empty();
    for x in 0..4 {
        field[23][x] = 1;
    }
    let piece = Piece {
        piece_type: PieceType::I,
        position: (0, 22),
        rotation: Rotation::Normal,
    };
    assert_eq!(piece_fits_over(piece, 1, &field), Some(true));
    assert_eq!(piece_fits_over(piece, 0, &field), Some(false));
    let off = Piece {
        position: (7, 22),
        ..piece
    };
    assert_eq!(piece_fits_over(off, 1, &field), None);
}

#[test]
fn place_overwrites_cells() {
    let mut field = empty();
    field[23][0] = 8;
    let piece = Piece {
        piece_type: PieceType::L,
        position: (0, 22),
        rotation: Rotation::Normal,
    };
    place_piece_on_field(piece, &mut field);
    // L at Normal: (2, 22), (0, 23), (1, 23), (2, 23)
    assert_eq!(field[22][2], 2);
    assert_eq!(field[23][0], 2);
    assert_eq!(field[23][1], 2);
    assert_eq!(field[23][2], 2);
    assert_eq!(field[22][0], 0);
    assert_eq!(field[23][3], 0);
}

#[test]
fn unsupported_pieces_are_reported() {
    let field = empty();
    let floating = Piece {
        piece_type: PieceType::O,
        position: (0, 10),
        rotation: Rotation::Normal,
    };
    let resting = Piece {
        piece_type: PieceType::O,
        position: (4, 22),
        rotation: Rotation::Normal,
    };
    let found = impossibilites(&vec![floating, resting], &field);
    assert_eq!(found.len(), 1);
    assert_eq!(found[0].position, (0, 10));
}

#[test]
fn offset_moves_the_anchor() {
    let piece = Piece {
        piece_type: PieceType::Z,
        position: (4, 10),
        rotation: Rotation::Double,
    };
    let left = piece.clone_with_offset(1, 0);
    assert_eq!(left.position, (3, 10));
    let up = piece.clone_with_offset(0, 1);
    assert_eq!(up.position, (4, 9));
    assert_eq!(up.rotation, Rotation::Double);
}

#[test]
fn collision_cells_by_position() {
    let mut col = PieceCollision::new_3([[1, 0, 0], [1, 1, 1], [0, 0, 0]]);
    assert_eq!(col.index(0, 0), 1);
    assert_eq!(col.index(1, 0), 0);
    assert_eq!(col.index(2, 1), 1);
    col.set_rotation(Rotation::Right);
    // J turned clockwise: the corner moves to the top right
    assert_eq!(col.index(2, 0), 1);
    assert_eq!(col.index(0, 0), 0);
}
