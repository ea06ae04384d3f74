use lib::legal::parity;
use lib::model::{CubeState, StickerColor};
use lib::pieces::{
    available_colors, color_cn, color_idx, counts, empty_count, full_colors, is_center, name, opposite,
    piece_of, solved_corner_piece, solved_edge_piece, split, PieceKind, COLOR_ORDER,
};
use lib::validate::from_cube_state;

#[test]
fn board_index_splits_into_face_and_place() {
    assert_eq!(split(0), (0, 0));
    assert_eq!(split(20), (2, 2));
    assert_eq!(split(53), (5, 8));
}

#[test]
fn opposite_colours() {
    assert_eq!(opposite(StickerColor::W), StickerColor::Y);
    assert_eq!(opposite(StickerColor::Y), StickerColor::W);
    assert_eq!(opposite(StickerColor::R), StickerColor::O);
    assert_eq!(opposite(StickerColor::O), StickerColor::R);
    assert_eq!(opposite(StickerColor::B), StickerColor::G);
    assert_eq!(opposite(StickerColor::G), StickerColor::B);
}

#[test]
fn colour_names() {
    assert_eq!(color_cn(StickerColor::G), "绿");
    assert_eq!(color_cn(StickerColor::W), "白");
    assert_eq!(name(StickerColor::O), "O");
    for (k, c) in COLOR_ORDER.iter().enumerate() {
        assert_eq!(color_idx(*c), k);
    }
}

#[test]
fn solved_pieces() {
    assert_eq!(solved_corner_piece(0), [StickerColor::W, StickerColor::R, StickerColor::G]);
    assert_eq!(solved_edge_piece(0), [StickerColor::W, StickerColor::R]);
    assert_eq!(solved_edge_piece(8), [StickerColor::G, StickerColor::R]);
}

#[test]
fn centres_and_pieces() {
    assert!(is_center(4));
    assert!(is_center(49));
    assert!(!is_center(8));
    assert_eq!(piece_of(4), None);
    assert_eq!(piece_of(8), Some((PieceKind::Corner, 0, 0)));
    assert_eq!(piece_of(20), Some((PieceKind::Corner, 0, 2)));
    assert_eq!(piece_of(5), Some((PieceKind::Edge, 0, 0)));
}

#[test]
fn counts_and_gaps() {
    let mut c = from_cube_state(&CubeState::solved());
    assert_eq!(counts(&c), [9; 6]);
    assert_eq!(empty_count(&c), 0);
    assert_eq!(full_colors(&c), [true; 6]);
    assert!(available_colors(&c).is_empty());
    lib::pieces::set(&mut c, 20, None);
    assert_eq!(empty_count(&c), 1);
    assert_eq!(counts(&c)[color_idx(StickerColor::G)], 8);
    assert_eq!(available_colors(&c), vec![StickerColor::G]);
}

#[test]
fn arrangement_parity() {
    assert!(parity(&[0, 1, 2, 3]));
    assert!(!parity(&[1, 0, 2, 3]));
    assert!(parity(&[1, 2, 0]));
    assert!(!parity(&[3, 2, 1, 0, 4, 5, 6, 7, 9, 8, 10, 11]) || parity(&[3, 2, 1, 0, 4, 5, 6, 7, 9, 8, 10, 11]));
}
