use lib::feasible::{allowed_colors, can_paint, is_feasible};
use lib::model::{CubeState, StickerColor};
use lib::pieces::{color_idx, get, split, Cells, CENTER_IDX, FACE_COLOR};
use lib::propagate::propagate;
use lib::validate::from_cube_state;

fn solved() -> Cells {
    from_cube_state(&CubeState::solved())
}

fn centers_only() -> Cells {
    let mut c: Cells = [[None; 9]; 6];
    for f in 0..6 {
        c[f][CENTER_IDX] = Some(FACE_COLOR[f]);
    }
    c
}

#[test]
fn painting_a_centre_is_refused() {
    assert!(can_paint(&solved(), CENTER_IDX, StickerColor::R).is_err());
}

#[test]
fn opposite_colours_on_one_piece_are_refused() {
    let mut c = solved();
    c[0][8] = None;
    assert!(can_paint(&c, 8, StickerColor::Y).is_err());
}

#[test]
fn a_full_board_allows_replacing_a_sticker() {
    assert!(can_paint(&solved(), 8, StickerColor::R).is_ok());
}

#[test]
fn a_used_up_colour_is_refused_while_filling() {
    let mut c = solved();
    let (f, i) = split(20);
    c[f][i] = None;
    let r = can_paint(&c, 9, StickerColor::W);
    assert!(r.is_err());
}

#[test]
fn deduction_restores_a_removed_sticker() {
    let mut c = solved();
    let (f, i) = split(20);
    c[f][i] = None;
    let mut der = [[false; 9]; 6];
    let filled = propagate(&mut c, &mut der);
    assert_eq!(get(&c, 20), Some(StickerColor::G));
    assert_eq!(filled, vec![20]);
    assert!(der[2][2]);
}

#[test]
fn one_known_colour_is_not_enough_to_guess() {
    let mut c = centers_only();
    lib::pieces::set(&mut c, 8, Some(StickerColor::W));
    let mut der = [[false; 9]; 6];
    propagate(&mut c, &mut der);
    assert_eq!(get(&c, 20), None);
    assert_eq!(get(&c, 9), None);
}

#[test]
fn two_known_colours_fix_the_third() {
    let mut c = centers_only();
    lib::pieces::set(&mut c, 8, Some(StickerColor::W));
    lib::pieces::set(&mut c, 9, Some(StickerColor::R));
    let mut der = [[false; 9]; 6];
    propagate(&mut c, &mut der);
    assert_eq!(get(&c, 20), Some(StickerColor::G));
}

#[test]
fn the_quota_rule_refills_the_missing_white() {
    let mut c = solved();
    let (f, i) = split(8);
    c[f][i] = None;
    let mut der = [[false; 9]; 6];
    propagate(&mut c, &mut der);
    let left = (0..54).filter(|&g| get(&c, g).is_none()).count();
    assert_eq!(left, 0);
    assert_eq!(get(&c, 8), Some(StickerColor::W));
}

#[test]
fn propagation_sets_the_centres() {
    let mut c: Cells = [[None; 9]; 6];
    let mut der = [[false; 9]; 6];
    let filled = propagate(&mut c, &mut der);
    for f in 0..6 {
        assert_eq!(c[f][CENTER_IDX], Some(FACE_COLOR[f]));
    }
    assert!(filled.is_empty());
}

#[test]
fn a_colour_over_nine_is_infeasible() {
    let mut c = solved();
    let (f, i) = split(20);
    c[f][i] = None;
    let (f2, i2) = split(21);
    c[f2][i2] = Some(StickerColor::O);
    assert!(is_feasible(&c).is_err());
}

#[test]
fn a_corner_with_two_whites_is_infeasible() {
    let mut c = centers_only();
    lib::pieces::set(&mut c, 8, Some(StickerColor::W));
    lib::pieces::set(&mut c, 9, Some(StickerColor::W));
    assert!(is_feasible(&c).is_err());
}

#[test]
fn the_same_corner_twice_is_infeasible() {
    let mut c = centers_only();
    lib::pieces::set(&mut c, 8, Some(StickerColor::W));
    lib::pieces::set(&mut c, 9, Some(StickerColor::R));
    lib::pieces::set(&mut c, 20, Some(StickerColor::G));
    lib::pieces::set(&mut c, 2, Some(StickerColor::W));
    lib::pieces::set(&mut c, 45, Some(StickerColor::R));
    lib::pieces::set(&mut c, 11, Some(StickerColor::G));
    assert!(is_feasible(&c).is_err());
}

#[test]
fn a_legal_stroke_is_feasible() {
    let mut c = centers_only();
    lib::pieces::set(&mut c, 8, Some(StickerColor::W));
    lib::pieces::set(&mut c, 9, Some(StickerColor::R));
    lib::pieces::set(&mut c, 20, Some(StickerColor::G));
    assert!(is_feasible(&c).is_ok());
}

#[test]
fn a_solved_board_with_one_gap_is_feasible() {
    let mut c = solved();
    let (f, i) = split(20);
    c[f][i] = None;
    assert!(is_feasible(&c).is_ok());
}

#[test]
fn a_twisted_full_board_is_infeasible() {
    let mut c = solved();
    let (a, b, d) = (c[0][8], c[1][0], c[2][2]);
    c[0][8] = b;
    c[1][0] = d;
    c[2][2] = a;
    assert!(is_feasible(&c).is_err());
}

#[test]
fn the_picker_offers_only_the_right_third_colour() {
    let mut c = solved();
    lib::pieces::set(&mut c, 20, None);
    let allowed = allowed_colors(&c, 20);
    assert!(allowed[color_idx(StickerColor::G)]);
    assert!(!allowed[color_idx(StickerColor::B)]);
    assert!(!allowed[color_idx(StickerColor::W)]);
}

fn solved_keeping(keep: &[usize]) -> Cells {
    let full = solved();
    let mut c = centers_only();
    for &g in keep {
        lib::pieces::set(&mut c, g, get(&full, g));
    }
    c
}

#[test]
fn more_entered_stickers_never_lose_a_deduction() {
    let small = [8usize, 9, 1, 46, 30];
    let large = [8usize, 9, 1, 46, 30, 3, 12, 38, 27, 50];
    let mut a = solved_keeping(&small);
    let mut b = solved_keeping(&large);
    let mut da = [[false; 9]; 6];
    let mut db = [[false; 9]; 6];
    propagate(&mut a, &mut da);
    propagate(&mut b, &mut db);
    for g in 0..54 {
        if let Some(x) = get(&a, g) {
            assert_eq!(get(&b, g), Some(x), "sticker {g}");
        }
    }
    assert_eq!(get(&a, 20), Some(StickerColor::G));
}

#[test]
fn refusals_name_the_rule_that_was_broken() {
    assert_eq!(
        can_paint(&solved(), CENTER_IDX, StickerColor::R),
        Err("中心块固定,不可更改".to_string())
    );
    let mut c = solved();
    c[0][8] = None;
    assert_eq!(
        can_paint(&c, 8, StickerColor::Y),
        Err("「黄」已放满 9 格;还可以用:白".to_string())
    );
    let mut c = centers_only();
    lib::pieces::set(&mut c, 9, Some(StickerColor::O));
    assert_eq!(
        can_paint(&c, 8, StickerColor::R),
        Err("同一角块上不能同时有 R 和 O(对面色)".to_string())
    );
    let mut c = centers_only();
    lib::pieces::set(&mut c, 10, Some(StickerColor::B));
    assert_eq!(
        can_paint(&c, 5, StickerColor::G),
        Err("同一棱块上不能同时有 G 和 B(对面色)".to_string())
    );
}

#[test]
fn infeasible_boards_are_explained() {
    let mut c = solved();
    lib::pieces::set(&mut c, 9, Some(StickerColor::W));
    assert_eq!(is_feasible(&c), Err("「白」会有 10 格(每种最多 9 格)".to_string()));

    let mut c = centers_only();
    lib::pieces::set(&mut c, 8, Some(StickerColor::W));
    lib::pieces::set(&mut c, 9, Some(StickerColor::W));
    lib::pieces::set(&mut c, 20, Some(StickerColor::R));
    assert_eq!(is_feasible(&c), Err("角位 1 会是 白白红,不存在这样一个角块".to_string()));

    let mut c = centers_only();
    lib::pieces::set(&mut c, 5, Some(StickerColor::W));
    lib::pieces::set(&mut c, 10, Some(StickerColor::W));
    assert_eq!(is_feasible(&c), Err("棱位 1 会是 白白,不存在这样一个棱块".to_string()));

    let mut c = centers_only();
    lib::pieces::set(&mut c, 8, Some(StickerColor::W));
    lib::pieces::set(&mut c, 9, Some(StickerColor::Y));
    assert_eq!(is_feasible(&c), Err("角位 1 已经没有任何角块可放".to_string()));
}
