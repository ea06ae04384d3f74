use lib::facelets::parse_facelets;
use lib::model::{CubeState, StickerColor};
use lib::pieces::{get, split, Cells, CENTER_IDX, CORNER_FACELETS, EDGE_FACELETS, FACE_COLOR};
use lib::validate::{contradiction_cells, contradictions, from_cube_state, to_cube_state, to_cube_state_lenient, validate};

const SCRAMBLED: &str = "FFUBUFURBLLRURDRBDFFDRFBBDUULFLDDRLBDRLRLUFBLBULFBDRUD";

fn solved() -> Cells {
    from_cube_state(&CubeState::solved())
}

fn scrambled() -> Cells {
    from_cube_state(&parse_facelets(SCRAMBLED).expect("valid scramble"))
}

#[test]
fn solved_board_is_valid() {
    assert!(validate(&solved()).is_ok());
}

#[test]
fn scrambled_board_is_valid() {
    assert!(validate(&scrambled()).is_ok());
}

#[test]
fn one_move_boards_are_valid() {
    for s in [
        "UUFUUFUUFRRRRRRRRRFFDFFDFFDDDBDDBDDBLLLLLLLLLUBBUBBUBB",
        "UUUUUUUUUBBBRRRRRRRRRFFFFFFDDDDDDDDDFFFLLLLLLLLLBBBBBB",
    ] {
        let st = parse_facelets(s).expect("legal after one turn");
        assert!(validate(&from_cube_state(&st)).is_ok());
    }
}

#[test]
fn single_corner_twist_is_invalid() {
    let mut c = scrambled();
    let (a, b, d) = (c[0][8], c[1][0], c[2][2]);
    c[0][8] = b;
    c[1][0] = d;
    c[2][2] = a;
    let r = validate(&c);
    assert!(r.is_err());
    assert!(!r.unwrap_err().is_empty());
}

#[test]
fn single_edge_flip_is_invalid() {
    let st = parse_facelets(SCRAMBLED).unwrap();
    let mut c = from_cube_state(&st);
    c[0][5] = Some(st.R[1]);
    c[1][1] = Some(st.U[5]);
    assert!(validate(&c).is_err());
}

#[test]
fn two_swapped_edges_are_invalid() {
    let mut c = scrambled();
    for (fa, ia, fb, ib) in [(0usize, 5usize, 0usize, 7usize), (1, 1, 2, 1)] {
        let t = c[fa][ia];
        c[fa][ia] = c[fb][ib];
        c[fb][ib] = t;
    }
    assert!(validate(&c).is_err());
}

#[test]
fn wrong_center_is_invalid() {
    let mut c = solved();
    c[0][CENTER_IDX] = Some(StickerColor::R);
    assert!(validate(&c).is_err());
}

#[test]
fn unfilled_board_is_invalid() {
    let mut c = solved();
    c[3][7] = None;
    assert!(validate(&c).is_err());
}

#[test]
fn full_board_converts_to_state_and_back() {
    let c = scrambled();
    let st = to_cube_state(&c).expect("full board");
    assert_eq!(from_cube_state(&st), c);
}

#[test]
fn partial_board_has_no_state() {
    let mut c = solved();
    lib::pieces::set(&mut c, 20, None);
    assert!(to_cube_state(&c).is_none());
}

#[test]
fn lenient_state_fills_unknown_with_face_colour() {
    let mut c = scrambled();
    lib::pieces::set(&mut c, 20, None);
    let st = to_cube_state_lenient(&c);
    assert_eq!(st.F[2], StickerColor::G);
    assert_eq!(st.U, to_cube_state(&scrambled()).unwrap().U);
}

#[test]
fn impossible_corner_is_a_contradiction() {
    let mut c: Cells = [[None; 9]; 6];
    for f in 0..6 {
        c[f][CENTER_IDX] = Some(FACE_COLOR[f]);
    }
    lib::pieces::set(&mut c, 8, Some(StickerColor::W));
    lib::pieces::set(&mut c, 9, Some(StickerColor::W));
    let cells = contradiction_cells(&c);
    assert_eq!(cells, vec![CORNER_FACELETS[0][0], CORNER_FACELETS[0][1], CORNER_FACELETS[0][2]]);
    let msgs = contradictions(&c);
    assert_eq!(msgs.len(), 1);
    assert!(msgs[0].contains("角位 1"));
}

#[test]
fn consistent_partial_board_has_no_contradiction() {
    let mut c = solved();
    lib::pieces::set(&mut c, 20, None);
    assert!(contradiction_cells(&c).is_empty());
    assert!(contradictions(&c).is_empty());
}

#[test]
fn edge_facelets_are_on_two_faces() {
    for e in EDGE_FACELETS {
        let (f0, _) = split(e[0]);
        let (f1, _) = split(e[1]);
        assert_ne!(f0, f1);
    }
    assert_eq!(get(&solved(), 20), Some(StickerColor::G));
}

#[test]
fn a_wrong_centre_is_reported_with_the_counts() {
    let mut c = solved();
    c[0][CENTER_IDX] = Some(StickerColor::R);
    let errs = validate(&c).unwrap_err();
    assert_eq!(
        errs,
        vec![
            "第 U 面中心必须是 W(当前 R)".to_string(),
            "有颜色超过 9 格:W:8 Y:9 R:10 O:9 B:9 G:9".to_string(),
        ]
    );
}

#[test]
fn missing_stickers_are_reported_first() {
    let mut c = solved();
    c[3][7] = None;
    c[5][0] = None;
    let errs = validate(&c).unwrap_err();
    assert_eq!(errs[0], "还有 2 格未填");
}

#[test]
fn orientation_and_parity_faults_get_their_messages() {
    let mut c = solved();
    let (a, b, d) = (c[0][8], c[1][0], c[2][2]);
    c[0][8] = b;
    c[1][0] = d;
    c[2][2] = a;
    let errs = validate(&c).unwrap_err();
    assert_eq!(errs.len(), 1);
    assert!(
        errs[0] == "角块朝向和不合法(和为 1,必须能被 3 整除)—— 典型:单个角块被扭转"
            || errs[0] == "角块朝向和不合法(和为 2,必须能被 3 整除)—— 典型:单个角块被扭转",
        "{}",
        errs[0]
    );

    let mut c = solved();
    let t = c[0][5];
    c[0][5] = c[1][1];
    c[1][1] = t;
    assert_eq!(validate(&c).unwrap_err(), vec!["棱块朝向和不合法(翻转数 1)—— 典型:单个棱块被翻转".to_string()]);

    let mut c = solved();
    for (fa, ia, fb, ib) in [(0usize, 5usize, 0usize, 7usize), (1, 1, 2, 1)] {
        let t = c[fa][ia];
        c[fa][ia] = c[fb][ib];
        c[fb][ib] = t;
    }
    assert_eq!(validate(&c).unwrap_err(), vec!["角块与棱块排列奇偶性不一致 —— 典型:只交换了两个块".to_string()]);
}

#[test]
fn a_corner_that_is_no_real_piece_is_named() {
    let mut c = solved();
    let t = c[0][8];
    c[0][8] = c[3][2];
    c[3][2] = t;
    assert_eq!(
        validate(&c).unwrap_err(),
        vec![
            "角位 1 的配色 YRG 不是任何合法角块".to_string(),
            "角位 5 的配色 WGR 不是任何合法角块".to_string(),
        ]
    );
}

#[test]
fn a_full_board_reports_counts_and_pieces_together() {
    let mut c = solved();
    lib::pieces::set(&mut c, 0, Some(StickerColor::R));
    assert_eq!(
        validate(&c),
        Err(vec![
            "有颜色超过 9 格:W:8 Y:9 R:10 O:9 B:9 G:9".to_string(),
            "角位 3 的配色 ROB 不是任何合法角块".to_string(),
        ])
    );
}
