use lib::facelets::{cells_to_facelets, parse_facelets};
use lib::model::{CubeState, StickerColor};
use lib::validate::from_cube_state;

const SCRAMBLED: &str = "FFUBUFURBLLRURDRBDFFDRFBBDUULFLDDRLBDRLRLUFBLBULFBDRUD";

#[test]
fn the_solved_text_parses() {
    let st = parse_facelets("UUUUUUUUURRRRRRRRRFFFFFFFFFDDDDDDDDDLLLLLLLLLBBBBBBBBB").unwrap();
    assert_eq!(st, CubeState::solved());
}

#[test]
fn colour_letters_case_and_spaces_are_accepted() {
    let st = parse_facelets("wwwwwwwww rrrrrrrrr ggggggggg\nyyyyyyyyy ooooooooo bbbbbbbbb").unwrap();
    assert_eq!(st, CubeState::solved());
}

#[test]
fn a_scramble_round_trips_through_text() {
    let st = parse_facelets(SCRAMBLED).unwrap();
    let text = cells_to_facelets(&from_cube_state(&st));
    let back = parse_facelets(&text).unwrap();
    assert_eq!(back, st);
    assert_eq!(st.U[0], StickerColor::G);
}

#[test]
fn an_illegal_text_is_refused_with_the_reason() {
    let r = parse_facelets("RUUUUUUUURRRRRRRRRFFFFFFFFFDDDDDDDDDLLLLLLLLLBBBBBBBBB");
    let e = r.unwrap_err();
    assert!(e.starts_with("状态不合法: "));
}

#[test]
fn a_short_text_is_refused() {
    let r = parse_facelets("UUUU");
    assert_eq!(r, Err("需要 54 个字符,收到 4".to_string()));
}

#[test]
fn an_unknown_letter_is_refused() {
    let mut s = String::from("X");
    s.push_str(&"U".repeat(53));
    let r = parse_facelets(&s);
    assert_eq!(r, Err("第 1 个字符 'X' 不是合法颜色".to_string()));
    let mut t = String::from("UUx");
    t.push_str(&"U".repeat(51));
    assert_eq!(parse_facelets(&t), Err("第 3 个字符 'X' 不是合法颜色".to_string()));
}

#[test]
fn an_illegal_text_lists_every_reason() {
    let r = parse_facelets("RUUUUUUUURRRRRRRRRFFFFFFFFFDDDDDDDDDLLLLLLLLLBBBBBBBBB");
    assert_eq!(
        r,
        Err("状态不合法: 有颜色超过 9 格:W:8 Y:9 R:10 O:9 B:9 G:9; 角位 3 的配色 ROB 不是任何合法角块".to_string())
    );
}
