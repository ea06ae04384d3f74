use lib::cube_core::{CubeCore, Face, Move, Turn};
use lib::fuzz::{input_fuzz, scramble, FuzzRng, SCRAMBLE_LEN};
use lib::model::{CubeState, StickerColor};
use lib::validate::{from_cube_state, validate};

use StickerColor::{B, G, O, R, W, Y};

fn mv(s: &str) -> Move {
    Move::parse(s).unwrap()
}

fn face_letters(st: &CubeState) -> String {
    let faces = [st.U, st.R, st.F, st.D, st.L, st.B];
    let mut out = String::new();
    for f in faces {
        for c in f {
            out.push(match c {
                W => 'U',
                R => 'R',
                G => 'F',
                Y => 'D',
                O => 'L',
                B => 'B',
            });
        }
    }
    out
}

const ALL_NOTATIONS: [&str; 18] = [
    "U", "U'", "U2", "D", "D'", "D2", "L", "L'", "L2", "R", "R'", "R2", "F", "F'", "F2", "B", "B'", "B2",
];

#[test]
fn solved_core_matches_solved_state() {
    let state = CubeCore::solved().to_state();
    assert_eq!(state, CubeState::solved());
    assert_eq!(state.U, [W; 9]);
    assert_eq!(state.R, [R; 9]);
    assert_eq!(state.F, [G; 9]);
    assert_eq!(state.D, [Y; 9]);
    assert_eq!(state.L, [O; 9]);
    assert_eq!(state.B, [B; 9]);
}

#[test]
fn u_move_direction_anchor() {
    let mut core = CubeCore::solved();
    core.apply(mv("U"));
    let state = core.to_state();
    assert_eq!(&state.F[0..3], &[R, R, R]);
    assert_eq!(&state.L[0..3], &[G, G, G]);
}

#[test]
fn single_turns_give_the_expected_facelets() {
    let mut core = CubeCore::solved();
    core.apply(mv("R"));
    assert_eq!(face_letters(&core.to_state()), "UUFUUFUUFRRRRRRRRRFFDFFDFFDDDBDDBDDBLLLLLLLLLUBBUBBUBB");
    let mut core = CubeCore::solved();
    core.apply(mv("U"));
    assert_eq!(face_letters(&core.to_state()), "UUUUUUUUUBBBRRRRRRRRRFFFFFFDDDDDDDDDFFFLLLLLLLLLBBBBBB");
}

#[test]
fn move_orders() {
    let solved = CubeCore::solved().to_state();
    for k in 0..18 {
        let m = Move::nth(k);
        let mut core = CubeCore::solved();
        let n = if m.quarter_turns_cw() == 2 { 2 } else { 4 };
        for _ in 0..n {
            core.apply(m);
        }
        assert_eq!(core.to_state(), solved, "move {}", m.notation());
    }
}

#[test]
fn move_then_inverse_is_identity() {
    let solved = CubeCore::solved().to_state();
    for face in [Face::U, Face::D, Face::L, Face::R, Face::F, Face::B] {
        let mut core = CubeCore::solved();
        let cw = Move { face, turn: Turn::Cw };
        core.apply(cw);
        core.apply(cw.inverse());
        assert_eq!(core.to_state(), solved, "face {face:?}");
        assert_eq!(cw.inverse(), Move { face, turn: Turn::Ccw });
    }
}

#[test]
fn sexy_move_order_six() {
    let solved = CubeCore::solved().to_state();
    let mut core = CubeCore::solved();
    let seq = [mv("R"), mv("U"), mv("R'"), mv("U'")];
    for _ in 0..6 {
        for &m in &seq {
            core.apply(m);
        }
    }
    assert_eq!(core.to_state(), solved);
}

#[test]
fn paint_round_trip() {
    let mut core = CubeCore::solved();
    let solved = CubeState::solved();
    core.paint(&solved);
    assert_eq!(core.to_state(), solved);
    let all_white = CubeState { U: [W; 9], R: [W; 9], F: [W; 9], D: [W; 9], L: [W; 9], B: [W; 9] };
    core.paint(&all_white);
    assert_eq!(core.to_state(), all_white);
}

#[test]
fn paint_round_trip_after_scramble() {
    let mut scrambled = CubeCore::solved();
    for m in ["R", "U", "F", "L", "D", "B", "R'", "U2", "F'", "L2", "D'", "B2"] {
        scrambled.apply(mv(m));
    }
    let target = scrambled.to_state();
    let mut core = CubeCore::solved();
    core.paint(&target);
    assert_eq!(core.to_state(), target);
}

#[test]
fn notation_round_trips() {
    for k in 0..18 {
        let m = Move::nth(k);
        assert_eq!(m.notation(), ALL_NOTATIONS[k]);
        assert_eq!(Move::parse(ALL_NOTATIONS[k]), Some(m));
        assert_eq!(m.axis(), m.face.normal());
    }
    for bad in ["", "X", "R3", "RR", "r", "R'2"] {
        assert_eq!(Move::parse(bad), None, "{bad}");
    }
}

#[test]
fn a_ten_step_scramble_is_legal() {
    let mut core = CubeCore::solved();
    for t in "R U2 F' L D B2 R' F U D2 L2".split_whitespace() {
        core.apply(mv(t));
    }
    let c = from_cube_state(&core.to_state());
    assert!(validate(&c).is_ok());
}

#[test]
fn scrambles_have_no_two_turns_about_one_axis_in_a_row() {
    let mut rng = FuzzRng::new(3);
    let (core, moves) = scramble(&mut rng);
    assert_eq!(moves.len(), SCRAMBLE_LEN);
    for w in moves.windows(2) {
        assert_ne!(w[0].axis(), w[1].axis());
    }
    let mut replay = CubeCore::solved();
    for &m in &moves {
        replay.apply(m);
    }
    assert_eq!(replay.to_state(), core.to_state());
    assert!(validate(&from_cube_state(&core.to_state())).is_ok());
}

#[test]
fn random_scrambles_can_be_entered_in_every_order() {
    let st = input_fuzz(2, 1);
    assert!(!st.failed(), "{:?}", st.example);
    assert_eq!(st.trials, 2);
    assert_eq!(st.sessions, 8);
    assert_eq!(st.bad_target, 0);
}

#[test]
fn face_normals_and_colors() {
    assert_eq!(Face::U.normal(), (0, 1, 0));
    assert_eq!(Face::D.normal(), (0, -1, 0));
    assert_eq!(Face::R.normal(), (1, 0, 0));
    assert_eq!(Face::L.normal(), (-1, 0, 0));
    assert_eq!(Face::F.normal(), (0, 0, 1));
    assert_eq!(Face::B.normal(), (0, 0, -1));

    assert_eq!(Face::U.solved_color(), W);
    assert_eq!(Face::D.solved_color(), Y);
    assert_eq!(Face::F.solved_color(), G);
    assert_eq!(Face::B.solved_color(), B);
    assert_eq!(Face::R.solved_color(), R);
    assert_eq!(Face::L.solved_color(), O);
}

#[test]
fn quarter_turns() {
    assert_eq!(Move { face: Face::R, turn: Turn::Cw }.quarter_turns_cw(), 1);
    assert_eq!(Move { face: Face::R, turn: Turn::Ccw }.quarter_turns_cw(), 3);
    assert_eq!(Move { face: Face::R, turn: Turn::Double }.quarter_turns_cw(), 2);
}
