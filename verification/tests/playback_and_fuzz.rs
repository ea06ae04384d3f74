use lib::cube_core::{CubeCore, Move};
use lib::facelets::{bad_letter_message, parse_facelets};
use lib::fuzz::{fuzz_one_session, fuzz_orders, scramble, FuzzRng, SessionFail, SCRAMBLE_LEN};
use lib::model::StickerColor;
use lib::playback::{next_turn, playback_event, Playback, PlaybackEvent};
use lib::validate::{from_cube_state, validate};

fn mv(s: &str) -> Move {
    Move::parse(s).unwrap()
}

fn playing(queue: &[&str]) -> Playback {
    Playback { queue: queue.iter().map(|s| mv(s)).collect(), history: Vec::new(), paused: false, step_budget: 0 }
}

#[test]
fn a_running_playback_makes_the_queue_in_order() {
    let mut pb = playing(&["R", "U'", "F2"]);
    assert_eq!(next_turn(&mut pb), Some(mv("R")));
    assert_eq!(next_turn(&mut pb), Some(mv("U'")));
    assert_eq!(next_turn(&mut pb), Some(mv("F2")));
    assert_eq!(next_turn(&mut pb), None);
    assert_eq!(pb.history, vec![mv("R"), mv("U'"), mv("F2")]);
    assert!(pb.queue.is_empty());
}

#[test]
fn pausing_stops_the_playback_and_a_step_allows_one_turn() {
    let mut pb = playing(&["R", "U"]);
    assert_eq!(playback_event(&mut pb, PlaybackEvent::TogglePlay), None);
    assert!(pb.paused);
    assert_eq!(next_turn(&mut pb), None);
    assert_eq!(playback_event(&mut pb, PlaybackEvent::Step), None);
    assert_eq!(pb.step_budget, 1);
    assert_eq!(next_turn(&mut pb), Some(mv("R")));
    assert_eq!(pb.step_budget, 0);
    assert_eq!(next_turn(&mut pb), None);
    assert_eq!(pb.queue, vec![mv("U")]);
}

#[test]
fn resuming_clears_the_single_steps() {
    let mut pb = playing(&["R"]);
    playback_event(&mut pb, PlaybackEvent::Step);
    playback_event(&mut pb, PlaybackEvent::Step);
    assert!(pb.paused);
    assert_eq!(pb.step_budget, 2);
    playback_event(&mut pb, PlaybackEvent::TogglePlay);
    assert!(!pb.paused);
    assert_eq!(pb.step_budget, 0);
}

#[test]
fn undo_returns_the_inverse_and_puts_the_turn_back() {
    let mut pb = playing(&["R", "U2", "F'"]);
    next_turn(&mut pb);
    next_turn(&mut pb);
    let u = playback_event(&mut pb, PlaybackEvent::Undo);
    assert_eq!(u, Some(mv("U2")));
    assert_eq!(pb.history, vec![mv("R")]);
    assert_eq!(pb.queue, vec![mv("U2"), mv("F'")]);
    let u = playback_event(&mut pb, PlaybackEvent::Undo);
    assert_eq!(u, Some(mv("R'")));
    assert_eq!(pb.queue, vec![mv("R"), mv("U2"), mv("F'")]);
    assert!(pb.history.is_empty());
}

#[test]
fn undo_with_nothing_made_changes_nothing() {
    let mut pb = playing(&["R"]);
    assert_eq!(playback_event(&mut pb, PlaybackEvent::Undo), None);
    assert_eq!(pb.queue, vec![mv("R")]);
    assert!(pb.history.is_empty());
    assert!(!pb.paused);
}

#[test]
fn undo_then_play_makes_the_same_turn_again() {
    let mut pb = playing(&["L", "D'"]);
    next_turn(&mut pb);
    next_turn(&mut pb);
    let mut cube = CubeCore::solved();
    cube.apply(mv("L"));
    cube.apply(mv("D'"));
    let before = cube.to_state();
    let u = playback_event(&mut pb, PlaybackEvent::Undo).unwrap();
    cube.apply(u);
    let again = next_turn(&mut pb).unwrap();
    assert_eq!(again, mv("D'"));
    cube.apply(again);
    assert_eq!(cube.to_state(), before);
    assert_eq!(pb.history, vec![mv("L"), mv("D'")]);
    assert!(pb.queue.is_empty());
}

#[test]
fn undo_then_step_while_paused_makes_the_same_turn_again() {
    let mut pb = playing(&["B"]);
    next_turn(&mut pb);
    playback_event(&mut pb, PlaybackEvent::TogglePlay);
    assert_eq!(playback_event(&mut pb, PlaybackEvent::Undo), Some(mv("B'")));
    assert_eq!(next_turn(&mut pb), None);
    playback_event(&mut pb, PlaybackEvent::Step);
    assert_eq!(next_turn(&mut pb), Some(mv("B")));
    assert!(pb.paused);
    assert_eq!(pb.step_budget, 0);
    assert_eq!(pb.history, vec![mv("B")]);
}

#[test]
fn a_scramble_has_the_full_length_for_several_seeds() {
    for seed in [1u64, 2, 7, 42, 1000] {
        let mut rng = FuzzRng::new(seed);
        let (core, moves) = scramble(&mut rng);
        assert_eq!(moves.len(), SCRAMBLE_LEN);
        assert!(validate(&from_cube_state(&core.to_state())).is_ok());
    }
}

#[test]
fn a_scramble_depends_on_the_seed_and_moves_the_generator() {
    let mut a = FuzzRng::new(1);
    let mut b = FuzzRng::new(1);
    let start = a.0;
    let (_, ma) = scramble(&mut a);
    let (_, mb) = scramble(&mut b);
    assert_eq!(ma, mb);
    assert_eq!(a.0, b.0);
    assert_ne!(a.0, start);
    let mut c = FuzzRng::new(2);
    let (_, mc) = scramble(&mut c);
    assert_ne!(ma, mc);
}

#[test]
fn the_shuffled_orders_depend_on_the_generator() {
    let mut a = FuzzRng::new(5);
    let mut b = FuzzRng::new(5);
    let oa = fuzz_orders(&mut a);
    let ob = fuzz_orders(&mut b);
    assert_eq!(oa, ob);
    assert_ne!(oa[2].1, (0..54).collect::<Vec<usize>>());
    for q in 0..54 {
        assert_eq!(oa[3].1[q] % 9, q % 9);
    }
    let mut faces: Vec<usize> = (0..6).map(|f| oa[3].1[9 * f] / 9).collect();
    faces.sort();
    assert_eq!(faces, vec![0, 1, 2, 3, 4, 5]);
}

#[test]
fn the_bad_letter_message_names_the_position_and_the_character() {
    assert_eq!(bad_letter_message(7, "'Q'"), "第 7 个字符 'Q' 不是合法颜色");
    assert_eq!(bad_letter_message(54, "'\\n'"), "第 54 个字符 '\\n' 不是合法颜色");
    let mut s = "U".repeat(53);
    s.push('?');
    assert_eq!(parse_facelets(&s), Err("第 54 个字符 '?' 不是合法颜色".to_string()));
}

#[test]
fn an_illegal_full_target_cannot_be_entered() {
    let mut target = from_cube_state(&lib::model::CubeState::solved());
    target[0][0] = Some(StickerColor::R);
    target[1][0] = Some(StickerColor::W);
    let order: Vec<usize> = (0..54).collect();
    assert!(fuzz_one_session(&target, &order).is_err());
}

/// Runs the sessions of trials `from..to` of the input regression with seed 1, after
/// drawing (without entering) the trials before `from`, exactly as `input_fuzz` does.
fn regression_trials(from: usize, to: usize) {
    let mut rng = FuzzRng::new(1);
    for t in 0..to {
        let (core, _) = scramble(&mut rng);
        let target = from_cube_state(&core.to_state());
        assert!(validate(&target).is_ok(), "trial {t}: the scramble is not legal");
        let orders = fuzz_orders(&mut rng);
        if t < from {
            continue;
        }
        for (name, order) in &orders {
            match fuzz_one_session(&target, order) {
                Ok(()) => {},
                Err(SessionFail::Derived(m)) | Err(SessionFail::Picker(m)) | Err(SessionFail::Paint(m))
                | Err(SessionFail::Final(m)) => panic!("trial {t} order {name}: {m}"),
            }
        }
    }
}

#[test]
fn random_scramble_can_always_be_entered() {
    regression_trials(0, 8);
}

#[test]
fn regression_trials_8_to_16() {
    regression_trials(8, 16);
}

#[test]
fn regression_trials_16_to_24() {
    regression_trials(16, 24);
}

#[test]
fn regression_trials_24_to_32() {
    regression_trials(24, 32);
}

#[test]
fn regression_trials_32_to_40() {
    regression_trials(32, 40);
}

#[test]
fn regression_trials_40_to_48() {
    regression_trials(40, 48);
}

#[test]
fn regression_trials_48_to_56() {
    regression_trials(48, 56);
}

#[test]
fn regression_trials_56_to_64() {
    regression_trials(56, 64);
}

#[test]
fn regression_trials_64_to_72() {
    regression_trials(64, 72);
}

#[test]
fn regression_trials_72_to_80() {
    regression_trials(72, 80);
}
