use lib::completion::{find_completion, find_unique_completion};
use lib::facelets::parse_facelets;
use lib::model::{CubeState, StickerColor};
use lib::pieces::{counts, empty_count, get, Cells, CORNER_FACELETS, EDGE_FACELETS};
use lib::repair::{analyze, force_fix, repair};
use lib::validate::{from_cube_state, validate};

const SCRAMBLED: &str = "FFUBUFURBLLRURDRBDFFDRFBBDUULFLDDRLBDRLRLUFBLBULFBDRUD";

fn solved() -> Cells {
    from_cube_state(&CubeState::solved())
}

fn flip_first_edge(c: &mut Cells) {
    let (a, b) = (EDGE_FACELETS[0][0], EDGE_FACELETS[0][1]);
    let (ca, cb) = (get(c, a).unwrap(), get(c, b).unwrap());
    lib::pieces::set(c, a, Some(cb));
    lib::pieces::set(c, b, Some(ca));
}

fn twist_first_corner(c: &mut Cells) {
    let f = CORNER_FACELETS[0];
    let (c0, c1, c2) = (get(c, f[0]).unwrap(), get(c, f[1]).unwrap(), get(c, f[2]).unwrap());
    lib::pieces::set(c, f[0], Some(c1));
    lib::pieces::set(c, f[1], Some(c2));
    lib::pieces::set(c, f[2], Some(c0));
}

#[test]
fn repair_fixes_a_flipped_edge() {
    let mut c = solved();
    flip_first_edge(&mut c);
    assert!(validate(&c).is_err());
    let mut der = [[false; 9]; 6];
    let msg = repair(&mut c, &mut der);
    assert_eq!(msg, Ok("已翻转棱位 1 的两个贴纸(原输入该处朝向不合法)".to_string()));
    assert!(validate(&c).is_ok());
}

#[test]
fn repair_fixes_a_twisted_corner() {
    let mut c = solved();
    twist_first_corner(&mut c);
    assert!(validate(&c).is_err());
    let mut der = [[false; 9]; 6];
    let msg = repair(&mut c, &mut der);
    assert_eq!(msg, Ok("已扭转角位 1(原输入该处朝向不合法)".to_string()));
    assert!(validate(&c).is_ok());
}

#[test]
fn repair_fixes_two_exchanged_edges() {
    let mut c = solved();
    let (a, b) = (EDGE_FACELETS[0].to_vec(), EDGE_FACELETS[1].to_vec());
    let va: Vec<_> = a.iter().map(|&g| get(&c, g)).collect();
    let vb: Vec<_> = b.iter().map(|&g| get(&c, g)).collect();
    for (k, &g) in a.iter().enumerate() {
        lib::pieces::set(&mut c, g, vb[k]);
    }
    for (k, &g) in b.iter().enumerate() {
        lib::pieces::set(&mut c, g, va[k]);
    }
    assert!(validate(&c).is_err());
    let mut der = [[false; 9]; 6];
    let msg = repair(&mut c, &mut der);
    assert!(msg.is_ok());
    assert!(validate(&c).is_ok());
}

#[test]
fn repair_leaves_a_legal_board_alone() {
    let mut c = from_cube_state(&parse_facelets(SCRAMBLED).unwrap());
    let before = c;
    let mut der = [[false; 9]; 6];
    let r = repair(&mut c, &mut der);
    assert_eq!(r, Ok("当前盘面本来就合法,无需修正".to_string()));
    assert_eq!(c, before);
}

#[test]
fn a_stuck_board_is_repaired_then_completed() {
    let mut c = solved();
    flip_first_edge(&mut c);
    lib::pieces::set(&mut c, CORNER_FACELETS[0][2], None);
    lib::pieces::set(&mut c, 21, None);
    let stuck = empty_count(&c) == 2 && find_completion(&c).is_none();
    assert!(stuck);
    let mut der = [[false; 9]; 6];
    let msg = repair(&mut c, &mut der);
    assert!(msg.is_ok());
    let done = find_completion(&c);
    assert!(done.is_some() || validate(&c).is_ok());
}

#[test]
fn a_twisted_board_missing_two_is_repaired_and_completable() {
    let mut c = solved();
    twist_first_corner(&mut c);
    lib::pieces::set(&mut c, 45, None);
    lib::pieces::set(&mut c, 18, None);
    let cnt = counts(&c);
    assert_eq!(cnt[4], 8);
    assert_eq!(cnt[5], 8);
    assert!(find_completion(&c).is_none());
    let mut der = [[false; 9]; 6];
    let msg = repair(&mut c, &mut der);
    assert!(msg.is_ok());
    let ok = if empty_count(&c) == 0 {
        validate(&c).is_ok()
    } else {
        find_completion(&c).map(|d| validate(&d).is_ok()).unwrap_or(false)
    };
    assert!(ok);
}

#[test]
fn two_gaps_are_completed_legally() {
    let mut c = solved();
    lib::pieces::set(&mut c, 20, None);
    lib::pieces::set(&mut c, 21, None);
    let done = find_completion(&c).expect("completable");
    assert!(validate(&done).is_ok());
    assert_eq!(done, solved());
    assert_eq!(find_unique_completion(&c), Some(solved()));
}

#[test]
fn no_completion_with_more_than_four_gaps() {
    let mut c = solved();
    for g in [18usize, 19, 20, 21, 22] {
        lib::pieces::set(&mut c, g, None);
    }
    assert_eq!(find_completion(&c), None);
    assert_eq!(find_unique_completion(&c), None);
}

#[test]
fn a_full_legal_board_completes_to_itself() {
    let c = solved();
    assert_eq!(find_completion(&c), Some(c));
    assert_eq!(find_unique_completion(&c), Some(c));
}

#[test]
fn two_broken_invariants_defeat_repair_but_not_force_fix() {
    let mut c = solved();
    twist_first_corner(&mut c);
    flip_first_edge(&mut c);
    lib::pieces::set(&mut c, 45, None);
    lib::pieces::set(&mut c, 18, None);
    let before = c;
    let mut der = [[false; 9]; 6];
    let one_shot = repair(&mut c, &mut der);
    assert!(one_shot.is_err());
    assert_eq!(c, before);
    let mut der2 = [[false; 9]; 6];
    let deep = force_fix(&mut c, &mut der2);
    assert!(deep.is_ok());
    assert!(validate(&c).is_ok());
}

#[test]
fn force_fix_needs_a_nearly_full_board() {
    let mut c: Cells = [[None; 9]; 6];
    let mut der = [[false; 9]; 6];
    let r = force_fix(&mut c, &mut der);
    assert_eq!(r, Err("空格较多(54 格),请先继续涂到接近填满".to_string()));
}

#[test]
fn force_fix_keeps_a_legal_board() {
    let mut c = solved();
    let mut der = [[false; 9]; 6];
    let r = force_fix(&mut c, &mut der);
    assert_eq!(r, Ok("重新补成合法状态".to_string()));
    assert_eq!(c, solved());
}

#[test]
fn force_fix_reports_each_move() {
    let mut c = solved();
    twist_first_corner(&mut c);
    flip_first_edge(&mut c);
    let mut der = [[false; 9]; 6];
    let r = force_fix(&mut c, &mut der).unwrap();
    assert_eq!(r, "扭转一个角 + 翻转一个棱");
    assert!(validate(&c).is_ok());
}

#[test]
fn analysis_of_the_solved_board() {
    let a = analyze(&solved()).expect("solved board has real pieces");
    assert_eq!(a.corner_of, [0, 1, 2, 3, 4, 5, 6, 7]);
    assert_eq!(a.corner_ori, [0; 8]);
    assert_eq!(a.edge_of, [0, 1, 2, 3, 4, 5, 6, 7, 8, 9, 10, 11]);
    assert_eq!(a.edge_ori, [0; 12]);
}

#[test]
fn analysis_reports_turns_and_flips() {
    let mut c = solved();
    twist_first_corner(&mut c);
    flip_first_edge(&mut c);
    let a = analyze(&c).unwrap();
    assert_eq!(a.corner_ori[0], 1);
    assert_eq!(a.edge_ori[0], 1);
    assert_eq!(a.corner_of[0], 0);
}

#[test]
fn analysis_errors() {
    let mut c = solved();
    lib::pieces::set(&mut c, 8, None);
    assert!(analyze(&c).err().map(|e| e == "角位未填满").unwrap_or(false));
    let mut d = solved();
    lib::pieces::set(&mut d, 9, Some(StickerColor::W));
    assert!(analyze(&d).is_err());
}

#[test]
fn analysis_names_the_first_faulty_position() {
    let mut c = from_cube_state(&CubeState::solved());
    lib::pieces::set(&mut c, 18, Some(StickerColor::R));
    lib::pieces::set(&mut c, 38, Some(StickerColor::G));
    assert_eq!(analyze(&c).err(), Some("角块出现了两次(序号 1)".to_string()));

    let mut c = from_cube_state(&CubeState::solved());
    lib::pieces::set(&mut c, 10, Some(StickerColor::W));
    assert_eq!(analyze(&c).err(), Some("棱位 1 的配色 白白 不是任何合法棱块".to_string()));
}

#[test]
fn repair_exchanges_two_corners_back() {
    let mut c = solved();
    let (a, b) = (CORNER_FACELETS[0], CORNER_FACELETS[1]);
    for s in 0..3 {
        let (x, y) = (get(&c, a[s]), get(&c, b[s]));
        lib::pieces::set(&mut c, a[s], y);
        lib::pieces::set(&mut c, b[s], x);
    }
    assert!(validate(&c).is_err());
    let mut der = [[false; 9]; 6];
    let msg = repair(&mut c, &mut der);
    assert_eq!(msg, Ok("已交换角位 1 与 2(原输入块顺序不合法)".to_string()));
    assert_eq!(c, solved());
}

#[test]
fn force_fix_gives_up_on_a_wrong_centre() {
    let mut c = solved();
    lib::pieces::set(&mut c, 4, Some(StickerColor::R));
    let before = c;
    let mut der = [[false; 9]; 6];
    let r = force_fix(&mut c, &mut der);
    assert_eq!(r, Err("把所有补齐方案都试过了,仍无法凑出合法魔方".to_string()));
    assert_eq!(c, before);
}

fn inversions(p: &[usize]) -> usize {
    let mut n = 0;
    for i in 0..p.len() {
        for j in i + 1..p.len() {
            if p[i] > p[j] {
                n += 1;
            }
        }
    }
    n
}

#[test]
fn a_legal_cube_passes_the_analysis_tests() {
    let c = from_cube_state(&parse_facelets(SCRAMBLED).unwrap());
    assert!(validate(&c).is_ok());
    let a = analyze(&c).expect("a legal cube has an analysis");
    let twist: usize = a.corner_ori.iter().map(|&r| r as usize).sum();
    let flip: usize = a.edge_ori.iter().map(|&r| r as usize).sum();
    assert_eq!(twist % 3, 0);
    assert_eq!(flip % 2, 0);
    assert_eq!(inversions(&a.corner_of) % 2, inversions(&a.edge_of) % 2);
    let mut t = c;
    twist_first_corner(&mut t);
    let b = analyze(&t).unwrap();
    let twist: usize = b.corner_ori.iter().map(|&r| r as usize).sum();
    assert_ne!(twist % 3, 0);
    assert!(validate(&t).is_err());
}
