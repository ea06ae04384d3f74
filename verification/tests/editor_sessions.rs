use lib::editor::{solve_gate, EditState};
use lib::facelets::{cells_to_facelets, parse_facelets};
use lib::feasible::is_feasible;
use lib::fuzz::{fuzz_one_session, fuzz_orders, FuzzRng, InputFuzzStats, SessionFail};
use lib::model::{CubeState, StickerColor};
use lib::pieces::{empty_count, get, CENTER_IDX, CORNER_FACELETS, EDGE_FACELETS, FACE_COLOR};
use lib::validate::{from_cube_state, validate};

const SCRAMBLED: &str = "FFUBUFURBLLRURDRBDFFDRFBBDUULFLDDRLBDRLRLUFBLBULFBDRUD";

#[test]
fn the_editor_starts_on_the_solved_cube() {
    let ed = EditState::default();
    assert_eq!(ed.cells, from_cube_state(&CubeState::solved()));
    assert!(ed.valid);
    assert!(ed.error_cells.is_empty());
    assert_eq!(ed.active, StickerColor::W);
    assert_eq!(ed.message, "点格子涂色;金色=中心(不可改),青色=自动推导");
    assert_eq!(ed.valid_text(), "状态合法 —— 点「应用」后再按 S 求解");
}

#[test]
fn an_illegal_stroke_is_refused_and_rolled_back() {
    let mut ed = EditState::default();
    let before = ed.cells;
    ed.paint(2, 2, StickerColor::O);
    assert_eq!(ed.cells, before);
    assert!(ed.message.contains("不能涂"));
}

#[test]
fn erasing_keeps_the_board_feasible_and_the_colour_can_come_back() {
    let mut ed = EditState::default();
    ed.erase(2, 2);
    assert_eq!(ed.message, "已清除 前3 —— 现在可以把它涂成别的颜色");
    assert!(is_feasible(&ed.cells).is_ok());
    ed.paint(2, 2, StickerColor::G);
    assert!(!ed.message.contains("不能涂"));
    assert_eq!(ed.cells[2][2], Some(StickerColor::G));
}

#[test]
fn a_centre_cannot_be_erased() {
    let mut ed = EditState::default();
    let before = ed.cells;
    ed.erase(0, CENTER_IDX);
    assert_eq!(ed.cells, before);
    assert_eq!(ed.message, "中心块固定,不能清除");
}

#[test]
fn the_third_sticker_of_a_corner_follows_its_handedness() {
    let mut ed = EditState::default();
    ed.erase(2, 2);
    ed.paint(2, 2, StickerColor::B);
    assert!(ed.message.contains("不能涂"));
    ed.paint(2, 2, StickerColor::G);
    assert!(!ed.message.contains("不能涂"));
    assert_eq!(ed.message, "已涂 绿 到 前3");
}

#[test]
fn clearing_keeps_only_the_centres() {
    let mut ed = EditState::default();
    ed.clear();
    for f in 0..6 {
        for i in 0..9 {
            if i == CENTER_IDX {
                assert_eq!(ed.cells[f][i], Some(FACE_COLOR[f]));
            } else {
                assert_eq!(ed.cells[f][i], None);
            }
        }
    }
    assert!(!ed.valid);
    assert_eq!(ed.message, "已清空(保留中心块 —— 它们固定不可改)");
    assert!(ed.valid_text().starts_with("[6/54 格已填]"));
}

#[test]
fn reset_gives_the_solid_board_whatever_came_before() {
    let mut ed = EditState::default();
    ed.clear();
    ed.paint(0, 0, StickerColor::R);
    ed.reset_to_solid();
    assert_eq!(ed.cells, from_cube_state(&CubeState::solved()));
    assert_eq!(ed.message, "已重置(各面同色)");
    let once = ed.cells;
    ed.reset_to_solid();
    assert_eq!(ed.cells, once);
}

#[test]
fn placeable_lists_where_the_palette_colour_fits() {
    let mut ed = EditState::default();
    ed.erase(2, 2);
    ed.active = StickerColor::G;
    ed.recompute_placeable();
    assert_eq!(ed.placeable, vec![20]);
    ed.erasing = true;
    ed.recompute_placeable();
    assert!(ed.placeable.is_empty());
}

#[test]
fn loading_a_cube_resets_the_marks() {
    let mut ed = EditState::default();
    let st = parse_facelets(SCRAMBLED).unwrap();
    ed.from_cube(&st);
    assert_eq!(ed.cells, from_cube_state(&st));
    assert!(ed.valid);
    assert_eq!(ed.derived, [[false; 9]; 6]);
}

#[test]
fn a_stuck_board_is_repaired_and_finished_on_the_way() {
    let mut ed = EditState::default();
    let f = CORNER_FACELETS[0];
    let (c0, c1, c2) = (get(&ed.cells, f[0]).unwrap(), get(&ed.cells, f[1]).unwrap(), get(&ed.cells, f[2]).unwrap());
    lib::pieces::set(&mut ed.cells, f[0], Some(c1));
    lib::pieces::set(&mut ed.cells, f[1], Some(c2));
    lib::pieces::set(&mut ed.cells, f[2], Some(c0));
    lib::pieces::set(&mut ed.cells, 45, None);
    lib::pieces::set(&mut ed.cells, 18, None);
    ed.derived = [[false; 9]; 6];
    ed.rederive_public();
    assert_eq!(empty_count(&ed.cells), 0);
    assert!(validate(&ed.cells).is_ok());
}

#[test]
fn a_board_with_two_faults_is_repaired_and_finished_on_the_way() {
    let mut ed = EditState::default();
    let f = CORNER_FACELETS[0];
    let (c0, c1, c2) = (get(&ed.cells, f[0]).unwrap(), get(&ed.cells, f[1]).unwrap(), get(&ed.cells, f[2]).unwrap());
    lib::pieces::set(&mut ed.cells, f[0], Some(c1));
    lib::pieces::set(&mut ed.cells, f[1], Some(c2));
    lib::pieces::set(&mut ed.cells, f[2], Some(c0));
    let e = EDGE_FACELETS[0];
    let (e0, e1) = (get(&ed.cells, e[0]).unwrap(), get(&ed.cells, e[1]).unwrap());
    lib::pieces::set(&mut ed.cells, e[0], Some(e1));
    lib::pieces::set(&mut ed.cells, e[1], Some(e0));
    lib::pieces::set(&mut ed.cells, 45, None);
    lib::pieces::set(&mut ed.cells, 18, None);
    ed.derived = [[false; 9]; 6];
    ed.rederive_public();
    assert_eq!(empty_count(&ed.cells), 0);
    assert!(validate(&ed.cells).is_ok());
}

#[test]
fn editor_repair_button_reports_the_change() {
    let mut ed = EditState::default();
    let (a, b) = (EDGE_FACELETS[0][0], EDGE_FACELETS[0][1]);
    let (ca, cb) = (get(&ed.cells, a).unwrap(), get(&ed.cells, b).unwrap());
    lib::pieces::set(&mut ed.cells, a, Some(cb));
    lib::pieces::set(&mut ed.cells, b, Some(ca));
    ed.repair();
    assert_eq!(ed.message, "已修正:已翻转棱位 1 的两个贴纸(原输入该处朝向不合法)");
    assert!(ed.valid);
}

#[test]
fn a_real_cube_can_always_be_entered() {
    let st = parse_facelets(SCRAMBLED).unwrap();
    let target = from_cube_state(&st);
    let mut rng = FuzzRng::new(7);
    for (name, order) in fuzz_orders(&mut rng) {
        let r = fuzz_one_session(&target, &order);
        assert!(r.is_ok(), "order {name} failed: {}", match r {
            Err(SessionFail::Derived(m)) | Err(SessionFail::Picker(m)) | Err(SessionFail::Paint(m)) | Err(SessionFail::Final(m)) => m,
            Ok(()) => String::new(),
        });
    }
}

#[test]
fn the_solved_cube_can_be_entered_in_any_order() {
    let target = from_cube_state(&CubeState::solved());
    let mut rng = FuzzRng::new(1);
    for (_, order) in fuzz_orders(&mut rng) {
        assert!(fuzz_one_session(&target, &order).is_ok());
    }
}

#[test]
fn input_orders_cover_every_sticker_once() {
    let mut rng = FuzzRng::new(42);
    let orders = fuzz_orders(&mut rng);
    assert_eq!(orders.len(), 4);
    assert_eq!(orders[0].0, "行优先");
    assert_eq!(orders[1].0, "逆序");
    assert_eq!(orders[2].0, "随机");
    assert_eq!(orders[3].0, "逐面");
    for (_, o) in &orders {
        let mut seen = o.clone();
        seen.sort();
        assert_eq!(seen, (0..54).collect::<Vec<usize>>());
    }
    assert_eq!(orders[1].1[0], 53);
}

#[test]
fn the_generator_is_deterministic() {
    let r = FuzzRng::new(7);
    assert_eq!(r.0, 0x65b8aa8b15c64383);
    let mut r = FuzzRng::new(7);
    assert_eq!(r.next(), 672357403);
    assert_eq!(r.below(10), 8);
    let mut z = FuzzRng::new(3);
    assert_eq!(z.below(0), 0);
}

#[test]
fn stats_fail_when_any_counter_is_set() {
    let mut s = InputFuzzStats {
        trials: 3,
        sessions: 12,
        picker_rejected: 0,
        paint_rejected: 0,
        derived_mismatch: 0,
        final_mismatch: 0,
        bad_target: 0,
        example: None,
    };
    assert!(!s.failed());
    s.final_mismatch = 1;
    assert!(s.failed());
}

#[test]
fn text_form_of_the_solved_board() {
    let c = from_cube_state(&CubeState::solved());
    assert_eq!(cells_to_facelets(&c), "WWWWWWWWWRRRRRRRRRGGGGGGGGGYYYYYYYYYOOOOOOOOOBBBBBBBBB");
    let mut d = c;
    lib::pieces::set(&mut d, 0, None);
    assert!(cells_to_facelets(&d).starts_with(".WWWWWWWW"));
}

#[test]
fn a_refused_stroke_says_why() {
    let mut ed = EditState::default();
    ed.paint(2, 2, StickerColor::O);
    assert_eq!(ed.message, "【不能涂】同一角块上不能同时有 O 和 R(对面色)");
    let before = ed.cells;
    ed.paint(2, 2, StickerColor::B);
    assert_eq!(ed.cells, before);
    assert_eq!(ed.message, "【不能涂】「蓝」会有 10 格(每种最多 9 格)");
}

#[test]
fn a_stuck_board_is_mended_and_finished_by_rederive() {
    let mut ed = EditState::default();
    let (c0, c1, c2) = (get(&ed.cells, 8), get(&ed.cells, 9), get(&ed.cells, 20));
    lib::pieces::set(&mut ed.cells, 8, c1);
    lib::pieces::set(&mut ed.cells, 9, c2);
    lib::pieces::set(&mut ed.cells, 20, c0);
    lib::pieces::set(&mut ed.cells, 45, None);
    lib::pieces::set(&mut ed.cells, 18, None);
    ed.derived = [[false; 9]; 6];
    ed.rederive_public();
    assert_eq!(empty_count(&ed.cells), 0);
    assert!(validate(&ed.cells).is_ok());
    assert!(ed.message.starts_with("盘面原本无解"));
}

#[test]
fn a_unique_completion_is_filled_in_by_rederive() {
    let mut ed = EditState::default();
    for g in [0usize, 1, 2] {
        lib::pieces::set(&mut ed.cells, g, None);
    }
    ed.derived = [[false; 9]; 6];
    ed.rederive_public();
    assert_eq!(ed.cells, from_cube_state(&CubeState::solved()));
}

#[test]
fn the_solve_gate_names_what_is_missing() {
    let solved = from_cube_state(&CubeState::solved());
    assert_eq!(solve_gate(&solved), Ok(()));
    let mut c = solved;
    lib::pieces::set(&mut c, 0, None);
    lib::pieces::set(&mut c, 1, None);
    assert_eq!(solve_gate(&c), Err("还有 2 格没填 —— 请把魔方填完整再求解".to_string()));
    let mut c = solved;
    lib::pieces::set(&mut c, 5, Some(StickerColor::R));
    lib::pieces::set(&mut c, 10, Some(StickerColor::W));
    assert_eq!(solve_gate(&c), Err("当前状态不合法:棱块朝向和不合法(翻转数 1)—— 典型:单个棱块被翻转".to_string()));
}
