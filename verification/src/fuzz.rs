//! Input sessions: a real cube's stickers entered one by one through the editor, in
//! several orders, and the ways such a session can fail.

use vstd::prelude::*;
use vstd::wrapping::u64_specs;
use crate::model::{solved_face_color, StickerColor};
use crate::pieces::{cell, color_idx, color_index, get, name, split, Cells};
use crate::legal::{all_known, centers_fixed, legal};
use crate::feasible::{agrees, allowed_colors, can_paint, feasible, lemma_agrees_legal_feasible};
use crate::editor::{lemma_cube_sticker_paintable, lemma_underived_cells, settled, underived, EditState};
use crate::propagate::extends;
use crate::cube_core::{
    apply_all, axis_spec, board_face, is_solved_board, move_spec, normal_spec, solved_board, sticker, v3, CubeCore,
    IVec3, Move,
};
use crate::turn_legal::{board_cells, lemma_board_cells, lemma_board_turn_legal, lemma_solved_legal};
use crate::validate::{from_cube_state, validate};
use crate::facelets::cells_to_facelets;
use crate::text::{push_dec, push_str, text};

verus! {

/// The generator's state after one step: a 64-bit linear congruential step.
pub open spec fn lcg_step(x: u64) -> u64 {
    u64_specs::wrapping_add(u64_specs::wrapping_mul(x, 6364136223846793005), 1442695040888963407)
}

/// The generator's state for a seed.
pub open spec fn seed_state(seed: u64) -> u64 {
    u64_specs::wrapping_add(u64_specs::wrapping_mul(seed, 0x9E37_79B9_7F4A_7C15), 0x1234_5678_9ABC_DEF0)
}

/// A small deterministic pseudo-random generator for input sessions.
pub struct FuzzRng(pub u64);

impl FuzzRng {
    /// The generator for `seed`.
    pub fn new(seed: u64) -> (r: FuzzRng)
        ensures
            r.0 == seed_state(seed),
    {
        FuzzRng(seed.wrapping_mul(0x9E37_79B9_7F4A_7C15).wrapping_add(0x1234_5678_9ABC_DEF0))
    }

    /// Step the generator and return the high 31 bits of its new state.
    pub fn next(&mut self) -> (r: u64)
        ensures
            final(self).0 == lcg_step(old(self).0),
            r == final(self).0 >> 33,
            r < 0x8000_0000,
    {
        self.0 = self.0.wrapping_mul(6364136223846793005).wrapping_add(1442695040888963407);
        let x = self.0;
        assert(x >> 33 < 0x8000_0000) by (bit_vector);
        x >> 33
    }

    /// A number below `n` (below 1 when `n` is 0), from the next step.
    pub fn below(&mut self, n: usize) -> (r: usize)
        ensures
            final(self).0 == lcg_step(old(self).0),
            r == ((final(self).0 >> 33) as usize) % (if n == 0 { 1usize } else { n }),
            r < (if n == 0 { 1usize } else { n }),
    {
        let m: usize = if n == 0 { 1 } else { n };
        let v = self.next();
        (v as usize) % m
    }
}

/// `v` holds each of `0..n` exactly once.
pub open spec fn is_perm(v: Seq<usize>, n: nat) -> bool {
    &&& v.len() == n
    &&& v.no_duplicates()
    &&& forall|k: int| 0 <= k < v.len() ==> #[trigger] v[k] < n
}

proof fn lemma_swap_perm(v: Seq<usize>, n: nat, i: int, j: int)
    requires
        is_perm(v, n),
        0 <= i < v.len(),
        0 <= j < v.len(),
    ensures
        is_perm(v.update(i, v[j]).update(j, v[i]), n),
{
    let w = v.update(i, v[j]).update(j, v[i]);
    assert forall|p: int, q: int| 0 <= p < w.len() && 0 <= q < w.len() && p != q implies w[p] != w[q] by {
        let sp = if p == j { i } else if p == i { j } else { p };
        let sq = if q == j { i } else if q == i { j } else { q };
        assert(w[p] == v[sp]);
        assert(w[q] == v[sq]);
    }
}

/// Fisher–Yates on the first `i` entries of `v` from generator state `s`: for `k`
/// from `i - 1` down to 1, draw `j` below `k + 1` and exchange entries `k` and `j`.
/// The shuffled sequence and the generator's state after the draws.
pub open spec fn fisher_yates(v: Seq<usize>, s: u64, i: nat) -> (Seq<usize>, u64)
    decreases i,
{
    if i <= 1 {
        (v, s)
    } else {
        let k = i - 1;
        let s2 = lcg_step(s);
        let j = (((s2 >> 33) as usize) % (i as usize)) as int;
        fisher_yates(v.update(k, v[j]).update(j, v[k]), s2, (i - 1) as nat)
    }
}

/// `0..n` in increasing order.
pub open spec fn upto(n: nat) -> Seq<usize> {
    Seq::new(n, |k: int| k as usize)
}

/// Shuffle `v` in place (Fisher–Yates, drawing from `rng`).
fn shuffle(v: &mut Vec<usize>, rng: &mut FuzzRng)
    requires
        is_perm(old(v)@, old(v)@.len()),
        old(v)@.len() <= 54,
    ensures
        is_perm(final(v)@, old(v)@.len()),
        (final(v)@, final(rng).0) == fisher_yates(old(v)@, old(rng).0, old(v)@.len()),
{
    let n = v.len();
    let mut i: usize = n;
    while i > 1
        invariant
            i <= n,
            n <= 54,
            n == v@.len(),
            n == old(v)@.len(),
            is_perm(v@, n as nat),
            fisher_yates(old(v)@, old(rng).0, n as nat) == fisher_yates(v@, rng.0, i as nat),
        decreases i,
    {
        let ghost v0 = v@;
        let ghost s0 = rng.0;
        i -= 1;
        let j = rng.below(i + 1);
        let a = v[i];
        let b = v[j];
        proof {
            lemma_swap_perm(v@, n as nat, i as int, j as int);
        }
        v.set(i, b);
        v.set(j, a);
        proof {
            assert(v@ == v0.update(i as int, v0[j as int]).update(j as int, v0[i as int]));
            assert(fisher_yates(v0, s0, (i + 1) as nat) == fisher_yates(v@, rng.0, i as nat));
        }
    }
}

/// `0..n` in increasing order.
fn ascending(n: usize) -> (v: Vec<usize>)
    ensures
        v@.len() == n,
        forall|k: int| 0 <= k < n ==> #[trigger] v@[k] == k,
        is_perm(v@, n as nat),
        v@ == upto(n as nat),
{
    let mut v: Vec<usize> = Vec::new();
    let mut k: usize = 0;
    while k < n
        invariant
            k <= n,
            v@.len() == k,
            forall|q: int| 0 <= q < k ==> #[trigger] v@[q] == q,
        decreases n - k,
    {
        v.push(k);
        k += 1;
    }
    assert(v@ =~= upto(n as nat));
    v
}

/// The four input orders of a session: row by row, reversed, shuffled, and face by
/// face with the faces shuffled (each face row by row). Each holds every sticker once.
pub fn fuzz_orders(rng: &mut FuzzRng) -> (out: Vec<(&'static str, Vec<usize>)>)
    ensures
        out@.len() == 4,
        forall|k: int| 0 <= k < 4 ==> is_perm(#[trigger] out@[k].1@, 54),
        forall|g: int| 0 <= g < 54 ==> #[trigger] out@[0].1@[g] == g,
        forall|g: int| 0 <= g < 54 ==> #[trigger] out@[1].1@[g] == 53 - g,
        out@[2].1@ == fisher_yates(upto(54), old(rng).0, 54).0,
        ({
            let s1 = fisher_yates(upto(54), old(rng).0, 54).1;
            let faces = fisher_yates(upto(6), s1, 6);
            &&& forall|q: int| 0 <= q < 54 ==> #[trigger] out@[3].1@[q] == faces.0[q / 9] * 9 + q % 9
            &&& final(rng).0 == faces.1
        }),
        out@[0].0@ == "行优先"@,
        out@[1].0@ == "逆序"@,
        out@[2].0@ == "随机"@,
        out@[3].0@ == "逐面"@,
{
    let row = ascending(54);
    let mut rev: Vec<usize> = Vec::new();
    let mut k: usize = 0;
    while k < 54
        invariant
            k <= 54,
            rev@.len() == k,
            forall|q: int| 0 <= q < k ==> #[trigger] rev@[q] == 53 - q,
        decreases 54 - k,
    {
        rev.push(53 - k);
        k += 1;
    }
    proof {
        assert(rev@.no_duplicates());
    }
    let mut rand = ascending(54);
    shuffle(&mut rand, rng);
    let ghost s1 = rng.0;
    let mut faces = ascending(6);
    shuffle(&mut faces, rng);
    let ghost fy = fisher_yates(upto(6), s1, 6);
    proof {
        assert(faces@ == fy.0);
    }
    let mut by_face: Vec<usize> = Vec::new();
    let mut fi: usize = 0;
    while fi < 6
        invariant
            fi <= 6,
            is_perm(faces@, 6),
            by_face@.len() == 9 * fi,
            forall|q: int| 0 <= q < 9 * fi ==> #[trigger] by_face@[q] == faces@[q / 9] * 9 + q % 9,
        decreases 6 - fi,
    {
        let f = faces[fi];
        let mut i: usize = 0;
        while i < 9
            invariant
                fi < 6,
                i <= 9,
                f == faces@[fi as int],
                f < 6,
                is_perm(faces@, 6),
                by_face@.len() == 9 * fi + i,
                forall|q: int| 0 <= q < 9 * fi + i ==> #[trigger] by_face@[q] == faces@[q / 9] * 9 + q % 9,
            decreases 9 - i,
        {
            by_face.push(f * 9 + i);
            proof {
                assert((9 * fi + i) / 9 == fi && (9 * fi + i) % 9 == i);
            }
            i += 1;
        }
        fi += 1;
    }
    proof {
        assert forall|q: int| 0 <= q < 54 implies #[trigger] by_face@[q] < 54 by {
            assert(faces@[q / 9] < 6);
        }
        assert forall|p: int, q: int| 0 <= p < 54 && 0 <= q < 54 && p != q implies by_face@[p] != by_face@[q] by {
            if p / 9 == q / 9 {
                assert(p % 9 != q % 9);
            } else {
                assert(faces@[p / 9] != faces@[q / 9]);
            }
        }
    }
    let mut out: Vec<(&'static str, Vec<usize>)> = Vec::new();
    out.push(("行优先", row));
    out.push(("逆序", rev));
    out.push(("随机", rand));
    out.push(("逐面", by_face));
    out
}

/// Why an input session failed.
pub enum SessionFail {
    /// A sticker filled in by deduction or completion differs from the real cube.
    Derived(String),
    /// The colour picker refused the real colour.
    Picker(String),
    /// `paint` refused the real colour.
    Paint(String),
    /// After the last sticker the board differs from the real cube.
    Final(String),
}

/// Counts over many sessions.
pub struct InputFuzzStats {
    pub trials: usize,
    pub sessions: usize,
    pub picker_rejected: usize,
    pub paint_rejected: usize,
    pub derived_mismatch: usize,
    pub final_mismatch: usize,
    pub bad_target: usize,
    pub example: Option<String>,
}

impl InputFuzzStats {
    /// Some session failed in some way.
    pub fn failed(&self) -> (r: bool)
        ensures
            r == (self.picker_rejected > 0 || self.paint_rejected > 0 || self.derived_mismatch > 0
                || self.final_mismatch > 0 || self.bad_target > 0),
    {
        self.picker_rejected > 0 || self.paint_rejected > 0 || self.derived_mismatch > 0
            || self.final_mismatch > 0 || self.bad_target > 0
    }
}

/// A duplicate-free list of `n` numbers below `n` holds every number below `n`.
proof fn lemma_perm_covers(v: Seq<usize>, n: nat)
    requires
        is_perm(v, n),
        n <= 54,
    ensures
        forall|h: int| 0 <= h < n ==> #[trigger] v.contains(h as usize),
{
    broadcast use vstd::set_lib::range_set_properties;
    v.unique_seq_to_set();
    let r = Set::<usize>::range(0usize, n as usize);
    assert(r.finite() && r.len() == n);
    assert(v.to_set().subset_of(r)) by {
        assert forall|x: usize| v.to_set().contains(x) implies r.contains(x) by {
            let i = choose|i: int| 0 <= i < v.len() && v[i] == x;
            assert(v[i] < n);
        }
    }
    vstd::set_lib::lemma_subset_equality(v.to_set(), r);
    assert forall|h: int| 0 <= h < n implies #[trigger] v.contains(h as usize) by {
        assert(r.contains(h as usize));
        assert(v.to_set().contains(h as usize));
    }
}

/// The letter of face `f` (U R F D L B).
fn face_letter(f: usize) -> &'static str {
    if f == 0 {
        "U"
    } else if f == 1 {
        "R"
    } else if f == 2 {
        "F"
    } else if f == 3 {
        "D"
    } else if f == 4 {
        "L"
    } else {
        "B"
    }
}

/// Enter the stickers of `target` in the given order through the editor, starting
/// from a cleared board: a sticker already filled in must show the real colour, the
/// picker must offer the real colour, and `paint` must accept it; at the end the
/// board must be `target`. For a legal cube the picker and `paint` never refuse a
/// real colour and no deduction ever shows a wrong one; entered in an order that
/// visits every sticker once, it ends as itself.
#[verifier::spinoff_prover]
#[verifier::rlimit(40)]
pub fn fuzz_one_session(target: &Cells, order: &[usize]) -> (res: Result<(), SessionFail>)
    requires
        forall|k: int| 0 <= k < order@.len() ==> #[trigger] order@[k] < 54,
    ensures
        legal(*target) ==> (res is Ok || res matches Err(SessionFail::Final(_))),
        legal(*target) && is_perm(order@, 54) ==> res is Ok,
        res is Ok ==> feasible(*target),
{
    let mut ed = EditState::default();
    ed.clear();
    let sc = CubeCore::solved();
    proof {
        let t = board_cells(sc.stickers, 54);
        lemma_solved_legal(sc.stickers);
        lemma_board_cells(sc.stickers, 54);
        assert forall|h: int| 0 <= h < 54 implies (#[trigger] cell(ed.cells, h) matches Some(x) ==> cell(t, h) == Some(x)) by {
            let f = h / 9;
            let i = h % 9;
            assert(h == f * 9 + i);
            assert(sc.stickers[f][i] == solved_face_color(f));
        }
        lemma_agrees_legal_feasible(ed.cells, t);
    }
    proof {
        if legal(*target) {
            assert forall|h: int| 0 <= h < 54 implies (#[trigger] cell(ed.cells, h) matches Some(x) ==> cell(*target, h) == Some(x)) by {
                let f = h / 9;
                let i = h % 9;
                if i == 4 {
                    assert(cell(*target, h) is Some);
                    assert(h == f * 9 + 4);
                    assert(target[f][4] == cell(*target, h));
                }
            }
        }
        assert forall|h: int| 0 <= h < 54 && h % 9 == 4 implies #[trigger] cell(ed.cells, h) is Some by {
            let f = h / 9;
            assert(h == f * 9 + 4);
        }
        lemma_underived_cells(ed.cells, ed.derived, 54);
        assert forall|b: Cells| #![trigger extends(ed.cells, b)] extends(underived(ed.cells, ed.derived), b)
            implies extends(ed.cells, b) by {
            assert forall|h: int| 0 <= h < 54 && #[trigger] cell(ed.cells, h) is Some implies cell(b, h) == cell(ed.cells, h) by {
                let f = h / 9;
                assert(h == f * 9 + h % 9);
                assert(cell(underived(ed.cells, ed.derived), h) == cell(ed.cells, h));
            }
        }
        assert(settled(ed.cells, ed.derived));
    }
    let mut k: usize = 0;
    while k < order.len()
        invariant
            k <= order@.len(),
            forall|q: int| 0 <= q < order@.len() ==> #[trigger] order@[q] < 54,
            legal(*target) ==> agrees(ed.cells, *target),
            legal(*target) ==> forall|h: int| 0 <= h < 54 && h % 9 == 4 ==> #[trigger] cell(ed.cells, h) is Some,
            legal(*target) ==> all_known(ed.cells) || settled(ed.cells, ed.derived),
            legal(*target) ==> forall|q: int| 0 <= q < k ==> #[trigger] cell(ed.cells, order@[q] as int) is Some,
            feasible(ed.cells),
        decreases order@.len() - k,
    {
        let g = order[k];
        let (f, i) = split(g);
        let want = match target[f][i] {
            Some(c) => c,
            None => {
                k += 1;
                continue;
            },
        };
        proof {
            assert(cell(*target, g as int) == Some(want));
            assert(g == f * 9 + i);
        }
        match ed.cells[f][i] {
            Some(have) => {
                if have != want {
                    let mut m = text("自动填的 ");
                    push_str(&mut m, face_letter(f));
                    push_dec(&mut m, i + 1);
                    push_str(&mut m, " 是 ");
                    push_str(&mut m, name(have));
                    push_str(&mut m, ",真实是 ");
                    push_str(&mut m, name(want));
                    return Err(SessionFail::Derived(m));
                }
                k += 1;
                continue;
            },
            None => {},
        }
        proof {
            assert(cell(ed.cells, g as int) is None);
            if legal(*target) {
                assert(g % 9 != 4);
                lemma_cube_sticker_paintable(ed.cells, *target, g as int, want);
            }
        }
        let allowed = allowed_colors(&ed.cells, g);
        if !allowed[color_idx(want)] {
            let why = match can_paint(&ed.cells, g, want) {
                Err(e) => e,
                Ok(()) => text("可行性判定拒绝"),
            };
            let mut m = text("取色器不允许 ");
            push_str(&mut m, name(want));
            push_str(&mut m, " 填 ");
            push_str(&mut m, face_letter(f));
            push_dec(&mut m, i + 1);
            push_str(&mut m, " —— ");
            push_str(&mut m, why.as_str());
            return Err(SessionFail::Picker(m));
        }
        ed.active = want;
        let ghost before = ed.cells;
        proof {
            if legal(*target) {
                assert(!all_known(before));
            }
        }
        ed.paint(f, i, want);
        proof {
            if legal(*target) {

                assert(agrees(before, *target));
                assert(cell(before, (f * 9 + i) as int) is None);
                assert(i != 4);
                assert(cell(*target, (f * 9 + i) as int) == Some(want));
                assert(agrees(ed.cells, *target));
                assert(cell(ed.cells, (f * 9 + i) as int) == Some(want));
                assert(ed.cells[f as int][i as int] == Some(want));
                assert(extends(before, ed.cells));
                assert forall|q: int| 0 <= q < k + 1 implies #[trigger] cell(ed.cells, order@[q] as int) is Some by {
                    if q < k {
                        assert(cell(before, order@[q] as int) is Some);
                    }
                }
            }
        }
        let painted = match ed.cells[f][i] {
            Some(x) => x == want,
            None => false,
        };
        if !painted {
            let mut m = text("paint() 拒绝 ");
            push_str(&mut m, name(want));
            push_str(&mut m, " → ");
            push_str(&mut m, face_letter(f));
            push_dec(&mut m, i + 1);
            push_str(&mut m, " —— ");
            push_str(&mut m, ed.message.as_str());
            return Err(SessionFail::Paint(m));
        }
        k += 1;
    }
    let ghost whole = legal(*target) && all_known(ed.cells) && agrees(ed.cells, *target);
    proof {
        if legal(*target) && is_perm(order@, 54) {
            lemma_perm_covers(order@, 54);
            assert forall|h: int| 0 <= h < 54 implies #[trigger] cell(ed.cells, h) is Some by {
                assert(order@.contains(h as usize));
                let q = choose|q: int| 0 <= q < order@.len() && order@[q] == h as usize;
                assert(cell(ed.cells, order@[q] as int) is Some);
            }
        }
    }
    let mut same = true;
    let mut h: usize = 0;
    while h < 54
        invariant
            h <= 54,
            whole ==> same,
            whole ==> legal(*target) && all_known(ed.cells) && agrees(ed.cells, *target),
            same ==> forall|h2: int| 0 <= h2 < h ==> #[trigger] cell(ed.cells, h2) == cell(*target, h2),
            feasible(ed.cells),
        decreases 54 - h,
    {
        let a = get(&ed.cells, h);
        let b = get(target, h);
        let eq = match (a, b) {
            (Some(x), Some(y)) => x == y,
            (None, None) => true,
            _ => false,
        };
        proof {
            if whole {
                assert(cell(ed.cells, h as int) is Some);
                assert(cell(ed.cells, h as int) matches Some(x) ==> cell(*target, h as int) == Some(x));
            }
        }
        if !eq {
            same = false;
        }
        h += 1;
    }
    if !same {
        return Err(SessionFail::Final(text("输入结束后盘面与真实魔方不一致(被自动补成了别的解?)")));
    }
    proof {
        crate::pieces::lemma_cells_ext(ed.cells, *target);
    }
    Ok(())
}

/// The number of face turns in a scramble.
pub const SCRAMBLE_LEN: usize = 25;

/// How many moves a scramble draws at most before it stops short.
pub const SCRAMBLE_DRAWS: usize = 1_000_000;

/// The turns a scramble holds, from generator state `s`, the turns `ms` made so far
/// and `left` draws still allowed, with the generator's state at the end: while fewer
/// than [`SCRAMBLE_LEN`] turns are made and draws are left, step the generator, take
/// turn number `(state >> 33) % 18`, and keep it unless it turns the same face as the
/// last turn kept.
pub open spec fn scramble_run(s: u64, ms: Seq<Move>, left: nat) -> (Seq<Move>, u64)
    decreases left,
{
    if ms.len() >= SCRAMBLE_LEN || left == 0 {
        (ms, s)
    } else {
        let s2 = lcg_step(s);
        let m = move_spec((((s2 >> 33) as usize) % 18usize) as int);
        if ms.len() > 0 && axis_spec(m) == axis_spec(ms.last()) {
            scramble_run(s2, ms, (left - 1) as nat)
        } else {
            scramble_run(s2, ms.push(m), (left - 1) as nat)
        }
    }
}

/// A scramble: from the solved cube, face turns drawn at random from the eighteen,
/// a draw that turns the same face as the last turn being drawn again, until there
/// are [`SCRAMBLE_LEN`] of them; after [`SCRAMBLE_DRAWS`] draws it stops short.
/// Returns the cube, which is legal, and the turns made.
pub fn scramble(rng: &mut FuzzRng) -> (r: (CubeCore, Vec<Move>))
    ensures
        (r.1@, final(rng).0) == scramble_run(old(rng).0, Seq::empty(), SCRAMBLE_DRAWS as nat),
        r.1@.len() <= SCRAMBLE_LEN,
        r.0.stickers == apply_all(solved_board(), r.1@),
        forall|j: int| 1 <= j < r.1@.len() ==> #[trigger] axis_spec(r.1@[j]) != axis_spec(r.1@[j - 1]),
        legal(board_cells(r.0.stickers, 54)),
{
    let mut core = CubeCore::solved();
    proof {
        assert(is_solved_board(core.stickers));
        lemma_solved_legal(core.stickers);
    }
    let mut moves: Vec<Move> = Vec::new();
    let mut last_axis: IVec3 = (99, 99, 99);
    let mut draws: usize = 0;
    proof {
        assert(moves@ =~= Seq::<Move>::empty());
    }
    while moves.len() < SCRAMBLE_LEN && draws < SCRAMBLE_DRAWS
        invariant
            moves@.len() <= SCRAMBLE_LEN,
            core.stickers == apply_all(solved_board(), moves@),
            forall|j: int| 1 <= j < moves@.len() ==> #[trigger] axis_spec(moves@[j]) != axis_spec(moves@[j - 1]),
            moves@.len() > 0 ==> v3(last_axis) == axis_spec(moves@.last()),
            moves@.len() == 0 ==> last_axis == (99i32, 99i32, 99i32),
            legal(board_cells(core.stickers, 54)),
            draws <= SCRAMBLE_DRAWS,
            scramble_run(old(rng).0, Seq::empty(), SCRAMBLE_DRAWS as nat)
                == scramble_run(rng.0, moves@, (SCRAMBLE_DRAWS - draws) as nat),
        decreases SCRAMBLE_DRAWS - draws,
    {
        let ghost s0 = rng.0;
        let ghost left = (SCRAMBLE_DRAWS - draws) as nat;
        draws += 1;
        let k = rng.below(18);
        let m = Move::nth(k);
        let a = m.axis();
        proof {
            assert(m == move_spec((((rng.0 >> 33) as usize) % 18usize) as int));
            assert(normal_spec(board_face(m.face)).0 != 99);
        }
        if a.0 == last_axis.0 && a.1 == last_axis.1 && a.2 == last_axis.2 {
            proof {
                assert(moves@.len() > 0);
                assert(axis_spec(m) == axis_spec(moves@.last()));
                assert(scramble_run(s0, moves@, left) == scramble_run(rng.0, moves@, (left - 1) as nat));
            }
            continue;
        }
        proof {
            assert(!(moves@.len() > 0 && axis_spec(m) == axis_spec(moves@.last())));
            assert(scramble_run(s0, moves@, left) == scramble_run(rng.0, moves@.push(m), (left - 1) as nat));
        }
        let ghost before = moves@;
        let ghost board_before = core.stickers;
        moves.push(m);
        core.apply(m);
        last_axis = a;
        proof {
            lemma_board_turn_legal(board_before, core.stickers, m);
            assert(moves@.drop_last() =~= before);
            assert(moves@.last() == m);
            assert forall|j: int| 1 <= j < moves@.len() implies #[trigger] axis_spec(moves@[j]) != axis_spec(moves@[j - 1]) by {
                if j == moves@.len() - 1 {
                    if before.len() > 0 {
                        assert(moves@[j - 1] == before.last());
                    }
                } else {
                    assert(moves@[j] == before[j] && moves@[j - 1] == before[j - 1]);
                }
            }
        }
    }
    (core, moves)
}

/// What a failed session counts as, and how it is reported.
fn session_kind(f: &SessionFail) -> (r: &'static str) {
    match f {
        SessionFail::Derived(_) => "自动推导错误",
        SessionFail::Picker(_) => "取色器拒绝真实颜色",
        SessionFail::Paint(_) => "涂色被拒",
        SessionFail::Final(_) => "结束时盘面不符",
    }
}

/// Scramble `trials` cubes and enter each through the editor in the four input
/// orders, counting the sessions and what went wrong (with the first failure
/// described). Every scrambled cube is legal and every session goes through.
#[verifier::spinoff_prover]
#[verifier::rlimit(40)]
pub fn input_fuzz(trials: usize, seed: u64) -> (st: InputFuzzStats)
    requires
        trials <= usize::MAX / 4,
    ensures
        st.trials == trials,
        st.bad_target == 0,
        st.sessions == 4 * trials,
        st.picker_rejected == 0,
        st.paint_rejected == 0,
        st.derived_mismatch == 0,
        st.final_mismatch == 0,
        st.example is None,
{
    let mut rng = FuzzRng::new(seed);
    let mut st = InputFuzzStats {
        trials,
        sessions: 0,
        picker_rejected: 0,
        paint_rejected: 0,
        derived_mismatch: 0,
        final_mismatch: 0,
        bad_target: 0,
        example: None,
    };
    let mut t: usize = 0;
    while t < trials
        invariant
            t <= trials,
            trials <= usize::MAX / 4,
            st.trials == trials,
            st.bad_target == 0,
            st.sessions == 4 * t,
            st.picker_rejected == 0,
            st.paint_rejected == 0,
            st.derived_mismatch == 0,
            st.final_mismatch == 0,
            st.example is None,
        decreases trials - t,
    {
        let (core, moves) = scramble(&mut rng);
        let target = from_cube_state(&core.to_state());
        proof {
            lemma_board_cells(core.stickers, 54);
            assert forall|g: int| 0 <= g < 54 implies #[trigger] cell(target, g) == cell(board_cells(core.stickers, 54), g) by {
                assert(sticker(core.stickers, g) == core.stickers[g / 9][g % 9]);
            }
            crate::pieces::lemma_cells_ext(target, board_cells(core.stickers, 54));
        }
        if validate(&target).is_err() {
            st.bad_target += 1;
            t += 1;
            continue;
        }
        let orders = fuzz_orders(&mut rng);
        let mut j: usize = 0;
        while j < orders.len()
            invariant
                j <= orders@.len(),
                orders@.len() == 4,
                forall|q: int| 0 <= q < 4 ==> is_perm(#[trigger] orders@[q].1@, 54),
                legal(target),
                t < trials,
                trials <= usize::MAX / 4,
                st.trials == trials,
                st.bad_target == 0,
                st.sessions == 4 * t + j,
                st.picker_rejected == 0,
                st.paint_rejected == 0,
                st.derived_mismatch == 0,
                st.final_mismatch == 0,
                st.example is None,
            decreases orders@.len() - j,
        {
            st.sessions += 1;
            let order = &orders[j].1;
            proof {
                assert(is_perm(orders@[j as int].1@, 54));
            }
            match fuzz_one_session(&target, order.as_slice()) {
                Ok(()) => {},
                Err(f) => {
                    let kind = session_kind(&f);
                    let msg = match f {
                        SessionFail::Derived(m) => {
                            st.derived_mismatch += 1;
                            m
                        },
                        SessionFail::Picker(m) => {
                            st.picker_rejected += 1;
                            m
                        },
                        SessionFail::Paint(m) => {
                            st.paint_rejected += 1;
                            m
                        },
                        SessionFail::Final(m) => {
                            st.final_mismatch += 1;
                            m
                        },
                    };
                    if st.example.is_none() {
                        let mut e = text("试验 #");
                        push_dec(&mut e, t);
                        push_str(&mut e, " 顺序「");
                        push_str(&mut e, orders[j].0);
                        push_str(&mut e, "」: ");
                        push_str(&mut e, kind);
                        push_str(&mut e, ": ");
                        push_str(&mut e, msg.as_str());
                        push_str(&mut e, "\n        RUBIK_STATE=");
                        let fl = cells_to_facelets(&target);
                        push_str(&mut e, fl.as_str());
                        push_str(&mut e, "\n        打乱 = ");
                        let mut q: usize = 0;
                        while q < moves.len()
                            decreases moves.len() - q,
                        {
                            if q > 0 {
                                push_str(&mut e, " ");
                            }
                            let n = moves[q].notation();
                            push_str(&mut e, n.as_str());
                            q += 1;
                        }
                        st.example = Some(e);
                    }
                },
            }
            j += 1;
        }
        t += 1;
    }
    st
}

} // verus!
