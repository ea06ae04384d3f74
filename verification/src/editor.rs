//! The sticker editor: a board being entered sticker by sticker, where every edit
//! is checked at once, what the known stickers force is filled in, and a board that
//! got stuck is repaired.

use vstd::prelude::*;
use crate::model::{solved_face_color, CubeState, StickerColor};
use crate::pieces::{
    available_colors, cell, color_cn, color_cn_text, color_idx, color_index, count_of, empty_count,
    empty_total, full_colors, get, mark, put, split, Cells, Marks, CENTER_IDX, COLOR_ORDER,
    FACE_COLOR,
};
use crate::legal::{all_known, legal};
use crate::feasible::{agrees, can_paint, feasibility_text, feasible, is_feasible, paint_ok, paint_refusal};
use crate::completion::{completable, completes, find_completion, find_unique_completion, uniquely_completable};
use crate::completion::lemma_full_agrees_eq;
use crate::propagate::{consistent, covers, deduced, extends, propagate, propagation_closed};
use crate::repair::{force_fix, repair};
use crate::validate::{
    contradiction_cells, corner_stuck_cells, edge_stuck_cells, from_cube_state, lemma_all_known_iff,
    problem_texts, texts, validate,
};
use crate::text::{contains_spec, contains_text, dec_text, push_dec, push_str, text};

verus! {

/// The editor: the board being entered and what the user sees of it.
pub struct EditState {
    /// The board; `None` marks a sticker not entered yet.
    pub cells: Cells,
    /// Which stickers were filled in by deduction rather than by hand.
    pub derived: Marks,
    /// The palette colour.
    pub active: StickerColor,
    /// Eraser mode: a click clears a sticker.
    pub erasing: bool,
    /// Whether the editor panel is shown.
    pub visible: bool,
    /// The board has changed since it was last drawn.
    pub dirty: bool,
    /// The last hint or check result shown to the user.
    pub message: String,
    /// The board is a legal cube.
    pub valid: bool,
    /// Stickers of positions that no legal piece can fill any more.
    pub error_cells: Vec<usize>,
    /// Where the palette colour may be painted.
    pub placeable: Vec<usize>,
    /// The sticker whose colour picker is open.
    pub picker: Option<usize>,
    /// The picker has a colour and closes once the pointer is released.
    pub picker_closing: bool,
}

/// The stickers among `0..n` where colour `c` may be painted: not already `c`,
/// passing the immediate checks, and leaving a feasible board.
pub open spec fn placeable_upto(cells: Cells, c: StickerColor, n: int) -> Seq<usize>
    decreases n,
{
    if n <= 0 {
        Seq::empty()
    } else {
        placeable_upto(cells, c, n - 1) + if cell(cells, n - 1) != Some(c) && paint_ok(cells, n - 1, c)
            && feasible(put(cells, n - 1, Some(c))) {
            seq![(n - 1) as usize]
        } else {
            Seq::empty()
        }
    }
}

/// The hints list exactly the stickers that may take the palette colour: a sticker
/// is listed when, and only when, it does not already show `c`, painting `c` there
/// passes the immediate checks, and the board afterwards is still feasible; an
/// empty sticker and a sticker of another colour are treated alike. The list runs in
/// increasing board order, each sticker once.
pub proof fn lemma_placeable_exact(cells: Cells, c: StickerColor, n: int)
    requires
        0 <= n <= 54,
    ensures
        forall|g: usize| #[trigger] placeable_upto(cells, c, n).contains(g) <==> (g < n
            && cell(cells, g as int) != Some(c) && paint_ok(cells, g as int, c)
            && feasible(put(cells, g as int, Some(c)))),
        forall|i: int, j: int| 0 <= i < j < placeable_upto(cells, c, n).len()
            ==> placeable_upto(cells, c, n)[i] < placeable_upto(cells, c, n)[j],
    decreases n,
{
    if n > 0 {
        lemma_placeable_exact(cells, c, n - 1);
        let prev = placeable_upto(cells, c, n - 1);
        let cur = placeable_upto(cells, c, n);
        assert forall|g: usize| #[trigger] cur.contains(g) <==> (g < n
            && cell(cells, g as int) != Some(c) && paint_ok(cells, g as int, c)
            && feasible(put(cells, g as int, Some(c)))) by {
            if cur.contains(g) {
                let k = choose|k: int| 0 <= k < cur.len() && cur[k] == g;
                if k < prev.len() {
                    assert(prev[k] == g);
                    assert(prev.contains(g));
                }
            }
            if g < n && cell(cells, g as int) != Some(c) && paint_ok(cells, g as int, c)
                && feasible(put(cells, g as int, Some(c))) {
                if g < n - 1 {
                    assert(prev.contains(g));
                    let k = choose|k: int| 0 <= k < prev.len() && prev[k] == g;
                    assert(cur[k] == g);
                } else {
                    assert(cur[prev.len() as int] == g);
                }
            }
        }
        assert forall|i: int, j: int| 0 <= i < j < cur.len() implies cur[i] < cur[j] by {
            if j >= prev.len() {
                assert(cur[j] == (n - 1) as usize);
                assert(cur[i] == prev[i]);
                assert(prev.contains(prev[i]));
            } else {
                assert(cur[i] == prev[i] && cur[j] == prev[j]);
            }
        }
    }
}

/// Where the palette colour may be painted (nowhere while erasing).
pub open spec fn placeable_spec(cells: Cells, c: StickerColor, erasing: bool) -> Seq<usize> {
    if erasing {
        Seq::empty()
    } else {
        placeable_upto(cells, c, 54)
    }
}

/// The derived fields of the editor agree with its board.
pub open spec fn checked(e: EditState) -> bool {
    &&& e.valid == legal(e.cells)
    &&& e.error_cells@ == corner_stuck_cells(e.cells, 8) + edge_stuck_cells(e.cells, 12)
    &&& e.placeable@ == placeable_spec(e.cells, e.active, e.erasing)
}

/// The name of face `f` as shown to the user (上 右 前 下 左 后 for U R F D L B).
pub open spec fn face_name_text(f: int) -> Seq<char> {
    if f == 0 {
        "上"@
    } else if f == 1 {
        "右"@
    } else if f == 2 {
        "前"@
    } else if f == 3 {
        "下"@
    } else if f == 4 {
        "左"@
    } else {
        "后"@
    }
}

/// The name of face `f` as shown to the user.
fn face_name(f: usize) -> (r: &'static str)
    ensures
        r@ == face_name_text(f as int),
{
    if f == 0 {
        "上"
    } else if f == 1 {
        "右"
    } else if f == 2 {
        "前"
    } else if f == 3 {
        "下"
    } else if f == 4 {
        "左"
    } else {
        "后"
    }
}

impl EditState {
    /// Recompute where the palette colour may be painted: every sticker not already
    /// of that colour where painting it passes the immediate checks and leaves a
    /// feasible board. Nothing while erasing.
    pub fn recompute_placeable(&mut self)
        ensures
            final(self).placeable@ == placeable_spec(old(self).cells, old(self).active, old(self).erasing),
            forall|g: usize| g < 54 && !old(self).erasing ==> (#[trigger] final(self).placeable@.contains(g) <==> (
                cell(old(self).cells, g as int) != Some(old(self).active)
                && paint_ok(old(self).cells, g as int, old(self).active)
                && feasible(put(old(self).cells, g as int, Some(old(self).active))))),
            old(self).erasing ==> final(self).placeable@.len() == 0,
            final(self).cells == old(self).cells,
            final(self).derived == old(self).derived,
            final(self).active == old(self).active,
            final(self).erasing == old(self).erasing,
            final(self).visible == old(self).visible,
            final(self).dirty == old(self).dirty,
            final(self).message == old(self).message,
            final(self).valid == old(self).valid,
            final(self).error_cells == old(self).error_cells,
            final(self).picker == old(self).picker,
            final(self).picker_closing == old(self).picker_closing,
    {
        let c = self.active;
        let mut out: Vec<usize> = Vec::new();
        if !self.erasing {
            let mut g: usize = 0;
            while g < 54
                invariant
                    g <= 54,
                    out@ == placeable_upto(self.cells, c, g as int),
                decreases 54 - g,
            {
                let here = get(&self.cells, g);
                let same = match here {
                    Some(x) => x == c,
                    None => false,
                };
                if !same {
                    if can_paint(&self.cells, g, c).is_ok() {
                        let mut probe = self.cells;
                        crate::pieces::set(&mut probe, g, Some(c));
                        if is_feasible(&probe).is_ok() {
                            out.push(g);
                        }
                    }
                }
                g += 1;
            }
        }
        proof {
            lemma_placeable_exact(self.cells, c, 54);
        }
        self.placeable = out;
    }

    /// Bring the check results up to date with the board: legality, the stuck
    /// positions, and where the palette colour may go.
    pub fn recheck(&mut self)
        ensures
            checked(*final(self)),
            final(self).cells == old(self).cells,
            final(self).derived == old(self).derived,
            final(self).active == old(self).active,
            final(self).erasing == old(self).erasing,
            final(self).visible == old(self).visible,
            final(self).dirty == old(self).dirty,
            final(self).message == old(self).message,
            final(self).picker == old(self).picker,
            final(self).picker_closing == old(self).picker_closing,
    {
        self.valid = validate(&self.cells).is_ok();
        self.error_cells = contradiction_cells(&self.cells);
        self.recompute_placeable();
    }

    /// When the palette colour already appears nine times, switch to the first colour
    /// (in [`COLOR_ORDER`]) that does not, and say so.
    fn autoswitch_if_full(&mut self)
        ensures
            final(self).cells == old(self).cells,
            final(self).derived == old(self).derived,
            final(self).erasing == old(self).erasing,
            final(self).visible == old(self).visible,
            final(self).dirty == old(self).dirty,
            final(self).valid == old(self).valid,
            final(self).error_cells == old(self).error_cells,
            final(self).placeable == old(self).placeable,
            final(self).picker == old(self).picker,
            final(self).picker_closing == old(self).picker_closing,
            ({
                let avail = COLOR_ORDER@.filter(|c: StickerColor| count_of(old(self).cells, c) < 9);
                if count_of(old(self).cells, old(self).active) >= 9 && avail.len() > 0 {
                    &&& final(self).active == avail[0]
                    &&& final(self).message@ == "该颜色已满,已自动切到「"@ + color_cn_text(avail[0]) + "」"@
                } else {
                    &&& final(self).active == old(self).active
                    &&& final(self).message == old(self).message
                }
            }),
    {
        let full = full_colors(&self.cells);
        if !full[color_idx(self.active)] {
            return;
        }
        let avail = available_colors(&self.cells);
        if avail.len() > 0 {
            let c = avail[0];
            self.active = c;
            let mut m = text("该颜色已满,已自动切到「");
            push_str(&mut m, color_cn(c));
            push_str(&mut m, "」");
            self.message = m;
        }
    }

    /// The check result as shown to the user: a success line for a legal cube,
    /// otherwise how many stickers are known followed by the first (at most three)
    /// problems.
    pub fn valid_text(&self) -> (out: String)
        ensures
            out@ == valid_text_spec(self.cells),
    {
        match validate(&self.cells) {
            Ok(()) => text("状态合法 —— 点「应用」后再按 S 求解"),
            Err(errs) => {
                let empty = empty_count(&self.cells);
                proof {
                    crate::pieces::lemma_empty_total_bound(self.cells);
                }
                let filled = 54 - empty;
                let mut out = text("[");
                push_dec(&mut out, filled);
                push_str(&mut out, "/54 格已填]");
                let ghost head = out@;
                let ghost ts = texts(errs@);
                let mut i: usize = 0;
                while i < errs.len() && i < 3
                    invariant
                        i <= 3,
                        i <= errs@.len(),
                        ts == texts(errs@),
                        out@ == head + listed(ts, i as int),
                    decreases errs.len() - i,
                {
                    let ghost before = out@;
                    if i == 0 {
                        push_str(&mut out, " ");
                    } else {
                        push_str(&mut out, "\n   ");
                    }
                    push_str(&mut out, errs[i].as_str());
                    proof {
                        assert(ts[i as int] == errs@[i as int]@);
                        assert(out@ =~= head + listed(ts, i + 1));
                    }
                    i += 1;
                }
                let ghost listed_part = out@;
                if errs.len() > 3 {
                    push_str(&mut out, "\n   (+");
                    push_dec(&mut out, errs.len() - 3);
                    push_str(&mut out, " more)");
                }
                proof {
                    reveal_strlit("");
                    if errs@.len() <= 3 {
                        assert(out@ =~= head + listed(ts, ts.len() as int) + ""@);
                    }
                }
                out
            },
        }
    }
}

/// The first `n` messages of `ts`, each on its own line (the first after a space).
pub open spec fn listed(ts: Seq<Seq<char>>, n: int) -> Seq<char>
    decreases n,
{
    if n <= 0 {
        seq![]
    } else {
        listed(ts, n - 1) + (if n - 1 == 0 { " "@ } else { "\n   "@ }) + ts[n - 1]
    }
}

/// The check result as shown to the user.
pub open spec fn valid_text_spec(cells: Cells) -> Seq<char> {
    if legal(cells) {
        "状态合法 —— 点「应用」后再按 S 求解"@
    } else {
        let ts = problem_texts(cells);
        "["@ + dec_text((54 - empty_total(cells)) as nat) + "/54 格已填]"@
            + listed(ts, if ts.len() < 3 { ts.len() as int } else { 3 })
            + if ts.len() > 3 { "\n   (+"@ + dec_text((ts.len() - 3) as nat) + " more)"@ } else { ""@ }
    }
}

/// The board `cells` with the stickers marked in `derived` among `0..n` cleared and
/// the centres among `0..n` set to their faces' colours.
pub open spec fn underived_upto(cells: Cells, derived: Marks, n: int) -> Cells
    decreases n,
{
    if n <= 0 {
        cells
    } else {
        let b = underived_upto(cells, derived, n - 1);
        if (n - 1) % 9 == 4 {
            put(b, n - 1, Some(solved_face_color((n - 1) / 9)))
        } else if mark(derived, n - 1) {
            put(b, n - 1, None)
        } else {
            b
        }
    }
}

/// What the editor deduces from: the hand-entered stickers, with every centre set.
pub open spec fn underived(cells: Cells, derived: Marks) -> Cells {
    underived_upto(cells, derived, 54)
}

/// Sticker `h` of [`underived`]: its face's colour at a centre, unknown where it was
/// derived, as entered otherwise.
pub open spec fn underived_cell(cells: Cells, derived: Marks, h: int) -> Option<StickerColor> {
    if h % 9 == 4 {
        Some(solved_face_color(h / 9))
    } else if mark(derived, h) {
        None
    } else {
        cell(cells, h)
    }
}

pub(crate) proof fn lemma_underived_cells(cells: Cells, derived: Marks, n: int)
    requires
        0 <= n <= 54,
    ensures
        forall|h: int| 0 <= h < 54 ==> #[trigger] cell(underived_upto(cells, derived, n), h)
            == if h < n { underived_cell(cells, derived, h) } else { cell(cells, h) },
    decreases n,
{
    if n > 0 {
        lemma_underived_cells(cells, derived, n - 1);
        let b = underived_upto(cells, derived, n - 1);
        crate::pieces::lemma_put_cells(b, n - 1, Some(solved_face_color((n - 1) / 9)));
        crate::pieces::lemma_put_cells(b, n - 1, None);
    }
}

/// The board the editor deduces from agrees with every legal cube that agrees with
/// the board itself.
pub proof fn lemma_underived_agrees(cells: Cells, derived: Marks, t: Cells)
    requires
        legal(t),
        agrees(cells, t),
    ensures
        agrees(underived(cells, derived), t),
{
    lemma_underived_cells(cells, derived, 54);
    assert forall|h: int| 0 <= h < 54 implies (#[trigger] cell(underived(cells, derived), h) matches Some(x) ==> cell(t, h) == Some(x)) by {
        if h % 9 == 4 {
            assert(cell(t, h) is Some);
            let f = h / 9;
            assert(h == f * 9 + 4);
            assert(t[f][4] == cell(t, h));
        }
    }
}

/// The board holds exactly what deduction gives from its hand-entered stickers:
/// every board above those, agreeing with a legal cube, on which no deduction
/// applies, keeps all of its stickers.
pub open spec fn settled(cells: Cells, derived: Marks) -> bool {
    forall|b: Cells| #![trigger extends(cells, b)]
        propagation_closed(b) && consistent(b) && extends(underived(cells, derived), b) ==> extends(cells, b)
}

/// What deduction returns from `base`, with its own fills marked as derived and
/// nothing else, is settled.
proof fn lemma_propagated_settled(base: Cells, p: Cells, dp: Marks, filled: Seq<usize>)
    requires
        forall|f: int| 0 <= f < 6 ==> #[trigger] base[f][4] == Some(solved_face_color(f)),
        forall|g: int| 0 <= g < 54 && g % 9 != 4 && #[trigger] cell(base, g) is Some ==> cell(p, g) == cell(base, g),
        forall|g: int| 0 <= g < 54 ==> (#[trigger] filled.contains(g as usize)
            <==> (g % 9 != 4 && cell(base, g) is None && cell(p, g) is Some)),
        forall|g: int| 0 <= g < 54 ==> #[trigger] mark(dp, g) == filled.contains(g as usize),
        forall|b: Cells| #![trigger extends(p, b)]
            propagation_closed(b) && consistent(b) && covers(base, b) ==> extends(p, b),
    ensures
        settled(p, dp),
{
    lemma_underived_cells(p, dp, 54);
    assert forall|b: Cells| #![trigger extends(p, b)]
        propagation_closed(b) && consistent(b) && extends(underived(p, dp), b) implies extends(p, b) by {
        assert forall|f: int| 0 <= f < 6 implies #[trigger] b[f][4] is Some by {
            let h = f * 9 + 4;
            assert(h / 9 == f && h % 9 == 4);
            assert(cell(underived(p, dp), h) is Some);
            assert(cell(b, h) == b[f][4]);
        }
        assert forall|g: int| 0 <= g < 54 && g % 9 != 4 && #[trigger] cell(base, g) is Some implies cell(b, g) == cell(base, g) by {
            assert(!filled.contains(g as usize));
            assert(cell(underived(p, dp), g) == cell(p, g));
        }
        assert(covers(base, b));
    }
}

/// A board with one to four gaps and a unique legal completion is finished; any other
/// stays as it is.
pub open spec fn finished(q: Cells, c: Cells) -> bool {
    if 0 < empty_total(q) <= 4 && uniquely_completable(q) {
        completes(q, c)
    } else {
        c == q
    }
}

/// After deduction the board is stuck: full but not a legal cube, or with at most four
/// gaps that no legal cube fills.
pub open spec fn stuck_board(p: Cells) -> bool {
    ||| empty_total(p) == 0 && !legal(p)
    ||| 0 < empty_total(p) <= 4 && !completable(p)
}

/// The report of a stuck board mended by `fix`, leaving the board `c`.
pub open spec fn stuck_text(fix: Seq<char>, c: Cells) -> Seq<char> {
    if empty_total(c) == 0 {
        "盘面原本无解(全局约束,涂的过程中查不出)—— "@ + fix + ";已全部补全"@
    } else {
        "盘面原本无解 —— "@ + fix + ";还剩 "@ + dec_text(empty_total(c)) + " 格请继续涂"@
    }
}

/// No single change of `p` leaves a board that a legal cube completes.
pub open spec fn no_single_fix(p: Cells) -> bool {
    forall|m: Cells| #[trigger] crate::repair::one_change(p, m) ==> !completable(m)
}

/// What becomes of the stuck board `p` (marks `dp`): the one-change repair when it
/// succeeds, else the targeted fix, each followed by the unique completion when there
/// is one; when both fail the board stays and the targeted fix's refusal is shown.
pub open spec fn stuck_outcome(p: Cells, dp: Marks, c: Cells, d: Marks, msg: Seq<char>) -> bool {
    ||| exists|q: Cells, fix: Seq<char>| #[trigger] crate::repair::repair_note(p, dp, q, d, fix)
        && finished(q, c) && msg == stuck_text(fix, c)
    ||| no_single_fix(p) && (forall|g: int| 0 <= g < 54 ==> #[trigger] mark(d, g) == (g != 4 && mark(dp, g)))
        && exists|q: Cells, t0: Cells, log: Seq<Seq<char>>|
            #![trigger crate::repair::fix_pick(p, t0, q), crate::repair::fix_notes_of(t0, q, log)]
            crate::repair::fix_pick(p, t0, q) && crate::repair::fix_notes_of(t0, q, log)
            && finished(q, c) && msg == stuck_text(crate::repair::fix_message(log), c)
    ||| no_single_fix(p) && (forall|t: Cells| #[trigger] agrees(p, t) ==> !crate::repair::fixable(t))
        && c == p && d == dp && msg == "把所有补齐方案都试过了,仍无法凑出合法魔方"@
}

/// What the editor does with the deduced board `p` (marks `dp`, `n` stickers added,
/// message `msg0` before): a stuck board is mended; a board with one to four gaps is
/// finished when its completion is unique and otherwise kept with a note that several
/// completions exist; any other board is kept, the message noting the added stickers.
pub open spec fn after_deduction(p: Cells, dp: Marks, n: nat, msg0: Seq<char>, c: Cells, d: Marks, msg: Seq<char>) -> bool {
    if stuck_board(p) {
        stuck_outcome(p, dp, c, d, msg)
    } else if 0 < empty_total(p) <= 4 {
        &&& d == dp
        &&& if uniquely_completable(p) {
            completes(p, c) && msg == "已自动补全最后 "@ + dec_text(empty_total(p)) + " 格(合法解唯一)"@
        } else {
            c == p && msg == "还剩 "@ + dec_text(empty_total(p)) + " 格,存在多种合法补法 —— 请按你自己的魔方继续涂"@
        }
    } else {
        &&& c == p
        &&& d == dp
        &&& msg == if n > 0 { msg0 + "  (+"@ + dec_text(n) + " auto-filled)"@ } else { msg0 }
    }
}

/// Deducing again from the hand-entered board `base` (message `msg0` before) gives the
/// board `c`, marks `d` and message `msg`.
#[verifier::opaque]
pub open spec fn rederived(base: Cells, msg0: Seq<char>, c: Cells, d: Marks, msg: Seq<char>) -> bool {
    exists|p: Cells, dp: Marks, filled: Seq<usize>| #[trigger] deduced(base, p, dp, filled)
        && after_deduction(p, dp, filled.len(), msg0, c, d, msg)
}

impl EditState {
    /// Clear every derived sticker, set the centres, and deduce again from what was
    /// entered by hand; then, with at most four gaps left, finish the board when its
    /// legal completion is unique, or repair it when it has none (first by one change,
    /// else by the targeted fix) and finish it when that leaves a unique completion.
    #[verifier::spinoff_prover]
    #[verifier::rlimit(60)]
    fn rederive(&mut self)
        ensures
            forall|t: Cells| #![trigger agrees(final(self).cells, t)] legal(t)
                && agrees(underived(old(self).cells, old(self).derived), t) ==> agrees(final(self).cells, t),
            (exists|t: Cells| legal(t) && #[trigger] agrees(underived(old(self).cells, old(self).derived), t))
                ==> agrees(underived(old(self).cells, old(self).derived), final(self).cells),
            (exists|t: Cells| legal(t) && #[trigger] agrees(underived(old(self).cells, old(self).derived), t))
                ==> all_known(final(self).cells)
                || (propagation_closed(final(self).cells) && settled(final(self).cells, final(self).derived)),
            rederived(underived(old(self).cells, old(self).derived), old(self).message@,
                final(self).cells, final(self).derived, final(self).message@),
            final(self).active == old(self).active,
            final(self).erasing == old(self).erasing,
            final(self).visible == old(self).visible,
            final(self).dirty == old(self).dirty,
            final(self).valid == old(self).valid,
            final(self).error_cells == old(self).error_cells,
            final(self).placeable == old(self).placeable,
            final(self).picker == old(self).picker,
            final(self).picker_closing == old(self).picker_closing,
    {
        let ghost c_in = self.cells;
        let ghost d_in = self.derived;
        let mut g: usize = 0;
        while g < 54
            invariant
                g <= 54,
                forall|h: int| 0 <= h < 54 ==> #[trigger] cell(self.cells, h)
                    == if h < g { if mark(d_in, h) { None } else { cell(c_in, h) } } else { cell(c_in, h) },
                forall|h: int| 0 <= h < 54 ==> #[trigger] mark(self.derived, h) == (h >= g && mark(d_in, h)),
                self.active == old(self).active,
                self.erasing == old(self).erasing,
                self.visible == old(self).visible,
                self.dirty == old(self).dirty,
                self.valid == old(self).valid,
                self.error_cells == old(self).error_cells,
                self.placeable == old(self).placeable,
                self.picker == old(self).picker,
                self.picker_closing == old(self).picker_closing,
                c_in == old(self).cells,
                d_in == old(self).derived,
                self.message == old(self).message,
            decreases 54 - g,
        {
            let (f, i) = split(g);
            let ghost cb = self.cells;
            let ghost db = self.derived;
            if self.derived[f][i] {
                self.cells[f][i] = None;
                self.derived[f][i] = false;
            }
            proof {
                broadcast use vstd::array::group_array_axioms;
                assert forall|h: int| 0 <= h < 54 implies #[trigger] cell(self.cells, h)
                    == if h < g + 1 { if mark(d_in, h) { None } else { cell(c_in, h) } } else { cell(c_in, h) } by {
                    assert(h == 9 * (h / 9) + h % 9);
                    if h != g {
                        assert(h / 9 != f || h % 9 != i);
                        assert(cell(self.cells, h) == cell(cb, h));
                    } else {
                        assert(mark(db, h) == mark(d_in, h));
                        assert(cell(cb, h) == cell(c_in, h));
                        assert(db[f as int][i as int] == mark(db, h));
                    }
                }
                assert forall|h: int| 0 <= h < 54 implies #[trigger] mark(self.derived, h) == (h >= g + 1 && mark(d_in, h)) by {
                    assert(h == 9 * (h / 9) + h % 9);
                    if h != g {
                        assert(h / 9 != f || h % 9 != i);
                        assert(mark(self.derived, h) == mark(db, h));
                    }
                }
            }
            g += 1;
        }
        let mut f: usize = 0;
        while f < 6
            invariant
                f <= 6,
                forall|h: int| 0 <= h < 54 ==> #[trigger] cell(self.cells, h)
                    == if h % 9 == 4 && h / 9 < f { Some(solved_face_color(h / 9)) } else if mark(d_in, h) { None } else { cell(c_in, h) },
                forall|h: int| 0 <= h < 54 ==> !#[trigger] mark(self.derived, h),
                self.active == old(self).active,
                self.erasing == old(self).erasing,
                self.visible == old(self).visible,
                self.dirty == old(self).dirty,
                self.valid == old(self).valid,
                self.error_cells == old(self).error_cells,
                self.placeable == old(self).placeable,
                self.picker == old(self).picker,
                self.picker_closing == old(self).picker_closing,
                c_in == old(self).cells,
                d_in == old(self).derived,
                self.message == old(self).message,
            decreases 6 - f,
        {
            let ghost cb = self.cells;
            self.cells[f][CENTER_IDX] = Some(FACE_COLOR[f]);
            proof {
                broadcast use vstd::array::group_array_axioms;
                assert forall|h: int| 0 <= h < 54 implies #[trigger] cell(self.cells, h)
                    == if h % 9 == 4 && h / 9 < f + 1 { Some(solved_face_color(h / 9)) } else if mark(d_in, h) { None } else { cell(c_in, h) } by {
                    if h / 9 != f || h % 9 != 4 {
                        assert(cell(self.cells, h) == cell(cb, h));
                    }
                }
            }
            f += 1;
        }
        proof {
            lemma_underived_cells(c_in, d_in, 54);
            assert forall|h: int| 0 <= h < 54 implies #[trigger] cell(self.cells, h) == cell(underived(c_in, d_in), h) by {}
            crate::pieces::lemma_cells_ext(self.cells, underived(c_in, d_in));
        }
        let ghost base = self.cells;
        let ghost d_fresh = self.derived;
        proof {
            assert forall|h: int| 0 <= h < 54 implies !#[trigger] mark(self.derived, h) by {}
        }
        let filled = propagate(&mut self.cells, &mut self.derived);
        let ghost dp = self.derived;
        proof {
            assert forall|f: int| 0 <= f < 6 implies #[trigger] base[f][4] == Some(solved_face_color(f)) by {
                let h = f * 9 + 4;
                assert(h / 9 == f && h % 9 == 4);
                assert(cell(base, h) == base[f][4]);
            }
            lemma_propagated_settled(base, self.cells, dp, filled@);
        }
        let ghost msg0 = self.message@;
        proof {
            reveal_strlit("");
        }
        if filled.len() > 0 {
            let mut m = text("");
            push_str(&mut m, self.message.as_str());
            push_str(&mut m, "  (+");
            push_dec(&mut m, filled.len());
            push_str(&mut m, " auto-filled)");
            self.message = m;
        }
        proof {
            assert(self.message@ =~= if filled@.len() > 0 {
                msg0 + "  (+"@ + dec_text(filled@.len()) + " auto-filled)"@
            } else {
                msg0
            });
        }
        let ghost p = self.cells;
        proof {
            assert forall|h: int| 0 <= h < 54 implies (#[trigger] cell(base, h) matches Some(x) ==> cell(p, h) == Some(x)) by {
                if h % 9 == 4 {
                    let f = h / 9;
                    assert(h == f * 9 + 4);
                    assert(p[f][4] == cell(p, h));
                    assert(base[f][4] == cell(base, h));
                }
            }
            assert(agrees(base, p));
            assert(deduced(base, p, dp, filled@));
        }
        let left = empty_count(&self.cells);
        let complete = left == 0;
        proof {
            lemma_all_known_iff(p);
        }
        let stuck = if complete {
            validate(&self.cells).is_err()
        } else if left <= 4 {
            find_completion(&self.cells).is_none()
        } else {
            false
        };
        proof {
            assert forall|t: Cells| legal(t) && agrees(base, t) implies !stuck && completes(p, t) by {
                assert(agrees(p, t));
                assert(completes(p, t));
                if complete {
                    lemma_full_agrees_eq(p, t);
                    assert(legal(p));
                } else if left <= 4 {
                    assert(completable(p));
                }
            }
            assert(stuck == stuck_board(p));
        }
        if stuck {
            proof {
                if all_known(p) {
                    assert(!legal(p));
                } else {
                    assert(!legal(p));
                }
            }
            let r = repair(&mut self.cells, &mut self.derived);
            let ghost rep_ok = r is Ok;
            let kind_fix = match r {
                Ok(m) => Ok(m),
                Err(_) => force_fix(&mut self.cells, &mut self.derived),
            };
            let ghost q = self.cells;
            let ghost dq = self.derived;
            match kind_fix {
                Ok(fix) => {
                    let n = empty_count(&self.cells);
                    if n > 0 && n <= 4 {
                        if let Some(done) = find_unique_completion(&self.cells) {
                            self.cells = done;
                        }
                    }
                    let n2 = empty_count(&self.cells);
                    if n2 == 0 {
                        let mut m = text("盘面原本无解(全局约束,涂的过程中查不出)—— ");
                        push_str(&mut m, fix.as_str());
                        push_str(&mut m, ";已全部补全");
                        self.message = m;
                    } else {
                        let mut m = text("盘面原本无解 —— ");
                        push_str(&mut m, fix.as_str());
                        push_str(&mut m, ";还剩 ");
                        push_dec(&mut m, n2);
                        push_str(&mut m, " 格请继续涂");
                        self.message = m;
                    }
                    proof {
                        assert(finished(q, self.cells));
                        assert(self.message@ =~= stuck_text(fix@, self.cells));
                        if rep_ok {
                            assert(crate::repair::repair_note(p, dp, q, self.derived, fix@));
                        } else {
                            assert(no_single_fix(p));
                            let (t0, log) = choose|t0: Cells, log: Seq<Seq<char>>|
                                #![trigger crate::repair::fix_pick(p, t0, q), crate::repair::fix_notes_of(t0, q, log)]
                                crate::repair::fix_pick(p, t0, q) && crate::repair::fix_notes_of(t0, q, log)
                                && fix@ == crate::repair::fix_message(log);
                            assert(crate::repair::fix_pick(p, t0, q) && crate::repair::fix_notes_of(t0, q, log));
                        }
                        assert(stuck_outcome(p, dp, self.cells, self.derived, self.message@));
                        assert(after_deduction(p, dp, filled@.len(), msg0, self.cells, self.derived, self.message@));
                    }
                },
                Err(e) => {
                    self.message = e;
                    proof {
                        assert(no_single_fix(p));
                        assert(stuck_outcome(p, dp, self.cells, self.derived, self.message@));
                        assert(after_deduction(p, dp, filled@.len(), msg0, self.cells, self.derived, self.message@));
                    }
                },
            }
        } else if !complete && left <= 4 {
            if let Some(done) = find_unique_completion(&self.cells) {
                self.cells = done;
                let mut m = text("已自动补全最后 ");
                push_dec(&mut m, left);
                push_str(&mut m, " 格(合法解唯一)");
                self.message = m;
                proof {
                    assert(after_deduction(p, dp, filled@.len(), msg0, self.cells, self.derived, self.message@));
                }
            } else if find_completion(&self.cells).is_some() {
                let mut m = text("还剩 ");
                push_dec(&mut m, left);
                push_str(&mut m, " 格,存在多种合法补法 —— 请按你自己的魔方继续涂");
                self.message = m;
                proof {
                    assert(after_deduction(p, dp, filled@.len(), msg0, self.cells, self.derived, self.message@));
                }
            }
        } else {
            proof {
                assert(after_deduction(p, dp, filled@.len(), msg0, self.cells, self.derived, self.message@));
            }
        }
        proof {
            reveal(rederived);
            assert(rederived(base, msg0, self.cells, self.derived, self.message@));
            if exists|t: Cells| legal(t) && #[trigger] agrees(base, t) {
                let t = choose|t: Cells| legal(t) && #[trigger] agrees(base, t);
                assert(!stuck);
                if !(self.cells == p && self.derived == dp) {
                    assert(all_known(self.cells));
                }
            }
        }
    }
}

/// Whether the entered board may be handed to the solver: only a full board that is
/// a legal cube; otherwise the reason, the number of gaps first.
pub fn solve_gate(cells: &Cells) -> (res: Result<(), String>)
    ensures
        res is Ok <==> legal(*cells),
        empty_total(*cells) > 0 ==> (res matches Err(m)
            && m@ == "还有 "@ + dec_text(empty_total(*cells)) + " 格没填 —— 请把魔方填完整再求解"@),
        empty_total(*cells) == 0 && !legal(*cells) ==> (res matches Err(m)
            && m@ == "当前状态不合法:"@ + problem_texts(*cells)[0]),
{
    proof {
        lemma_all_known_iff(*cells);
    }
    let left = empty_count(cells);
    if left > 0 {
        let mut m = text("还有 ");
        push_dec(&mut m, left);
        push_str(&mut m, " 格没填 —— 请把魔方填完整再求解");
        return Err(m);
    }
    match validate(cells) {
        Ok(()) => Ok(()),
        Err(errs) => {
            let mut m = text("当前状态不合法:");
            if errs.len() > 0 {
                proof {
                    assert(texts(errs@)[0] == errs@[0]@);
                }
                push_str(&mut m, errs[0].as_str());
            } else {
                push_str(&mut m, "状态不合法");
            }
            Err(m)
        },
    }
}

/// No two stickers of one piece of a legal cube show opposite colours.
proof fn lemma_legal_no_opposite(a: Cells, t: Cells, g: int, c: StickerColor)
    requires
        legal(t),
        agrees(a, t),
        0 <= g < 54,
        cell(t, g) == Some(c),
    ensures
        !crate::feasible::opposite_on_corner(a, g, c),
        !crate::feasible::opposite_on_edge(a, g, c),
{
    lemma_no_opposite_corner(a, t, g, c);
    lemma_no_opposite_edge(a, t, g, c);
}

#[verifier::spinoff_prover]
#[verifier::rlimit(40)]
proof fn lemma_no_opposite_corner(a: Cells, t: Cells, g: int, c: StickerColor)
    requires
        legal(t),
        agrees(a, t),
        0 <= g < 54,
        cell(t, g) == Some(c),
    ensures
        !crate::feasible::opposite_on_corner(a, g, c),
{
    if crate::feasible::opposite_on_corner(a, g, c) {
        let (i, s, u) = choose|i: int, s: int, u: int| 0 <= i < 8 && 0 <= s < 3 && 0 <= u < 3
            && #[trigger] crate::pieces::cslot(i, s) == g && s != u
            && #[trigger] cell(a, crate::pieces::cslot(i, u)) == Some(crate::pieces::opposite_color(c));
        let k = crate::legal::corner_id(t, i);
        assert(k < 8);
        assert(crate::pieces::corner_match(t, i, k));
        let r = if crate::pieces::corner_fits(t, i, k, 0) { 0int } else if crate::pieces::corner_fits(t, i, k, 1) { 1int } else { 2int };
        assert(crate::pieces::corner_fits(t, i, k, r));
        assert(cell(t, crate::pieces::cslot(i, u)) == Some(crate::pieces::opposite_color(c)));
        assert(cell(t, crate::pieces::cslot(i, s)) is Some);
        assert(cell(t, crate::pieces::cslot(i, u)) is Some);
        assert(crate::pieces::corner_slot_fits(t, i, k, r, s));
        assert(crate::pieces::corner_slot_fits(t, i, k, r, u));
        assert(c == crate::pieces::corner_color(k, (s + r) % 3));
        assert(crate::pieces::opposite_color(c) == crate::pieces::corner_color(k, (u + r) % 3));
        lemma_corner_no_opposite(k, (u + r) % 3, (s + r) % 3);
    }
}

#[verifier::spinoff_prover]
#[verifier::rlimit(40)]
proof fn lemma_no_opposite_edge(a: Cells, t: Cells, g: int, c: StickerColor)
    requires
        legal(t),
        agrees(a, t),
        0 <= g < 54,
        cell(t, g) == Some(c),
    ensures
        !crate::feasible::opposite_on_edge(a, g, c),
{
    if crate::feasible::opposite_on_edge(a, g, c) {
        let (i, s, u) = choose|i: int, s: int, u: int| 0 <= i < 12 && 0 <= s < 2 && 0 <= u < 2
            && #[trigger] crate::pieces::eslot(i, s) == g && s != u
            && #[trigger] cell(a, crate::pieces::eslot(i, u)) == Some(crate::pieces::opposite_color(c));
        let k = crate::legal::edge_id(t, i);
        assert(k < 12);
        assert(crate::pieces::edge_match(t, i, k));
        let r = if crate::pieces::edge_fits(t, i, k, 0) { 0int } else { 1int };
        assert(crate::pieces::edge_fits(t, i, k, r));
        assert(cell(t, crate::pieces::eslot(i, u)) == Some(crate::pieces::opposite_color(c)));
        assert(cell(t, crate::pieces::eslot(i, s)) is Some);
        assert(crate::pieces::edge_slot_fits(t, i, k, r, s));
        assert(crate::pieces::edge_slot_fits(t, i, k, r, u));
        lemma_edge_no_opposite(k);
    }
}

/// An edge piece never carries two opposite colours.
proof fn lemma_edge_no_opposite(k: int)
    requires
        0 <= k < 12,
    ensures
        crate::pieces::edge_color(k, 0) != crate::pieces::opposite_color(crate::pieces::edge_color(k, 1)),
        crate::pieces::edge_color(k, 1) != crate::pieces::opposite_color(crate::pieces::edge_color(k, 0)),
{
}

/// A corner piece never carries two opposite colours.
proof fn lemma_corner_no_opposite(k: int, a: int, b: int)
    requires
        0 <= k < 8,
        0 <= a < 3,
        0 <= b < 3,
        a != b,
    ensures
        crate::pieces::corner_color(k, a) != crate::pieces::opposite_color(crate::pieces::corner_color(k, b)),
{
}

proof fn lemma_count_gap(a: Cells, t: Cells, g: int, c: StickerColor, n: int)
    requires
        agrees(a, t),
        0 <= g < 54,
        0 <= n <= 54,
        cell(a, g) is None,
        cell(t, g) == Some(c),
    ensures
        crate::pieces::count_upto(t, c, n) >= crate::pieces::count_upto(a, c, n) + if g < n { 1int } else { 0int },
    decreases n,
{
    if n > 0 {
        lemma_count_gap(a, t, g, c, n - 1);
        if cell(a, n - 1) == Some(c) {
            assert(cell(t, n - 1) == Some(c));
        }
    }
}

/// A missing sticker of a legal cube that the board agrees with passes the immediate
/// checks, and painting it leaves a feasible board: the picker offers it.
pub proof fn lemma_cube_sticker_paintable(cells: Cells, t: Cells, g: int, c: StickerColor)
    requires
        legal(t),
        agrees(cells, t),
        0 <= g < 54,
        g % 9 != 4,
        cell(cells, g) is None,
        cell(t, g) == Some(c),
    ensures
        paint_ok(cells, g, c),
        feasible(put(cells, g, Some(c))),
        agrees(put(cells, g, Some(c)), t),
{
    lemma_legal_no_opposite(cells, t, g, c);
    lemma_count_gap(cells, t, g, c, 54);
    assert(crate::pieces::count_of(t, c) == 9);
    crate::pieces::lemma_empty_total_positive(cells, g);
    crate::pieces::lemma_put_cells(cells, g, Some(c));
    assert(agrees(put(cells, g, Some(c)), t));
    crate::feasible::lemma_agrees_legal_feasible(put(cells, g, Some(c)), t);
}

/// Entering a sticker at a gap adds to what the editor deduces from and removes
/// nothing from it.
proof fn lemma_underived_grows(c0: Cells, d0: Marks, c1: Cells, d1: Marks, g: int)
    requires
        0 <= g < 54,
        g % 9 != 4,
        cell(c0, g) is None,
        cell(c1, g) is Some,
        !mark(d1, g),
        forall|h: int| 0 <= h < 54 && h != g ==> #[trigger] cell(c1, h) == cell(c0, h) && mark(d1, h) == mark(d0, h),
    ensures
        extends(underived(c0, d0), underived(c1, d1)),
        cell(underived(c1, d1), g) == cell(c1, g),
{
    lemma_underived_cells(c0, d0, 54);
    lemma_underived_cells(c1, d1, 54);
    assert forall|h: int| 0 <= h < 54 && #[trigger] cell(underived(c0, d0), h) is Some
        implies cell(underived(c1, d1), h) == cell(underived(c0, d0), h) by {
        if h != g {
            assert(cell(c1, h) == cell(c0, h) && mark(d1, h) == mark(d0, h));
        }
    }
}

proof fn lemma_agrees_extends(a: Cells, b: Cells)
    requires
        agrees(a, b),
    ensures
        extends(a, b),
{
    assert forall|h: int| 0 <= h < 54 && #[trigger] cell(a, h) is Some implies cell(b, h) == cell(a, h) by {
        assert(cell(a, h) matches Some(x) ==> cell(b, h) == Some(x));
    }
}

/// The board the editor deduces from once `c` is entered at `g`.
pub open spec fn stroke_base(cells: Cells, derived: Marks, g: int, c: StickerColor) -> Cells {
    put(underived(cells, derived), g, Some(c))
}

/// Entering `c` by hand at a sticker that is no centre gives the board
/// [`stroke_base`] to deduce from.
proof fn lemma_stroke_base(c0: Cells, d0: Marks, c1: Cells, d1: Marks, g: int, c: StickerColor)
    requires
        0 <= g < 54,
        g % 9 != 4,
        cell(c1, g) == Some(c),
        !mark(d1, g),
        forall|h: int| 0 <= h < 54 && h != g ==> #[trigger] cell(c1, h) == cell(c0, h) && mark(d1, h) == mark(d0, h),
    ensures
        underived(c1, d1) == stroke_base(c0, d0, g, c),
{
    lemma_underived_cells(c0, d0, 54);
    lemma_underived_cells(c1, d1, 54);
    crate::pieces::lemma_put_cells(underived(c0, d0), g, Some(c));
    assert forall|h: int| 0 <= h < 54 implies #[trigger] cell(underived(c1, d1), h) == cell(stroke_base(c0, d0, g, c), h) by {
        if h != g {
            assert(cell(c1, h) == cell(c0, h) && mark(d1, h) == mark(d0, h));
        }
    }
    crate::pieces::lemma_cells_ext(underived(c1, d1), stroke_base(c0, d0, g, c));
}

/// The pointer to the repair button added to a refusal that a one-sticker repair
/// may mend: one about orientation, parity or a piece that does not exist.
pub open spec fn repair_hint(e: Seq<char>) -> Seq<char> {
    if contains_spec(e, "朝向"@) || contains_spec(e, "奇偶"@) || contains_spec(e, "不存在"@) {
        "\n   点「修正」可自动修一处;或用「擦除」腾出空位"@
    } else {
        seq![]
    }
}

/// The text of a successful paint of `c` at sticker `idx` of face `face`.
pub open spec fn painted_text(c: StickerColor, face: int, idx: int) -> Seq<char> {
    "已涂 "@ + color_cn_text(c) + " 到 "@ + face_name_text(face) + dec_text((idx + 1) as nat)
}

impl EditState {
    /// Paint `c` on sticker `idx` of face `face`, accepting the stroke only when the
    /// immediate checks pass and, after the deductions it allows, the board can still
    /// be completed; a refused stroke leaves the board and marks as they were.
    #[verifier::spinoff_prover]
    #[verifier::rlimit(60)]
    pub fn paint(&mut self, face: usize, idx: usize, c: StickerColor)
        requires
            face < 6,
            idx < 9,
        ensures
            feasible(old(self).cells) ==> feasible(final(self).cells),
            !paint_ok(old(self).cells, (face * 9 + idx) as int, c) ==> {
                &&& final(self).cells == old(self).cells
                &&& final(self).derived == old(self).derived
                &&& final(self).active == old(self).active
                &&& final(self).valid == old(self).valid
                &&& final(self).error_cells == old(self).error_cells
                &&& final(self).placeable == old(self).placeable
                &&& final(self).dirty == old(self).dirty
                &&& final(self).message@ == "【不能涂】"@ + paint_refusal(old(self).cells, (face * 9 + idx) as int, c)
            },
            paint_ok(old(self).cells, (face * 9 + idx) as int, c) ==> {
                &&& checked(*final(self))
                &&& final(self).dirty
                &&& ({
                    ||| (final(self).cells == old(self).cells && final(self).derived == old(self).derived
                        && exists|b: Cells, db: Marks, mb: Seq<char>|
                            #[trigger] rederived(stroke_base(old(self).cells, old(self).derived, (face * 9 + idx) as int, c),
                                old(self).message@, b, db, mb)
                            && !feasible(b)
                            && final(self).message@ == "【不能涂】"@ + feasibility_text(b) + repair_hint(feasibility_text(b)))
                    ||| (feasible(final(self).cells) && final(self).message@ == painted_text(c, face as int, idx as int)
                        && exists|mb: Seq<char>|
                            #[trigger] rederived(stroke_base(old(self).cells, old(self).derived, (face * 9 + idx) as int, c),
                                old(self).message@, final(self).cells, final(self).derived, mb))
                })
            },
            forall|t: Cells| #![trigger agrees(final(self).cells, t)]
                legal(t) && agrees(old(self).cells, t) && idx != 4
                && cell(old(self).cells, (face * 9 + idx) as int) is None
                && cell(t, (face * 9 + idx) as int) == Some(c)
                ==> {
                    &&& agrees(final(self).cells, t)
                    &&& cell(final(self).cells, (face * 9 + idx) as int) == Some(c)
                    &&& forall|h: int| 0 <= h < 54 && h % 9 == 4 ==> #[trigger] cell(final(self).cells, h) is Some
                    &&& final(self).message@ == painted_text(c, face as int, idx as int)
                    &&& (all_known(final(self).cells)
                        || (propagation_closed(final(self).cells) && settled(final(self).cells, final(self).derived)))
                    &&& (settled(old(self).cells, old(self).derived) ==> extends(old(self).cells, final(self).cells))
                },
    {
        let g = face * 9 + idx;
        let ghost c0 = self.cells;
        let ghost d0 = self.derived;
        let ghost admitted = exists|t: Cells| legal(t) && agrees(c0, t) && idx != 4
            && cell(c0, g as int) is None && #[trigger] cell(t, g as int) == Some(c);
        proof {
            assert(g / 9 == face && g % 9 == idx);
            if admitted {
                let t = choose|t: Cells| legal(t) && agrees(c0, t) && idx != 4
                    && cell(c0, g as int) is None && #[trigger] cell(t, g as int) == Some(c);
                lemma_cube_sticker_paintable(c0, t, g as int, c);
            }
        }
        match can_paint(&self.cells, g, c) {
            Err(e) => {
                let mut m = text("【不能涂】");
                push_str(&mut m, e.as_str());
                self.message = m;
                return;
            },
            Ok(()) => {},
        }
        let cells_bak = self.cells;
        let derived_bak = self.derived;
        crate::pieces::set(&mut self.cells, g, Some(c));
        self.derived[face][idx] = false;
        let ghost c1 = self.cells;
        let ghost d1 = self.derived;
        let ghost msg_in = self.message@;
        proof {
            broadcast use vstd::array::group_array_axioms;
            assert forall|h: int| 0 <= h < 54 && h != g implies #[trigger] cell(c1, h) == cell(c0, h) && mark(d1, h) == mark(d0, h) by {
                assert(h == 9 * (h / 9) + h % 9);
                assert(h / 9 != face || h % 9 != idx);
            }
            assert(g / 9 == face && g % 9 == idx);
            assert(mark(d1, g as int) == false);
            lemma_stroke_base(c0, d0, c1, d1, g as int, c);
        }
        proof {
            if admitted {
                assert forall|t: Cells| legal(t) && agrees(c0, t) && idx != 4
                    && cell(c0, g as int) is None && #[trigger] cell(t, g as int) == Some(c)
                    implies agrees(underived(c1, d1), t) && cell(underived(c1, d1), g as int) == Some(c) by {
                    assert(agrees(c1, t));
                    lemma_underived_agrees(c1, d1, t);
                    lemma_underived_cells(c1, d1, 54);
                    assert(mark(d1, g as int) == false);
                }
            }
        }
        proof {
            if admitted {
                broadcast use vstd::array::group_array_axioms;
                assert forall|h: int| 0 <= h < 54 && h != g implies #[trigger] cell(c1, h) == cell(c0, h) && mark(d1, h) == mark(d0, h) by {
                    assert(h == 9 * (h / 9) + h % 9);
                    assert(h / 9 != face || h % 9 != idx);
                }
                assert(g / 9 == face && g % 9 == idx);
                lemma_underived_grows(c0, d0, c1, d1, g as int);
            }
        }
        self.rederive();
        let ghost c2 = self.cells;
        let ghost d2 = self.derived;
        let ghost m2 = self.message@;
        proof {
            assert(rederived(stroke_base(c0, d0, g as int, c), old(self).message@, c2, d2, m2));
        }
        proof {
            if admitted {
                let t = choose|t: Cells| legal(t) && agrees(c0, t) && idx != 4
                    && cell(c0, g as int) is None && #[trigger] cell(t, g as int) == Some(c);
                assert(agrees(c2, t));
                crate::feasible::lemma_agrees_legal_feasible(c2, t);
            }
        }
        match is_feasible(&self.cells) {
            Err(e) => {
                self.cells = cells_bak;
                self.derived = derived_bak;
                self.recheck();
                self.dirty = true;
                let hint = contains_text(e.as_str(), "朝向") || contains_text(e.as_str(), "奇偶")
                    || contains_text(e.as_str(), "不存在");
                let mut m = text("【不能涂】");
                push_str(&mut m, e.as_str());
                if hint {
                    push_str(&mut m, "\n   点「修正」可自动修一处;或用「擦除」腾出空位");
                }
                proof {
                    assert(m@ =~= "【不能涂】"@ + feasibility_text(c2) + repair_hint(feasibility_text(c2)));
                }
                self.message = m;
                proof {
                    assert(rederived(stroke_base(c0, d0, g as int, c), old(self).message@, c2, d2, m2)
                        && !feasible(c2));
                }
                return;
            },
            Ok(()) => {},
        }
        let mut msg = text("已涂 ");
        push_str(&mut msg, color_cn(c));
        push_str(&mut msg, " 到 ");
        push_str(&mut msg, face_name(face));
        push_dec(&mut msg, idx + 1);
        self.autoswitch_if_full();
        self.recheck();
        self.dirty = true;
        self.message = msg;
        proof {
            assert(self.cells == c2 && self.derived == d2);
            assert(rederived(stroke_base(c0, d0, g as int, c), old(self).message@, self.cells, self.derived, m2));
        }
        proof {
            if admitted {
                assert forall|t: Cells| legal(t) && agrees(c0, t) && idx != 4
                    && cell(c0, g as int) is None && #[trigger] cell(t, g as int) == Some(c)
                    implies agrees(self.cells, t) && cell(self.cells, g as int) == Some(c)
                    && forall|h: int| 0 <= h < 54 && h % 9 == 4 ==> #[trigger] cell(self.cells, h) is Some by {
                    assert(agrees(underived(c1, d1), t));
                    assert(agrees(underived(c1, d1), c2));
                    assert(cell(underived(c1, d1), g as int) == Some(c));
                    lemma_underived_cells(c1, d1, 54);
                    assert forall|h: int| 0 <= h < 54 && h % 9 == 4 implies #[trigger] cell(self.cells, h) is Some by {
                        assert(cell(underived(c1, d1), h) is Some);
                    }
                }
                let t = choose|t: Cells| legal(t) && agrees(c0, t) && idx != 4
                    && cell(c0, g as int) is None && #[trigger] cell(t, g as int) == Some(c);
                assert(agrees(underived(c1, d1), t));
                assert(all_known(c2) || (propagation_closed(c2) && settled(c2, d2)));
                if settled(c0, d0) {
                    if all_known(c2) {
                        assert forall|h: int| 0 <= h < 54 && #[trigger] cell(c0, h) is Some implies cell(c2, h) == cell(c0, h) by {
                            assert(cell(c0, h) matches Some(x) ==> cell(t, h) == Some(x));
                            assert(cell(c2, h) matches Some(x) ==> cell(t, h) == Some(x));
                            assert(cell(c2, h) is Some);
                        }
                    } else {
                        lemma_agrees_extends(underived(c1, d1), c2);
                        crate::propagate::lemma_extends_trans(underived(c0, d0), underived(c1, d1), c2);
                        assert(agrees(c2, t));
                        assert(consistent(c2));
                        assert(extends(c0, c2));
                    }
                }
            }
        }
    }
}

/// Erasing a sticker of a feasible board leaves it feasible.
pub proof fn lemma_erase_feasible(a: Cells, g: int)
    requires
        feasible(a),
        0 <= g < 54,
    ensures
        feasible(put(a, g, None)),
{
    let b = put(a, g, None);
    crate::pieces::lemma_put_cells(a, g, None);
    assert forall|c: StickerColor| #[trigger] count_of(b, c) <= 9 by {
        crate::moves::lemma_count_put(a, g, None, c, 54);
        assert(count_of(a, c) <= 9);
    }
    let fc = choose|f: Seq<int>| #[trigger] crate::feasible::corner_assignment(a, f);
    assert forall|ci: int| 0 <= ci < 8 implies 0 <= #[trigger] fc[ci] < 8 && crate::pieces::corner_match(b, ci, fc[ci]) by {
        let k = fc[ci];
        assert(crate::pieces::corner_match(a, ci, k));
        let r = if crate::pieces::corner_fits(a, ci, k, 0) { 0int } else if crate::pieces::corner_fits(a, ci, k, 1) { 1int } else { 2int };
        assert(crate::pieces::corner_slot_fits(b, ci, k, r, 0));
        assert(crate::pieces::corner_slot_fits(b, ci, k, r, 1));
        assert(crate::pieces::corner_slot_fits(b, ci, k, r, 2));
        assert(crate::pieces::corner_fits(b, ci, k, r));
    }
    assert(crate::feasible::corner_assignment(b, fc));
    let fe = choose|f: Seq<int>| #[trigger] crate::feasible::edge_assignment(a, f);
    assert forall|ei: int| 0 <= ei < 12 implies 0 <= #[trigger] fe[ei] < 12 && crate::pieces::edge_match(b, ei, fe[ei]) by {
        let k = fe[ei];
        assert(crate::pieces::edge_match(a, ei, k));
        let r = if crate::pieces::edge_fits(a, ei, k, 0) { 0int } else { 1int };
        assert(crate::pieces::edge_slot_fits(b, ei, k, r, 0));
        assert(crate::pieces::edge_slot_fits(b, ei, k, r, 1));
        assert(crate::pieces::edge_fits(b, ei, k, r));
    }
    assert(crate::feasible::edge_assignment(b, fe));
    assert(!all_known(b)) by {
        assert(cell(b, g) is None);
    }
}

proof fn lemma_face_count(cells: Cells, c: StickerColor, f: int, i: int)
    requires
        0 <= f < 6,
        0 <= i <= 9,
        forall|h: int, j: int| 0 <= h < 6 && 0 <= j < 9 ==> #[trigger] cells[h][j] == Some(solved_face_color(h)),
    ensures
        crate::pieces::count_upto(cells, c, 9 * f + i)
            == crate::pieces::count_upto(cells, c, 9 * f) + if solved_face_color(f) == c { i } else { 0 },
    decreases i,
{
    if i > 0 {
        lemma_face_count(cells, c, f, i - 1);
        let g = 9 * f + i - 1;
        assert(g / 9 == f && g % 9 == i - 1);
        assert(cell(cells, g) == Some(solved_face_color(f)));
    }
}

/// Every colour appears nine times on the solved board.
pub proof fn lemma_solved_counts(cells: Cells)
    requires
        forall|h: int, j: int| 0 <= h < 6 && 0 <= j < 9 ==> #[trigger] cells[h][j] == Some(solved_face_color(h)),
    ensures
        forall|c: StickerColor| #[trigger] count_of(cells, c) == 9,
{
    assert forall|c: StickerColor| #[trigger] count_of(cells, c) == 9 by {
        lemma_face_count(cells, c, 0, 9);
        lemma_face_count(cells, c, 1, 9);
        lemma_face_count(cells, c, 2, 9);
        lemma_face_count(cells, c, 3, 9);
        lemma_face_count(cells, c, 4, 9);
        lemma_face_count(cells, c, 5, 9);
    }
}

/// The board of a cube state: sticker `i` of face `f` is that face's sticker `i`.
pub open spec fn shows_state(cells: Cells, s: CubeState) -> bool {
    forall|f: int, i: int| 0 <= f < 6 && 0 <= i < 9 ==> #[trigger] cells[f][i] == Some(s.face_spec(f)[i])
}

/// No sticker is marked as derived.
pub open spec fn no_marks(m: Marks) -> bool {
    forall|g: int| 0 <= g < 54 ==> !#[trigger] mark(m, g)
}

fn no_marks_board() -> (m: Marks)
    ensures
        no_marks(m),
{
    let m = [[false; 9]; 6];
    proof {
        assert forall|g: int| 0 <= g < 54 implies !#[trigger] mark(m, g) by {
            assert(0 <= g / 9 < 6 && 0 <= g % 9 < 9);
        }
    }
    m
}

impl EditState {
    /// Load a full cube: every sticker entered, none derived; then check it and
    /// switch the palette colour if it is already used up.
    pub fn from_cube(&mut self, s: &CubeState)
        ensures
            shows_state(final(self).cells, *s),
            no_marks(final(self).derived),
            final(self).valid == legal(final(self).cells),
            final(self).error_cells@ == corner_stuck_cells(final(self).cells, 8) + edge_stuck_cells(final(self).cells, 12),
            final(self).placeable@ == placeable_spec(final(self).cells, old(self).active, old(self).erasing),
            final(self).erasing == old(self).erasing,
            final(self).visible == old(self).visible,
            final(self).dirty,
            final(self).picker == old(self).picker,
            final(self).picker_closing == old(self).picker_closing,
            ({
                let avail = COLOR_ORDER@.filter(|c: StickerColor| count_of(final(self).cells, c) < 9);
                if count_of(final(self).cells, old(self).active) >= 9 && avail.len() > 0 {
                    final(self).active == avail[0]
                } else {
                    final(self).active == old(self).active
                }
            }),
    {
        self.cells = from_cube_state(s);
        self.derived = no_marks_board();
        self.recheck();
        self.autoswitch_if_full();
        self.dirty = true;
    }

    /// **Reset to the canonical board**: every sticker its face's colour, none
    /// derived, the picker closed. The same whatever came before.
    pub fn reset_to_solid(&mut self)
        ensures
            forall|f: int, i: int| 0 <= f < 6 && 0 <= i < 9 ==> #[trigger] final(self).cells[f][i] == Some(solved_face_color(f)),
            no_marks(final(self).derived),
            final(self).picker is None,
            checked(*final(self)),
            final(self).dirty,
            final(self).active == old(self).active,
            final(self).erasing == old(self).erasing,
            final(self).visible == old(self).visible,
            final(self).picker_closing == old(self).picker_closing,
            final(self).message@ == "已重置(各面同色)"@,
    {
        let mut f: usize = 0;
        while f < 6
            invariant
                f <= 6,
                forall|h: int, i: int| 0 <= h < f && 0 <= i < 9 ==> #[trigger] self.cells[h][i] == Some(solved_face_color(h)),
                forall|h: int, i: int| 0 <= h < f && 0 <= i < 9 ==> !#[trigger] self.derived[h][i],
                self.active == old(self).active,
                self.erasing == old(self).erasing,
                self.visible == old(self).visible,
                self.picker_closing == old(self).picker_closing,
            decreases 6 - f,
        {
            let mut i: usize = 0;
            while i < 9
                invariant
                    f < 6,
                    i <= 9,
                    forall|h: int, j: int| 0 <= h < f && 0 <= j < 9 ==> #[trigger] self.cells[h][j] == Some(solved_face_color(h)),
                    forall|j: int| 0 <= j < i ==> #[trigger] self.cells[f as int][j] == Some(solved_face_color(f as int)),
                    forall|h: int, j: int| 0 <= h < f && 0 <= j < 9 ==> !#[trigger] self.derived[h][j],
                    self.active == old(self).active,
                    self.erasing == old(self).erasing,
                    self.visible == old(self).visible,
                    self.picker_closing == old(self).picker_closing,
                decreases 9 - i,
            {
                self.cells[f][i] = Some(FACE_COLOR[f]);
                i += 1;
            }
            self.derived[f] = [false; 9];
            f += 1;
        }
        self.picker = None;
        self.recheck();
        self.dirty = true;
        self.message = text("已重置(各面同色)");
        proof {
            assert forall|g: int| 0 <= g < 54 implies !#[trigger] mark(self.derived, g) by {
                assert(0 <= g / 9 < 6 && 0 <= g % 9 < 9);
            }
        }
    }

    /// **Clear**: only the centres stay (they are fixed); nothing derived; the palette
    /// back to white.
    pub fn clear(&mut self)
        ensures
            forall|f: int, i: int| 0 <= f < 6 && 0 <= i < 9 ==> #[trigger] final(self).cells[f][i]
                == if i == 4 { Some(solved_face_color(f)) } else { None },
            no_marks(final(self).derived),
            final(self).active == StickerColor::W,
            final(self).valid == legal(final(self).cells),
            final(self).error_cells@ == corner_stuck_cells(final(self).cells, 8) + edge_stuck_cells(final(self).cells, 12),
            final(self).placeable@ == placeable_spec(final(self).cells, old(self).active, old(self).erasing),
            final(self).dirty,
            final(self).erasing == old(self).erasing,
            final(self).visible == old(self).visible,
            final(self).picker == old(self).picker,
            final(self).picker_closing == old(self).picker_closing,
            final(self).message@ == "已清空(保留中心块 —— 它们固定不可改)"@,
    {
        self.cells = [[None; 9]; 6];
        self.derived = no_marks_board();
        let mut f: usize = 0;
        while f < 6
            invariant
                f <= 6,
                forall|h: int, i: int| 0 <= h < 6 && 0 <= i < 9 ==> #[trigger] self.cells[h][i]
                    == if i == 4 && h < f { Some(solved_face_color(h)) } else { None },
                no_marks(self.derived),
                self.active == old(self).active,
                self.erasing == old(self).erasing,
                self.visible == old(self).visible,
                self.picker == old(self).picker,
                self.picker_closing == old(self).picker_closing,
            decreases 6 - f,
        {
            self.cells[f][CENTER_IDX] = Some(FACE_COLOR[f]);
            f += 1;
        }
        self.recheck();
        self.active = StickerColor::W;
        self.dirty = true;
        self.message = text("已清空(保留中心块 —— 它们固定不可改)");
    }

    /// Erase sticker `idx` of face `face` (no deduction follows, so that two stickers
    /// can be exchanged by hand). Centres cannot be erased.
    pub fn erase(&mut self, face: usize, idx: usize)
        requires
            face < 6,
            idx < 9,
        ensures
            idx == 4 ==> {
                &&& final(self).cells == old(self).cells
                &&& final(self).derived == old(self).derived
                &&& final(self).valid == old(self).valid
                &&& final(self).error_cells == old(self).error_cells
                &&& final(self).placeable == old(self).placeable
                &&& final(self).dirty == old(self).dirty
                &&& final(self).message@ == "中心块固定,不能清除"@
            },
            idx != 4 ==> {
                &&& final(self).cells == put(old(self).cells, (face * 9 + idx) as int, None)
                &&& forall|g: int| 0 <= g < 54 ==> #[trigger] mark(final(self).derived, g)
                    == (g != face * 9 + idx && mark(old(self).derived, g))
                &&& checked(*final(self))
                &&& final(self).dirty
                &&& final(self).message@ == "已清除 "@ + face_name_text(face as int) + dec_text((idx + 1) as nat)
                    + " —— 现在可以把它涂成别的颜色"@
                &&& feasible(old(self).cells) ==> feasible(final(self).cells)
            },
            final(self).active == old(self).active,
            final(self).erasing == old(self).erasing,
    {
        if idx == CENTER_IDX {
            self.message = text("中心块固定,不能清除");
            return;
        }
        let g = face * 9 + idx;
        let ghost d0 = self.derived;
        proof {
            assert(g / 9 == face && g % 9 == idx);
        }
        crate::pieces::set(&mut self.cells, g, None);
        self.derived[face][idx] = false;
        proof {
            assert forall|h: int| 0 <= h < 54 implies #[trigger] mark(self.derived, h) == (h != g && mark(d0, h)) by {
                assert(h == 9 * (h / 9) + h % 9);
                if h != g {
                    assert(h / 9 != face || h % 9 != idx);
                }
            }
        }
        self.recheck();
        self.dirty = true;
        let mut m = text("已清除 ");
        push_str(&mut m, face_name(face));
        push_dec(&mut m, idx + 1);
        push_str(&mut m, " —— 现在可以把它涂成别的颜色");
        self.message = m;
        proof {
            if feasible(old(self).cells) {
                lemma_erase_feasible(old(self).cells, g as int);
            }
        }
    }

    /// The entry the self-check uses: deduce again, then check (the same path a stroke
    /// takes).
    pub fn rederive_public(&mut self)
        ensures
            forall|t: Cells| #![trigger agrees(final(self).cells, t)] legal(t)
                && agrees(underived(old(self).cells, old(self).derived), t) ==> agrees(final(self).cells, t),
            (exists|t: Cells| legal(t) && #[trigger] agrees(underived(old(self).cells, old(self).derived), t))
                ==> agrees(underived(old(self).cells, old(self).derived), final(self).cells),
            (exists|t: Cells| legal(t) && #[trigger] agrees(underived(old(self).cells, old(self).derived), t))
                ==> all_known(final(self).cells)
                || (propagation_closed(final(self).cells) && settled(final(self).cells, final(self).derived)),
            rederived(underived(old(self).cells, old(self).derived), old(self).message@,
                final(self).cells, final(self).derived, final(self).message@),
            checked(*final(self)),
            final(self).active == old(self).active,
            final(self).erasing == old(self).erasing,
    {
        self.rederive();
        self.recheck();
    }

    /// One-change repair of the board (see [`repair`]); the outcome is reported in the
    /// message.
    pub fn repair(&mut self)
        ensures
            legal(old(self).cells) ==> final(self).cells == old(self).cells && final(self).derived == old(self).derived
                && final(self).message@ == "已修正:"@ + "当前盘面本来就合法,无需修正"@,
            final(self).cells == old(self).cells || exists|m: Cells| #[trigger] crate::repair::one_change(old(self).cells, m)
                && crate::repair::accepted(m, old(self).derived, final(self).cells, final(self).derived),
            !legal(old(self).cells) && (exists|m: Cells| #[trigger] crate::repair::one_change(old(self).cells, m) && completable(m))
                ==> exists|m: Cells| #[trigger] crate::repair::one_change(old(self).cells, m)
                && crate::repair::accepted(m, old(self).derived, final(self).cells, final(self).derived),
            final(self).active == old(self).active,
            final(self).erasing == old(self).erasing,
            ({
                ||| (final(self).cells == old(self).cells && final(self).derived == old(self).derived
                    && final(self).message@ == "没找到一步可修正的方案 —— 请用「擦除」清掉几格重涂,或点「清空」重来"@)
                ||| (checked(*final(self)) && final(self).dirty && !legal(old(self).cells)
                    && exists|t: Seq<char>| #[trigger] crate::repair::repair_note(old(self).cells, old(self).derived,
                        final(self).cells, final(self).derived, t) && final(self).message@ == "已修正:"@ + t)
                ||| (legal(old(self).cells) && final(self).message@ == "已修正:"@ + "当前盘面本来就合法,无需修正"@)
            }),
    {
        let ghost c0 = self.cells;
        let ghost d0 = self.derived;
        match repair(&mut self.cells, &mut self.derived) {
            Ok(msg) => {
                self.recheck();
                self.dirty = true;
                let mut m = text("已修正:");
                push_str(&mut m, msg.as_str());
                self.message = m;
                proof {
                    assert(self.message@ == "已修正:"@ + msg@);
                    if !legal(c0) {
                        assert(crate::repair::repair_note(c0, d0, self.cells, self.derived, msg@));
                    } else {
                        assert(msg@ == "当前盘面本来就合法,无需修正"@);
                    }
                }
            },
            Err(e) => {
                self.message = e;
            },
        }
    }
}

impl Default for EditState {
    /// The editor starts on the solved cube, every sticker entered, with a hint.
    fn default() -> (st: Self)
        ensures
            forall|f: int, i: int| 0 <= f < 6 && 0 <= i < 9 ==> #[trigger] st.cells[f][i] == Some(solved_face_color(f)),
            no_marks(st.derived),
            st.valid == legal(st.cells),
            st.error_cells@ == corner_stuck_cells(st.cells, 8) + edge_stuck_cells(st.cells, 12),
            st.placeable@ == placeable_spec(st.cells, StickerColor::W, false),
            st.active == StickerColor::W,
            !st.erasing,
            st.visible,
            st.dirty,
            st.picker is None,
            !st.picker_closing,
            st.message@ == "点格子涂色;金色=中心(不可改),青色=自动推导"@,
    {
        let mut st = EditState {
            cells: [[None; 9]; 6],
            derived: [[false; 9]; 6],
            active: StickerColor::W,
            erasing: false,
            visible: true,
            dirty: true,
            message: String::new(),
            valid: false,
            error_cells: Vec::new(),
            placeable: Vec::new(),
            picker: None,
            picker_closing: false,
        };
        let solved = CubeState::solved();
        st.from_cube(&solved);
        proof {
            lemma_solved_counts(st.cells);
        }
        st.message = text("点格子涂色;金色=中心(不可改),青色=自动推导");
        st
    }
}

} // verus!
