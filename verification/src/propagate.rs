//! Local deduction: fill in every sticker that the known ones force.

use vstd::prelude::*;
use crate::model::{solved_face_color, StickerColor};
use crate::pieces::{
    cell, color_index, corner_color, corner_fits, corner_full, corner_known, corner_match, count_of,
    count_upto, counts, cslot, edge_color, edge_fits, edge_full, edge_known, edge_match,
    empty_total, empty_upto, eslot, get, lemma_put_cells, mark, put, solved_corner_piece,
    solved_edge_piece, Cells, Marks, COLOR_ORDER, CORNER_FACELETS, EDGE_FACELETS, FACE_COLOR,
};
use crate::fit::{
    corner_consistent, corner_used, edge_consistent, edge_used, lemma_corner_match_unique,
    lemma_corner_rot_unique, lemma_edge_match_unique, lemma_edge_rot_unique, used_corners,
    used_edges,
};
use crate::legal::{
    all_known, centers_fixed, corner_id, edge_id, legal, lemma_corner_id, lemma_edge_id,
    pieces_form_permutation,
};
use crate::feasible::{agrees, lemma_count_agrees};

verus! {

/// `b` keeps every known sticker of `a`.
pub open spec fn extends(a: Cells, b: Cells) -> bool {
    forall|g: int| 0 <= g < 54 ==> (#[trigger] cell(a, g) is Some ==> cell(b, g) == cell(a, g))
}

/// `log` lists, without repetition, exactly the stickers unknown in `a` and known in
/// `b`; the marks of `mb` are those of `ma` plus the logged stickers.
pub open spec fn fill_log(a: Cells, ma: Marks, b: Cells, mb: Marks, log: Seq<usize>) -> bool {
    &&& log.no_duplicates()
    &&& forall|i: int| 0 <= i < log.len() ==> #[trigger] log[i] < 54
    &&& forall|g: int| 0 <= g < 54 ==> (#[trigger] log.contains(g as usize) <==> (cell(a, g) is None && cell(b, g) is Some))
    &&& forall|g: int| 0 <= g < 54 ==> #[trigger] mark(mb, g) == (mark(ma, g) || log.contains(g as usize))
}

/// Corner position `ci` is partly known and exactly one unused piece fits it.
pub open spec fn corner_forced(cells: Cells, ci: int) -> bool {
    &&& !corner_full(cells, ci)
    &&& corner_known(cells, ci)
    &&& exists|k: int| 0 <= k < 8 && !corner_used(cells, k) && #[trigger] corner_match(cells, ci, k)
        && forall|k2: int| 0 <= k2 < 8 && !corner_used(cells, k2) && #[trigger] corner_match(cells, ci, k2) ==> k2 == k
}

/// Edge position `ei` is partly known and exactly one unused piece fits it.
pub open spec fn edge_forced(cells: Cells, ei: int) -> bool {
    &&& !edge_full(cells, ei)
    &&& edge_known(cells, ei)
    &&& exists|k: int| 0 <= k < 12 && !edge_used(cells, k) && #[trigger] edge_match(cells, ei, k)
        && forall|k2: int| 0 <= k2 < 12 && !edge_used(cells, k2) && #[trigger] edge_match(cells, ei, k2) ==> k2 == k
}

/// How many more stickers of colour `c` a legal cube needs.
pub open spec fn missing(cells: Cells, c: StickerColor) -> int {
    if count_of(cells, c) >= 9 {
        0
    } else {
        9 - count_of(cells, c)
    }
}

/// Some colour is missing exactly as many stickers as the board has gaps.
pub open spec fn quota_forced(cells: Cells) -> bool {
    &&& empty_total(cells) > 0
    &&& exists|c: StickerColor| #[trigger] missing(cells, c) == empty_total(cells)
}

/// No deduction rule applies any more.
pub open spec fn propagation_closed(cells: Cells) -> bool {
    &&& forall|ci: int| 0 <= ci < 8 ==> !#[trigger] corner_forced(cells, ci)
    &&& forall|ei: int| 0 <= ei < 12 ==> !#[trigger] edge_forced(cells, ei)
    &&& !quota_forced(cells)
}

proof fn lemma_fill_log_empty(a: Cells, ma: Marks)
    ensures
        fill_log(a, ma, a, ma, Seq::<usize>::empty()),
{
}

/// Fill the unknown sticker `g` with `c`, mark it as deduced and log it.
fn fill_cell(
    cells: &mut Cells,
    derived: &mut Marks,
    filled: &mut Vec<usize>,
    g: usize,
    c: StickerColor,
    Ghost(base): Ghost<Cells>,
    Ghost(mbase): Ghost<Marks>,
)
    requires
        g < 54,
        cell(*old(cells), g as int) is None,
        extends(base, *old(cells)),
        fill_log(base, mbase, *old(cells), *old(derived), old(filled)@),
    ensures
        *final(cells) == put(*old(cells), g as int, Some(c)),
        cell(*final(cells), g as int) == Some(c),
        forall|h: int| 0 <= h < 54 && h != g ==> #[trigger] cell(*final(cells), h) == cell(*old(cells), h),
        extends(*old(cells), *final(cells)),
        extends(base, *final(cells)),
        fill_log(base, mbase, *final(cells), *final(derived), final(filled)@),
        empty_total(*final(cells)) + 1 == empty_total(*old(cells)),
{
    let ghost c0 = *cells;
    let ghost m0 = *derived;
    let ghost f0 = filled@;
    crate::pieces::set(cells, g, Some(c));
    let (f, i) = crate::pieces::split(g);
    derived[f][i] = true;
    filled.push(g);
    proof {
        assert forall|h: int| 0 <= h < 54 implies #[trigger] mark(*derived, h) == (mark(m0, h) || h == g) by {
            if h != g {
                assert(h / 9 != g / 9 || h % 9 != g % 9);
            }
        }
        assert forall|h: int| 0 <= h < 54 implies (#[trigger] filled@.contains(h as usize) <==> (cell(base, h) is None && cell(*cells, h) is Some)) by {
            if h == g {
                assert(filled@[filled@.len() - 1] == g);
                assert(cell(base, h) is None);
            } else {
                if filled@.contains(h as usize) {
                    let j = choose|j: int| 0 <= j < filled@.len() && filled@[j] == h as usize;
                    assert(f0[j] == h as usize);
                }
                if f0.contains(h as usize) {
                    let j = choose|j: int| 0 <= j < f0.len() && f0[j] == h as usize;
                    assert(filled@[j] == h as usize);
                }
            }
        }
        assert(cell(c0, g as int) is None);
        assert(!f0.contains((g as int) as usize));
        assert(filled@.no_duplicates()) by {
            assert forall|a: int, b: int| 0 <= a < filled@.len() && 0 <= b < filled@.len() && a != b
                implies filled@[a] != filled@[b] by {
                if a < f0.len() && b < f0.len() {
                    assert(filled@[a] == f0[a] && filled@[b] == f0[b]);
                } else if a < f0.len() {
                    assert(filled@[a] == f0[a]);
                    assert(f0.contains(f0[a]));
                } else if b < f0.len() {
                    assert(filled@[b] == f0[b]);
                    assert(f0.contains(f0[b]));
                }
            }
        }
        assert forall|h: int| 0 <= h < 54 implies #[trigger] mark(*derived, h) == (mark(mbase, h) || filled@.contains(h as usize)) by {
            if h == g {
                assert(filled@[filled@.len() - 1] == g);
            } else {
                if f0.contains(h as usize) {
                    let j = choose|j: int| 0 <= j < f0.len() && f0[j] == h as usize;
                    assert(filled@[j] == h as usize);
                }
                if filled@.contains(h as usize) {
                    let j = choose|j: int| 0 <= j < filled@.len() && filled@[j] == h as usize;
                    assert(f0[j] == h as usize);
                }
            }
        }
        lemma_empty_after_fill(c0, *cells, g as int, 54);
    }
}

proof fn lemma_empty_after_fill(a: Cells, b: Cells, g: int, n: int)
    requires
        0 <= g < 54,
        0 <= n <= 54,
        cell(a, g) is None,
        cell(b, g) is Some,
        forall|h: int| 0 <= h < 54 && h != g ==> #[trigger] cell(b, h) == cell(a, h),
    ensures
        empty_upto(b, n) + (if g < n { 1int } else { 0int }) == empty_upto(a, n),
    decreases n,
{
    if n > 0 {
        lemma_empty_after_fill(a, b, g, n - 1);
    }
}

/// On a board agreeing with a legal cube, a piece already placed at a full corner
/// position is, in the cube, at that position and nowhere else.
proof fn lemma_corner_used_in_cube(b0: Cells, t: Cells, ci: int, k: int)
    requires
        legal(t),
        agrees(b0, t),
        0 <= ci < 8,
        0 <= k < 8,
        corner_id(t, ci) == k,
        corner_used(b0, k),
    ensures
        corner_full(b0, ci),
{
    let cj = choose|cj: int| 0 <= cj < 8 && corner_full(b0, cj) && corner_match(b0, cj, k);
    assert(cell(b0, cslot(cj, 0)) matches Some(x) ==> cell(t, cslot(cj, 0)) == Some(x));
    assert(cell(b0, cslot(cj, 1)) matches Some(x) ==> cell(t, cslot(cj, 1)) == Some(x));
    assert(cell(b0, cslot(cj, 2)) matches Some(x) ==> cell(t, cslot(cj, 2)) == Some(x));
    let rj = if corner_fits(b0, cj, k, 0) { 0int } else if corner_fits(b0, cj, k, 1) { 1int } else { 2int };
    assert(corner_fits(t, cj, k, rj));
    assert(corner_full(t, cj));
    lemma_corner_id(t, cj, k);
    assert(pieces_form_permutation(t));
    assert(cj == ci);
}

/// A forced corner is filled the way every legal cube agreeing with the board has it.
#[verifier::spinoff_prover]
#[verifier::rlimit(40)]
proof fn lemma_corner_forced_sound(b0: Cells, cur: Cells, t: Cells, ci: int, k: int, r: int)
    requires
        legal(t),
        agrees(b0, t),
        agrees(cur, t),
        extends(b0, cur),
        0 <= ci < 8,
        0 <= k < 8,
        0 <= r < 3,
        !corner_full(cur, ci),
        corner_known(cur, ci),
        forall|k2: int| 0 <= k2 < 8 && !corner_used(b0, k2) && #[trigger] corner_match(cur, ci, k2) ==> k2 == k,
        corner_fits(cur, ci, k, r),
    ensures
        cell(t, cslot(ci, 0)) == Some(corner_color(k, r % 3)),
        cell(t, cslot(ci, 1)) == Some(corner_color(k, (1 + r) % 3)),
        cell(t, cslot(ci, 2)) == Some(corner_color(k, (2 + r) % 3)),
{
    let kt = corner_id(t, ci);
    assert(kt < 8);
    assert(corner_match(t, ci, kt));
    let rt = if corner_fits(t, ci, kt, 0) { 0int } else if corner_fits(t, ci, kt, 1) { 1int } else { 2int };
    assert(corner_fits(t, ci, kt, rt));
    assert(cell(t, cslot(ci, 0)) is Some);
    assert(cell(t, cslot(ci, 1)) is Some);
    assert(cell(t, cslot(ci, 2)) is Some);
    assert(cell(cur, cslot(ci, 0)) matches Some(x) ==> cell(t, cslot(ci, 0)) == Some(x));
    assert(cell(cur, cslot(ci, 1)) matches Some(x) ==> cell(t, cslot(ci, 1)) == Some(x));
    assert(cell(cur, cslot(ci, 2)) matches Some(x) ==> cell(t, cslot(ci, 2)) == Some(x));
    assert(corner_fits(cur, ci, kt, rt));
    assert(corner_match(cur, ci, kt));
    assert(!corner_used(b0, kt)) by {
        if corner_used(b0, kt) {
            lemma_corner_used_in_cube(b0, t, ci, kt);
            assert(cell(b0, cslot(ci, 0)) is Some ==> cell(cur, cslot(ci, 0)) is Some);
            assert(cell(b0, cslot(ci, 1)) is Some ==> cell(cur, cslot(ci, 1)) is Some);
            assert(cell(b0, cslot(ci, 2)) is Some ==> cell(cur, cslot(ci, 2)) is Some);
        }
    }
    assert(kt == k);
    lemma_corner_rot_unique(cur, ci, k, r, rt);
}

/// On a board agreeing with a legal cube, a piece already placed at a full edge
/// position is, in the cube, at that position and nowhere else.
proof fn lemma_edge_used_in_cube(b0: Cells, t: Cells, ei: int, k: int)
    requires
        legal(t),
        agrees(b0, t),
        0 <= ei < 12,
        0 <= k < 12,
        edge_id(t, ei) == k,
        edge_used(b0, k),
    ensures
        edge_full(b0, ei),
{
    let ej = choose|ej: int| 0 <= ej < 12 && edge_full(b0, ej) && edge_match(b0, ej, k);
    assert(cell(b0, eslot(ej, 0)) matches Some(x) ==> cell(t, eslot(ej, 0)) == Some(x));
    assert(cell(b0, eslot(ej, 1)) matches Some(x) ==> cell(t, eslot(ej, 1)) == Some(x));
    let rj = if edge_fits(b0, ej, k, 0) { 0int } else { 1int };
    assert(edge_fits(t, ej, k, rj));
    assert(edge_full(t, ej));
    lemma_edge_id(t, ej, k);
    assert(pieces_form_permutation(t));
    assert(ej == ei);
}

/// A forced edge is filled the way every legal cube agreeing with the board has it.
#[verifier::spinoff_prover]
#[verifier::rlimit(40)]
proof fn lemma_edge_forced_sound(b0: Cells, cur: Cells, t: Cells, ei: int, k: int, r: int)
    requires
        legal(t),
        agrees(b0, t),
        agrees(cur, t),
        extends(b0, cur),
        0 <= ei < 12,
        0 <= k < 12,
        0 <= r < 2,
        !edge_full(cur, ei),
        edge_known(cur, ei),
        forall|k2: int| 0 <= k2 < 12 && !edge_used(b0, k2) && #[trigger] edge_match(cur, ei, k2) ==> k2 == k,
        edge_fits(cur, ei, k, r),
    ensures
        cell(t, eslot(ei, 0)) == Some(edge_color(k, r % 2)),
        cell(t, eslot(ei, 1)) == Some(edge_color(k, (1 + r) % 2)),
{
    let kt = edge_id(t, ei);
    assert(kt < 12);
    assert(edge_match(t, ei, kt));
    let rt = if edge_fits(t, ei, kt, 0) { 0int } else { 1int };
    assert(edge_fits(t, ei, kt, rt));
    assert(cell(t, eslot(ei, 0)) is Some);
    assert(cell(t, eslot(ei, 1)) is Some);
    assert(cell(cur, eslot(ei, 0)) matches Some(x) ==> cell(t, eslot(ei, 0)) == Some(x));
    assert(cell(cur, eslot(ei, 1)) matches Some(x) ==> cell(t, eslot(ei, 1)) == Some(x));
    assert(edge_fits(cur, ei, kt, rt));
    assert(edge_match(cur, ei, kt));
    assert(!edge_used(b0, kt)) by {
        if edge_used(b0, kt) {
            lemma_edge_used_in_cube(b0, t, ei, kt);
            assert(cell(b0, eslot(ei, 0)) is Some ==> cell(cur, eslot(ei, 0)) is Some);
            assert(cell(b0, eslot(ei, 1)) is Some ==> cell(cur, eslot(ei, 1)) is Some);
        }
    }
    assert(kt == k);
    lemma_edge_rot_unique(cur, ei, k, r, rt);
}


/// Some legal cube agrees with `b`.
pub open spec fn consistent(b: Cells) -> bool {
    exists|t: Cells| legal(t) && #[trigger] agrees(b, t)
}

/// Every board that keeps the stickers of `from`, agrees with a legal cube and on
/// which no deduction applies keeps the stickers of `cur` too: `cur` holds nothing
/// beyond what such a board must hold.
pub open spec fn below_closures(from: Cells, cur: Cells) -> bool {
    forall|b: Cells| #![trigger extends(cur, b)] propagation_closed(b) && extends(from, b) && consistent(b) ==> extends(cur, b)
}

proof fn lemma_below_trans(a: Cells, m: Cells, c: Cells)
    requires
        below_closures(a, m),
        below_closures(m, c),
    ensures
        below_closures(a, c),
{
    assert forall|b: Cells| #![trigger extends(c, b)] propagation_closed(b) && extends(a, b) && consistent(b) implies extends(c, b) by {
        assert(extends(m, b));
    }
}

proof fn lemma_extends_agrees(a: Cells, b: Cells, t: Cells)
    requires
        extends(a, b),
        agrees(b, t),
    ensures
        agrees(a, t),
{
    assert forall|g: int| 0 <= g < 54 implies (#[trigger] cell(a, g) matches Some(x) ==> cell(t, g) == Some(x)) by {
        if cell(a, g) is Some {
            assert(cell(b, g) == cell(a, g));
        }
    }
}

/// A piece placed on a board stays placed on every board that keeps its stickers.
proof fn lemma_corner_used_grows(a: Cells, b: Cells, k: int)
    requires
        extends(a, b),
    ensures
        corner_used(a, k) ==> corner_used(b, k),
{
    if corner_used(a, k) {
        let cj = choose|cj: int| 0 <= cj < 8 && corner_full(a, cj) && corner_match(a, cj, k);
        assert(cell(b, cslot(cj, 0)) == cell(a, cslot(cj, 0)));
        assert(cell(b, cslot(cj, 1)) == cell(a, cslot(cj, 1)));
        assert(cell(b, cslot(cj, 2)) == cell(a, cslot(cj, 2)));
        assert(corner_full(b, cj) && corner_match(b, cj, k));
    }
}

/// A piece that fits a position of a board fits it on every board with fewer stickers.
proof fn lemma_corner_match_shrinks(a: Cells, b: Cells, ci: int, k: int)
    requires
        extends(a, b),
        0 <= ci < 8,
    ensures
        corner_match(b, ci, k) ==> corner_match(a, ci, k),
{
    assert(cell(a, cslot(ci, 0)) matches Some(x) ==> cell(b, cslot(ci, 0)) == Some(x));
    assert(cell(a, cslot(ci, 1)) matches Some(x) ==> cell(b, cslot(ci, 1)) == Some(x));
    assert(cell(a, cslot(ci, 2)) matches Some(x) ==> cell(b, cslot(ci, 2)) == Some(x));
}

proof fn lemma_edge_used_grows(a: Cells, b: Cells, k: int)
    requires
        extends(a, b),
    ensures
        edge_used(a, k) ==> edge_used(b, k),
{
    if edge_used(a, k) {
        let ej = choose|ej: int| 0 <= ej < 12 && edge_full(a, ej) && edge_match(a, ej, k);
        assert(cell(b, eslot(ej, 0)) == cell(a, eslot(ej, 0)));
        assert(cell(b, eslot(ej, 1)) == cell(a, eslot(ej, 1)));
        assert(edge_full(b, ej) && edge_match(b, ej, k));
    }
}

proof fn lemma_edge_match_shrinks(a: Cells, b: Cells, ei: int, k: int)
    requires
        extends(a, b),
        0 <= ei < 12,
    ensures
        edge_match(b, ei, k) ==> edge_match(a, ei, k),
{
    assert(cell(a, eslot(ei, 0)) matches Some(x) ==> cell(b, eslot(ei, 0)) == Some(x));
    assert(cell(a, eslot(ei, 1)) matches Some(x) ==> cell(b, eslot(ei, 1)) == Some(x));
}

pub(crate) proof fn lemma_extends_trans(a: Cells, m: Cells, c: Cells)
    requires
        extends(a, m),
        extends(m, c),
    ensures
        extends(a, c),
{
    assert forall|g: int| 0 <= g < 54 && #[trigger] cell(a, g) is Some implies cell(c, g) == cell(a, g) by {
        if cell(a, g) is Some {
            assert(cell(m, g) == cell(a, g));
        }
    }
}

/// A piece that is, in a legal cube agreeing with `b`, at a position not full on
/// `b` is not placed anywhere on `b`.
#[verifier::spinoff_prover]
#[verifier::rlimit(30)]
proof fn lemma_corner_free_on(b: Cells, t: Cells, ci: int, k: int, r: int)
    requires
        legal(t),
        agrees(b, t),
        0 <= ci < 8,
        0 <= k < 8,
        0 <= r < 3,
        !corner_full(b, ci),
        corner_fits(t, ci, k, r),
    ensures
        !corner_used(b, k),
{
    assert(corner_full(t, ci));
    lemma_corner_id(t, ci, k);
    if corner_used(b, k) {
        lemma_corner_used_in_cube(b, t, ci, k);
    }
}

/// A piece fits a position of a board as it sits there in a cube the board agrees with.
proof fn lemma_corner_fits_below(b: Cells, t: Cells, ci: int, k: int, r: int)
    requires
        agrees(b, t),
        0 <= ci < 8,
        0 <= k < 8,
        0 <= r < 3,
        cell(t, cslot(ci, 0)) == Some(corner_color(k, r % 3)),
        cell(t, cslot(ci, 1)) == Some(corner_color(k, (1 + r) % 3)),
        cell(t, cslot(ci, 2)) == Some(corner_color(k, (2 + r) % 3)),
    ensures
        corner_fits(t, ci, k, r),
        corner_fits(b, ci, k, r),
{
    assert(cell(b, cslot(ci, 0)) matches Some(x) ==> cell(t, cslot(ci, 0)) == Some(x));
    assert(cell(b, cslot(ci, 1)) matches Some(x) ==> cell(t, cslot(ci, 1)) == Some(x));
    assert(cell(b, cslot(ci, 2)) matches Some(x) ==> cell(t, cslot(ci, 2)) == Some(x));
}

/// On a closed board agreeing with a legal cube, a partly known corner position
/// whose only fitting piece unused on an earlier board `b0` is the cube's own is full.
proof fn lemma_corner_closed_full(b0: Cells, cur: Cells, b: Cells, t: Cells, ci: int, k: int, r: int)
    requires
        legal(t),
        agrees(b, t),
        extends(b0, b),
        extends(cur, b),
        propagation_closed(b),
        0 <= ci < 8,
        0 <= k < 8,
        0 <= r < 3,
        corner_known(cur, ci),
        forall|k2: int| 0 <= k2 < 8 && !corner_used(b0, k2) && #[trigger] corner_match(cur, ci, k2) ==> k2 == k,
        cell(t, cslot(ci, 0)) == Some(corner_color(k, r % 3)),
        cell(t, cslot(ci, 1)) == Some(corner_color(k, (1 + r) % 3)),
        cell(t, cslot(ci, 2)) == Some(corner_color(k, (2 + r) % 3)),
    ensures
        corner_full(b, ci),
{
    if !corner_full(b, ci) {
        assert(corner_known(b, ci)) by {
            if cell(cur, cslot(ci, 0)) is Some {
                assert(cell(b, cslot(ci, 0)) is Some);
            } else if cell(cur, cslot(ci, 1)) is Some {
                assert(cell(b, cslot(ci, 1)) is Some);
            } else {
                assert(cell(b, cslot(ci, 2)) is Some);
            }
        }
        lemma_corner_fits_below(b, t, ci, k, r);
        lemma_corner_free_on(b, t, ci, k, r);
        assert forall|k2: int| 0 <= k2 < 8 && !corner_used(b, k2) && #[trigger] corner_match(b, ci, k2) implies k2 == k by {
            lemma_corner_used_grows(b0, b, k2);
            lemma_corner_match_shrinks(cur, b, ci, k2);
        }
        assert(corner_match(b, ci, k));
        assert(!corner_forced(b, ci));
    }
}

/// A board that keeps `cur`, agrees with a legal cube and on which no deduction
/// applies is already full at a corner position that is forced on `cur`.
proof fn lemma_corner_forced_minimal(b0: Cells, cur: Cells, b: Cells, t: Cells, ci: int, k: int, r: int)
    requires
        legal(t),
        agrees(b, t),
        extends(b0, cur),
        extends(cur, b),
        propagation_closed(b),
        0 <= ci < 8,
        0 <= k < 8,
        0 <= r < 3,
        !corner_full(cur, ci),
        corner_known(cur, ci),
        forall|k2: int| 0 <= k2 < 8 && !corner_used(b0, k2) && #[trigger] corner_match(cur, ci, k2) ==> k2 == k,
        corner_fits(cur, ci, k, r),
    ensures
        corner_full(b, ci),
        cell(t, cslot(ci, 0)) == Some(corner_color(k, r % 3)),
        cell(t, cslot(ci, 1)) == Some(corner_color(k, (1 + r) % 3)),
        cell(t, cslot(ci, 2)) == Some(corner_color(k, (2 + r) % 3)),
{
    lemma_extends_agrees(cur, b, t);
    lemma_extends_agrees(b0, cur, t);
    lemma_extends_trans(b0, cur, b);
    lemma_corner_forced_sound(b0, cur, t, ci, k, r);
    lemma_corner_closed_full(b0, cur, b, t, ci, k, r);
}

/// A board that keeps `cur`, agrees with a legal cube and on which no deduction
/// applies is already full at an edge position that is forced on `cur`.
#[verifier::spinoff_prover]
#[verifier::rlimit(40)]
proof fn lemma_edge_forced_minimal(b0: Cells, cur: Cells, b: Cells, t: Cells, ei: int, k: int, r: int)
    requires
        legal(t),
        agrees(b, t),
        extends(b0, cur),
        extends(cur, b),
        propagation_closed(b),
        0 <= ei < 12,
        0 <= k < 12,
        0 <= r < 2,
        !edge_full(cur, ei),
        edge_known(cur, ei),
        forall|k2: int| 0 <= k2 < 12 && !edge_used(b0, k2) && #[trigger] edge_match(cur, ei, k2) ==> k2 == k,
        edge_fits(cur, ei, k, r),
    ensures
        edge_full(b, ei),
        cell(t, eslot(ei, 0)) == Some(edge_color(k, r % 2)),
        cell(t, eslot(ei, 1)) == Some(edge_color(k, (1 + r) % 2)),
{
    lemma_extends_agrees(cur, b, t);
    lemma_extends_agrees(b0, cur, t);
    lemma_edge_forced_sound(b0, cur, t, ei, k, r);
    if !edge_full(b, ei) {
        assert(edge_known(b, ei)) by {
            if cell(cur, eslot(ei, 0)) is Some {
                assert(cell(b, eslot(ei, 0)) is Some);
            } else {
                assert(cell(b, eslot(ei, 1)) is Some);
            }
        }
        assert(edge_fits(t, ei, k, r));
        assert(edge_full(t, ei));
        lemma_edge_id(t, ei, k);
        assert(edge_fits(b, ei, k, r)) by {
            assert(cell(b, eslot(ei, 0)) matches Some(x) ==> cell(t, eslot(ei, 0)) == Some(x));
            assert(cell(b, eslot(ei, 1)) matches Some(x) ==> cell(t, eslot(ei, 1)) == Some(x));
        }
        assert(!edge_used(b, k)) by {
            if edge_used(b, k) {
                lemma_edge_used_in_cube(b, t, ei, k);
            }
        }
        assert forall|k2: int| 0 <= k2 < 12 && !edge_used(b, k2) && #[trigger] edge_match(b, ei, k2) implies k2 == k by {
            lemma_edge_used_grows(b0, b, k2);
            lemma_edge_match_shrinks(cur, b, ei, k2);
        }
        assert(edge_match(b, ei, k));
        assert(edge_forced(b, ei));
    }
}

/// Filling a forced corner position from its piece adds nothing that a closed board
/// above the old one, agreeing with a legal cube, lacks.
proof fn lemma_corner_fill_below(b0: Cells, cur: Cells, fin: Cells, ci: int, k: int, r: int)
    requires
        extends(b0, cur),
        0 <= ci < 8,
        0 <= k < 8,
        0 <= r < 3,
        !corner_full(cur, ci),
        corner_known(cur, ci),
        forall|k2: int| 0 <= k2 < 8 && !corner_used(b0, k2) && #[trigger] corner_match(cur, ci, k2) ==> k2 == k,
        corner_fits(cur, ci, k, r),
        cell(fin, cslot(ci, 0)) == if cell(cur, cslot(ci, 0)) is Some { cell(cur, cslot(ci, 0)) } else { Some(corner_color(k, r % 3)) },
        cell(fin, cslot(ci, 1)) == if cell(cur, cslot(ci, 1)) is Some { cell(cur, cslot(ci, 1)) } else { Some(corner_color(k, (1 + r) % 3)) },
        cell(fin, cslot(ci, 2)) == if cell(cur, cslot(ci, 2)) is Some { cell(cur, cslot(ci, 2)) } else { Some(corner_color(k, (2 + r) % 3)) },
        forall|h: int| 0 <= h < 54 && h != cslot(ci, 0) && h != cslot(ci, 1) && h != cslot(ci, 2)
            ==> #[trigger] cell(fin, h) == cell(cur, h),
    ensures
        below_closures(cur, fin),
{
    assert forall|b: Cells| #![trigger extends(fin, b)] propagation_closed(b) && extends(cur, b) && consistent(b) implies extends(fin, b) by {
        let t = choose|t: Cells| legal(t) && #[trigger] agrees(b, t);
        lemma_corner_forced_minimal(b0, cur, b, t, ci, k, r);
        assert forall|h: int| 0 <= h < 54 && #[trigger] cell(fin, h) is Some implies cell(b, h) == cell(fin, h) by {
            if h == cslot(ci, 0) || h == cslot(ci, 1) || h == cslot(ci, 2) {
                if cell(cur, h) is None {
                    assert(cell(b, h) is Some);
                    assert(cell(b, h) matches Some(x) ==> cell(t, h) == Some(x));
                }
            } else {
                assert(cell(fin, h) == cell(cur, h));
            }
        }
    }
}

/// Filling a forced edge position from its piece adds nothing that a closed board
/// above the old one, agreeing with a legal cube, lacks.
proof fn lemma_edge_fill_below(b0: Cells, cur: Cells, fin: Cells, ei: int, k: int, r: int)
    requires
        extends(b0, cur),
        0 <= ei < 12,
        0 <= k < 12,
        0 <= r < 2,
        !edge_full(cur, ei),
        edge_known(cur, ei),
        forall|k2: int| 0 <= k2 < 12 && !edge_used(b0, k2) && #[trigger] edge_match(cur, ei, k2) ==> k2 == k,
        edge_fits(cur, ei, k, r),
        cell(fin, eslot(ei, 0)) == if cell(cur, eslot(ei, 0)) is Some { cell(cur, eslot(ei, 0)) } else { Some(edge_color(k, r % 2)) },
        cell(fin, eslot(ei, 1)) == if cell(cur, eslot(ei, 1)) is Some { cell(cur, eslot(ei, 1)) } else { Some(edge_color(k, (1 + r) % 2)) },
        forall|h: int| 0 <= h < 54 && h != eslot(ei, 0) && h != eslot(ei, 1)
            ==> #[trigger] cell(fin, h) == cell(cur, h),
    ensures
        below_closures(cur, fin),
{
    assert forall|b: Cells| #![trigger extends(fin, b)] propagation_closed(b) && extends(cur, b) && consistent(b) implies extends(fin, b) by {
        let t = choose|t: Cells| legal(t) && #[trigger] agrees(b, t);
        lemma_edge_forced_minimal(b0, cur, b, t, ei, k, r);
        assert forall|h: int| 0 <= h < 54 && #[trigger] cell(fin, h) is Some implies cell(b, h) == cell(fin, h) by {
            if h == eslot(ei, 0) || h == eslot(ei, 1) {
                if cell(cur, h) is None {
                    assert(cell(b, h) is Some);
                    assert(cell(b, h) matches Some(x) ==> cell(t, h) == Some(x));
                }
            } else {
                assert(cell(fin, h) == cell(cur, h));
            }
        }
    }
}

/// Piece `q` is an unused candidate for corner position `ci`.
pub open spec fn ccand(cells: Cells, used: [bool; 8], ci: int, q: int) -> bool {
    !used[q] && corner_match(cells, ci, q)
}

/// Piece `q` is an unused candidate for edge position `ei`.
pub open spec fn ecand(cells: Cells, used: [bool; 12], ei: int, q: int) -> bool {
    !used[q] && edge_match(cells, ei, q)
}

/// The only unused piece that fits corner position `ci`, if there is exactly one.
fn unique_corner_candidate(cells: &Cells, used: &[bool; 8], ci: usize) -> (res: Option<usize>)
    requires
        ci < 8,
    ensures
        match res {
            Some(k) => k < 8 && ccand(*cells, *used, ci as int, k as int)
                && forall|q: int| 0 <= q < 8 && #[trigger] ccand(*cells, *used, ci as int, q) ==> q == k,
            None => forall|q: int| 0 <= q < 8 && #[trigger] ccand(*cells, *used, ci as int, q)
                ==> exists|q2: int| 0 <= q2 < 8 && q2 != q && #[trigger] ccand(*cells, *used, ci as int, q2),
        },
{
    let mut first: Option<usize> = None;
    let mut second = false;
    let mut k: usize = 0;
    while k < 8
        invariant
            ci < 8,
            k <= 8,
            first is None ==> forall|q: int| 0 <= q < k ==> !#[trigger] ccand(*cells, *used, ci as int, q),
            first matches Some(k0) ==> k0 < k && ccand(*cells, *used, ci as int, k0 as int)
                && (second ==> exists|q2: int| 0 <= q2 < k && q2 != k0 && #[trigger] ccand(*cells, *used, ci as int, q2))
                && (!second ==> forall|q: int| 0 <= q < k && q != k0 ==> !#[trigger] ccand(*cells, *used, ci as int, q)),
            first is None ==> !second,
        decreases 8 - k,
    {
        if !used[k] && corner_consistent(cells, ci, k).is_some() {
            proof {
                assert(ccand(*cells, *used, ci as int, k as int));
            }
            match first {
                None => {
                    first = Some(k);
                },
                Some(_) => {
                    second = true;
                },
            }
        }
        k += 1;
    }
    if second {
        proof {
            let k0 = first->0;
            assert forall|q: int| 0 <= q < 8 && #[trigger] ccand(*cells, *used, ci as int, q)
                implies exists|q2: int| 0 <= q2 < 8 && q2 != q && #[trigger] ccand(*cells, *used, ci as int, q2) by {
                if q == k0 {
                    let q2 = choose|q2: int| 0 <= q2 < 8 && q2 != k0 && #[trigger] ccand(*cells, *used, ci as int, q2);
                    assert(ccand(*cells, *used, ci as int, q2));
                } else {
                    assert(ccand(*cells, *used, ci as int, k0 as int));
                }
            }
        }
        None
    } else {
        first
    }
}

/// The only unused piece that fits edge position `ei`, if there is exactly one.
fn unique_edge_candidate(cells: &Cells, used: &[bool; 12], ei: usize) -> (res: Option<usize>)
    requires
        ei < 12,
    ensures
        match res {
            Some(k) => k < 12 && ecand(*cells, *used, ei as int, k as int)
                && forall|q: int| 0 <= q < 12 && #[trigger] ecand(*cells, *used, ei as int, q) ==> q == k,
            None => forall|q: int| 0 <= q < 12 && #[trigger] ecand(*cells, *used, ei as int, q)
                ==> exists|q2: int| 0 <= q2 < 12 && q2 != q && #[trigger] ecand(*cells, *used, ei as int, q2),
        },
{
    let mut first: Option<usize> = None;
    let mut second = false;
    let mut k: usize = 0;
    while k < 12
        invariant
            ei < 12,
            k <= 12,
            first is None ==> forall|q: int| 0 <= q < k ==> !#[trigger] ecand(*cells, *used, ei as int, q),
            first matches Some(k0) ==> k0 < k && ecand(*cells, *used, ei as int, k0 as int)
                && (second ==> exists|q2: int| 0 <= q2 < k && q2 != k0 && #[trigger] ecand(*cells, *used, ei as int, q2))
                && (!second ==> forall|q: int| 0 <= q < k && q != k0 ==> !#[trigger] ecand(*cells, *used, ei as int, q)),
            first is None ==> !second,
        decreases 12 - k,
    {
        if !used[k] && edge_consistent(cells, ei, k).is_some() {
            proof {
                assert(ecand(*cells, *used, ei as int, k as int));
            }
            match first {
                None => {
                    first = Some(k);
                },
                Some(_) => {
                    second = true;
                },
            }
        }
        k += 1;
    }
    if second {
        proof {
            let k0 = first->0;
            assert forall|q: int| 0 <= q < 12 && #[trigger] ecand(*cells, *used, ei as int, q)
                implies exists|q2: int| 0 <= q2 < 12 && q2 != q && #[trigger] ecand(*cells, *used, ei as int, q2) by {
                if q == k0 {
                    let q2 = choose|q2: int| 0 <= q2 < 12 && q2 != k0 && #[trigger] ecand(*cells, *used, ei as int, q2);
                    assert(ecand(*cells, *used, ei as int, q2));
                } else {
                    assert(ecand(*cells, *used, ei as int, k0 as int));
                }
            }
        }
        None
    } else {
        first
    }
}

/// Fill the unknown stickers of corner position `ci` with `cols` (slot by slot).
fn fill_corner(
    cells: &mut Cells,
    derived: &mut Marks,
    filled: &mut Vec<usize>,
    ci: usize,
    cols: &[StickerColor; 3],
    Ghost(base): Ghost<Cells>,
    Ghost(mbase): Ghost<Marks>,
)
    requires
        ci < 8,
        !corner_full(*old(cells), ci as int),
        extends(base, *old(cells)),
        fill_log(base, mbase, *old(cells), *old(derived), old(filled)@),
    ensures
        forall|s: int| 0 <= s < 3 ==> #[trigger] cell(*final(cells), cslot(ci as int, s)) == match cell(*old(cells), cslot(ci as int, s)) {
            Some(x) => Some(x),
            None => Some(cols[s]),
        },
        forall|h: int| 0 <= h < 54 && h != cslot(ci as int, 0) && h != cslot(ci as int, 1) && h != cslot(ci as int, 2)
            ==> #[trigger] cell(*final(cells), h) == cell(*old(cells), h),
        extends(*old(cells), *final(cells)),
        extends(base, *final(cells)),
        fill_log(base, mbase, *final(cells), *final(derived), final(filled)@),
        empty_total(*final(cells)) < empty_total(*old(cells)),
{
    proof {
        crate::feasible::lemma_slots_distinct();
    }
    let g0 = CORNER_FACELETS[ci][0];
    let g1 = CORNER_FACELETS[ci][1];
    let g2 = CORNER_FACELETS[ci][2];
    if get(cells, g0).is_none() {
        fill_cell(cells, derived, filled, g0, cols[0], Ghost(base), Ghost(mbase));
    }
    let ghost c1 = *cells;
    if get(cells, g1).is_none() {
        fill_cell(cells, derived, filled, g1, cols[1], Ghost(base), Ghost(mbase));
    }
    let ghost c2 = *cells;
    if get(cells, g2).is_none() {
        fill_cell(cells, derived, filled, g2, cols[2], Ghost(base), Ghost(mbase));
    }
    proof {
        assert(cslot(ci as int, 0) != cslot(ci as int, 1));
        assert(cslot(ci as int, 0) != cslot(ci as int, 2));
        assert(cslot(ci as int, 1) != cslot(ci as int, 2));
    }
}

/// Fill the unknown stickers of edge position `ei` with `cols` (slot by slot).
fn fill_edge(
    cells: &mut Cells,
    derived: &mut Marks,
    filled: &mut Vec<usize>,
    ei: usize,
    cols: &[StickerColor; 2],
    Ghost(base): Ghost<Cells>,
    Ghost(mbase): Ghost<Marks>,
)
    requires
        ei < 12,
        !edge_full(*old(cells), ei as int),
        extends(base, *old(cells)),
        fill_log(base, mbase, *old(cells), *old(derived), old(filled)@),
    ensures
        forall|s: int| 0 <= s < 2 ==> #[trigger] cell(*final(cells), eslot(ei as int, s)) == match cell(*old(cells), eslot(ei as int, s)) {
            Some(x) => Some(x),
            None => Some(cols[s]),
        },
        forall|h: int| 0 <= h < 54 && h != eslot(ei as int, 0) && h != eslot(ei as int, 1)
            ==> #[trigger] cell(*final(cells), h) == cell(*old(cells), h),
        extends(*old(cells), *final(cells)),
        extends(base, *final(cells)),
        fill_log(base, mbase, *final(cells), *final(derived), final(filled)@),
        empty_total(*final(cells)) < empty_total(*old(cells)),
{
    proof {
        crate::feasible::lemma_slots_distinct();
    }
    let g0 = EDGE_FACELETS[ei][0];
    let g1 = EDGE_FACELETS[ei][1];
    if get(cells, g0).is_none() {
        fill_cell(cells, derived, filled, g0, cols[0], Ghost(base), Ghost(mbase));
    }
    if get(cells, g1).is_none() {
        fill_cell(cells, derived, filled, g1, cols[1], Ghost(base), Ghost(mbase));
    }
    proof {
        assert(eslot(ei as int, 0) != eslot(ei as int, 1));
    }
}

/// Deduce corner position `ci`: when it is partly known and exactly one piece
/// unused on `b0` fits it, fill its missing stickers from that piece.
#[verifier::spinoff_prover]
#[verifier::rlimit(60)]
fn corner_step(
    cells: &mut Cells,
    derived: &mut Marks,
    filled: &mut Vec<usize>,
    used_c: &[bool; 8],
    ci: usize,
    Ghost(b0): Ghost<Cells>,
    Ghost(base): Ghost<Cells>,
    Ghost(mbase): Ghost<Marks>,
) -> (changed: bool)
    requires
        ci < 8,
        forall|k: int| 0 <= k < 8 ==> used_c[k] == corner_used(b0, k),
        extends(b0, *old(cells)),
        extends(base, *old(cells)),
        fill_log(base, mbase, *old(cells), *old(derived), old(filled)@),
        forall|t: Cells| #![trigger agrees(*old(cells), t)] legal(t) && agrees(b0, t) ==> agrees(*old(cells), t),
    ensures
        extends(*old(cells), *final(cells)),
        extends(base, *final(cells)),
        fill_log(base, mbase, *final(cells), *final(derived), final(filled)@),
        forall|t: Cells| #![trigger agrees(*final(cells), t)] legal(t) && agrees(b0, t) ==> agrees(*final(cells), t),
        changed ==> empty_total(*final(cells)) < empty_total(*old(cells)),
        !changed ==> *final(cells) == *old(cells),
        !changed && *old(cells) == b0 ==> !corner_forced(b0, ci as int),
        changed && *old(cells) == b0 ==> corner_forced(b0, ci as int),
        below_closures(*old(cells), *final(cells)),
{
    let s0 = get(cells, CORNER_FACELETS[ci][0]);
    let s1 = get(cells, CORNER_FACELETS[ci][1]);
    let s2 = get(cells, CORNER_FACELETS[ci][2]);
    let full = s0.is_some() && s1.is_some() && s2.is_some();
    let known = s0.is_some() || s1.is_some() || s2.is_some();
    if full || !known {
        return false;
    }
    match unique_corner_candidate(cells, used_c, ci) {
        None => {
            proof {
                if *cells == b0 {
                    assert(!corner_forced(b0, ci as int)) by {
                        if corner_forced(b0, ci as int) {
                            let k = choose|k: int| 0 <= k < 8 && !corner_used(b0, k) && #[trigger] corner_match(b0, ci as int, k)
                                && forall|k2: int| 0 <= k2 < 8 && !corner_used(b0, k2) && #[trigger] corner_match(b0, ci as int, k2) ==> k2 == k;
                            assert(ccand(*cells, *used_c, ci as int, k));
                            let q2 = choose|q2: int| 0 <= q2 < 8 && q2 != k && #[trigger] ccand(*cells, *used_c, ci as int, q2);
                            assert(corner_match(b0, ci as int, q2));
                        }
                    }
                }
            }
            false
        },
        Some(k) => {
            let rot = match corner_consistent(cells, ci, k) {
                Some(r) => r,
                None => 0,
            };
            let piece = solved_corner_piece(k);
            let ghost cur_ci = *cells;
            proof {
                assert(corner_fits(cur_ci, ci as int, k as int, rot as int));
                assert forall|k2: int| 0 <= k2 < 8 && !corner_used(b0, k2) && #[trigger] corner_match(cur_ci, ci as int, k2) implies k2 == k by {
                    assert(ccand(cur_ci, *used_c, ci as int, k2));
                }
                if cur_ci == b0 {
                    assert(corner_match(b0, ci as int, k as int));
                    assert(!corner_used(b0, k as int));
                    assert(corner_forced(b0, ci as int));
                }
            }
            let cols = [piece[rot % 3], piece[(1 + rot) % 3], piece[(2 + rot) % 3]];
            fill_corner(cells, derived, filled, ci, &cols, Ghost(base), Ghost(mbase));
            proof {
                assert(cell(*cells, cslot(ci as int, 0)) == if cell(cur_ci, cslot(ci as int, 0)) is Some { cell(cur_ci, cslot(ci as int, 0)) } else { Some(corner_color(k as int, (rot as int) % 3)) });
                assert(cell(*cells, cslot(ci as int, 1)) == if cell(cur_ci, cslot(ci as int, 1)) is Some { cell(cur_ci, cslot(ci as int, 1)) } else { Some(corner_color(k as int, (1 + rot as int) % 3)) });
                assert(cell(*cells, cslot(ci as int, 2)) == if cell(cur_ci, cslot(ci as int, 2)) is Some { cell(cur_ci, cslot(ci as int, 2)) } else { Some(corner_color(k as int, (2 + rot as int) % 3)) });
                lemma_corner_fill_below(b0, cur_ci, *cells, ci as int, k as int, rot as int);
                assert forall|t: Cells| #![trigger agrees(*cells, t)] legal(t) && agrees(b0, t) implies agrees(*cells, t) by {
                    assert(agrees(cur_ci, t));
                    lemma_corner_forced_sound(b0, cur_ci, t, ci as int, k as int, rot as int);
                    assert forall|h: int| 0 <= h < 54 implies (#[trigger] cell(*cells, h) matches Some(c) ==> cell(t, h) == Some(c)) by {
                        if h == cslot(ci as int, 0) || h == cslot(ci as int, 1) || h == cslot(ci as int, 2) {
                        } else {
                            assert(cell(*cells, h) == cell(cur_ci, h));
                        }
                    }
                }
            }
            true
        },
    }
}

/// Deduce edge position `ei`: when it is partly known and exactly one piece unused
/// on `b0` fits it, fill its missing sticker from that piece.
#[verifier::spinoff_prover]
#[verifier::rlimit(60)]
fn edge_step(
    cells: &mut Cells,
    derived: &mut Marks,
    filled: &mut Vec<usize>,
    used_e: &[bool; 12],
    ei: usize,
    Ghost(b0): Ghost<Cells>,
    Ghost(base): Ghost<Cells>,
    Ghost(mbase): Ghost<Marks>,
) -> (changed: bool)
    requires
        ei < 12,
        forall|k: int| 0 <= k < 12 ==> used_e[k] == edge_used(b0, k),
        extends(b0, *old(cells)),
        extends(base, *old(cells)),
        fill_log(base, mbase, *old(cells), *old(derived), old(filled)@),
        forall|t: Cells| #![trigger agrees(*old(cells), t)] legal(t) && agrees(b0, t) ==> agrees(*old(cells), t),
    ensures
        extends(*old(cells), *final(cells)),
        extends(base, *final(cells)),
        fill_log(base, mbase, *final(cells), *final(derived), final(filled)@),
        forall|t: Cells| #![trigger agrees(*final(cells), t)] legal(t) && agrees(b0, t) ==> agrees(*final(cells), t),
        changed ==> empty_total(*final(cells)) < empty_total(*old(cells)),
        !changed ==> *final(cells) == *old(cells),
        !changed && *old(cells) == b0 ==> !edge_forced(b0, ei as int),
        changed && *old(cells) == b0 ==> edge_forced(b0, ei as int),
        below_closures(*old(cells), *final(cells)),
{
    let s0 = get(cells, EDGE_FACELETS[ei][0]);
    let s1 = get(cells, EDGE_FACELETS[ei][1]);
    let full = s0.is_some() && s1.is_some();
    let known = s0.is_some() || s1.is_some();
    if full || !known {
        return false;
    }
    match unique_edge_candidate(cells, used_e, ei) {
        None => {
            proof {
                if *cells == b0 {
                    assert(!edge_forced(b0, ei as int)) by {
                        if edge_forced(b0, ei as int) {
                            let k = choose|k: int| 0 <= k < 12 && !edge_used(b0, k) && #[trigger] edge_match(b0, ei as int, k)
                                && forall|k2: int| 0 <= k2 < 12 && !edge_used(b0, k2) && #[trigger] edge_match(b0, ei as int, k2) ==> k2 == k;
                            assert(ecand(*cells, *used_e, ei as int, k));
                            let q2 = choose|q2: int| 0 <= q2 < 12 && q2 != k && #[trigger] ecand(*cells, *used_e, ei as int, q2);
                            assert(edge_match(b0, ei as int, q2));
                        }
                    }
                }
            }
            false
        },
        Some(k) => {
            let rot = match edge_consistent(cells, ei, k) {
                Some(r) => r,
                None => 0,
            };
            let piece = solved_edge_piece(k);
            let ghost cur_ei = *cells;
            proof {
                assert(edge_fits(cur_ei, ei as int, k as int, rot as int));
                assert forall|k2: int| 0 <= k2 < 12 && !edge_used(b0, k2) && #[trigger] edge_match(cur_ei, ei as int, k2) implies k2 == k by {
                    assert(ecand(cur_ei, *used_e, ei as int, k2));
                }
                if cur_ei == b0 {
                    assert(edge_match(b0, ei as int, k as int));
                    assert(!edge_used(b0, k as int));
                    assert(edge_forced(b0, ei as int));
                }
            }
            let cols = [piece[rot % 2], piece[(1 + rot) % 2]];
            fill_edge(cells, derived, filled, ei, &cols, Ghost(base), Ghost(mbase));
            proof {
                assert(cell(*cells, eslot(ei as int, 0)) == if cell(cur_ei, eslot(ei as int, 0)) is Some { cell(cur_ei, eslot(ei as int, 0)) } else { Some(edge_color(k as int, (rot as int) % 2)) });
                assert(cell(*cells, eslot(ei as int, 1)) == if cell(cur_ei, eslot(ei as int, 1)) is Some { cell(cur_ei, eslot(ei as int, 1)) } else { Some(edge_color(k as int, (1 + rot as int) % 2)) });
                lemma_edge_fill_below(b0, cur_ei, *cells, ei as int, k as int, rot as int);
                assert forall|t: Cells| #![trigger agrees(*cells, t)] legal(t) && agrees(b0, t) implies agrees(*cells, t) by {
                    assert(agrees(cur_ei, t));
                    lemma_edge_forced_sound(b0, cur_ei, t, ei as int, k as int, rot as int);
                    assert forall|h: int| 0 <= h < 54 implies (#[trigger] cell(*cells, h) matches Some(c) ==> cell(t, h) == Some(c)) by {
                        if h == eslot(ei as int, 0) || h == eslot(ei as int, 1) {
                        } else {
                            assert(cell(*cells, h) == cell(cur_ei, h));
                        }
                    }
                }
            }
            true
        },
    }
}


/// One pass over the corner positions (see [`corner_step`]).
fn corner_pass(
    cells: &mut Cells,
    derived: &mut Marks,
    filled: &mut Vec<usize>,
    used_c: &[bool; 8],
    Ghost(b0): Ghost<Cells>,
    Ghost(base): Ghost<Cells>,
    Ghost(mbase): Ghost<Marks>,
) -> (changed: bool)
    requires
        forall|k: int| 0 <= k < 8 ==> used_c[k] == corner_used(b0, k),
        extends(b0, *old(cells)),
        extends(base, *old(cells)),
        fill_log(base, mbase, *old(cells), *old(derived), old(filled)@),
        forall|t: Cells| #![trigger agrees(*old(cells), t)] legal(t) && agrees(b0, t) ==> agrees(*old(cells), t),
    ensures
        extends(*old(cells), *final(cells)),
        extends(b0, *final(cells)),
        extends(base, *final(cells)),
        fill_log(base, mbase, *final(cells), *final(derived), final(filled)@),
        forall|t: Cells| #![trigger agrees(*final(cells), t)] legal(t) && agrees(b0, t) ==> agrees(*final(cells), t),
        empty_total(*final(cells)) <= empty_total(*old(cells)),
        changed ==> empty_total(*final(cells)) < empty_total(*old(cells)),
        !changed ==> *final(cells) == *old(cells),
        !changed && *old(cells) == b0 ==> forall|ci: int| 0 <= ci < 8 ==> !#[trigger] corner_forced(b0, ci),
        changed && *old(cells) == b0 ==> exists|ci: int| 0 <= ci < 8 && #[trigger] corner_forced(b0, ci),
        below_closures(*old(cells), *final(cells)),
{
    let ghost c0 = *cells;
    let mut changed = false;
    let mut ci: usize = 0;
    while ci < 8
        invariant
            ci <= 8,
            forall|k: int| 0 <= k < 8 ==> used_c[k] == corner_used(b0, k),
            extends(c0, *cells),
            extends(b0, *cells),
            extends(base, *cells),
            fill_log(base, mbase, *cells, *derived, filled@),
            forall|t: Cells| #![trigger agrees(*cells, t)] legal(t) && agrees(b0, t) ==> agrees(*cells, t),
            empty_total(*cells) <= empty_total(c0),
            changed ==> empty_total(*cells) < empty_total(c0),
            !changed ==> *cells == c0,
            !changed && c0 == b0 ==> forall|cj: int| 0 <= cj < ci ==> !#[trigger] corner_forced(b0, cj),
            changed && c0 == b0 ==> exists|cj: int| 0 <= cj < 8 && #[trigger] corner_forced(b0, cj),
            below_closures(c0, *cells),
        decreases 8 - ci,
    {
        let ghost prev = *cells;
        if corner_step(cells, derived, filled, used_c, ci, Ghost(b0), Ghost(base), Ghost(mbase)) {
            changed = true;
        }
        proof {
            lemma_below_trans(c0, prev, *cells);
        }
        ci += 1;
    }
    changed
}

/// One pass over the edge positions (see [`edge_step`]).
fn edge_pass(
    cells: &mut Cells,
    derived: &mut Marks,
    filled: &mut Vec<usize>,
    used_e: &[bool; 12],
    Ghost(b0): Ghost<Cells>,
    Ghost(base): Ghost<Cells>,
    Ghost(mbase): Ghost<Marks>,
) -> (changed: bool)
    requires
        forall|k: int| 0 <= k < 12 ==> used_e[k] == edge_used(b0, k),
        extends(b0, *old(cells)),
        extends(base, *old(cells)),
        fill_log(base, mbase, *old(cells), *old(derived), old(filled)@),
        forall|t: Cells| #![trigger agrees(*old(cells), t)] legal(t) && agrees(b0, t) ==> agrees(*old(cells), t),
    ensures
        extends(*old(cells), *final(cells)),
        extends(b0, *final(cells)),
        extends(base, *final(cells)),
        fill_log(base, mbase, *final(cells), *final(derived), final(filled)@),
        forall|t: Cells| #![trigger agrees(*final(cells), t)] legal(t) && agrees(b0, t) ==> agrees(*final(cells), t),
        empty_total(*final(cells)) <= empty_total(*old(cells)),
        changed ==> empty_total(*final(cells)) < empty_total(*old(cells)),
        !changed ==> *final(cells) == *old(cells),
        !changed && *old(cells) == b0 ==> forall|ei: int| 0 <= ei < 12 ==> !#[trigger] edge_forced(b0, ei),
        changed && *old(cells) == b0 ==> exists|ei: int| 0 <= ei < 12 && #[trigger] edge_forced(b0, ei),
        below_closures(*old(cells), *final(cells)),
{
    let ghost c0 = *cells;
    let mut changed = false;
    let mut ei: usize = 0;
    while ei < 12
        invariant
            ei <= 12,
            forall|k: int| 0 <= k < 12 ==> used_e[k] == edge_used(b0, k),
            extends(c0, *cells),
            extends(b0, *cells),
            extends(base, *cells),
            fill_log(base, mbase, *cells, *derived, filled@),
            forall|t: Cells| #![trigger agrees(*cells, t)] legal(t) && agrees(b0, t) ==> agrees(*cells, t),
            empty_total(*cells) <= empty_total(c0),
            changed ==> empty_total(*cells) < empty_total(c0),
            !changed ==> *cells == c0,
            !changed && c0 == b0 ==> forall|ej: int| 0 <= ej < ei ==> !#[trigger] edge_forced(b0, ej),
            changed && c0 == b0 ==> exists|ej: int| 0 <= ej < 12 && #[trigger] edge_forced(b0, ej),
            below_closures(c0, *cells),
        decreases 12 - ei,
    {
        let ghost prev = *cells;
        if edge_step(cells, derived, filled, used_e, ei, Ghost(b0), Ghost(base), Ghost(mbase)) {
            changed = true;
        }
        proof {
            lemma_below_trans(c0, prev, *cells);
        }
        ei += 1;
    }
    changed
}

/// Number of `g < n` unknown on `a` that have colour `c` on `t`.
pub open spec fn empty_as(a: Cells, t: Cells, c: StickerColor, n: int) -> nat
    decreases n,
{
    if n <= 0 {
        0
    } else {
        empty_as(a, t, c, n - 1) + if cell(a, n - 1) is None && cell(t, n - 1) == Some(c) { 1nat } else { 0nat }
    }
}

proof fn lemma_count_split(a: Cells, t: Cells, c: StickerColor, n: int)
    requires
        agrees(a, t),
        all_known(t),
        0 <= n <= 54,
    ensures
        count_upto(t, c, n) == count_upto(a, c, n) + empty_as(a, t, c, n),
    decreases n,
{
    if n > 0 {
        lemma_count_split(a, t, c, n - 1);
        assert(cell(t, n - 1) is Some);
    }
}

proof fn lemma_empty_as_le(a: Cells, t: Cells, c: StickerColor, n: int)
    requires
        0 <= n <= 54,
    ensures
        empty_as(a, t, c, n) <= empty_upto(a, n),
        empty_as(a, t, c, n) == empty_upto(a, n) ==> forall|g: int| 0 <= g < n && #[trigger] cell(a, g) is None ==> cell(t, g) == Some(c),
    decreases n,
{
    if n > 0 {
        lemma_empty_as_le(a, t, c, n - 1);
    }
}

/// When a colour is missing exactly as many stickers as there are gaps, every legal
/// cube agreeing with the board has that colour in all the gaps.
proof fn lemma_quota_sound(a: Cells, t: Cells, c: StickerColor)
    requires
        legal(t),
        agrees(a, t),
        empty_total(a) > 0,
        missing(a, c) == empty_total(a),
    ensures
        forall|g: int| 0 <= g < 54 && #[trigger] cell(a, g) is None ==> cell(t, g) == Some(c),
{
    lemma_count_split(a, t, c, 54);
    lemma_count_agrees(a, t, c, 54);
    assert(count_of(t, c) == 9);
    lemma_empty_as_le(a, t, c, 54);
}

proof fn lemma_empty_as_full(a: Cells, t: Cells, c: StickerColor, n: int)
    requires
        0 <= n <= 54,
        forall|g: int| 0 <= g < n && #[trigger] cell(a, g) is None ==> cell(t, g) == Some(c),
    ensures
        empty_as(a, t, c, n) == empty_upto(a, n),
    decreases n,
{
    if n > 0 {
        lemma_empty_as_full(a, t, c, n - 1);
    }
}

/// Filling every gap with the colour the quota rule names adds nothing that a closed
/// board above the old one, agreeing with a legal cube, lacks.
proof fn lemma_quota_fill_below(a: Cells, fin: Cells, c: StickerColor)
    requires
        empty_total(a) > 0,
        missing(a, c) == empty_total(a),
        forall|h: int| 0 <= h < 54 ==> #[trigger] cell(fin, h) == if cell(a, h) is None { Some(c) } else { cell(a, h) },
    ensures
        below_closures(a, fin),
{
    assert forall|b: Cells| #![trigger extends(fin, b)] propagation_closed(b) && extends(a, b) && consistent(b) implies extends(fin, b) by {
        let t = choose|t: Cells| legal(t) && #[trigger] agrees(b, t);
        lemma_extends_agrees(a, b, t);
        lemma_quota_sound(a, t, c);
        lemma_count_agrees(a, t, c, 54);
        assert(count_of(t, c) == 9);
        assert(all_known(t));
        lemma_count_split(b, t, c, 54);
        assert forall|g: int| 0 <= g < 54 && #[trigger] cell(b, g) is None implies cell(t, g) == Some(c) by {
            assert(cell(a, g) is None);
        }
        lemma_empty_as_full(b, t, c, 54);
        if empty_total(b) > 0 {
            assert(missing(b, c) == empty_total(b));
            assert(quota_forced(b));
        }
        assert forall|h: int| 0 <= h < 54 && #[trigger] cell(fin, h) is Some implies cell(b, h) == cell(fin, h) by {
            if cell(a, h) is None {
                if cell(b, h) is None {
                    crate::pieces::lemma_empty_total_positive(b, h);
                }
                assert(cell(b, h) matches Some(x) ==> cell(t, h) == Some(x));
            }
        }
    }
}

/// The unknown stickers, in increasing order.
pub(crate) fn empty_list(cells: &Cells) -> (r: Vec<usize>)
    ensures
        r@.len() == empty_total(*cells),
        forall|i: int| 0 <= i < r@.len() ==> #[trigger] r@[i] < 54 && cell(*cells, r@[i] as int) is None,
        forall|i: int, j: int| 0 <= i < j < r@.len() ==> r@[i] < r@[j],
        forall|g: int| 0 <= g < 54 && #[trigger] cell(*cells, g) is None ==> r@.contains(g as usize),
{
    let mut r: Vec<usize> = Vec::new();
    let mut g: usize = 0;
    while g < 54
        invariant
            g <= 54,
            r@.len() == crate::pieces::empty_upto(*cells, g as int),
            forall|i: int| 0 <= i < r@.len() ==> #[trigger] r@[i] < g && cell(*cells, r@[i] as int) is None,
            forall|i: int, j: int| 0 <= i < j < r@.len() ==> r@[i] < r@[j],
            forall|h: int| 0 <= h < g && #[trigger] cell(*cells, h) is None ==> r@.contains(h as usize),
        decreases 54 - g,
    {
        if get(cells, g).is_none() {
            let ghost prev = r@;
            r.push(g);
            proof {
                assert forall|h: int| 0 <= h < g + 1 && #[trigger] cell(*cells, h) is None implies r@.contains(h as usize) by {
                    if h == g {
                        assert(r@[r@.len() - 1] == g);
                    } else {
                        let i = choose|i: int| 0 <= i < prev.len() && prev[i] == h as usize;
                        assert(r@[i] == h as usize);
                    }
                }
            }
        }
        g += 1;
    }
    r
}

/// The quota rule: when some colour (first in [`COLOR_ORDER`]) is missing exactly as
/// many stickers as there are gaps, every gap gets that colour.
#[verifier::spinoff_prover]
#[verifier::rlimit(60)]
fn quota_pass(
    cells: &mut Cells,
    derived: &mut Marks,
    filled: &mut Vec<usize>,
    Ghost(base): Ghost<Cells>,
    Ghost(mbase): Ghost<Marks>,
) -> (changed: bool)
    requires
        extends(base, *old(cells)),
        fill_log(base, mbase, *old(cells), *old(derived), old(filled)@),
    ensures
        extends(*old(cells), *final(cells)),
        extends(base, *final(cells)),
        fill_log(base, mbase, *final(cells), *final(derived), final(filled)@),
        forall|t: Cells| #![trigger agrees(*final(cells), t)] legal(t) && agrees(*old(cells), t) ==> agrees(*final(cells), t),
        empty_total(*final(cells)) <= empty_total(*old(cells)),
        changed ==> empty_total(*final(cells)) < empty_total(*old(cells)),
        !changed ==> *final(cells) == *old(cells) && !quota_forced(*old(cells)),
        changed ==> quota_forced(*old(cells)),
        below_closures(*old(cells), *final(cells)),
{
    let ghost c0 = *cells;
    let cnt = counts(cells);
    let empties = empty_list(cells);
    if empties.len() == 0 {
        return false;
    }
    let mut i: usize = 0;
    while i < 6
        invariant
            i <= 6,
            c0 == *old(cells),
            *cells == c0,
            *derived == *old(derived),
            filled@ == old(filled)@,
            extends(base, *cells),
            fill_log(base, mbase, *cells, *derived, filled@),
            forall|c: StickerColor| #[trigger] cnt[color_index(c)] == count_of(c0, c),
            empties@.len() == empty_total(c0),
            empties@.len() > 0,
            forall|a: int| 0 <= a < empties@.len() ==> #[trigger] empties@[a] < 54 && cell(c0, empties@[a] as int) is None,
            forall|a: int, b: int| 0 <= a < b < empties@.len() ==> empties@[a] < empties@[b],
            forall|h: int| 0 <= h < 54 && #[trigger] cell(c0, h) is None ==> empties@.contains(h as usize),
            forall|j: int| 0 <= j < i ==> missing(c0, #[trigger] COLOR_ORDER[j]) != empty_total(c0),
        decreases 6 - i,
    {
        let c = COLOR_ORDER[i];
        let have = cnt[crate::pieces::color_idx(c)] as usize;
        let miss: usize = if have >= 9 { 0 } else { 9 - have };
        if miss == empties.len() {
            let ghost t_c = c;
            proof {
                assert(missing(c0, c) == empty_total(c0));
                assert(quota_forced(c0));
            }
            let mut j: usize = 0;
            while j < empties.len()
                invariant
                    j <= empties@.len(),
                    c0 == *old(cells),
                    empties@.len() == empty_total(c0),
                    empties@.len() > 0,
                    missing(c0, c) == empty_total(c0),
                    forall|a: int| 0 <= a < empties@.len() ==> #[trigger] empties@[a] < 54 && cell(c0, empties@[a] as int) is None,
                    forall|a: int, b: int| 0 <= a < b < empties@.len() ==> empties@[a] < empties@[b],
                    forall|h: int| 0 <= h < 54 && #[trigger] cell(c0, h) is None ==> empties@.contains(h as usize),
                    forall|h: int| 0 <= h < 54 ==> #[trigger] cell(*cells, h) == if (exists|a: int| 0 <= a < j && empties@[a] == h as usize) {
                        Some(c)
                    } else {
                        cell(c0, h)
                    },
                    extends(c0, *cells),
                    extends(base, *cells),
                    fill_log(base, mbase, *cells, *derived, filled@),
                    empty_total(*cells) + j == empty_total(c0),
                    forall|t: Cells| #![trigger agrees(*cells, t)] legal(t) && agrees(c0, t) ==> agrees(*cells, t),
                decreases empties@.len() - j,
            {
                let g = empties[j];
                proof {
                    assert forall|a: int| 0 <= a < j implies empties@[a] != g by {
                        assert(empties@[a] < empties@[j as int]);
                    }
                    assert(cell(*cells, g as int) is None);
                }
                let ghost before = *cells;
                fill_cell(cells, derived, filled, g, c, Ghost(base), Ghost(mbase));
                proof {
                    assert forall|h: int| 0 <= h < 54 implies #[trigger] cell(*cells, h) == if (exists|a: int| 0 <= a < j + 1 && empties@[a] == h as usize) {
                        Some(c)
                    } else {
                        cell(c0, h)
                    } by {
                        if h == g as int {
                            assert(empties@[j as int] == h as usize);
                        } else {
                            assert(cell(*cells, h) == cell(before, h));
                            if exists|a: int| 0 <= a < j + 1 && empties@[a] == h as usize {
                                let a = choose|a: int| 0 <= a < j + 1 && empties@[a] == h as usize;
                                assert(a < j);
                            }
                        }
                    }
                    assert forall|t: Cells| #![trigger agrees(*cells, t)] legal(t) && agrees(c0, t) implies agrees(*cells, t) by {
                        lemma_quota_sound(c0, t, c);
                        assert(agrees(before, t));
                        assert(cell(c0, g as int) is None);
                    }
                }
                j += 1;
            }
            proof {
                assert forall|h: int| 0 <= h < 54 implies #[trigger] cell(*cells, h) == if cell(c0, h) is None { Some(c) } else { cell(c0, h) } by {
                    if cell(c0, h) is None {
                        assert(empties@.contains(h as usize));
                        let a = choose|a: int| 0 <= a < empties@.len() && empties@[a] == h as usize;
                        assert(exists|a2: int| 0 <= a2 < j && empties@[a2] == h as usize);
                    } else {
                        if exists|a: int| 0 <= a < j && empties@[a] == h as usize {
                            let a = choose|a: int| 0 <= a < j && empties@[a] == h as usize;
                            assert(cell(c0, empties@[a] as int) is None);
                        }
                    }
                }
                lemma_quota_fill_below(c0, *cells, c);
            }
            return true;
        }
        proof {
            assert(cnt[color_index(c)] == count_of(c0, c));
        }
        i += 1;
    }
    proof {
        assert forall|c: StickerColor| #[trigger] missing(c0, c) != empty_total(c0) by {
            assert(COLOR_ORDER[color_index(c)] == c);
        }
    }
    false
}

/// `b` knows every centre and keeps every other known sticker of `input`.
pub open spec fn covers(input: Cells, b: Cells) -> bool {
    &&& forall|f: int| 0 <= f < 6 ==> #[trigger] b[f][4] is Some
    &&& forall|g: int| 0 <= g < 54 && g % 9 != 4 && #[trigger] cell(input, g) is Some ==> cell(b, g) == cell(input, g)
}

/// A board covering the input, consistent with a legal cube, keeps the input with
/// its centres set.
proof fn lemma_covers_start(input: Cells, start: Cells, b: Cells)
    requires
        forall|f: int| 0 <= f < 6 ==> #[trigger] start[f][4] == Some(solved_face_color(f)),
        forall|f: int, i: int| 0 <= f < 6 && 0 <= i < 9 && i != 4 ==> #[trigger] start[f][i] == input[f][i],
        consistent(b),
        covers(input, b),
    ensures
        extends(start, b),
{
    let t = choose|t: Cells| legal(t) && #[trigger] agrees(b, t);
    assert forall|g: int| 0 <= g < 54 && #[trigger] cell(start, g) is Some implies cell(b, g) == cell(start, g) by {
        let f = g / 9;
        if g % 9 == 4 {
            assert(g == f * 9 + 4);
            assert(b[f][4] is Some);
            assert(cell(b, g) matches Some(x) ==> cell(t, g) == Some(x));
            assert(t[f][4] matches Some(x) ==> x == solved_face_color(f));
            assert(cell(t, g) == t[f][4]);
            assert(cell(start, g) == start[f][4]);
            assert(cell(b, g) == b[f][4]);
        } else {
            assert(start[f][g % 9] == input[f][g % 9]);
            assert(cell(start, g) == cell(input, g));
            assert(cell(input, g) is Some);
        }
    }
}

/// `out` is what deduction gives from `input` when no sticker of `input` is marked as
/// derived: centres set, every known sticker kept, no legal cube that agrees with
/// `input` contradicted, no rule left to apply, nothing held beyond what every closed
/// board above `input` agreeing with a legal cube holds, and nothing changed when
/// `input` has its centres and no rule applies to it; `filled` lists, once each, the
/// stickers it added, and exactly those are marked in `dout`.
pub open spec fn deduced(input: Cells, out: Cells, dout: Marks, filled: Seq<usize>) -> bool {
    &&& forall|f: int| 0 <= f < 6 ==> #[trigger] out[f][4] == Some(solved_face_color(f))
    &&& forall|g: int| 0 <= g < 54 && g % 9 != 4 && #[trigger] cell(input, g) is Some ==> cell(out, g) == cell(input, g)
    &&& forall|t: Cells| #![trigger agrees(out, t)] legal(t) && agrees(input, t) ==> agrees(out, t)
    &&& filled.no_duplicates()
    &&& forall|g: int| 0 <= g < 54 ==> (#[trigger] filled.contains(g as usize)
        <==> (g % 9 != 4 && cell(input, g) is None && cell(out, g) is Some))
    &&& forall|i: int| 0 <= i < filled.len() ==> #[trigger] filled[i] < 54
    &&& forall|g: int| 0 <= g < 54 ==> #[trigger] mark(dout, g) == filled.contains(g as usize)
    &&& propagation_closed(out)
    &&& forall|b: Cells| #![trigger extends(out, b)]
        propagation_closed(b) && consistent(b) && covers(input, b) ==> extends(out, b)
    &&& (forall|f: int| 0 <= f < 6 ==> #[trigger] input[f][4] == Some(solved_face_color(f)))
        && propagation_closed(input) ==> out == input && filled.len() == 0
}

/// **Local deduction.** Fill in every sticker that the known stickers force, and
/// return the board indices filled this way. Centres are set to their faces'
/// colours. Rules, repeated until none applies:
/// - a partly known corner/edge position that exactly one unused piece fits gets
///   that piece (in the one orientation its known stickers allow);
/// - when a colour is missing exactly as many stickers as there are gaps, all gaps
///   get that colour.
/// A position with no known sticker is never guessed: its orientation is open.
pub fn propagate(cells: &mut Cells, derived: &mut Marks) -> (filled: Vec<usize>)
    ensures
        forall|f: int| 0 <= f < 6 ==> #[trigger] final(cells)[f][4] == Some(solved_face_color(f)),
        (forall|f: int| 0 <= f < 6 ==> #[trigger] old(cells)[f][4] == Some(solved_face_color(f)))
            && propagation_closed(*old(cells)) ==> *final(cells) == *old(cells) && filled@.len() == 0,
        forall|g: int| 0 <= g < 54 && g % 9 != 4 && #[trigger] cell(*old(cells), g) is Some
            ==> cell(*final(cells), g) == cell(*old(cells), g),
        forall|t: Cells| #![trigger agrees(*final(cells), t)] legal(t) && agrees(*old(cells), t) ==> agrees(*final(cells), t),
        filled@.no_duplicates(),
        forall|g: int| 0 <= g < 54 ==> (#[trigger] filled@.contains(g as usize)
            <==> (g % 9 != 4 && cell(*old(cells), g) is None && cell(*final(cells), g) is Some)),
        forall|i: int| 0 <= i < filled@.len() ==> #[trigger] filled@[i] < 54,
        forall|g: int| 0 <= g < 54 ==> #[trigger] mark(*final(derived), g) == (mark(*old(derived), g) || filled@.contains(g as usize)),
        propagation_closed(*final(cells)),
        forall|b: Cells| #![trigger extends(*final(cells), b)]
            propagation_closed(b) && consistent(b) && covers(*old(cells), b) ==> extends(*final(cells), b),
        (forall|g: int| 0 <= g < 54 ==> !#[trigger] mark(*old(derived), g))
            ==> deduced(*old(cells), *final(cells), *final(derived), filled@),
{
    let ghost input = *cells;
    let mut filled: Vec<usize> = Vec::new();
    let mut f: usize = 0;
    while f < 6
        invariant
            f <= 6,
            forall|h: int| 0 <= h < f ==> #[trigger] cells[h][4] == Some(solved_face_color(h)),
            forall|h: int, i: int| 0 <= h < 6 && 0 <= i < 9 && (i != 4 || h >= f) ==> #[trigger] cells[h][i] == input[h][i],
        decreases 6 - f,
    {
        cells[f][4] = Some(FACE_COLOR[f]);
        f += 1;
    }
    let ghost start = *cells;
    let ghost mstart = *derived;
    proof {
        assert forall|t: Cells| #![trigger agrees(start, t)] legal(t) && agrees(input, t) implies agrees(start, t) by {
            assert forall|g: int| 0 <= g < 54 implies (#[trigger] cell(start, g) matches Some(c) ==> cell(t, g) == Some(c)) by {
                let f = g / 9;
                if g % 9 == 4 {
                    assert(cell(t, g) is Some);
                    assert(t[f][4] matches Some(x) ==> x == solved_face_color(f));
                    assert(start[f][4] == Some(solved_face_color(f)));
                } else {
                    assert(start[f][g % 9] == input[f][g % 9]);
                    assert(cell(input, g) matches Some(c) ==> cell(t, g) == Some(c));
                }
            }
        }
        lemma_fill_log_empty(start, mstart);
    }
    let mut changed = true;
    while changed
        invariant
            extends(start, *cells),
            fill_log(start, mstart, *cells, *derived, filled@),
            forall|t: Cells| #![trigger agrees(*cells, t)] legal(t) && agrees(start, t) ==> agrees(*cells, t),
            !changed ==> propagation_closed(*cells),
            below_closures(start, *cells),
            propagation_closed(start) ==> *cells == start && filled@.len() == 0,
        decreases empty_total(*cells) + if changed { 1int } else { 0int },
    {
        changed = false;
        let ghost b0 = *cells;
        let used_c = used_corners(cells);
        let used_e = used_edges(cells);
        if corner_pass(cells, derived, &mut filled, &used_c, Ghost(b0), Ghost(start), Ghost(mstart)) {
            changed = true;
        }
        proof {
            lemma_below_trans(start, b0, *cells);
            if propagation_closed(start) {
                assert(b0 == start);
                assert(!changed);
            }
        }
        let has_empty = crate::pieces::empty_count(cells) > 0;
        let ghost b1 = *cells;
        if has_empty {
            if quota_pass(cells, derived, &mut filled, Ghost(start), Ghost(mstart)) {
                changed = true;
            }
            proof {
                lemma_below_trans(start, b1, *cells);
                if propagation_closed(start) {
                    assert(b1 == start);
                    assert(!changed);
                }
            }
            if changed {
                continue;
            }
        }
        let ghost b2 = *cells;
        if edge_pass(cells, derived, &mut filled, &used_e, Ghost(b0), Ghost(start), Ghost(mstart)) {
            changed = true;
        }
        proof {
            lemma_below_trans(start, b2, *cells);
            if !changed {
                assert(*cells == b0);
                assert(propagation_closed(*cells));
            }
            if propagation_closed(start) {
                assert(b2 == start);
                assert(!changed);
                assert(*cells == start);
                if filled@.len() > 0 {
                    let g0 = filled@[0];
                    assert(g0 < 54);
                    assert(filled@.contains((g0 as int) as usize));
                    assert(cell(start, g0 as int) is None && cell(*cells, g0 as int) is Some);
                }
            }
        }
    }
    proof {
        if forall|f: int| 0 <= f < 6 ==> #[trigger] input[f][4] == Some(solved_face_color(f)) {
            assert forall|g: int| 0 <= g < 54 implies #[trigger] cell(start, g) == cell(input, g) by {
                assert(start[g / 9][g % 9] == input[g / 9][g % 9]);
            }
            crate::pieces::lemma_cells_ext(start, input);
        }
        assert forall|b: Cells| #![trigger extends(*cells, b)]
            propagation_closed(b) && consistent(b) && covers(input, b) implies extends(*cells, b) by {
            lemma_covers_start(input, start, b);
        }
        assert forall|g: int| 0 <= g < 54 && g % 9 != 4 && #[trigger] cell(input, g) is Some
            implies cell(*cells, g) == cell(input, g) by {
            assert(start[g / 9][g % 9] == input[g / 9][g % 9]);
            assert(cell(start, g) == cell(input, g));
        }
        assert forall|f: int| 0 <= f < 6 implies #[trigger] cells[f][4] == Some(solved_face_color(f)) by {
            assert(cell(start, f * 9 + 4) is Some);
        }
        assert forall|g: int| 0 <= g < 54 implies (#[trigger] filled@.contains(g as usize)
            <==> (g % 9 != 4 && cell(input, g) is None && cell(*cells, g) is Some)) by {
            if g % 9 == 4 {
                assert(start[g / 9][4] == Some(solved_face_color(g / 9)));
                assert(cell(start, g) is Some);
            } else {
                assert(start[g / 9][g % 9] == input[g / 9][g % 9]);
                assert(cell(start, g) == cell(input, g));
            }
        }
    }
    filled
}

} // verus!
