//! Can a partial board still be finished as a legal cube? The check every stroke
//! must pass, the immediate per-click checks, and the colour picker's view.

use vstd::prelude::*;
use crate::model::StickerColor;
use crate::pieces::{
    available_colors, cell, color_cn, color_cn_text, color_idx, color_index, corner_fits, corner_full, edge_full,
    corner_match, count_of, count_upto, counts, cslot, edge_fits, edge_match, empty_count,
    empty_total, eslot, get, in_corner, in_edge, is_center, is_center_spec, lemma_cells_ext,
    lemma_put_cells, name_text, opposite, opposite_color, piece_of, put, Cells, PieceKind, COLOR_ORDER,
    CORNER_FACELETS, EDGE_FACELETS,
};
use crate::fit::{corner_consistent, corner_piece_at, edge_consistent, edge_piece_at};
use crate::legal::{all_known, corner_id, edge_id, legal, pieces_form_permutation};
use crate::matching::{has_perfect_matching, perfect_matching_exists, valid_assignment};
use crate::validate::{lemma_all_known_iff, problem_texts, texts, validate};
use crate::text::{dec_text, push_dec, push_str, text};

verus! {

/// `f` gives every corner position its own piece that fits the known stickers.
pub open spec fn corner_assignment(cells: Cells, f: Seq<int>) -> bool {
    &&& f.len() == 8
    &&& forall|ci: int| 0 <= ci < 8 ==> 0 <= #[trigger] f[ci] < 8 && corner_match(cells, ci, f[ci])
    &&& forall|a: int, b: int| 0 <= a < 8 && 0 <= b < 8 && a != b ==> f[a] != f[b]
}

/// `f` gives every edge position its own piece that fits the known stickers.
pub open spec fn edge_assignment(cells: Cells, f: Seq<int>) -> bool {
    &&& f.len() == 12
    &&& forall|ei: int| 0 <= ei < 12 ==> 0 <= #[trigger] f[ei] < 12 && edge_match(cells, ei, f[ei])
    &&& forall|a: int, b: int| 0 <= a < 12 && 0 <= b < 12 && a != b ==> f[a] != f[b]
}

/// A board is feasible: no colour is over quota, the corners and the edges can each
/// be given distinct fitting pieces, and a full board is legal.
pub open spec fn feasible(cells: Cells) -> bool {
    &&& forall|c: StickerColor| #[trigger] count_of(cells, c) <= 9
    &&& exists|f: Seq<int>| #[trigger] corner_assignment(cells, f)
    &&& exists|f: Seq<int>| #[trigger] edge_assignment(cells, f)
    &&& (all_known(cells) ==> legal(cells))
}

/// Every known sticker of `cells` has the same colour in `t`.
pub open spec fn agrees(cells: Cells, t: Cells) -> bool {
    forall|g: int| 0 <= g < 54 ==> (#[trigger] cell(cells, g) matches Some(c) ==> cell(t, g) == Some(c))
}

pub proof fn lemma_count_agrees(cells: Cells, t: Cells, c: StickerColor, n: int)
    requires
        agrees(cells, t),
        0 <= n <= 54,
    ensures
        count_upto(cells, c, n) <= count_upto(t, c, n),
    decreases n,
{
    if n > 0 {
        lemma_count_agrees(cells, t, c, n - 1);
        if cell(cells, n - 1) == Some(c) {
            assert(cell(t, n - 1) == Some(c));
        }
    }
}

/// A board whose known stickers agree with a legal cube is feasible.
pub proof fn lemma_agrees_legal_feasible(cells: Cells, t: Cells)
    requires
        legal(t),
        agrees(cells, t),
    ensures
        feasible(cells),
{
    assert forall|c: StickerColor| #[trigger] count_of(cells, c) <= 9 by {
        lemma_count_agrees(cells, t, c, 54);
        assert(count_of(t, c) == 9);
    }
    let fc = Seq::new(8, |ci: int| corner_id(t, ci));
    assert forall|ci: int| 0 <= ci < 8 implies 0 <= #[trigger] fc[ci] < 8 && corner_match(cells, ci, fc[ci]) by {
        assert(corner_id(t, ci) < 8);
        let k = corner_id(t, ci);
        assert(corner_match(t, ci, k));
        let r = if corner_fits(t, ci, k, 0) { 0int } else if corner_fits(t, ci, k, 1) { 1int } else { 2int };
        assert(cell(cells, cslot(ci, 0)) matches Some(x) ==> cell(t, cslot(ci, 0)) == Some(x));
        assert(cell(cells, cslot(ci, 1)) matches Some(x) ==> cell(t, cslot(ci, 1)) == Some(x));
        assert(cell(cells, cslot(ci, 2)) matches Some(x) ==> cell(t, cslot(ci, 2)) == Some(x));
        assert(corner_fits(cells, ci, k, r));
    }
    assert(corner_assignment(cells, fc));
    let fe = Seq::new(12, |ei: int| edge_id(t, ei));
    assert forall|ei: int| 0 <= ei < 12 implies 0 <= #[trigger] fe[ei] < 12 && edge_match(cells, ei, fe[ei]) by {
        assert(edge_id(t, ei) < 12);
        let k = edge_id(t, ei);
        assert(edge_match(t, ei, k));
        let r = if edge_fits(t, ei, k, 0) { 0int } else { 1int };
        assert(cell(cells, eslot(ei, 0)) matches Some(x) ==> cell(t, eslot(ei, 0)) == Some(x));
        assert(cell(cells, eslot(ei, 1)) matches Some(x) ==> cell(t, eslot(ei, 1)) == Some(x));
        assert(edge_fits(cells, ei, k, r));
    }
    assert(edge_assignment(cells, fe));
    if all_known(cells) {
        assert forall|g: int| 0 <= g < 54 implies #[trigger] cell(cells, g) == cell(t, g) by {
            assert(cell(cells, g) is Some);
        }
        lemma_cells_ext(cells, t);
    }
}

/// Build the candidate pieces of every corner position.
fn corner_candidates(cells: &Cells) -> (cands: Vec<Vec<usize>>)
    ensures
        cands@.len() == 8,
        forall|ci: int, k: int| 0 <= ci < 8 && 0 <= k < 8 ==>
            (#[trigger] cands@[ci]@.contains(k as usize) <==> corner_match(*cells, ci, k)),
        forall|ci: int, j: int| 0 <= ci < 8 && 0 <= j < cands@[ci]@.len() ==> #[trigger] cands@[ci]@[j] < 8,
{
    let mut cands: Vec<Vec<usize>> = Vec::new();
    let mut ci: usize = 0;
    while ci < 8
        invariant
            ci <= 8,
            cands@.len() == ci,
            forall|cj: int, k: int| 0 <= cj < ci && 0 <= k < 8 ==>
                (#[trigger] cands@[cj]@.contains(k as usize) <==> corner_match(*cells, cj, k)),
            forall|cj: int, j: int| 0 <= cj < ci && 0 <= j < cands@[cj]@.len() ==> #[trigger] cands@[cj]@[j] < 8,
        decreases 8 - ci,
    {
        let mut row: Vec<usize> = Vec::new();
        let mut k: usize = 0;
        while k < 8
            invariant
                ci < 8,
                k <= 8,
                forall|q: int| 0 <= q < 8 ==> (#[trigger] row@.contains(q as usize) <==> (q < k && corner_match(*cells, ci as int, q))),
                forall|j: int| 0 <= j < row@.len() ==> #[trigger] row@[j] < k,
            decreases 8 - k,
        {
            let ghost prev = row@;
            if corner_consistent(cells, ci, k).is_some() {
                row.push(k);
                proof {
                    assert forall|q: int| 0 <= q < 8 implies (#[trigger] row@.contains(q as usize) <==> (q < k + 1 && corner_match(*cells, ci as int, q))) by {
                        if q == k {
                            assert(row@[row@.len() - 1] == k);
                        }
                        if row@.contains(q as usize) && q != k {
                            let j = choose|j: int| 0 <= j < row@.len() && row@[j] == q as usize;
                            assert(prev[j] == q as usize);
                        }
                        if prev.contains(q as usize) {
                            let j = choose|j: int| 0 <= j < prev.len() && prev[j] == q as usize;
                            assert(row@[j] == q as usize);
                        }
                    }
                }
            }
            k += 1;
        }
        cands.push(row);
        ci += 1;
    }
    cands
}

/// Build the candidate pieces of every edge position.
fn edge_candidates(cells: &Cells) -> (cands: Vec<Vec<usize>>)
    ensures
        cands@.len() == 12,
        forall|ei: int, k: int| 0 <= ei < 12 && 0 <= k < 12 ==>
            (#[trigger] cands@[ei]@.contains(k as usize) <==> edge_match(*cells, ei, k)),
        forall|ei: int, j: int| 0 <= ei < 12 && 0 <= j < cands@[ei]@.len() ==> #[trigger] cands@[ei]@[j] < 12,
{
    let mut cands: Vec<Vec<usize>> = Vec::new();
    let mut ei: usize = 0;
    while ei < 12
        invariant
            ei <= 12,
            cands@.len() == ei,
            forall|ej: int, k: int| 0 <= ej < ei && 0 <= k < 12 ==>
                (#[trigger] cands@[ej]@.contains(k as usize) <==> edge_match(*cells, ej, k)),
            forall|ej: int, j: int| 0 <= ej < ei && 0 <= j < cands@[ej]@.len() ==> #[trigger] cands@[ej]@[j] < 12,
        decreases 12 - ei,
    {
        let mut row: Vec<usize> = Vec::new();
        let mut k: usize = 0;
        while k < 12
            invariant
                ei < 12,
                k <= 12,
                forall|q: int| 0 <= q < 12 ==> (#[trigger] row@.contains(q as usize) <==> (q < k && edge_match(*cells, ei as int, q))),
                forall|j: int| 0 <= j < row@.len() ==> #[trigger] row@[j] < k,
            decreases 12 - k,
        {
            let ghost prev = row@;
            if edge_consistent(cells, ei, k).is_some() {
                row.push(k);
                proof {
                    assert forall|q: int| 0 <= q < 12 implies (#[trigger] row@.contains(q as usize) <==> (q < k + 1 && edge_match(*cells, ei as int, q))) by {
                        if q == k {
                            assert(row@[row@.len() - 1] == k);
                        }
                        if row@.contains(q as usize) && q != k {
                            let j = choose|j: int| 0 <= j < row@.len() && row@[j] == q as usize;
                            assert(prev[j] == q as usize);
                        }
                        if prev.contains(q as usize) {
                            let j = choose|j: int| 0 <= j < prev.len() && prev[j] == q as usize;
                            assert(row@[j] == q as usize);
                        }
                    }
                }
            }
            k += 1;
        }
        cands.push(row);
        ei += 1;
    }
    cands
}

/// First position with no candidate at all, if any.
fn first_empty_row(cands: &Vec<Vec<usize>>) -> (res: Option<usize>)
    ensures
        match res {
            Some(i) => i < cands@.len() && cands@[i as int]@.len() == 0
                && forall|j: int| 0 <= j < i ==> #[trigger] cands@[j]@.len() > 0,
            None => forall|i: int| 0 <= i < cands@.len() ==> #[trigger] cands@[i]@.len() > 0,
        },
{
    let mut i: usize = 0;
    while i < cands.len()
        invariant
            i <= cands@.len(),
            forall|j: int| 0 <= j < i ==> #[trigger] cands@[j]@.len() > 0,
        decreases cands@.len() - i,
    {
        if cands[i].len() == 0 {
            return Some(i);
        }
        i += 1;
    }
    None
}

/// The candidate view of the corners is the same as the corner-assignment problem.
proof fn lemma_corner_matching(cells: Cells, cs: Seq<Seq<usize>>)
    requires
        cs.len() == 8,
        forall|ci: int, k: int| 0 <= ci < 8 && 0 <= k < 8 ==> (#[trigger] cs[ci].contains(k as usize) <==> corner_match(cells, ci, k)),
        forall|ci: int, j: int| 0 <= ci < 8 && 0 <= j < cs[ci].len() ==> #[trigger] cs[ci][j] < 8,
    ensures
        perfect_matching_exists(cs, 8) == exists|f: Seq<int>| #[trigger] corner_assignment(cells, f),
{
    if perfect_matching_exists(cs, 8) {
        let f = choose|f: Seq<int>| f.len() == cs.len() && valid_assignment(cs, 8, f);
        assert forall|ci: int| 0 <= ci < 8 implies 0 <= #[trigger] f[ci] < 8 && corner_match(cells, ci, f[ci]) by {
            assert(cs[ci].contains(f[ci] as usize));
        }
        assert(corner_assignment(cells, f));
    }
    if exists|f: Seq<int>| #[trigger] corner_assignment(cells, f) {
        let f = choose|f: Seq<int>| #[trigger] corner_assignment(cells, f);
        assert forall|i: int| 0 <= i < f.len() implies 0 <= #[trigger] f[i] < 8 && cs[i].contains(f[i] as usize) by {
            assert(corner_match(cells, i, f[i]));
        }
        assert(valid_assignment(cs, 8, f));
    }
}

/// The candidate view of the edges is the same as the edge-assignment problem.
proof fn lemma_edge_matching(cells: Cells, cs: Seq<Seq<usize>>)
    requires
        cs.len() == 12,
        forall|ei: int, k: int| 0 <= ei < 12 && 0 <= k < 12 ==> (#[trigger] cs[ei].contains(k as usize) <==> edge_match(cells, ei, k)),
        forall|ei: int, j: int| 0 <= ei < 12 && 0 <= j < cs[ei].len() ==> #[trigger] cs[ei][j] < 12,
    ensures
        perfect_matching_exists(cs, 12) == exists|f: Seq<int>| #[trigger] edge_assignment(cells, f),
{
    if perfect_matching_exists(cs, 12) {
        let f = choose|f: Seq<int>| f.len() == cs.len() && valid_assignment(cs, 12, f);
        assert forall|ei: int| 0 <= ei < 12 implies 0 <= #[trigger] f[ei] < 12 && edge_match(cells, ei, f[ei]) by {
            assert(cs[ei].contains(f[ei] as usize));
        }
        assert(edge_assignment(cells, f));
    }
    if exists|f: Seq<int>| #[trigger] edge_assignment(cells, f) {
        let f = choose|f: Seq<int>| #[trigger] edge_assignment(cells, f);
        assert forall|i: int| 0 <= i < f.len() implies 0 <= #[trigger] f[i] < 12 && cs[i].contains(f[i] as usize) by {
            assert(edge_match(cells, i, f[i]));
        }
        assert(valid_assignment(cs, 12, f));
    }
}

/// The first `i` of `from..n` with `p(i)`, if any.
pub open spec fn first_from(p: spec_fn(int) -> bool, from: int, n: int) -> Option<int>
    decreases n - from,
{
    if from >= n {
        None
    } else if p(from) {
        Some(from)
    } else {
        first_from(p, from + 1, n)
    }
}

/// `r` is the first `i` of `from..n` with `p(i)`.
pub proof fn lemma_first_from_is(p: spec_fn(int) -> bool, from: int, n: int, r: int)
    requires
        from <= r < n,
        p(r),
        forall|j: int| from <= j < r ==> !#[trigger] p(j),
    ensures
        first_from(p, from, n) == Some(r),
    decreases r - from,
{
    if from < r {
        lemma_first_from_is(p, from + 1, n, r);
    }
}

/// No `i` of `from..n` has `p(i)`.
pub proof fn lemma_first_from_none(p: spec_fn(int) -> bool, from: int, n: int)
    requires
        forall|j: int| from <= j < n ==> !#[trigger] p(j),
    ensures
        first_from(p, from, n) is None,
    decreases n - from,
{
    if from < n {
        lemma_first_from_none(p, from + 1, n);
    }
}

/// No piece fits corner position `ci`.
pub open spec fn corner_blocked(cells: Cells, ci: int) -> bool {
    forall|k: int| 0 <= k < 8 ==> !#[trigger] corner_match(cells, ci, k)
}

/// No piece fits edge position `ei`.
pub open spec fn edge_blocked(cells: Cells, ei: int) -> bool {
    forall|k: int| 0 <= k < 12 ==> !#[trigger] edge_match(cells, ei, k)
}

/// The colours (by their place in [`COLOR_ORDER`]) of which the board holds more than nine.
pub open spec fn over_quota(cells: Cells) -> spec_fn(int) -> bool {
    |i: int| count_of(cells, COLOR_ORDER[i]) > 9
}

/// The fully known corner positions that show no real piece.
pub open spec fn unreal_corner(cells: Cells) -> spec_fn(int) -> bool {
    |ci: int| corner_full(cells, ci) && corner_blocked(cells, ci)
}

/// The fully known edge positions that show no real piece.
pub open spec fn unreal_edge(cells: Cells) -> spec_fn(int) -> bool {
    |ei: int| edge_full(cells, ei) && edge_blocked(cells, ei)
}

/// The corner positions no piece fits.
pub open spec fn blocked_corner(cells: Cells) -> spec_fn(int) -> bool {
    |ci: int| corner_blocked(cells, ci)
}

/// The edge positions no piece fits.
pub open spec fn blocked_edge(cells: Cells) -> spec_fn(int) -> bool {
    |ei: int| edge_blocked(cells, ei)
}

/// The Chinese name of a known sticker's colour.
pub open spec fn cn_of(v: Option<StickerColor>) -> Seq<char> {
    match v {
        Some(c) => color_cn_text(c),
        None => seq![],
    }
}

/// Why [`is_feasible`] refuses a board: the first colour over quota; else the first
/// fully known corner, then edge, that is no real piece; else the first corner
/// position no piece fits, or no matching of the corners; the same for the edges;
/// else, on a full board, the first thing [`validate`] reports.
pub open spec fn feasibility_text(cells: Cells) -> Seq<char> {
    if let Some(i) = first_from(over_quota(cells), 0, 6) {
        "「"@ + color_cn_text(COLOR_ORDER[i]) + "」会有 "@ + dec_text(count_of(cells, COLOR_ORDER[i]))
            + " 格(每种最多 9 格)"@
    } else if let Some(ci) = first_from(unreal_corner(cells), 0, 8) {
        "角位 "@ + dec_text((ci + 1) as nat) + " 会是 "@ + cn_of(cell(cells, cslot(ci, 0)))
            + cn_of(cell(cells, cslot(ci, 1))) + cn_of(cell(cells, cslot(ci, 2))) + ",不存在这样一个角块"@
    } else if let Some(ei) = first_from(unreal_edge(cells), 0, 12) {
        "棱位 "@ + dec_text((ei + 1) as nat) + " 会是 "@ + cn_of(cell(cells, eslot(ei, 0)))
            + cn_of(cell(cells, eslot(ei, 1))) + ",不存在这样一个棱块"@
    } else if let Some(ci) = first_from(blocked_corner(cells), 0, 8) {
        "角位 "@ + dec_text((ci + 1) as nat) + " 已经没有任何角块可放"@
    } else if !exists|f: Seq<int>| #[trigger] corner_assignment(cells, f) {
        "剩余的角块无法覆盖剩余角位(块对不上)"@
    } else if let Some(ei) = first_from(blocked_edge(cells), 0, 12) {
        "棱位 "@ + dec_text((ei + 1) as nat) + " 已经没有任何棱块可放"@
    } else if !exists|f: Seq<int>| #[trigger] edge_assignment(cells, f) {
        "剩余的棱块无法覆盖剩余棱位(块对不上)"@
    } else {
        problem_texts(cells)[0]
    }
}

/// Necessary conditions for a (possibly partial) board to be completable into a
/// legal cube. This gate runs before any stroke is accepted: it checks colour
/// quotas, that the fully known pieces are real pieces, that the corners and the
/// edges can each be matched to distinct fitting pieces, and, on a full board, the
/// complete check. Passing it does not by itself promise a legal completion of a
/// partial board; a board with one always passes (`lemma_agrees_legal_feasible`).
pub fn is_feasible(cells: &Cells) -> (res: Result<(), String>)
    ensures
        res is Ok <==> feasible(*cells),
        res matches Err(m) ==> m@ == feasibility_text(*cells),
{
    // 1) quotas
    let n = counts(cells);
    let mut i: usize = 0;
    while i < 6
        invariant
            i <= 6,
            forall|c: StickerColor| #[trigger] n[color_index(c)] == count_of(*cells, c),
            forall|j: int| 0 <= j < i ==> !#[trigger] over_quota(*cells)(j),
        decreases 6 - i,
    {
        let c = COLOR_ORDER[i];
        let k = color_idx(c);
        if n[k] > 9 {
            let mut m = text("「");
            push_str(&mut m, color_cn(c));
            push_str(&mut m, "」会有 ");
            push_dec(&mut m, n[k] as usize);
            push_str(&mut m, " 格(每种最多 9 格)");
            proof {
                assert(count_of(*cells, c) > 9);
                assert(over_quota(*cells)(i as int));
                lemma_first_from_is(over_quota(*cells), 0, 6, i as int);
                assert(m@ =~= feasibility_text(*cells));
            }
            return Err(m);
        }
        proof {
            assert(!over_quota(*cells)(i as int));
        }
        i += 1;
    }
    proof {
        lemma_first_from_none(over_quota(*cells), 0, 6);
        assert forall|c: StickerColor| #[trigger] count_of(*cells, c) <= 9 by {
            assert(!over_quota(*cells)(color_index(c)));
        }
    }

    // 2) fully known positions must show real pieces
    let mut ci: usize = 0;
    while ci < 8
        invariant
            ci <= 8,
            first_from(over_quota(*cells), 0, 6) is None,
            forall|j: int| 0 <= j < ci ==> !#[trigger] unreal_corner(*cells)(j),
        decreases 8 - ci,
    {
        let a = get(cells, CORNER_FACELETS[ci][0]);
        let b = get(cells, CORNER_FACELETS[ci][1]);
        let c = get(cells, CORNER_FACELETS[ci][2]);
        if let (Some(a), Some(b), Some(c)) = (a, b, c) {
            let found = corner_piece_at(cells, ci);
            if found.is_none() {
                proof {
                    assert(forall|k: int| 0 <= k < 8 ==> !corner_match(*cells, ci as int, k));
                    assert forall|f: Seq<int>| #[trigger] corner_assignment(*cells, f) implies false by {
                        assert(corner_match(*cells, ci as int, f[ci as int]));
                    }
                    assert(unreal_corner(*cells)(ci as int));
                    lemma_first_from_is(unreal_corner(*cells), 0, 8, ci as int);
                }
                let mut m = text("角位 ");
                push_dec(&mut m, ci + 1);
                push_str(&mut m, " 会是 ");
                push_str(&mut m, color_cn(a));
                push_str(&mut m, color_cn(b));
                push_str(&mut m, color_cn(c));
                push_str(&mut m, ",不存在这样一个角块");
                proof {
                    assert(m@ =~= feasibility_text(*cells));
                }
                return Err(m);
            }
            proof {
                let k = found.unwrap();
                assert(corner_match(*cells, ci as int, k as int));
                assert(!unreal_corner(*cells)(ci as int));
            }
        }
        proof {
            assert(!unreal_corner(*cells)(ci as int));
        }
        ci += 1;
    }
    proof {
        lemma_first_from_none(unreal_corner(*cells), 0, 8);
    }
    let mut ei: usize = 0;
    while ei < 12
        invariant
            ei <= 12,
            first_from(over_quota(*cells), 0, 6) is None,
            first_from(unreal_corner(*cells), 0, 8) is None,
            forall|j: int| 0 <= j < ei ==> !#[trigger] unreal_edge(*cells)(j),
        decreases 12 - ei,
    {
        let a = get(cells, EDGE_FACELETS[ei][0]);
        let b = get(cells, EDGE_FACELETS[ei][1]);
        if let (Some(a), Some(b)) = (a, b) {
            let found = edge_piece_at(cells, ei);
            if found.is_none() {
                proof {
                    assert(forall|k: int| 0 <= k < 12 ==> !edge_match(*cells, ei as int, k));
                    assert forall|f: Seq<int>| #[trigger] edge_assignment(*cells, f) implies false by {
                        assert(edge_match(*cells, ei as int, f[ei as int]));
                    }
                    assert(unreal_edge(*cells)(ei as int));
                    lemma_first_from_is(unreal_edge(*cells), 0, 12, ei as int);
                }
                let mut m = text("棱位 ");
                push_dec(&mut m, ei + 1);
                push_str(&mut m, " 会是 ");
                push_str(&mut m, color_cn(a));
                push_str(&mut m, color_cn(b));
                push_str(&mut m, ",不存在这样一个棱块");
                proof {
                    assert(m@ =~= feasibility_text(*cells));
                }
                return Err(m);
            }
            proof {
                let k = found.unwrap();
                assert(edge_match(*cells, ei as int, k as int));
                assert(!unreal_edge(*cells)(ei as int));
            }
        }
        proof {
            assert(!unreal_edge(*cells)(ei as int));
        }
        ei += 1;
    }
    proof {
        lemma_first_from_none(unreal_edge(*cells), 0, 12);
    }

    // 3) candidates and perfect matchings
    let corner_cands = corner_candidates(cells);
    let ghost ccs = corner_cands@.map_values(|v: Vec<usize>| v@);
    proof {
        lemma_corner_matching(*cells, ccs);
        assert forall|j: int| 0 <= j < 8 implies (#[trigger] blocked_corner(*cells)(j) <==> corner_cands@[j]@.len() == 0) by {
            if corner_cands@[j]@.len() > 0 {
                let x = corner_cands@[j]@[0];
                assert(x < 8);
                assert(corner_cands@[j]@.contains((x as int) as usize));
                assert(corner_match(*cells, j, x as int));
            }
            if corner_cands@[j]@.len() == 0 {
                assert forall|k: int| 0 <= k < 8 implies !#[trigger] corner_match(*cells, j, k) by {
                    if corner_match(*cells, j, k) {
                        assert(corner_cands@[j]@.contains(k as usize));
                    }
                }
            }
        }
    }
    if let Some(bad) = first_empty_row(&corner_cands) {
        proof {
            assert forall|f: Seq<int>| #[trigger] corner_assignment(*cells, f) implies false by {
                assert(corner_match(*cells, bad as int, f[bad as int]));
                assert(corner_cands@[bad as int]@.contains(f[bad as int] as usize));
            }
            assert(blocked_corner(*cells)(bad as int));
            assert forall|j: int| 0 <= j < bad implies !#[trigger] blocked_corner(*cells)(j) by {
                assert(corner_cands@[j]@.len() > 0);
            }
            lemma_first_from_is(blocked_corner(*cells), 0, 8, bad as int);
        }
        let mut m = text("角位 ");
        push_dec(&mut m, bad + 1);
        push_str(&mut m, " 已经没有任何角块可放");
        proof {
            assert(m@ =~= feasibility_text(*cells));
        }
        return Err(m);
    }
    proof {
        assert forall|j: int| 0 <= j < 8 implies !#[trigger] blocked_corner(*cells)(j) by {
            assert(corner_cands@[j]@.len() > 0);
        }
        lemma_first_from_none(blocked_corner(*cells), 0, 8);
    }
    if !has_perfect_matching(&corner_cands, 8) {
        let m = text("剩余的角块无法覆盖剩余角位(块对不上)");
        proof {
            assert(m@ =~= feasibility_text(*cells));
        }
        return Err(m);
    }
    let edge_cands = edge_candidates(cells);
    let ghost ecs = edge_cands@.map_values(|v: Vec<usize>| v@);
    proof {
        lemma_edge_matching(*cells, ecs);
        assert forall|j: int| 0 <= j < 12 implies (#[trigger] blocked_edge(*cells)(j) <==> edge_cands@[j]@.len() == 0) by {
            if edge_cands@[j]@.len() > 0 {
                let x = edge_cands@[j]@[0];
                assert(x < 12);
                assert(edge_cands@[j]@.contains((x as int) as usize));
                assert(edge_match(*cells, j, x as int));
            }
            if edge_cands@[j]@.len() == 0 {
                assert forall|k: int| 0 <= k < 12 implies !#[trigger] edge_match(*cells, j, k) by {
                    if edge_match(*cells, j, k) {
                        assert(edge_cands@[j]@.contains(k as usize));
                    }
                }
            }
        }
    }
    if let Some(bad) = first_empty_row(&edge_cands) {
        proof {
            assert forall|f: Seq<int>| #[trigger] edge_assignment(*cells, f) implies false by {
                assert(edge_match(*cells, bad as int, f[bad as int]));
                assert(edge_cands@[bad as int]@.contains(f[bad as int] as usize));
            }
            assert(blocked_edge(*cells)(bad as int));
            assert forall|j: int| 0 <= j < bad implies !#[trigger] blocked_edge(*cells)(j) by {
                assert(edge_cands@[j]@.len() > 0);
            }
            lemma_first_from_is(blocked_edge(*cells), 0, 12, bad as int);
        }
        let mut m = text("棱位 ");
        push_dec(&mut m, bad + 1);
        push_str(&mut m, " 已经没有任何棱块可放");
        proof {
            assert(m@ =~= feasibility_text(*cells));
        }
        return Err(m);
    }
    proof {
        assert forall|j: int| 0 <= j < 12 implies !#[trigger] blocked_edge(*cells)(j) by {
            assert(edge_cands@[j]@.len() > 0);
        }
        lemma_first_from_none(blocked_edge(*cells), 0, 12);
    }
    if !has_perfect_matching(&edge_cands, 12) {
        let m = text("剩余的棱块无法覆盖剩余棱位(块对不上)");
        proof {
            assert(m@ =~= feasibility_text(*cells));
        }
        return Err(m);
    }

    // 4) a full board gets the complete check
    proof {
        lemma_all_known_iff(*cells);
    }
    if empty_count(cells) == 0 {
        match validate(cells) {
            Ok(()) => {},
            Err(errs) => {
                if errs.len() > 0 {
                    let m = errs[0].clone();
                    proof {
                        assert(texts(errs@)[0] == errs@[0]@);
                        assert(m@ == feasibility_text(*cells));
                    }
                    return Err(m);
                }
                return Err(text("状态不合法"));
            },
        }
    }
    Ok(())
}


/// Every board index belongs to at most one slot of one piece, and no index is both
/// a corner slot and an edge slot.
pub open spec fn slots_distinct() -> bool {
    &&& forall|i: int, s: int, j: int, t: int| 0 <= i < 8 && 0 <= s < 3 && 0 <= j < 8 && 0 <= t < 3
            && #[trigger] cslot(i, s) == #[trigger] cslot(j, t) ==> i == j && s == t
    &&& forall|i: int, s: int, j: int, t: int| 0 <= i < 12 && 0 <= s < 2 && 0 <= j < 12 && 0 <= t < 2
            && #[trigger] eslot(i, s) == #[trigger] eslot(j, t) ==> i == j && s == t
    &&& forall|i: int, s: int, j: int, t: int| 0 <= i < 8 && 0 <= s < 3 && 0 <= j < 12 && 0 <= t < 2
            ==> #[trigger] cslot(i, s) != #[trigger] eslot(j, t)
}

/// The board layout gives every sticker to exactly one piece slot.
pub proof fn lemma_slots_distinct()
    ensures
        slots_distinct(),
{
}

/// Some other sticker of the corner holding `g` shows the colour opposite to `c`.
pub open spec fn opposite_on_corner(cells: Cells, g: int, c: StickerColor) -> bool {
    exists|i: int, s: int, t: int| 0 <= i < 8 && 0 <= s < 3 && 0 <= t < 3 && #[trigger] cslot(i, s) == g
        && s != t && #[trigger] cell(cells, cslot(i, t)) == Some(opposite_color(c))
}

/// The other sticker of the edge holding `g` shows the colour opposite to `c`.
pub open spec fn opposite_on_edge(cells: Cells, g: int, c: StickerColor) -> bool {
    exists|i: int, s: int, t: int| 0 <= i < 12 && 0 <= s < 2 && 0 <= t < 2 && #[trigger] eslot(i, s) == g
        && s != t && #[trigger] cell(cells, eslot(i, t)) == Some(opposite_color(c))
}

/// While the board still has unknown stickers, a colour that already appears nine
/// times cannot be painted anywhere it is not already.
pub open spec fn quota_blocks(cells: Cells, g: int, c: StickerColor) -> bool {
    &&& empty_total(cells) > 0
    &&& cell(cells, g) != Some(c)
    &&& count_of(cells, c) >= 9
}

/// The immediate checks pass for painting `c` at `g`: not a centre, not over quota
/// while filling in, and no opposite colour on the same piece.
pub open spec fn paint_ok(cells: Cells, g: int, c: StickerColor) -> bool {
    &&& !is_center_spec(g)
    &&& !quota_blocks(cells, g, c)
    &&& !opposite_on_corner(cells, g, c)
    &&& !opposite_on_edge(cells, g, c)
}

/// The Chinese names of the first `j` colours of `s`, separated by "/".
pub open spec fn cn_list(s: Seq<StickerColor>, j: int) -> Seq<char>
    decreases j,
{
    if j <= 0 {
        seq![]
    } else if j == 1 {
        color_cn_text(s[0])
    } else {
        cn_list(s, j - 1) + "/"@ + color_cn_text(s[j - 1])
    }
}

/// Why [`can_paint`] refuses `c` at `g`: a centre; a colour already placed nine
/// times while the board has gaps (with the colours that still have room); or the
/// opposite colour on the same corner, else on the same edge.
pub open spec fn paint_refusal(cells: Cells, g: int, c: StickerColor) -> Seq<char> {
    if is_center_spec(g) {
        "中心块固定,不可更改"@
    } else if quota_blocks(cells, g, c) {
        let avail = COLOR_ORDER@.filter(|c: StickerColor| count_of(cells, c) < 9);
        "「"@ + color_cn_text(c) + "」已放满 9 格"@
            + (if avail.len() > 0 { ";还可以用:"@ + cn_list(avail, avail.len() as int) } else { seq![] })
    } else if opposite_on_corner(cells, g, c) {
        "同一角块上不能同时有 "@ + name_text(c) + " 和 "@ + name_text(opposite_color(c)) + "(对面色)"@
    } else {
        "同一棱块上不能同时有 "@ + name_text(c) + " 和 "@ + name_text(opposite_color(c)) + "(对面色)"@
    }
}

/// May `c` be painted at `g`? The immediate, local checks: centres are fixed, a
/// colour placed nine times is exhausted while the board still has gaps (a full
/// board allows replacing any sticker), and a piece cannot carry opposite colours.
pub fn can_paint(cells: &Cells, g: usize, c: StickerColor) -> (res: Result<(), String>)
    requires
        g < 54,
    ensures
        res is Ok <==> paint_ok(*cells, g as int, c),
        res matches Err(m) ==> m@ == paint_refusal(*cells, g as int, c),
{
    if is_center(g) {
        return Err(text("中心块固定,不可更改"));
    }
    let n = counts(cells);
    let empties = empty_count(cells);
    let here = get(cells, g);
    let same = match here {
        Some(x) => x == c,
        None => false,
    };
    if empties > 0 && !same && n[color_idx(c)] >= 9 {
        let avail = available_colors(cells);
        let mut m = text("「");
        push_str(&mut m, color_cn(c));
        push_str(&mut m, "」已放满 9 格");
        if avail.len() > 0 {
            push_str(&mut m, ";还可以用:");
            let ghost head = m@;
            let mut j: usize = 0;
            proof {
                assert(m@ =~= head + cn_list(avail@, 0));
            }
            while j < avail.len()
                invariant
                    j <= avail@.len(),
                    m@ == head + cn_list(avail@, j as int),
                decreases avail@.len() - j,
            {
                let ghost before = m@;
                if j > 0 {
                    push_str(&mut m, "/");
                }
                push_str(&mut m, color_cn(avail[j]));
                proof {
                    if j == 0 {
                        assert(m@ =~= head + cn_list(avail@, 1));
                    } else {
                        assert(cn_list(avail@, j + 1) == cn_list(avail@, j as int) + "/"@ + color_cn_text(avail@[j as int]));
                        assert(m@ =~= head + cn_list(avail@, j + 1));
                    }
                }
                j += 1;
            }
        }
        proof {
            assert(quota_blocks(*cells, g as int, c));
            assert(m@ =~= paint_refusal(*cells, g as int, c));
        }
        return Err(m);
    }
    proof {
        lemma_slots_distinct();
        assert(!quota_blocks(*cells, g as int, c));
    }
    match piece_of(g) {
        Some((PieceKind::Corner, pi, gs)) => {
            let mut t: usize = 0;
            while t < 3
                invariant
                    t <= 3,
                    pi < 8,
                    gs < 3,
                    cslot(pi as int, gs as int) == g,
                    !is_center_spec(g as int),
                    !quota_blocks(*cells, g as int, c),
                    forall|u: int| 0 <= u < t && cslot(pi as int, u) != g ==> cell(*cells, cslot(pi as int, u)) != Some(opposite_color(c)),
                decreases 3 - t,
            {
                let s = CORNER_FACELETS[pi][t];
                if s != g {
                    if let Some(other) = get(cells, s) {
                        if other == opposite(c) {
                            proof {
                                assert(cslot(pi as int, gs as int) == g);
                                assert(cell(*cells, cslot(pi as int, t as int)) == Some(opposite_color(c)));
                                assert(opposite_on_corner(*cells, g as int, c));
                            }
                            let mut m = text("同一角块上不能同时有 ");
                            push_str(&mut m, crate::pieces::name(c));
                            push_str(&mut m, " 和 ");
                            push_str(&mut m, crate::pieces::name(other));
                            push_str(&mut m, "(对面色)");
                            proof {
                                assert(m@ =~= paint_refusal(*cells, g as int, c));
                            }
                            return Err(m);
                        }
                    }
                }
                t += 1;
            }
            proof {
                assert forall|i: int, s: int, u: int| 0 <= i < 8 && 0 <= s < 3 && 0 <= u < 3 && #[trigger] cslot(i, s) == g as int
                    && s != u implies !(#[trigger] cell(*cells, cslot(i, u)) == Some(opposite_color(c))) by {
                    assert(i == pi && s == gs);
                }
                assert(!opposite_on_edge(*cells, g as int, c));
            }
        },
        Some((PieceKind::Edge, pi, gs)) => {
            let mut t: usize = 0;
            while t < 2
                invariant
                    t <= 2,
                    pi < 12,
                    gs < 2,
                    eslot(pi as int, gs as int) == g,
                    !is_center_spec(g as int),
                    !quota_blocks(*cells, g as int, c),
                    !in_corner(g as int),
                    forall|u: int| 0 <= u < t && eslot(pi as int, u) != g ==> cell(*cells, eslot(pi as int, u)) != Some(opposite_color(c)),
                decreases 2 - t,
            {
                let s = EDGE_FACELETS[pi][t];
                if s != g {
                    if let Some(other) = get(cells, s) {
                        if other == opposite(c) {
                            proof {
                                assert(eslot(pi as int, gs as int) == g);
                                assert(cell(*cells, eslot(pi as int, t as int)) == Some(opposite_color(c)));
                                assert(!opposite_on_corner(*cells, g as int, c));
                            }
                            let mut m = text("同一棱块上不能同时有 ");
                            push_str(&mut m, crate::pieces::name(c));
                            push_str(&mut m, " 和 ");
                            push_str(&mut m, crate::pieces::name(other));
                            push_str(&mut m, "(对面色)");
                            proof {
                                assert(m@ =~= paint_refusal(*cells, g as int, c));
                            }
                            return Err(m);
                        }
                    }
                }
                t += 1;
            }
            proof {
                assert forall|i: int, s: int, u: int| 0 <= i < 12 && 0 <= s < 2 && 0 <= u < 2 && #[trigger] eslot(i, s) == g as int
                    && s != u implies !(#[trigger] cell(*cells, eslot(i, u)) == Some(opposite_color(c))) by {
                    assert(i == pi && s == gs);
                }
            }
        },
        None => {},
    }
    Ok(())
}

/// For each colour (indexed as in [`COLOR_ORDER`]): may it be painted at `g`? It must
/// pass the immediate checks and leave a feasible board. The colour picker greys out
/// the others.
pub fn allowed_colors(cells: &Cells, g: usize) -> (out: [bool; 6])
    requires
        g < 54,
    ensures
        forall|c: StickerColor| #[trigger] out[color_index(c)]
            == (paint_ok(*cells, g as int, c) && feasible(put(*cells, g as int, Some(c)))),
{
    let mut out = [false; 6];
    let mut i: usize = 0;
    while i < 6
        invariant
            i <= 6,
            g < 54,
            forall|j: int| 0 <= j < i ==> out[j]
                == (paint_ok(*cells, g as int, COLOR_ORDER[j]) && feasible(put(*cells, g as int, Some(COLOR_ORDER[j])))),
            forall|j: int| i <= j < 6 ==> !out[j],
        decreases 6 - i,
    {
        let c = COLOR_ORDER[i];
        if can_paint(cells, g, c).is_ok() {
            let mut probe = *cells;
            crate::pieces::set(&mut probe, g, Some(c));
            out[i] = is_feasible(&probe).is_ok();
        }
        i += 1;
    }
    assert forall|c: StickerColor| #[trigger] out[color_index(c)]
        == (paint_ok(*cells, g as int, c) && feasible(put(*cells, g as int, Some(c)))) by {
        assert(COLOR_ORDER[color_index(c)] == c);
    }
    out
}

} // verus!
