//! The full legality check of a board, local contradiction detection, and
//! conversion between boards and cube states.

use vstd::prelude::*;
use crate::model::{solved_face_color, CubeState, StickerColor};
use crate::pieces::{
    cell, color_idx, color_index, corner_color, corner_full, corner_match, count_of, counts, cslot,
    edge_color, edge_full, edge_match, empty_count, empty_total, eslot, get, name, name_text, solved_corner_piece,
    solved_edge_piece, Cells, CENTER_IDX, COLOR_ORDER, CORNER_FACELETS, EDGE_FACELETS, FACE_COLOR,
};
use crate::fit::{
    corner_consistent, corner_piece_at, corner_used, edge_consistent, edge_piece_at, edge_used,
    used_corners, used_edges,
};
use crate::legal::{
    all_known, centers_fixed, corner_id, corner_perm, corner_twist, counts_nine, edge_flip, edge_id,
    edge_perm, flip_upto, is_even, legal, lemma_corner_id, lemma_corner_id_none, lemma_edge_id,
    lemma_edge_id_none, parity, pieces_form_permutation, twist_upto,
};
use crate::text::{dec_text, push_dec, push_str, text};

verus! {

/// Corner position `ci` still has unknown stickers, yet no unused piece fits it.
pub open spec fn corner_stuck(cells: Cells, ci: int) -> bool {
    &&& !corner_full(cells, ci)
    &&& forall|k: int| 0 <= k < 8 ==> !(!corner_used(cells, k) && #[trigger] corner_match(cells, ci, k))
}

/// Edge position `ei` still has an unknown sticker, yet no unused piece fits it.
pub open spec fn edge_stuck(cells: Cells, ei: int) -> bool {
    &&& !edge_full(cells, ei)
    &&& forall|k: int| 0 <= k < 12 ==> !(!edge_used(cells, k) && #[trigger] edge_match(cells, ei, k))
}

/// The message reporting stuck corner position `ci` (numbered from 1).
pub open spec fn corner_stuck_text(ci: int) -> Seq<char> {
    "角位 "@ + dec_text((ci + 1) as nat) + " 已无任何合法角块可放(前面某处涂错了)"@
}

/// The message reporting stuck edge position `ei` (numbered from 1).
pub open spec fn edge_stuck_text(ei: int) -> Seq<char> {
    "棱位 "@ + dec_text((ei + 1) as nat) + " 已无任何合法棱块可放(前面某处涂错了)"@
}

/// Messages for the stuck corner positions among `0..n`, in order.
pub open spec fn corner_stuck_texts(cells: Cells, n: int) -> Seq<Seq<char>>
    decreases n,
{
    if n <= 0 {
        seq![]
    } else {
        corner_stuck_texts(cells, n - 1) + if corner_stuck(cells, n - 1) {
            seq![corner_stuck_text(n - 1)]
        } else {
            seq![]
        }
    }
}

/// Messages for the stuck edge positions among `0..n`, in order.
pub open spec fn edge_stuck_texts(cells: Cells, n: int) -> Seq<Seq<char>>
    decreases n,
{
    if n <= 0 {
        seq![]
    } else {
        edge_stuck_texts(cells, n - 1) + if edge_stuck(cells, n - 1) {
            seq![edge_stuck_text(n - 1)]
        } else {
            seq![]
        }
    }
}

/// Board indices of the stuck corner positions among `0..n`, three per position.
pub open spec fn corner_stuck_cells(cells: Cells, n: int) -> Seq<usize>
    decreases n,
{
    if n <= 0 {
        seq![]
    } else {
        corner_stuck_cells(cells, n - 1) + if corner_stuck(cells, n - 1) {
            CORNER_FACELETS[n - 1]@
        } else {
            seq![]
        }
    }
}

/// Board indices of the stuck edge positions among `0..n`, two per position.
pub open spec fn edge_stuck_cells(cells: Cells, n: int) -> Seq<usize>
    decreases n,
{
    if n <= 0 {
        seq![]
    } else {
        edge_stuck_cells(cells, n - 1) + if edge_stuck(cells, n - 1) {
            EDGE_FACELETS[n - 1]@
        } else {
            seq![]
        }
    }
}

/// The views of a sequence of strings.
pub open spec fn texts(v: Seq<String>) -> Seq<Seq<char>> {
    v.map_values(|s: String| s@)
}

/// Does some unused corner piece fit corner position `ci`?
fn corner_has_candidate(cells: &Cells, used: &[bool; 8], ci: usize) -> (res: bool)
    requires
        ci < 8,
        forall|k: int| 0 <= k < 8 ==> used[k] == corner_used(*cells, k),
    ensures
        res == exists|k: int| 0 <= k < 8 && !corner_used(*cells, k) && #[trigger] corner_match(*cells, ci as int, k),
{
    let mut k: usize = 0;
    while k < 8
        invariant
            ci < 8,
            k <= 8,
            forall|k: int| 0 <= k < 8 ==> used[k] == corner_used(*cells, k),
            forall|q: int| 0 <= q < k ==> !(!corner_used(*cells, q) && #[trigger] corner_match(*cells, ci as int, q)),
        decreases 8 - k,
    {
        if !used[k] && corner_consistent(cells, ci, k).is_some() {
            return true;
        }
        k += 1;
    }
    false
}

/// Does some unused edge piece fit edge position `ei`?
fn edge_has_candidate(cells: &Cells, used: &[bool; 12], ei: usize) -> (res: bool)
    requires
        ei < 12,
        forall|k: int| 0 <= k < 12 ==> used[k] == edge_used(*cells, k),
    ensures
        res == exists|k: int| 0 <= k < 12 && !edge_used(*cells, k) && #[trigger] edge_match(*cells, ei as int, k),
{
    let mut k: usize = 0;
    while k < 12
        invariant
            ei < 12,
            k <= 12,
            forall|k: int| 0 <= k < 12 ==> used[k] == edge_used(*cells, k),
            forall|q: int| 0 <= q < k ==> !(!edge_used(*cells, q) && #[trigger] edge_match(*cells, ei as int, q)),
        decreases 12 - k,
    {
        if !used[k] && edge_consistent(cells, ei, k).is_some() {
            return true;
        }
        k += 1;
    }
    false
}

fn corner_full_exec(cells: &Cells, ci: usize) -> (res: bool)
    requires
        ci < 8,
    ensures
        res == corner_full(*cells, ci as int),
{
    get(cells, CORNER_FACELETS[ci][0]).is_some() && get(cells, CORNER_FACELETS[ci][1]).is_some()
        && get(cells, CORNER_FACELETS[ci][2]).is_some()
}

fn edge_full_exec(cells: &Cells, ei: usize) -> (res: bool)
    requires
        ei < 12,
    ensures
        res == edge_full(*cells, ei as int),
{
    get(cells, EDGE_FACELETS[ei][0]).is_some() && get(cells, EDGE_FACELETS[ei][1]).is_some()
}

/// Positions that no legal piece can fill any more (reported even before the board
/// is full), one message per position: corners first, then edges.
pub fn contradictions(cells: &Cells) -> (out: Vec<String>)
    ensures
        texts(out@) == corner_stuck_texts(*cells, 8) + edge_stuck_texts(*cells, 12),
{
    let mut out: Vec<String> = Vec::new();
    let used_c = used_corners(cells);
    let used_e = used_edges(cells);
    let mut ci: usize = 0;
    while ci < 8
        invariant
            ci <= 8,
            forall|k: int| 0 <= k < 8 ==> used_c[k] == corner_used(*cells, k),
            texts(out@) == corner_stuck_texts(*cells, ci as int),
        decreases 8 - ci,
    {
        if !corner_full_exec(cells, ci) && !corner_has_candidate(cells, &used_c, ci) {
            let mut m = text("角位 ");
            push_dec(&mut m, ci + 1);
            push_str(&mut m, " 已无任何合法角块可放(前面某处涂错了)");
            out.push(m);
        }
        proof {
            assert(texts(out@) =~= corner_stuck_texts(*cells, ci + 1));
        }
        ci += 1;
    }
    let ghost base = texts(out@);
    let mut ei: usize = 0;
    while ei < 12
        invariant
            ei <= 12,
            forall|k: int| 0 <= k < 12 ==> used_e[k] == edge_used(*cells, k),
            base == corner_stuck_texts(*cells, 8),
            texts(out@) == base + edge_stuck_texts(*cells, ei as int),
        decreases 12 - ei,
    {
        if !edge_full_exec(cells, ei) && !edge_has_candidate(cells, &used_e, ei) {
            let mut m = text("棱位 ");
            push_dec(&mut m, ei + 1);
            push_str(&mut m, " 已无任何合法棱块可放(前面某处涂错了)");
            let ghost prev = out@;
            out.push(m);
            proof {
                assert(texts(out@) =~= texts(prev).push(m@));
            }
        }
        proof {
            assert(texts(out@) =~= base + edge_stuck_texts(*cells, ei + 1));
        }
        ei += 1;
    }
    out
}

/// The board indices of every position that no legal piece can fill any more
/// (so the editor can mark them), corners first, then edges.
pub fn contradiction_cells(cells: &Cells) -> (out: Vec<usize>)
    ensures
        out@ == corner_stuck_cells(*cells, 8) + edge_stuck_cells(*cells, 12),
{
    let mut out: Vec<usize> = Vec::new();
    let used_c = used_corners(cells);
    let used_e = used_edges(cells);
    let mut ci: usize = 0;
    while ci < 8
        invariant
            ci <= 8,
            forall|k: int| 0 <= k < 8 ==> used_c[k] == corner_used(*cells, k),
            out@ == corner_stuck_cells(*cells, ci as int),
        decreases 8 - ci,
    {
        if !corner_full_exec(cells, ci) && !corner_has_candidate(cells, &used_c, ci) {
            out.push(CORNER_FACELETS[ci][0]);
            out.push(CORNER_FACELETS[ci][1]);
            out.push(CORNER_FACELETS[ci][2]);
        }
        proof {
            assert(out@ =~= corner_stuck_cells(*cells, ci + 1));
        }
        ci += 1;
    }
    let ghost base = out@;
    let mut ei: usize = 0;
    while ei < 12
        invariant
            ei <= 12,
            forall|k: int| 0 <= k < 12 ==> used_e[k] == edge_used(*cells, k),
            base == corner_stuck_cells(*cells, 8),
            out@ == base + edge_stuck_cells(*cells, ei as int),
        decreases 12 - ei,
    {
        if !edge_full_exec(cells, ei) && !edge_has_candidate(cells, &used_e, ei) {
            out.push(EDGE_FACELETS[ei][0]);
            out.push(EDGE_FACELETS[ei][1]);
        }
        proof {
            assert(out@ =~= base + edge_stuck_cells(*cells, ei + 1));
        }
        ei += 1;
    }
    out
}

proof fn lemma_corner_stuck_lengths(cells: Cells, n: int)
    requires
        0 <= n <= 8,
    ensures
        corner_stuck_cells(cells, n).len() == 3 * corner_stuck_texts(cells, n).len(),
    decreases n,
{
    if n > 0 {
        lemma_corner_stuck_lengths(cells, n - 1);
    }
}

proof fn lemma_edge_stuck_lengths(cells: Cells, n: int)
    requires
        0 <= n <= 12,
    ensures
        edge_stuck_cells(cells, n).len() == 2 * edge_stuck_texts(cells, n).len(),
    decreases n,
{
    if n > 0 {
        lemma_edge_stuck_lengths(cells, n - 1);
    }
}

/// [`contradictions`] and [`contradiction_cells`] report the same stuck positions:
/// three stickers for each stuck corner, two for each stuck edge, so one is empty
/// exactly when the other is; on a full board both are empty.
pub proof fn lemma_stuck_reports_agree(cells: Cells)
    ensures
        corner_stuck_cells(cells, 8).len() == 3 * corner_stuck_texts(cells, 8).len(),
        edge_stuck_cells(cells, 12).len() == 2 * edge_stuck_texts(cells, 12).len(),
        (corner_stuck_texts(cells, 8) + edge_stuck_texts(cells, 12)).len() == 0
            <==> (corner_stuck_cells(cells, 8) + edge_stuck_cells(cells, 12)).len() == 0,
        all_known(cells) ==> (corner_stuck_texts(cells, 8) + edge_stuck_texts(cells, 12)).len() == 0
            && (corner_stuck_cells(cells, 8) + edge_stuck_cells(cells, 12)).len() == 0,
{
    lemma_corner_stuck_lengths(cells, 8);
    lemma_edge_stuck_lengths(cells, 12);
    if all_known(cells) {
        if corner_stuck_texts(cells, 8).len() > 0 {
            lemma_stuck_texts_nonempty(cells, 8);
            let ci = choose|ci: int| 0 <= ci < 8 && !corner_full(cells, ci);
            assert(cell(cells, cslot(ci, 0)) is Some && cell(cells, cslot(ci, 1)) is Some
                && cell(cells, cslot(ci, 2)) is Some);
        }
        if edge_stuck_texts(cells, 12).len() > 0 {
            lemma_edge_stuck_texts_nonempty(cells, 12);
            let ei = choose|ei: int| 0 <= ei < 12 && !edge_full(cells, ei);
            assert(cell(cells, eslot(ei, 0)) is Some && cell(cells, eslot(ei, 1)) is Some);
        }
    }
}

proof fn lemma_stuck_texts_nonempty(cells: Cells, n: int)
    requires
        0 <= n <= 8,
        corner_stuck_texts(cells, n).len() > 0,
    ensures
        exists|ci: int| 0 <= ci < n && !corner_full(cells, ci),
    decreases n,
{
    if n > 0 {
        if corner_stuck(cells, n - 1) {
        } else {
            lemma_stuck_texts_nonempty(cells, n - 1);
        }
    }
}

proof fn lemma_edge_stuck_texts_nonempty(cells: Cells, n: int)
    requires
        0 <= n <= 12,
        edge_stuck_texts(cells, n).len() > 0,
    ensures
        exists|ei: int| 0 <= ei < n && !edge_full(cells, ei),
    decreases n,
{
    if n > 0 {
        if edge_stuck(cells, n - 1) {
        } else {
            lemma_edge_stuck_texts_nonempty(cells, n - 1);
        }
    }
}

/// Face letter (order U R F D L B).
/// The letter of face `f` (order U R F D L B).
pub open spec fn face_letter_of(f: int) -> Seq<char> {
    if f == 0 {
        "U"@
    } else if f == 1 {
        "R"@
    } else if f == 2 {
        "F"@
    } else if f == 3 {
        "D"@
    } else if f == 4 {
        "L"@
    } else {
        "B"@
    }
}

/// The message for a centre of face `f` showing `c`.
pub open spec fn center_text(f: int, c: StickerColor) -> Seq<char> {
    "第 "@ + face_letter_of(f) + " 面中心必须是 "@ + name_text(solved_face_color(f)) + "(当前 "@ + name_text(c) + ")"@
}

/// The messages for the wrong centres among faces `0..n`, in face order.
pub open spec fn center_texts(cells: Cells, n: int) -> Seq<Seq<char>>
    decreases n,
{
    if n <= 0 {
        seq![]
    } else {
        center_texts(cells, n - 1) + match cells[n - 1][4] {
            Some(c) => if c != solved_face_color(n - 1) { seq![center_text(n - 1, c)] } else { seq![] },
            None => seq![],
        }
    }
}

/// The colour counts `W:n Y:n R:n O:n B:n G:n` of the colours `0..n` of
/// [`COLOR_ORDER`].
pub open spec fn count_parts(cells: Cells, n: int) -> Seq<char>
    decreases n,
{
    if n <= 0 {
        seq![]
    } else {
        count_parts(cells, n - 1) + (if n - 1 > 0 { " "@ } else { seq![] }) + name_text(COLOR_ORDER[n - 1]) + ":"@
            + dec_text(count_of(cells, COLOR_ORDER[n - 1]))
    }
}

/// The message for colour counts that are not all nine.
pub open spec fn count_text(cells: Cells) -> Seq<char> {
    (if forall|c: StickerColor| #[trigger] count_of(cells, c) <= 9 { "颜色数量不对(每种需 9):"@ } else { "有颜色超过 9 格:"@ })
        + count_parts(cells, 6)
}

/// The message list for wrong colour counts: nothing when every colour appears nine
/// times.
pub open spec fn count_texts(cells: Cells) -> Seq<Seq<char>> {
    if counts_nine(cells) { seq![] } else { seq![count_text(cells)] }
}

fn face_letter(f: usize) -> (r: &'static str)
    requires
        f < 6,
    ensures
        r@ == face_letter_of(f as int),
{
    if f == 0 {
        "U"
    } else if f == 1 {
        "R"
    } else if f == 2 {
        "F"
    } else if f == 3 {
        "D"
    } else if f == 4 {
        "L"
    } else {
        "B"
    }
}

/// Report every centre that does not show its face's colour.
fn push_center_errors(cells: &Cells, errs: &mut Vec<String>)
    ensures
        final(errs)@.len() >= old(errs)@.len(),
        (final(errs)@.len() == old(errs)@.len()) == centers_fixed(*cells),
        forall|k: int| 0 <= k < old(errs)@.len() ==> #[trigger] final(errs)@[k] == old(errs)@[k],
        texts(final(errs)@) == texts(old(errs)@) + center_texts(*cells, 6),
{
    let ghost base = old(errs)@.len();
    let ghost start = old(errs)@;
    let mut f: usize = 0;
    while f < 6
        invariant
            f <= 6,
            errs@.len() >= base,
            base == start.len(),
            forall|k: int| 0 <= k < base ==> #[trigger] errs@[k] == start[k],
            (errs@.len() == base) == forall|h: int| 0 <= h < f ==> (#[trigger] cells[h][4] matches Some(c) ==> c == solved_face_color(h)),
            texts(errs@) == texts(start) + center_texts(*cells, f as int),
        decreases 6 - f,
    {
        let ghost before = errs@;
        if let Some(c) = cells[f][CENTER_IDX] {
            if c != FACE_COLOR[f] {
                let mut m = text("第 ");
                push_str(&mut m, face_letter(f));
                push_str(&mut m, " 面中心必须是 ");
                push_str(&mut m, name(FACE_COLOR[f]));
                push_str(&mut m, "(当前 ");
                push_str(&mut m, name(c));
                push_str(&mut m, ")");
                errs.push(m);
                proof {
                    assert(m@ == center_text(f as int, c));
                    assert(texts(errs@) =~= texts(before) + seq![center_text(f as int, c)]);
                }
            }
        }
        proof {
            assert(texts(errs@) =~= texts(start) + center_texts(*cells, f + 1));
        }
        f += 1;
    }
}

/// Report (in one message) colours that do not appear exactly nine times.
fn push_count_errors(cells: &Cells, errs: &mut Vec<String>)
    ensures
        final(errs)@.len() >= old(errs)@.len(),
        (final(errs)@.len() == old(errs)@.len()) == counts_nine(*cells),
        forall|k: int| 0 <= k < old(errs)@.len() ==> #[trigger] final(errs)@[k] == old(errs)@[k],
        texts(final(errs)@) == texts(old(errs)@) + count_texts(*cells),
{
    let n = counts(cells);
    let mut all_nine = true;
    let mut all_le = true;
    let mut i: usize = 0;
    while i < 6
        invariant
            i <= 6,
            all_nine == forall|j: int| 0 <= j < i ==> n[j] == 9,
            all_le == forall|j: int| 0 <= j < i ==> n[j] <= 9,
        decreases 6 - i,
    {
        if n[i] != 9 {
            all_nine = false;
        }
        if n[i] > 9 {
            all_le = false;
        }
        i += 1;
    }
    proof {
        if all_nine {
            assert forall|c: StickerColor| #[trigger] count_of(*cells, c) == 9 by {
                assert(n[color_index(c)] == count_of(*cells, c));
            }
        } else {
            let j = choose|j: int| 0 <= j < 6 && n[j] != 9;
            let c = COLOR_ORDER[j];
            assert(color_index(c) == j);
            assert(n[color_index(c)] == count_of(*cells, c));
        }
        if all_le {
            assert forall|c: StickerColor| #[trigger] count_of(*cells, c) <= 9 by {
                assert(n[color_index(c)] == count_of(*cells, c));
            }
        } else {
            let j = choose|j: int| 0 <= j < 6 && n[j] > 9;
            let c = COLOR_ORDER[j];
            assert(color_index(c) == j);
            assert(n[color_index(c)] == count_of(*cells, c));
        }
    }
    if !all_nine {
        let mut parts = text("");
        proof {
            reveal_strlit("");
        }
        let mut j: usize = 0;
        while j < 6
            invariant
                j <= 6,
                forall|c: StickerColor| #[trigger] n[color_index(c)] == count_of(*cells, c),
                parts@ == count_parts(*cells, j as int),
            decreases 6 - j,
        {
            let c = COLOR_ORDER[j];
            let ghost before = parts@;
            if j > 0 {
                push_str(&mut parts, " ");
            }
            push_str(&mut parts, name(c));
            push_str(&mut parts, ":");
            proof {
                assert(color_index(c) == j);
                assert(n[color_index(c)] == count_of(*cells, c));
            }
            push_dec(&mut parts, n[color_idx(c)] as usize);
            proof {
                if j > 0 {
                    assert(parts@ =~= count_parts(*cells, j + 1));
                } else {
                    assert(parts@ =~= count_parts(*cells, j + 1));
                }
            }
            j += 1;
        }
        let mut m = if all_le {
            text("颜色数量不对(每种需 9):")
        } else {
            text("有颜色超过 9 格:")
        };
        push_str(&mut m, parts.as_str());
        let ghost before = errs@;
        errs.push(m);
        proof {
            assert(m@ == count_text(*cells));
            assert(texts(errs@) =~= texts(before) + count_texts(*cells));
        }
    } else {
        proof {
            assert(texts(errs@) =~= texts(old(errs)@) + count_texts(*cells));
        }
    }
}

/// Corner positions `0..n` hold real, pairwise different pieces.
pub open spec fn corners_ok_upto(cells: Cells, n: int) -> bool {
    &&& forall|ci: int| 0 <= ci < n ==> #[trigger] corner_id(cells, ci) < 8
    &&& forall|a: int, b: int| 0 <= a < n && 0 <= b < n && a != b ==> corner_id(cells, a) != corner_id(cells, b)
}

/// Edge positions `0..n` hold real, pairwise different pieces.
pub open spec fn edges_ok_upto(cells: Cells, n: int) -> bool {
    &&& forall|ei: int| 0 <= ei < n ==> #[trigger] edge_id(cells, ei) < 12
    &&& forall|a: int, b: int| 0 <= a < n && 0 <= b < n && a != b ==> edge_id(cells, a) != edge_id(cells, b)
}

/// The name of a known sticker's colour.
pub open spec fn shown_name(v: Option<StickerColor>) -> Seq<char> {
    match v {
        Some(c) => name_text(c),
        None => seq![],
    }
}

/// The message for corner position `ci`, when it shows no real piece or one that
/// an earlier position already shows.
pub open spec fn corner_piece_text(cells: Cells, ci: int) -> Seq<Seq<char>> {
    if corner_id(cells, ci) == 8 {
        seq!["角位 "@ + dec_text((ci + 1) as nat) + " 的配色 "@ + shown_name(cell(cells, cslot(ci, 0)))
            + shown_name(cell(cells, cslot(ci, 1))) + shown_name(cell(cells, cslot(ci, 2))) + " 不是任何合法角块"@]
    } else if exists|cj: int| 0 <= cj < ci && #[trigger] corner_id(cells, cj) == corner_id(cells, ci) {
        let k = corner_id(cells, ci);
        seq!["角块 "@ + name_text(corner_color(k, 0)) + name_text(corner_color(k, 1)) + name_text(corner_color(k, 2))
            + " 出现了两次"@]
    } else {
        seq![]
    }
}

/// The messages for the corner positions `0..n`.
pub open spec fn corner_piece_texts(cells: Cells, n: int) -> Seq<Seq<char>>
    decreases n,
{
    if n <= 0 {
        seq![]
    } else {
        corner_piece_texts(cells, n - 1) + corner_piece_text(cells, n - 1)
    }
}

/// The message for edge position `ei`, when it shows no real piece or one that an
/// earlier position already shows.
pub open spec fn edge_piece_text(cells: Cells, ei: int) -> Seq<Seq<char>> {
    if edge_id(cells, ei) == 12 {
        seq!["棱位 "@ + dec_text((ei + 1) as nat) + " 的配色 "@ + shown_name(cell(cells, eslot(ei, 0)))
            + shown_name(cell(cells, eslot(ei, 1))) + " 不是任何合法棱块"@]
    } else if exists|ej: int| 0 <= ej < ei && #[trigger] edge_id(cells, ej) == edge_id(cells, ei) {
        let k = edge_id(cells, ei);
        seq!["棱块 "@ + name_text(edge_color(k, 0)) + name_text(edge_color(k, 1)) + " 出现了两次"@]
    } else {
        seq![]
    }
}

/// The messages for the edge positions `0..n`.
pub open spec fn edge_piece_texts(cells: Cells, n: int) -> Seq<Seq<char>>
    decreases n,
{
    if n <= 0 {
        seq![]
    } else {
        edge_piece_texts(cells, n - 1) + edge_piece_text(cells, n - 1)
    }
}


proof fn lemma_texts_push(v: Seq<String>, x: String)
    ensures
        texts(v.push(x)) == texts(v).push(x@),
{
    assert(texts(v.push(x)) =~= texts(v).push(x@));
}


/// On a full board, identify the piece at every position, reporting positions that
/// show no real piece and pieces that appear twice. Returns the piece of each corner
/// and edge position.
#[verifier::spinoff_prover]
#[verifier::rlimit(40)]
fn push_piece_errors(cells: &Cells, errs: &mut Vec<String>) -> (res: (Vec<usize>, Vec<usize>))
    requires
        all_known(*cells),
    ensures
        final(errs)@.len() >= old(errs)@.len(),
        (final(errs)@.len() == old(errs)@.len()) == pieces_form_permutation(*cells),
        res.0@.len() == 8,
        res.1@.len() == 12,
        forall|ci: int| 0 <= ci < 8 ==> res.0@[ci] as int == corner_id(*cells, ci),
        forall|ei: int| 0 <= ei < 12 ==> res.1@[ei] as int == edge_id(*cells, ei),
        texts(final(errs)@) == texts(old(errs)@) + corner_piece_texts(*cells, 8) + edge_piece_texts(*cells, 12),
{
    let ghost base = old(errs)@.len();
    let ghost start = old(errs)@;
    let mut corner_of: Vec<usize> = Vec::new();
    let mut used = [false; 8];
    let mut ci: usize = 0;
    while ci < 8
        invariant
            ci <= 8,
            all_known(*cells),
            errs@.len() >= base,
            (errs@.len() == base) == corners_ok_upto(*cells, ci as int),
            corner_of@.len() == ci,
            forall|cj: int| 0 <= cj < ci ==> corner_of@[cj] as int == corner_id(*cells, cj),
            forall|k: int| 0 <= k < 8 ==> used[k] == exists|cj: int| 0 <= cj < ci && #[trigger] corner_id(*cells, cj) == k,
            texts(errs@) == texts(start) + corner_piece_texts(*cells, ci as int),
        decreases 8 - ci,
    {
        let ghost before = errs@;
        proof {
            assert(cell(*cells, cslot(ci as int, 0)) is Some);
            assert(cell(*cells, cslot(ci as int, 1)) is Some);
            assert(cell(*cells, cslot(ci as int, 2)) is Some);
        }
        match corner_piece_at(cells, ci) {
            None => {
                proof {
                    lemma_corner_id_none(*cells, ci as int);
                }
                let a = get(cells, CORNER_FACELETS[ci][0]).unwrap();
                let b = get(cells, CORNER_FACELETS[ci][1]).unwrap();
                let c = get(cells, CORNER_FACELETS[ci][2]).unwrap();
                let mut m = text("角位 ");
                push_dec(&mut m, ci + 1);
                push_str(&mut m, " 的配色 ");
                push_str(&mut m, name(a));
                push_str(&mut m, name(b));
                push_str(&mut m, name(c));
                push_str(&mut m, " 不是任何合法角块");
                errs.push(m);
                proof {
                    lemma_texts_push(before, m);
                    assert(corner_piece_text(*cells, ci as int) == seq![m@]);
                    assert(texts(errs@) =~= texts(start) + corner_piece_texts(*cells, ci + 1));
                }
                corner_of.push(8);
            },
            Some(k) => {
                proof {
                    lemma_corner_id(*cells, ci as int, k as int);
                }
                if used[k] {
                    let p = solved_corner_piece(k);
                    let mut m = text("角块 ");
                    push_str(&mut m, name(p[0]));
                    push_str(&mut m, name(p[1]));
                    push_str(&mut m, name(p[2]));
                    push_str(&mut m, " 出现了两次");
                    errs.push(m);
                    proof {
                        lemma_texts_push(before, m);
                        let cj = choose|cj: int| 0 <= cj < ci && #[trigger] corner_id(*cells, cj) == k;
                        assert(corner_id(*cells, cj) == corner_id(*cells, ci as int));
                        assert(corner_piece_text(*cells, ci as int) == seq![m@]);
                        assert(texts(errs@) =~= texts(start) + corner_piece_texts(*cells, ci + 1));
                    }
                } else {
                    proof {
                        assert(corner_piece_text(*cells, ci as int) =~= Seq::<Seq<char>>::empty());
                        assert(texts(errs@) =~= texts(start) + corner_piece_texts(*cells, ci + 1));
                    }
                }
                used[k] = true;
                corner_of.push(k);
            },
        }
        ci += 1;
    }
    let ghost mid = errs@.len();
    let mut edge_of: Vec<usize> = Vec::new();
    let mut used_e = [false; 12];
    let mut ei: usize = 0;
    while ei < 12
        invariant
            ei <= 12,
            all_known(*cells),
            mid >= base,
            (mid == base) == corners_ok_upto(*cells, 8),
            errs@.len() >= mid,
            (errs@.len() == mid) == edges_ok_upto(*cells, ei as int),
            corner_of@.len() == 8,
            forall|cj: int| 0 <= cj < 8 ==> corner_of@[cj] as int == corner_id(*cells, cj),
            edge_of@.len() == ei,
            forall|ej: int| 0 <= ej < ei ==> edge_of@[ej] as int == edge_id(*cells, ej),
            forall|k: int| 0 <= k < 12 ==> used_e[k] == exists|ej: int| 0 <= ej < ei && #[trigger] edge_id(*cells, ej) == k,
            texts(errs@) == texts(start) + corner_piece_texts(*cells, 8) + edge_piece_texts(*cells, ei as int),
        decreases 12 - ei,
    {
        let ghost before = errs@;
        proof {
            assert(cell(*cells, eslot(ei as int, 0)) is Some);
            assert(cell(*cells, eslot(ei as int, 1)) is Some);
        }
        match edge_piece_at(cells, ei) {
            None => {
                proof {
                    lemma_edge_id_none(*cells, ei as int);
                }
                let a = get(cells, EDGE_FACELETS[ei][0]).unwrap();
                let b = get(cells, EDGE_FACELETS[ei][1]).unwrap();
                let mut m = text("棱位 ");
                push_dec(&mut m, ei + 1);
                push_str(&mut m, " 的配色 ");
                push_str(&mut m, name(a));
                push_str(&mut m, name(b));
                push_str(&mut m, " 不是任何合法棱块");
                errs.push(m);
                proof {
                    lemma_texts_push(before, m);
                    assert(edge_piece_text(*cells, ei as int) == seq![m@]);
                    assert(texts(errs@) =~= texts(start) + corner_piece_texts(*cells, 8) + edge_piece_texts(*cells, ei + 1));
                }
                edge_of.push(12);
            },
            Some(k) => {
                proof {
                    lemma_edge_id(*cells, ei as int, k as int);
                }
                if used_e[k] {
                    let p = solved_edge_piece(k);
                    let mut m = text("棱块 ");
                    push_str(&mut m, name(p[0]));
                    push_str(&mut m, name(p[1]));
                    push_str(&mut m, " 出现了两次");
                    errs.push(m);
                    proof {
                        lemma_texts_push(before, m);
                        let ej = choose|ej: int| 0 <= ej < ei && #[trigger] edge_id(*cells, ej) == k;
                        assert(edge_id(*cells, ej) == edge_id(*cells, ei as int));
                        assert(edge_piece_text(*cells, ei as int) == seq![m@]);
                        assert(texts(errs@) =~= texts(start) + corner_piece_texts(*cells, 8) + edge_piece_texts(*cells, ei + 1));
                    }
                } else {
                    proof {
                        assert(edge_piece_text(*cells, ei as int) =~= Seq::<Seq<char>>::empty());
                        assert(texts(errs@) =~= texts(start) + corner_piece_texts(*cells, 8) + edge_piece_texts(*cells, ei + 1));
                    }
                }
                used_e[k] = true;
                edge_of.push(k);
            },
        }
        ei += 1;
    }
    (corner_of, edge_of)
}

/// Sum of the corner twists of a board whose corner positions all hold real pieces.
fn twist_sum(cells: &Cells, corner_of: &Vec<usize>) -> (r: u32)
    requires
        all_known(*cells),
        corner_of@.len() == 8,
        forall|ci: int| 0 <= ci < 8 ==> corner_of@[ci] as int == corner_id(*cells, ci),
        forall|ci: int| 0 <= ci < 8 ==> #[trigger] corner_id(*cells, ci) < 8,
    ensures
        r == twist_upto(*cells, 8),
{
    let mut sum: u32 = 0;
    let mut ci: usize = 0;
    while ci < 8
        invariant
            ci <= 8,
            all_known(*cells),
            corner_of@.len() == 8,
            forall|ci: int| 0 <= ci < 8 ==> corner_of@[ci] as int == corner_id(*cells, ci),
            forall|ci: int| 0 <= ci < 8 ==> #[trigger] corner_id(*cells, ci) < 8,
            sum == twist_upto(*cells, ci as int),
            sum <= 2 * ci,
        decreases 8 - ci,
    {
        proof {
            assert(corner_id(*cells, ci as int) < 8);
        }
        let k = corner_of[ci];
        let canon = solved_corner_piece(k);
        let ghost kk = corner_id(*cells, ci as int);
        proof {
            assert(corner_id(*cells, ci as int) < 8);
            assert(exists|j: int| 0 <= j < 8 && corner_match(*cells, ci as int, j));
            assert(corner_match(*cells, ci as int, kk));
        }
        let mut ori: u32 = 0;
        let mut s: usize = 0;
        let mut found = false;
        while s < 3
            invariant
                s <= 3,
                ci < 8,
                canon[0] == corner_color(kk, 0),
                found ==> ori < 3 && cell(*cells, cslot(ci as int, ori as int)) == Some(canon[0])
                    && forall|t: int| 0 <= t < ori ==> cell(*cells, cslot(ci as int, t)) != Some(canon[0]),
                !found ==> forall|t: int| 0 <= t < s ==> cell(*cells, cslot(ci as int, t)) != Some(canon[0]),
            decreases 3 - s,
        {
            if !found {
                let g = CORNER_FACELETS[ci][s];
                if let Some(c) = get(cells, g) {
                    if c == canon[0] {
                        ori = s as u32;
                        found = true;
                    }
                }
            }
            s += 1;
        }
        proof {
            if !found {
                assert(cell(*cells, cslot(ci as int, 0)) != Some(canon[0]));
                assert(cell(*cells, cslot(ci as int, 1)) != Some(canon[0]));
                assert(cell(*cells, cslot(ci as int, 2)) != Some(canon[0]));
                assert(false);
            }
            assert(ori as int == corner_twist(*cells, ci as int));
        }
        sum += ori;
        ci += 1;
    }
    sum
}

/// Number of flipped edges of a board whose edge positions all hold real pieces.
fn flip_sum(cells: &Cells, edge_of: &Vec<usize>) -> (r: u32)
    requires
        all_known(*cells),
        edge_of@.len() == 12,
        forall|ei: int| 0 <= ei < 12 ==> edge_of@[ei] as int == edge_id(*cells, ei),
        forall|ei: int| 0 <= ei < 12 ==> #[trigger] edge_id(*cells, ei) < 12,
    ensures
        r == flip_upto(*cells, 12),
{
    let mut sum: u32 = 0;
    let mut ei: usize = 0;
    while ei < 12
        invariant
            ei <= 12,
            all_known(*cells),
            edge_of@.len() == 12,
            forall|ei: int| 0 <= ei < 12 ==> edge_of@[ei] as int == edge_id(*cells, ei),
            forall|ei: int| 0 <= ei < 12 ==> #[trigger] edge_id(*cells, ei) < 12,
            sum == flip_upto(*cells, ei as int),
            sum <= ei,
        decreases 12 - ei,
    {
        proof {
            assert(edge_id(*cells, ei as int) < 12);
        }
        let canon = solved_edge_piece(edge_of[ei]);
        let a = get(cells, EDGE_FACELETS[ei][0]);
        let flipped = match a {
            Some(c) => c != canon[0],
            None => true,
        };
        if flipped {
            sum += 1;
        }
        ei += 1;
    }
    sum
}

/// The message for a twist sum `n` that is no multiple of 3.
pub open spec fn twist_text(n: nat) -> Seq<char> {
    "角块朝向和不合法(和为 "@ + dec_text(n) + ",必须能被 3 整除)—— 典型:单个角块被扭转"@
}

/// The message for an odd flip count `n`.
pub open spec fn flip_text(n: nat) -> Seq<char> {
    "棱块朝向和不合法(翻转数 "@ + dec_text(n) + ")—— 典型:单个棱块被翻转"@
}

/// The message for corner and edge arrangements of different parity.
pub open spec fn parity_text() -> Seq<char> {
    "角块与棱块排列奇偶性不一致 —— 典型:只交换了两个块"@
}

/// What is wrong with a full board whose centres, colour counts and pieces are
/// right: the twist sum, the flip count and the parity, in that order.
pub open spec fn orientation_texts(cells: Cells) -> Seq<Seq<char>> {
    (if twist_upto(cells, 8) % 3 != 0 { seq![twist_text(twist_upto(cells, 8) as nat)] } else { seq![] })
        + (if flip_upto(cells, 12) % 2 != 0 { seq![flip_text(flip_upto(cells, 12) as nat)] } else { seq![] })
        + (if is_even(corner_perm(cells)) != is_even(edge_perm(cells)) { seq![parity_text()] } else { seq![] })
}


/// Everything [`validate`] reports about a board, in order: for a board with gaps,
/// how many there are, then the wrong centres, the wrong colour counts and the
/// stuck positions; for a full board the wrong centres, the wrong counts and the
/// bad pieces, and when there are none of these the orientation and parity faults.
pub open spec fn problem_texts(cells: Cells) -> Seq<Seq<char>> {
    if empty_total(cells) > 0 {
        seq!["还有 "@ + dec_text(empty_total(cells)) + " 格未填"@] + center_texts(cells, 6) + count_texts(cells)
            + corner_stuck_texts(cells, 8) + edge_stuck_texts(cells, 12)
    } else if !(centers_fixed(cells) && counts_nine(cells) && pieces_form_permutation(cells)) {
        center_texts(cells, 6) + count_texts(cells) + corner_piece_texts(cells, 8) + edge_piece_texts(cells, 12)
    } else {
        orientation_texts(cells)
    }
}

/// The full check of the five invariants. `Ok(())` exactly when the board is a legal
/// cube; otherwise at least one message describing what is wrong.
pub fn validate(cells: &Cells) -> (res: Result<(), Vec<String>>)
    ensures
        res is Ok <==> legal(*cells),
        res matches Err(errs) ==> errs@.len() > 0,
        match res {
            Ok(()) => problem_texts(*cells).len() == 0,
            Err(errs) => texts(errs@) == problem_texts(*cells),
        },
        empty_total(*cells) > 0 ==> (res matches Err(errs)
            && texts(errs@) == seq!["还有 "@ + dec_text(empty_total(*cells)) + " 格未填"@] + center_texts(*cells, 6)
                + count_texts(*cells) + corner_stuck_texts(*cells, 8) + edge_stuck_texts(*cells, 12)),
        all_known(*cells) && !(centers_fixed(*cells) && counts_nine(*cells) && pieces_form_permutation(*cells))
            ==> (res matches Err(errs) && texts(errs@) == center_texts(*cells, 6) + count_texts(*cells)
                + corner_piece_texts(*cells, 8) + edge_piece_texts(*cells, 12)),
        all_known(*cells) && centers_fixed(*cells) && counts_nine(*cells) && pieces_form_permutation(*cells)
            ==> match res {
                Ok(()) => orientation_texts(*cells).len() == 0,
                Err(errs) => texts(errs@) == orientation_texts(*cells),
            },
{
    let mut errs: Vec<String> = Vec::new();

    // 0) every sticker known?
    let unknown = empty_count(cells);
    proof {
        lemma_all_known_iff(*cells);
    }
    if unknown > 0 {
        let mut m = text("还有 ");
        push_dec(&mut m, unknown);
        push_str(&mut m, " 格未填");
        errs.push(m);
    }
    let ghost first = errs@;

    // 1) centres fixed
    let before_centers = errs.len();
    push_center_errors(cells, &mut errs);
    let centers_ok = errs.len() == before_centers;

    // 2) nine of each colour
    let before_counts = errs.len();
    push_count_errors(cells, &mut errs);
    let counts_ok = errs.len() == before_counts;
    let ghost after_counts = errs@;
    proof {
        assert(texts(after_counts) == texts(first) + center_texts(*cells, 6) + count_texts(*cells));
    }

    // local contradictions show up even before the board is full
    let extra = contradictions(cells);
    let before_extra = errs.len();
    let mut i: usize = 0;
    while i < extra.len()
        invariant
            i <= extra@.len(),
            unknown > 0 ==> errs@.len() > 0,
            unknown > 0 ==> first.len() == 1,
            errs@.len() >= first.len(),
            forall|k: int| 0 <= k < first.len() ==> #[trigger] errs@[k] == first[k],
            unknown == empty_total(*cells),
            extra@.len() == 0 ==> errs@ == after_counts,
            before_extra == after_counts.len(),
            texts(errs@) == texts(after_counts) + texts(extra@).take(i as int),
            !centers_ok ==> errs@.len() > 0,
            !counts_ok ==> errs@.len() > 0,
            errs@.len() >= before_counts,
            errs@.len() == before_extra + i,
            before_extra >= before_counts,
        decreases extra@.len() - i,
    {
        let s = extra[i].clone();
        let ghost before = errs@;
        errs.push(s);
        proof {
            assert(s@ == extra@[i as int]@);
            assert(errs@ == before.push(s));
            assert(texts(errs@) =~= texts(before).push(s@));
            assert(texts(extra@).take(i + 1) =~= texts(extra@).take(i as int).push(texts(extra@)[i as int]));
            assert(texts(errs@) =~= texts(after_counts) + texts(extra@).take(i + 1));
        }
        i += 1;
    }
    proof {
        if extra@.len() > 0 {
            assert(texts(extra@).len() > 0);
            if corner_stuck_texts(*cells, 8).len() > 0 {
                lemma_stuck_texts_nonempty(*cells, 8);
                let ci = choose|ci: int| 0 <= ci < 8 && !corner_full(*cells, ci);
                assert(!all_known(*cells)) by {
                    if all_known(*cells) {
                        assert(cell(*cells, cslot(ci, 0)) is Some);
                        assert(cell(*cells, cslot(ci, 1)) is Some);
                        assert(cell(*cells, cslot(ci, 2)) is Some);
                    }
                }
            } else {
                lemma_edge_stuck_texts_nonempty(*cells, 12);
                let ei = choose|ei: int| 0 <= ei < 12 && !edge_full(*cells, ei);
                assert(!all_known(*cells)) by {
                    if all_known(*cells) {
                        assert(cell(*cells, eslot(ei, 0)) is Some);
                        assert(cell(*cells, eslot(ei, 1)) is Some);
                    }
                }
            }
        }
    }

    if unknown > 0 {
        proof {
            assert(texts(extra@).take(extra@.len() as int) =~= texts(extra@));
            assert(texts(first) =~= seq!["还有 "@ + dec_text(empty_total(*cells)) + " 格未填"@]);
        }
        return Err(errs);
    }
    proof {
        if all_known(*cells) {
            assert(extra@.len() == 0);
            assert(first.len() == 0);
            assert(texts(first) =~= Seq::<Seq<char>>::empty());
            assert(texts(errs@) =~= center_texts(*cells, 6) + count_texts(*cells));
        }
    }
    proof {
        if extra@.len() > 0 {
            if corner_stuck_texts(*cells, 8).len() > 0 {
                lemma_stuck_texts_nonempty(*cells, 8);
                let ci = choose|ci: int| 0 <= ci < 8 && !corner_full(*cells, ci);
                assert(cell(*cells, cslot(ci, 0)) is Some && cell(*cells, cslot(ci, 1)) is Some
                    && cell(*cells, cslot(ci, 2)) is Some);
            } else {
                lemma_edge_stuck_texts_nonempty(*cells, 12);
                let ei = choose|ei: int| 0 <= ei < 12 && !edge_full(*cells, ei);
                assert(cell(*cells, eslot(ei, 0)) is Some && cell(*cells, eslot(ei, 1)) is Some);
            }
        }
        assert(errs@ == after_counts);
        assert((errs@.len() == 0) == (centers_fixed(*cells) && counts_nine(*cells)));
    }

    // 3) the pieces form a permutation; a full board reports its bad pieces along
    // with any wrong centres and counts
    let ghost before_pieces = errs@;
    let (corner_of, edge_of) = push_piece_errors(cells, &mut errs);
    proof {
        assert(texts(errs@) =~= center_texts(*cells, 6) + count_texts(*cells) + corner_piece_texts(*cells, 8)
            + edge_piece_texts(*cells, 12));
    }
    if errs.len() > 0 {
        return Err(errs);
    }
    proof {
        assert(before_pieces.len() == 0);
        assert(texts(errs@) =~= Seq::<Seq<char>>::empty());
    }

    // 4) orientation sums
    let co_sum = twist_sum(cells, &corner_of);
    let ghost twist_part: Seq<Seq<char>> = if twist_upto(*cells, 8) % 3 != 0 {
        seq![twist_text(twist_upto(*cells, 8) as nat)]
    } else {
        seq![]
    };
    if co_sum % 3 != 0 {
        let mut m = text("角块朝向和不合法(和为 ");
        push_dec(&mut m, co_sum as usize);
        push_str(&mut m, ",必须能被 3 整除)—— 典型:单个角块被扭转");
        errs.push(m);
    }
    proof {
        assert(texts(errs@) =~= twist_part);
    }
    let eo_sum = flip_sum(cells, &edge_of);
    let ghost flip_part: Seq<Seq<char>> = if flip_upto(*cells, 12) % 2 != 0 {
        seq![flip_text(flip_upto(*cells, 12) as nat)]
    } else {
        seq![]
    };
    let ghost after_twist = errs@;
    if eo_sum % 2 != 0 {
        let mut m = text("棱块朝向和不合法(翻转数 ");
        push_dec(&mut m, eo_sum as usize);
        push_str(&mut m, ")—— 典型:单个棱块被翻转");
        errs.push(m);
    }
    proof {
        assert(texts(errs@) =~= twist_part + flip_part);
    }

    // 5) corner and edge permutations have equal parity
    let pc = parity(corner_of.as_slice());
    let pe = parity(edge_of.as_slice());
    proof {
        assert(corner_of@.map_values(|x: usize| x as int) =~= corner_perm(*cells));
        assert(edge_of@.map_values(|x: usize| x as int) =~= edge_perm(*cells));
    }
    let ghost parity_part: Seq<Seq<char>> = if is_even(corner_perm(*cells)) != is_even(edge_perm(*cells)) {
        seq![parity_text()]
    } else {
        seq![]
    };
    if pc != pe {
        errs.push(text("角块与棱块排列奇偶性不一致 —— 典型:只交换了两个块"));
    }
    proof {
        assert(texts(errs@) =~= twist_part + flip_part + parity_part);
        assert(orientation_texts(*cells) == twist_part + flip_part + parity_part);
    }

    if errs.len() == 0 {
        Ok(())
    } else {
        Err(errs)
    }
}

proof fn lemma_empty_upto_zero(cells: Cells, n: int)
    requires
        0 <= n <= 54,
    ensures
        (crate::pieces::empty_upto(cells, n) == 0) == forall|g: int| 0 <= g < n ==> #[trigger] cell(cells, g) is Some,
    decreases n,
{
    if n > 0 {
        lemma_empty_upto_zero(cells, n - 1);
    }
}

/// The board has no unknown sticker exactly when all its stickers are known.
pub proof fn lemma_all_known_iff(cells: Cells)
    ensures
        (empty_total(cells) == 0) == all_known(cells),
{
    lemma_empty_upto_zero(cells, 54);
}

/// The board of a cube state: every sticker known.
pub fn from_cube_state(s: &CubeState) -> (cells: Cells)
    ensures
        forall|f: int, i: int| 0 <= f < 6 && 0 <= i < 9 ==> #[trigger] cells[f][i] == Some(s.face_spec(f)[i]),
{
    let faces = [s.U, s.R, s.F, s.D, s.L, s.B];
    let mut cells: Cells = [[None; 9]; 6];
    let mut f: usize = 0;
    while f < 6
        invariant
            f <= 6,
            faces[0] == s.U,
            faces[1] == s.R,
            faces[2] == s.F,
            faces[3] == s.D,
            faces[4] == s.L,
            faces[5] == s.B,
            forall|h: int, i: int| 0 <= h < f && 0 <= i < 9 ==> #[trigger] cells[h][i] == Some(s.face_spec(h)[i]),
        decreases 6 - f,
    {
        let mut i: usize = 0;
        while i < 9
            invariant
                f < 6,
                i <= 9,
                faces[0] == s.U,
                faces[1] == s.R,
                faces[2] == s.F,
                faces[3] == s.D,
                faces[4] == s.L,
                faces[5] == s.B,
                forall|h: int, j: int| 0 <= h < f && 0 <= j < 9 ==> #[trigger] cells[h][j] == Some(s.face_spec(h)[j]),
                forall|j: int| 0 <= j < i ==> #[trigger] cells[f as int][j] == Some(s.face_spec(f as int)[j]),
            decreases 9 - i,
        {
            cells[f][i] = Some(faces[f][i]);
            i += 1;
        }
        f += 1;
    }
    cells
}

/// The cube state of a full board; `None` when some sticker is unknown.
pub fn to_cube_state(cells: &Cells) -> (res: Option<CubeState>)
    ensures
        res is Some <==> all_known(*cells),
        res matches Some(s) ==> forall|f: int, i: int| 0 <= f < 6 && 0 <= i < 9 ==> Some(#[trigger] s.face_spec(f)[i]) == cells[f][i],
{
    let mut faces = [[StickerColor::W; 9]; 6];
    let mut f: usize = 0;
    while f < 6
        invariant
            f <= 6,
            forall|h: int, i: int| 0 <= h < f && 0 <= i < 9 ==> Some(#[trigger] faces[h][i]) == cells[h][i],
        decreases 6 - f,
    {
        let mut i: usize = 0;
        while i < 9
            invariant
                f < 6,
                i <= 9,
                forall|h: int, j: int| 0 <= h < f && 0 <= j < 9 ==> Some(#[trigger] faces[h][j]) == cells[h][j],
                forall|j: int| 0 <= j < i ==> Some(#[trigger] faces[f as int][j]) == cells[f as int][j],
            decreases 9 - i,
        {
            match cells[f][i] {
                Some(c) => {
                    faces[f][i] = c;
                },
                None => {
                    proof {
                        assert(cell(*cells, f * 9 + i) is None);
                    }
                    return None;
                },
            }
            i += 1;
        }
        f += 1;
    }
    proof {
        assert forall|g: int| 0 <= g < 54 implies #[trigger] cell(*cells, g) is Some by {
            assert(Some(faces[g / 9][g % 9]) == cells[g / 9][g % 9]);
        }
    }
    Some(CubeState { U: faces[0], R: faces[1], F: faces[2], D: faces[3], L: faces[4], B: faces[5] })
}

/// The cube state shown for a partial board: unknown stickers take their face's
/// centre colour, so an empty board shows six plain faces.
pub fn to_cube_state_lenient(cells: &Cells) -> (s: CubeState)
    ensures
        forall|f: int, i: int| 0 <= f < 6 && 0 <= i < 9 ==> #[trigger] s.face_spec(f)[i] == match cells[f][i] {
            Some(c) => c,
            None => solved_face_color(f),
        },
{
    let mut faces = [[StickerColor::W; 9]; 6];
    let mut f: usize = 0;
    while f < 6
        invariant
            f <= 6,
            forall|h: int, i: int| 0 <= h < f && 0 <= i < 9 ==> #[trigger] faces[h][i] == match cells[h][i] {
                Some(c) => c,
                None => solved_face_color(h),
            },
        decreases 6 - f,
    {
        let mut i: usize = 0;
        while i < 9
            invariant
                f < 6,
                i <= 9,
                forall|h: int, j: int| 0 <= h < f && 0 <= j < 9 ==> #[trigger] faces[h][j] == match cells[h][j] {
                    Some(c) => c,
                    None => solved_face_color(h),
                },
                forall|j: int| 0 <= j < i ==> #[trigger] faces[f as int][j] == match cells[f as int][j] {
                    Some(c) => c,
                    None => solved_face_color(f as int),
                },
            decreases 9 - i,
        {
            faces[f][i] = match cells[f][i] {
                Some(c) => c,
                None => FACE_COLOR[f],
            };
            i += 1;
        }
        f += 1;
    }
    CubeState { U: faces[0], R: faces[1], F: faces[2], D: faces[3], L: faces[4], B: faces[5] }
}

} // verus!
