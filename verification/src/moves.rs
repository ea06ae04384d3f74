//! Moving stickers within a piece position (turning a corner, flipping an edge) and
//! between two positions of the same kind, and what such moves keep.

use vstd::prelude::*;
use crate::model::StickerColor;
use crate::pieces::{
    cell, corner_color, corner_fits, corner_full, corner_match, count_of, count_upto, cslot,
    edge_color, edge_fits, edge_full, edge_match, eslot, get, lemma_cells_ext, lemma_put_cells,
    put, Cells, CORNER_FACELETS, EDGE_FACELETS,
};
use crate::legal::{
    all_known, centers_fixed, corner_id, corner_perm, corner_twist, edge_flip, edge_id, edge_perm,
    flip_upto, inversions_at, inversions_from, is_even, lemma_corner_id, lemma_edge_id,
    pieces_form_permutation, twist_upto,
};
use crate::feasible::{lemma_slots_distinct, slots_distinct};

verus! {

/// Board index `g` is one of the stickers of corner position `ci`.
pub open spec fn on_corner(g: int, ci: int) -> bool {
    g == cslot(ci, 0) || g == cslot(ci, 1) || g == cslot(ci, 2)
}

/// Board index `g` is one of the stickers of edge position `ei`.
pub open spec fn on_edge(g: int, ei: int) -> bool {
    g == eslot(ei, 0) || g == eslot(ei, 1)
}

/// `b` is `a` with corner position `ci` turned by `n`: its slot `s` shows what slot
/// `(s + n) % 3` showed.
pub open spec fn is_twist(a: Cells, b: Cells, ci: int, n: int) -> bool {
    &&& forall|s: int| 0 <= s < 3 ==> #[trigger] cell(b, cslot(ci, s)) == cell(a, cslot(ci, (s + n) % 3))
    &&& forall|g: int| 0 <= g < 54 && !on_corner(g, ci) ==> #[trigger] cell(b, g) == cell(a, g)
}

/// `b` is `a` with the two stickers of edge position `ei` exchanged.
pub open spec fn is_flip(a: Cells, b: Cells, ei: int) -> bool {
    &&& cell(b, eslot(ei, 0)) == cell(a, eslot(ei, 1))
    &&& cell(b, eslot(ei, 1)) == cell(a, eslot(ei, 0))
    &&& forall|g: int| 0 <= g < 54 && !on_edge(g, ei) ==> #[trigger] cell(b, g) == cell(a, g)
}

/// `b` is `a` with the stickers of corner positions `i` and `j` exchanged slot by slot.
pub open spec fn is_corner_swap(a: Cells, b: Cells, i: int, j: int) -> bool {
    &&& forall|s: int| 0 <= s < 3 ==> #[trigger] cell(b, cslot(i, s)) == cell(a, cslot(j, s))
    &&& forall|s: int| 0 <= s < 3 ==> #[trigger] cell(b, cslot(j, s)) == cell(a, cslot(i, s))
    &&& forall|g: int| 0 <= g < 54 && !on_corner(g, i) && !on_corner(g, j) ==> #[trigger] cell(b, g) == cell(a, g)
}

/// `b` is `a` with the stickers of edge positions `i` and `j` exchanged slot by slot.
pub open spec fn is_edge_swap(a: Cells, b: Cells, i: int, j: int) -> bool {
    &&& forall|s: int| 0 <= s < 2 ==> #[trigger] cell(b, eslot(i, s)) == cell(a, eslot(j, s))
    &&& forall|s: int| 0 <= s < 2 ==> #[trigger] cell(b, eslot(j, s)) == cell(a, eslot(i, s))
    &&& forall|g: int| 0 <= g < 54 && !on_edge(g, i) && !on_edge(g, j) ==> #[trigger] cell(b, g) == cell(a, g)
}

/// `b` is `a` with corner position `ci` showing piece `k` turned by `r`.
pub open spec fn is_placed(a: Cells, b: Cells, ci: int, k: int, r: int) -> bool {
    &&& forall|s: int| 0 <= s < 3 ==> #[trigger] cell(b, cslot(ci, s)) == Some(corner_color(k, (s + r) % 3))
    &&& forall|g: int| 0 <= g < 54 && !on_corner(g, ci) ==> #[trigger] cell(b, g) == cell(a, g)
}

// ───────────────────────── counting ─────────────────────────

/// Number of the board indices `xs` at which `a` shows colour `c`.
pub open spec fn count_in(a: Cells, c: StickerColor, xs: Seq<int>) -> int
    decreases xs.len(),
{
    if xs.len() == 0 {
        0
    } else {
        count_in(a, c, xs.drop_last()) + if cell(a, xs.last()) == Some(c) { 1int } else { 0int }
    }
}

pub proof fn lemma_count_put(a: Cells, g: int, v: Option<StickerColor>, c: StickerColor, n: int)
    requires
        0 <= g < 54,
        0 <= n <= 54,
    ensures
        count_upto(put(a, g, v), c, n) == count_upto(a, c, n) + if g < n {
            (if v == Some(c) { 1int } else { 0int }) - (if cell(a, g) == Some(c) { 1int } else { 0int })
        } else {
            0int
        },
    decreases n,
{
    lemma_put_cells(a, g, v);
    if n > 0 {
        lemma_count_put(a, g, v, c, n - 1);
    }
}

proof fn lemma_count_in_same(a: Cells, b: Cells, c: StickerColor, xs: Seq<int>)
    requires
        forall|k: int| 0 <= k < xs.len() ==> cell(a, #[trigger] xs[k]) == cell(b, xs[k]),
    ensures
        count_in(a, c, xs) == count_in(b, c, xs),
    decreases xs.len(),
{
    if xs.len() > 0 {
        let ys = xs.drop_last();
        assert forall|k: int| 0 <= k < ys.len() implies cell(a, #[trigger] ys[k]) == cell(b, ys[k]) by {
            assert(ys[k] == xs[k]);
        }
        lemma_count_in_same(a, b, c, ys);
        assert(cell(a, xs[xs.len() - 1]) == cell(b, xs[xs.len() - 1]));
    }
}

/// Two boards that agree outside the distinct indices `xs` differ in their count of a
/// colour exactly as they differ on `xs`.
pub proof fn lemma_count_local(a: Cells, b: Cells, c: StickerColor, xs: Seq<int>)
    requires
        forall|k: int| 0 <= k < xs.len() ==> 0 <= #[trigger] xs[k] < 54,
        xs.no_duplicates(),
        forall|g: int| 0 <= g < 54 && !xs.contains(g) ==> #[trigger] cell(b, g) == cell(a, g),
    ensures
        count_of(b, c) - count_of(a, c) == count_in(b, c, xs) - count_in(a, c, xs),
    decreases xs.len(),
{
    if xs.len() == 0 {
        assert forall|g: int| 0 <= g < 54 implies #[trigger] cell(a, g) == cell(b, g) by {
            assert(!xs.contains(g));
        }
        lemma_cells_ext(a, b);
    } else {
        let x = xs.last();
        let ys = xs.drop_last();
        let a2 = put(a, x, cell(b, x));
        lemma_put_cells(a, x, cell(b, x));
        assert(xs[xs.len() - 1] == x);
        assert forall|g: int| 0 <= g < 54 && !ys.contains(g) implies #[trigger] cell(b, g) == cell(a2, g) by {
            if g != x {
                if xs.contains(g) {
                    let k = choose|k: int| 0 <= k < xs.len() && xs[k] == g;
                    assert(k != xs.len() - 1);
                    assert(ys[k] == g);
                }
            }
        }
        assert forall|k: int| 0 <= k < ys.len() implies 0 <= #[trigger] ys[k] < 54 by {
            assert(ys[k] == xs[k]);
        }
        assert(ys.no_duplicates()) by {
            assert forall|p: int, q: int| 0 <= p < ys.len() && 0 <= q < ys.len() && p != q implies ys[p] != ys[q] by {
                assert(ys[p] == xs[p] && ys[q] == xs[q]);
            }
        }
        lemma_count_local(a2, b, c, ys);
        assert forall|k: int| 0 <= k < ys.len() implies cell(a, #[trigger] ys[k]) == cell(a2, ys[k]) by {
            assert(ys[k] == xs[k]);
            assert(xs[k] != xs[xs.len() - 1]);
        }
        lemma_count_in_same(a, a2, c, ys);
        lemma_count_put(a, x, cell(b, x), c, 54);
    }
}

/// Number of stickers of colour `c` on corner piece `k` (0 or 1).
pub open spec fn corner_has(k: int, c: StickerColor) -> int {
    (if corner_color(k, 0) == c { 1int } else { 0int }) + (if corner_color(k, 1) == c { 1int } else { 0int })
        + (if corner_color(k, 2) == c { 1int } else { 0int })
}

/// Number of stickers of colour `c` on edge piece `k` (0 or 1).
pub open spec fn edge_has(k: int, c: StickerColor) -> int {
    (if edge_color(k, 0) == c { 1int } else { 0int }) + (if edge_color(k, 1) == c { 1int } else { 0int })
}

/// The stickers of corner position `ci`.
pub open spec fn corner_xs(ci: int) -> Seq<int> {
    seq![cslot(ci, 0), cslot(ci, 1), cslot(ci, 2)]
}

/// The stickers of edge position `ei`.
pub open spec fn edge_xs(ei: int) -> Seq<int> {
    seq![eslot(ei, 0), eslot(ei, 1)]
}

/// A corner position showing piece `k` in any turn shows each of its colours once.
proof fn lemma_corner_count(a: Cells, ci: int, k: int, r: int, c: StickerColor)
    requires
        0 <= ci < 8,
        0 <= r < 3,
        corner_full(a, ci),
        corner_fits(a, ci, k, r),
    ensures
        count_in(a, c, corner_xs(ci)) == corner_has(k, c),
{
    reveal_with_fuel(count_in, 4);
    let xs = corner_xs(ci);
    assert(xs.drop_last().drop_last().drop_last().len() == 0);
    assert(xs.drop_last().drop_last().last() == cslot(ci, 0));
    assert(xs.drop_last().last() == cslot(ci, 1));
    assert(xs.last() == cslot(ci, 2));
}

/// An edge position showing piece `k` either way shows each of its colours once.
proof fn lemma_edge_count(a: Cells, ei: int, k: int, r: int, c: StickerColor)
    requires
        0 <= ei < 12,
        0 <= r < 2,
        edge_full(a, ei),
        edge_fits(a, ei, k, r),
    ensures
        count_in(a, c, edge_xs(ei)) == edge_has(k, c),
{
    reveal_with_fuel(count_in, 3);
    let xs = edge_xs(ei);
    assert(xs.drop_last().drop_last().len() == 0);
    assert(xs.drop_last().last() == eslot(ei, 0));
    assert(xs.last() == eslot(ei, 1));
}

// ───────────────────────── the moves ─────────────────────────

/// Turn corner position `ci` by `n`: slot `s` takes the sticker of slot `(s + n) % 3`.
pub fn twist_corner(cells: &mut Cells, ci: usize, n: usize)
    requires
        ci < 8,
        n < 3,
    ensures
        is_twist(*old(cells), *final(cells), ci as int, n as int),
{
    let f = CORNER_FACELETS[ci];
    let v = [get(cells, f[0]), get(cells, f[1]), get(cells, f[2])];
    let ghost a = *cells;
    proof {
        lemma_slots_distinct();
    }
    crate::pieces::set(cells, f[0], v[n % 3]);
    crate::pieces::set(cells, f[1], v[(1 + n) % 3]);
    crate::pieces::set(cells, f[2], v[(2 + n) % 3]);
    proof {
        assert forall|s: int| 0 <= s < 3 implies #[trigger] cell(*cells, cslot(ci as int, s)) == cell(a, cslot(ci as int, (s + n) % 3)) by {
            assert(cslot(ci as int, 0) != cslot(ci as int, 1));
            assert(cslot(ci as int, 0) != cslot(ci as int, 2));
            assert(cslot(ci as int, 1) != cslot(ci as int, 2));
        }
    }
}

/// Exchange the two stickers of edge position `ei`.
pub fn flip_edge(cells: &mut Cells, ei: usize)
    requires
        ei < 12,
    ensures
        is_flip(*old(cells), *final(cells), ei as int),
{
    let f = EDGE_FACELETS[ei];
    let x = get(cells, f[0]);
    let y = get(cells, f[1]);
    proof {
        lemma_slots_distinct();
        assert(eslot(ei as int, 0) != eslot(ei as int, 1));
    }
    crate::pieces::set(cells, f[0], y);
    crate::pieces::set(cells, f[1], x);
}

/// Exchange the stickers of corner positions `i` and `j`, slot by slot.
pub fn swap_corner_stickers(cells: &mut Cells, i: usize, j: usize)
    requires
        i < 8,
        j < 8,
        i != j,
    ensures
        is_corner_swap(*old(cells), *final(cells), i as int, j as int),
{
    let a = CORNER_FACELETS[i];
    let b = CORNER_FACELETS[j];
    let va = [get(cells, a[0]), get(cells, a[1]), get(cells, a[2])];
    let vb = [get(cells, b[0]), get(cells, b[1]), get(cells, b[2])];
    let ghost c0 = *cells;
    proof {
        lemma_slots_distinct();
    }
    let mut k: usize = 0;
    while k < 3
        invariant
            k <= 3,
            i < 8,
            j < 8,
            i != j,
            slots_distinct(),
            a == CORNER_FACELETS[i as int],
            b == CORNER_FACELETS[j as int],
            forall|s: int| 0 <= s < 3 ==> #[trigger] va[s] == cell(c0, cslot(i as int, s)),
            forall|s: int| 0 <= s < 3 ==> #[trigger] vb[s] == cell(c0, cslot(j as int, s)),
            forall|s: int| 0 <= s < k ==> #[trigger] cell(*cells, cslot(i as int, s)) == vb[s],
            forall|s: int| 0 <= s < k ==> #[trigger] cell(*cells, cslot(j as int, s)) == va[s],
            forall|s: int| k <= s < 3 ==> #[trigger] cell(*cells, cslot(i as int, s)) == cell(c0, cslot(i as int, s)),
            forall|s: int| k <= s < 3 ==> #[trigger] cell(*cells, cslot(j as int, s)) == cell(c0, cslot(j as int, s)),
            forall|g: int| 0 <= g < 54 && !on_corner(g, i as int) && !on_corner(g, j as int) ==> #[trigger] cell(*cells, g) == cell(c0, g),
        decreases 3 - k,
    {
        crate::pieces::set(cells, a[k], vb[k]);
        crate::pieces::set(cells, b[k], va[k]);
        k += 1;
    }
}

/// Exchange the stickers of edge positions `i` and `j`, slot by slot.
pub fn swap_edge_stickers(cells: &mut Cells, i: usize, j: usize)
    requires
        i < 12,
        j < 12,
        i != j,
    ensures
        is_edge_swap(*old(cells), *final(cells), i as int, j as int),
{
    let a = EDGE_FACELETS[i];
    let b = EDGE_FACELETS[j];
    let a0 = get(cells, a[0]);
    let a1 = get(cells, a[1]);
    let b0 = get(cells, b[0]);
    let b1 = get(cells, b[1]);
    proof {
        lemma_slots_distinct();
    }
    crate::pieces::set(cells, a[0], b0);
    crate::pieces::set(cells, a[1], b1);
    crate::pieces::set(cells, b[0], a0);
    crate::pieces::set(cells, b[1], a1);
}

/// Show piece `k` turned by `r` at corner position `ci`.
pub fn place_corner(cells: &mut Cells, ci: usize, k: usize, r: usize)
    requires
        ci < 8,
        k < 8,
        r < 3,
    ensures
        is_placed(*old(cells), *final(cells), ci as int, k as int, r as int),
{
    let p = crate::pieces::solved_corner_piece(k);
    let f = CORNER_FACELETS[ci];
    proof {
        lemma_slots_distinct();
        assert(cslot(ci as int, 0) != cslot(ci as int, 1));
        assert(cslot(ci as int, 0) != cslot(ci as int, 2));
        assert(cslot(ci as int, 1) != cslot(ci as int, 2));
    }
    crate::pieces::set(cells, f[0], Some(p[r % 3]));
    crate::pieces::set(cells, f[1], Some(p[(1 + r) % 3]));
    crate::pieces::set(cells, f[2], Some(p[(2 + r) % 3]));
}

// ───────────────────────── per-position effects ─────────────────────────

/// Turning a corner showing piece `k` by `r` adds `n` to its turn.
pub proof fn lemma_twist_effect(a: Cells, b: Cells, ci: int, n: int, k: int, r: int)
    requires
        0 <= ci < 8,
        0 <= n < 3,
        0 <= r < 3,
        is_twist(a, b, ci, n),
        corner_full(a, ci),
        corner_fits(a, ci, k, r),
    ensures
        corner_full(b, ci),
        corner_fits(b, ci, k, (r + n) % 3),
{
    assert(cell(b, cslot(ci, 0)) == cell(a, cslot(ci, n % 3)));
    assert(cell(b, cslot(ci, 1)) == cell(a, cslot(ci, (1 + n) % 3)));
    assert(cell(b, cslot(ci, 2)) == cell(a, cslot(ci, (2 + n) % 3)));
}

/// Flipping an edge showing piece `k` flipped by `r` flips it the other way.
pub proof fn lemma_flip_effect(a: Cells, b: Cells, ei: int, k: int, r: int)
    requires
        0 <= ei < 12,
        0 <= r < 2,
        is_flip(a, b, ei),
        edge_full(a, ei),
        edge_fits(a, ei, k, r),
    ensures
        edge_full(b, ei),
        edge_fits(b, ei, k, 1 - r),
{
}

/// A position untouched by a move keeps its piece and its orientation.
pub proof fn lemma_corner_kept(a: Cells, b: Cells, ci: int)
    requires
        0 <= ci < 8,
        corner_full(a, ci),
        corner_id(a, ci) < 8,
        cell(b, cslot(ci, 0)) == cell(a, cslot(ci, 0)),
        cell(b, cslot(ci, 1)) == cell(a, cslot(ci, 1)),
        cell(b, cslot(ci, 2)) == cell(a, cslot(ci, 2)),
    ensures
        corner_full(b, ci),
        corner_id(b, ci) == corner_id(a, ci),
        crate::legal::corner_twist(b, ci) == crate::legal::corner_twist(a, ci),
{
    let k = corner_id(a, ci);
    assert(corner_match(a, ci, k));
    assert(corner_match(b, ci, k));
    lemma_corner_id(b, ci, k);
}

/// An edge position untouched by a move keeps its piece and its flip.
pub proof fn lemma_edge_kept(a: Cells, b: Cells, ei: int)
    requires
        0 <= ei < 12,
        edge_full(a, ei),
        edge_id(a, ei) < 12,
        cell(b, eslot(ei, 0)) == cell(a, eslot(ei, 0)),
        cell(b, eslot(ei, 1)) == cell(a, eslot(ei, 1)),
    ensures
        edge_full(b, ei),
        edge_id(b, ei) == edge_id(a, ei),
        crate::legal::edge_flip(b, ei) == crate::legal::edge_flip(a, ei),
{
    let k = edge_id(a, ei);
    assert(edge_match(a, ei, k));
    assert(edge_match(b, ei, k));
    lemma_edge_id(b, ei, k);
}

// ───────────────────────── board-level effects ─────────────────────────

/// No corner or edge sticker is a face centre.
pub proof fn lemma_slots_off_centers()
    ensures
        forall|ci: int, s: int| 0 <= ci < 8 && 0 <= s < 3 ==> #[trigger] cslot(ci, s) % 9 != 4,
        forall|ei: int, s: int| 0 <= ei < 12 && 0 <= s < 2 ==> #[trigger] eslot(ei, s) % 9 != 4,
        forall|ci: int, s: int| 0 <= ci < 8 && 0 <= s < 3 ==> 0 <= #[trigger] cslot(ci, s) < 54,
        forall|ei: int, s: int| 0 <= ei < 12 && 0 <= s < 2 ==> 0 <= #[trigger] eslot(ei, s) < 54,
{
}

/// Boards that agree on the face centres agree on whether the centres are fixed.
proof fn lemma_centers_same(a: Cells, b: Cells)
    requires
        forall|g: int| 0 <= g < 54 && g % 9 == 4 ==> #[trigger] cell(b, g) == cell(a, g),
    ensures
        centers_fixed(a) == centers_fixed(b),
{
    assert forall|f: int| 0 <= f < 6 implies #[trigger] a[f][4] == b[f][4] by {
        assert((f * 9 + 4) / 9 == f);
        assert((f * 9 + 4) % 9 == 4);
        assert(cell(b, f * 9 + 4) == cell(a, f * 9 + 4));
    }
    if centers_fixed(a) {
        assert forall|f: int| 0 <= f < 6 implies (#[trigger] b[f][4] matches Some(c) ==> c == crate::model::solved_face_color(f)) by {
            assert(a[f][4] == b[f][4]);
        }
    }
    if centers_fixed(b) {
        assert forall|f: int| 0 <= f < 6 implies (#[trigger] a[f][4] matches Some(c) ==> c == crate::model::solved_face_color(f)) by {
            assert(a[f][4] == b[f][4]);
        }
    }
}

proof fn lemma_count_in_concat(a: Cells, c: StickerColor, xs: Seq<int>, ys: Seq<int>)
    ensures
        count_in(a, c, xs + ys) == count_in(a, c, xs) + count_in(a, c, ys),
    decreases ys.len(),
{
    if ys.len() == 0 {
        assert(xs + ys =~= xs);
    } else {
        assert((xs + ys).drop_last() =~= xs + ys.drop_last());
        lemma_count_in_concat(a, c, xs, ys.drop_last());
    }
}

proof fn lemma_twist_upto_eq(a: Cells, b: Cells, n: int)
    requires
        0 <= n <= 8,
        forall|ci: int| 1 <= ci < 8 ==> #[trigger] corner_twist(b, ci) == corner_twist(a, ci),
    ensures
        twist_upto(b, n) - twist_upto(a, n) == if n > 0 { corner_twist(b, 0) - corner_twist(a, 0) } else { 0 },
    decreases n,
{
    if n > 0 {
        lemma_twist_upto_eq(a, b, n - 1);
    }
}

proof fn lemma_flip_upto_eq(a: Cells, b: Cells, ei: int, n: int)
    requires
        0 <= n <= 12,
        0 <= ei < 12,
        forall|ej: int| 0 <= ej < 12 && ej != ei ==> #[trigger] edge_flip(b, ej) == edge_flip(a, ej),
    ensures
        flip_upto(b, n) - flip_upto(a, n) == if ei < n { edge_flip(b, ei) - edge_flip(a, ei) } else { 0 },
    decreases n,
{
    if n > 0 {
        lemma_flip_upto_eq(a, b, ei, n - 1);
    }
}

/// The twist of a full corner position showing piece `k` turned by `r`.
pub proof fn lemma_twist_of_turn(cells: Cells, ci: int, k: int, r: int)
    requires
        0 <= ci < 8,
        0 <= k < 8,
        0 <= r < 3,
        corner_full(cells, ci),
        corner_fits(cells, ci, k, r),
    ensures
        corner_twist(cells, ci) == (3 - r) % 3,
{
    lemma_corner_id(cells, ci, k);
    crate::fit::lemma_corner_colors_distinct(k, 0, 1);
    crate::fit::lemma_corner_colors_distinct(k, 0, 2);
}

/// The flip of a full edge position showing piece `k` flipped by `r`.
pub proof fn lemma_flip_of_turn(cells: Cells, ei: int, k: int, r: int)
    requires
        0 <= ei < 12,
        0 <= k < 12,
        0 <= r < 2,
        edge_full(cells, ei),
        edge_fits(cells, ei, k, r),
    ensures
        edge_flip(cells, ei) == r,
{
    lemma_edge_id(cells, ei, k);
    crate::fit::lemma_edge_colors_distinct(k);
}

/// What every corner-position move of a full board with real, different pieces keeps
/// when the moved position `ci` ends up showing its piece again: every sticker known,
/// the centres, the pieces everywhere, the edges and their flips, and the other
/// corners' twists.
proof fn lemma_corner_move_keeps(a: Cells, b: Cells, ci: int, r2: int)
    requires
        0 <= ci < 8,
        0 <= r2 < 3,
        all_known(a),
        pieces_form_permutation(a),
        forall|g: int| 0 <= g < 54 && !on_corner(g, ci) ==> #[trigger] cell(b, g) == cell(a, g),
        corner_full(b, ci),
        corner_fits(b, ci, corner_id(a, ci), r2),
    ensures
        all_known(b),
        centers_fixed(b) == centers_fixed(a),
        pieces_form_permutation(b),
        forall|cj: int| 0 <= cj < 8 ==> #[trigger] corner_id(b, cj) == corner_id(a, cj),
        forall|ej: int| 0 <= ej < 12 ==> #[trigger] edge_id(b, ej) == edge_id(a, ej),
        forall|cj: int| 0 <= cj < 8 && cj != ci ==> #[trigger] corner_twist(b, cj) == corner_twist(a, cj),
        flip_upto(b, 12) == flip_upto(a, 12),
        corner_perm(b) == corner_perm(a),
        edge_perm(b) == edge_perm(a),
{
    lemma_slots_distinct();
    lemma_slots_off_centers();
    assert forall|g: int| 0 <= g < 54 implies #[trigger] cell(b, g) is Some by {
        if !on_corner(g, ci) {
            assert(cell(a, g) is Some);
        }
    }
    lemma_centers_same(a, b);
    assert forall|cj: int| 0 <= cj < 8 implies #[trigger] corner_id(b, cj) == corner_id(a, cj)
        && (cj != ci ==> corner_twist(b, cj) == corner_twist(a, cj)) by {
        assert(cell(a, cslot(cj, 0)) is Some);
        assert(cell(a, cslot(cj, 1)) is Some);
        assert(cell(a, cslot(cj, 2)) is Some);
        assert(corner_id(a, cj) < 8);
        if cj == ci {
            lemma_corner_id(b, ci, corner_id(a, ci));
        } else {
            assert(!on_corner(cslot(cj, 0), ci));
            assert(!on_corner(cslot(cj, 1), ci));
            assert(!on_corner(cslot(cj, 2), ci));
            lemma_corner_kept(a, b, cj);
        }
    }
    assert forall|ej: int| 0 <= ej < 12 implies #[trigger] edge_id(b, ej) == edge_id(a, ej)
        && edge_flip(b, ej) == edge_flip(a, ej) by {
        assert(cell(a, eslot(ej, 0)) is Some);
        assert(cell(a, eslot(ej, 1)) is Some);
        assert(edge_id(a, ej) < 12);
        assert(!on_corner(eslot(ej, 0), ci));
        assert(!on_corner(eslot(ej, 1), ci));
        lemma_edge_kept(a, b, ej);
    }
    lemma_flip_upto_eq(a, b, 0, 12);
    assert(corner_perm(b) =~= corner_perm(a));
    assert(edge_perm(b) =~= edge_perm(a));
}

/// Turning one corner of a full board with real, different pieces keeps everything
/// but that corner's twist, and keeps the colour counts.
pub proof fn lemma_twist_board(a: Cells, b: Cells, ci: int, n: int)
    requires
        0 <= ci < 8,
        0 <= n < 3,
        all_known(a),
        pieces_form_permutation(a),
        is_twist(a, b, ci, n),
    ensures
        all_known(b),
        centers_fixed(b) == centers_fixed(a),
        forall|c: StickerColor| #[trigger] count_of(b, c) == count_of(a, c),
        pieces_form_permutation(b),
        flip_upto(b, 12) == flip_upto(a, 12),
        corner_perm(b) == corner_perm(a),
        edge_perm(b) == edge_perm(a),
        twist_upto(b, 8) - twist_upto(a, 8) == corner_twist(b, ci) - corner_twist(a, ci),
        forall|k: int, r: int| 0 <= r < 3 && corner_fits(a, ci, k, r) && k == corner_id(a, ci)
            ==> #[trigger] corner_fits(b, ci, k, (r + n) % 3),
{
    lemma_slots_distinct();
    lemma_slots_off_centers();
    let k = corner_id(a, ci);
    assert(corner_full(a, ci)) by {
        assert(cell(a, cslot(ci, 0)) is Some);
        assert(cell(a, cslot(ci, 1)) is Some);
        assert(cell(a, cslot(ci, 2)) is Some);
    }
    assert(k < 8);
    assert(corner_match(a, ci, k));
    let r = if corner_fits(a, ci, k, 0) { 0int } else if corner_fits(a, ci, k, 1) { 1int } else { 2int };
    lemma_twist_effect(a, b, ci, n, k, r);
    assert forall|k2: int, r2: int| 0 <= r2 < 3 && corner_fits(a, ci, k2, r2) && k2 == corner_id(a, ci)
        implies #[trigger] corner_fits(b, ci, k2, (r2 + n) % 3) by {
        lemma_twist_effect(a, b, ci, n, k2, r2);
    }
    lemma_corner_move_keeps(a, b, ci, (r + n) % 3);
    lemma_twist_counts(a, b, ci, n, k, r);
    if ci == 0 {
        lemma_twist_upto_eq(a, b, 8);
    } else {
        lemma_twist_upto_single(a, b, ci, 8);
    }
}

proof fn lemma_twist_counts(a: Cells, b: Cells, ci: int, n: int, k: int, r: int)
    requires
        0 <= ci < 8,
        0 <= n < 3,
        0 <= r < 3,
        is_twist(a, b, ci, n),
        corner_full(a, ci),
        corner_fits(a, ci, k, r),
        corner_full(b, ci),
        corner_fits(b, ci, k, (r + n) % 3),
    ensures
        forall|c: StickerColor| #[trigger] count_of(b, c) == count_of(a, c),
{
    lemma_slots_distinct();
    lemma_slots_off_centers();
    let xs = corner_xs(ci);
    assert forall|g: int| 0 <= g < 54 && !xs.contains(g) implies #[trigger] cell(b, g) == cell(a, g) by {
        if on_corner(g, ci) {
            if g == cslot(ci, 0) { assert(xs[0] == g); }
            else if g == cslot(ci, 1) { assert(xs[1] == g); }
            else { assert(xs[2] == g); }
        }
    }
    assert forall|q: int| 0 <= q < xs.len() implies 0 <= #[trigger] xs[q] < 54 by {}
    assert forall|c: StickerColor| #[trigger] count_of(b, c) == count_of(a, c) by {
        lemma_count_local(a, b, c, xs);
        lemma_corner_count(a, ci, k, r, c);
        lemma_corner_count(b, ci, k, (r + n) % 3, c);
    }
}

proof fn lemma_twist_upto_single(a: Cells, b: Cells, ci: int, n: int)
    requires
        0 <= n <= 8,
        0 <= ci < 8,
        forall|cj: int| 0 <= cj < 8 && cj != ci ==> #[trigger] corner_twist(b, cj) == corner_twist(a, cj),
    ensures
        twist_upto(b, n) - twist_upto(a, n) == if ci < n { corner_twist(b, ci) - corner_twist(a, ci) } else { 0 },
    decreases n,
{
    if n > 0 {
        lemma_twist_upto_single(a, b, ci, n - 1);
    }
}

/// Flipping one edge of a full board with real, different pieces keeps everything
/// but that edge's flip, which changes.
pub proof fn lemma_flip_board(a: Cells, b: Cells, ei: int)
    requires
        0 <= ei < 12,
        all_known(a),
        pieces_form_permutation(a),
        is_flip(a, b, ei),
    ensures
        all_known(b),
        centers_fixed(b) == centers_fixed(a),
        forall|c: StickerColor| #[trigger] count_of(b, c) == count_of(a, c),
        pieces_form_permutation(b),
        twist_upto(b, 8) == twist_upto(a, 8),
        corner_perm(b) == corner_perm(a),
        edge_perm(b) == edge_perm(a),
        flip_upto(b, 12) - flip_upto(a, 12) == edge_flip(b, ei) - edge_flip(a, ei),
        edge_flip(b, ei) == 1 - edge_flip(a, ei),
{
    lemma_slots_distinct();
    lemma_slots_off_centers();
    let k = edge_id(a, ei);
    assert(edge_full(a, ei)) by {
        assert(cell(a, eslot(ei, 0)) is Some);
        assert(cell(a, eslot(ei, 1)) is Some);
    }
    assert(k < 12);
    assert(edge_match(a, ei, k));
    let r = if edge_fits(a, ei, k, 0) { 0int } else { 1int };
    lemma_flip_effect(a, b, ei, k, r);
    lemma_flip_of_turn(a, ei, k, r);
    lemma_flip_of_turn(b, ei, k, 1 - r);
    lemma_edge_move_keeps(a, b, ei, 1 - r);
    lemma_flip_counts(a, b, ei, k, r);
    lemma_flip_upto_eq(a, b, ei, 12);
}

proof fn lemma_flip_counts(a: Cells, b: Cells, ei: int, k: int, r: int)
    requires
        0 <= ei < 12,
        0 <= r < 2,
        is_flip(a, b, ei),
        edge_full(a, ei),
        edge_fits(a, ei, k, r),
        edge_full(b, ei),
        edge_fits(b, ei, k, 1 - r),
    ensures
        forall|c: StickerColor| #[trigger] count_of(b, c) == count_of(a, c),
{
    lemma_slots_distinct();
    lemma_slots_off_centers();
    let xs = edge_xs(ei);
    assert forall|g: int| 0 <= g < 54 && !xs.contains(g) implies #[trigger] cell(b, g) == cell(a, g) by {
        if on_edge(g, ei) {
            if g == eslot(ei, 0) { assert(xs[0] == g); } else { assert(xs[1] == g); }
        }
    }
    assert forall|q: int| 0 <= q < xs.len() implies 0 <= #[trigger] xs[q] < 54 by {}
    assert forall|c: StickerColor| #[trigger] count_of(b, c) == count_of(a, c) by {
        lemma_count_local(a, b, c, xs);
        lemma_edge_count(a, ei, k, r, c);
        lemma_edge_count(b, ei, k, 1 - r, c);
    }
}

/// What every edge-position move of a full board with real, different pieces keeps
/// when the moved position `ei` ends up showing its piece again.
proof fn lemma_edge_move_keeps(a: Cells, b: Cells, ei: int, r2: int)
    requires
        0 <= ei < 12,
        0 <= r2 < 2,
        all_known(a),
        pieces_form_permutation(a),
        forall|g: int| 0 <= g < 54 && !on_edge(g, ei) ==> #[trigger] cell(b, g) == cell(a, g),
        edge_full(b, ei),
        edge_fits(b, ei, edge_id(a, ei), r2),
    ensures
        all_known(b),
        centers_fixed(b) == centers_fixed(a),
        pieces_form_permutation(b),
        forall|ej: int| 0 <= ej < 12 && ej != ei ==> #[trigger] edge_flip(b, ej) == edge_flip(a, ej),
        twist_upto(b, 8) == twist_upto(a, 8),
        corner_perm(b) == corner_perm(a),
        edge_perm(b) == edge_perm(a),
{
    lemma_slots_distinct();
    lemma_slots_off_centers();
    assert forall|g: int| 0 <= g < 54 implies #[trigger] cell(b, g) is Some by {
        if !on_edge(g, ei) {
            assert(cell(a, g) is Some);
        }
    }
    lemma_centers_same(a, b);
    assert forall|ej: int| 0 <= ej < 12 implies #[trigger] edge_id(b, ej) == edge_id(a, ej)
        && (ej != ei ==> edge_flip(b, ej) == edge_flip(a, ej)) by {
        assert(cell(a, eslot(ej, 0)) is Some);
        assert(cell(a, eslot(ej, 1)) is Some);
        assert(edge_id(a, ej) < 12);
        if ej == ei {
            lemma_edge_id(b, ei, edge_id(a, ei));
        } else {
            assert(!on_edge(eslot(ej, 0), ei));
            assert(!on_edge(eslot(ej, 1), ei));
            lemma_edge_kept(a, b, ej);
        }
    }
    assert forall|cj: int| 0 <= cj < 8 implies #[trigger] corner_id(b, cj) == corner_id(a, cj)
        && corner_twist(b, cj) == corner_twist(a, cj) by {
        assert(cell(a, cslot(cj, 0)) is Some);
        assert(cell(a, cslot(cj, 1)) is Some);
        assert(cell(a, cslot(cj, 2)) is Some);
        assert(corner_id(a, cj) < 8);
        assert(!on_edge(cslot(cj, 0), ei));
        assert(!on_edge(cslot(cj, 1), ei));
        assert(!on_edge(cslot(cj, 2), ei));
        lemma_corner_kept(a, b, cj);
    }
    lemma_twist_upto_eq(a, b, 8);
    assert(corner_perm(b) =~= corner_perm(a));
    assert(edge_perm(b) =~= edge_perm(a));
}

/// Exchanging the pieces of two corner positions of a full board with real, different
/// pieces (each shown in some turn) keeps every sticker known, the centres, the
/// colour counts, the edges, and the pieces being real and different; the corner
/// arrangement has its two entries exchanged.
pub proof fn lemma_exchange_board(a: Cells, b: Cells, i: int, j: int, r: int, r2: int)
    requires
        0 <= i < 8,
        0 <= j < 8,
        i != j,
        0 <= r < 3,
        0 <= r2 < 3,
        all_known(a),
        pieces_form_permutation(a),
        forall|g: int| 0 <= g < 54 && !on_corner(g, i) && !on_corner(g, j) ==> #[trigger] cell(b, g) == cell(a, g),
        corner_full(b, i),
        corner_fits(b, i, corner_id(a, j), r),
        corner_full(b, j),
        corner_fits(b, j, corner_id(a, i), r2),
    ensures
        all_known(b),
        centers_fixed(b) == centers_fixed(a),
        forall|c: StickerColor| #[trigger] count_of(b, c) == count_of(a, c),
        pieces_form_permutation(b),
        flip_upto(b, 12) == flip_upto(a, 12),
        edge_perm(b) == edge_perm(a),
        corner_perm(b) == corner_perm(a).update(i, corner_id(a, j)).update(j, corner_id(a, i)),
{
    assert forall|g: int| 0 <= g < 54 implies #[trigger] cell(b, g) is Some by {
        if !on_corner(g, i) && !on_corner(g, j) {
            assert(cell(a, g) is Some);
        }
    }
    assert forall|g: int| 0 <= g < 54 && g % 9 == 4 implies #[trigger] cell(b, g) == cell(a, g) by {
        lemma_slots_off_centers();
    }
    lemma_centers_same(a, b);
    lemma_exchange_ids(a, b, i, j, r, r2);
    lemma_flip_upto_eq(a, b, 0, 12);
    assert(edge_perm(b) =~= edge_perm(a));
    assert(corner_perm(b) =~= corner_perm(a).update(i, corner_id(a, j)).update(j, corner_id(a, i)));
    lemma_exchange_counts(a, b, i, j, r, r2);
}

proof fn lemma_exchange_ids(a: Cells, b: Cells, i: int, j: int, r: int, r2: int)
    requires
        0 <= i < 8,
        0 <= j < 8,
        i != j,
        0 <= r < 3,
        0 <= r2 < 3,
        all_known(a),
        pieces_form_permutation(a),
        forall|g: int| 0 <= g < 54 && !on_corner(g, i) && !on_corner(g, j) ==> #[trigger] cell(b, g) == cell(a, g),
        corner_full(b, i),
        corner_fits(b, i, corner_id(a, j), r),
        corner_full(b, j),
        corner_fits(b, j, corner_id(a, i), r2),
    ensures
        corner_id(b, i) == corner_id(a, j),
        corner_id(b, j) == corner_id(a, i),
        forall|cj: int| 0 <= cj < 8 && cj != i && cj != j ==> #[trigger] corner_id(b, cj) == corner_id(a, cj),
        forall|ej: int| 0 <= ej < 12 ==> #[trigger] edge_id(b, ej) == edge_id(a, ej) && edge_flip(b, ej) == edge_flip(a, ej),
{
    assert(corner_id(a, i) < 8);
    assert(corner_id(a, j) < 8);
    lemma_exchange_moved(a, b, i, j, r, r2);
    lemma_exchange_others(a, b, i, j);
}

proof fn lemma_exchange_moved(a: Cells, b: Cells, i: int, j: int, r: int, r2: int)
    requires
        0 <= i < 8,
        0 <= j < 8,
        i != j,
        corner_id(a, i) < 8,
        corner_id(a, j) < 8,
        0 <= r < 3,
        0 <= r2 < 3,
        corner_full(b, i),
        corner_fits(b, i, corner_id(a, j), r),
        corner_full(b, j),
        corner_fits(b, j, corner_id(a, i), r2),
    ensures
        corner_id(b, i) == corner_id(a, j),
        corner_id(b, j) == corner_id(a, i),
{
    lemma_corner_id(b, i, corner_id(a, j));
    lemma_corner_id(b, j, corner_id(a, i));
}

proof fn lemma_exchange_others(a: Cells, b: Cells, i: int, j: int)
    requires
        0 <= i < 8,
        0 <= j < 8,
        all_known(a),
        pieces_form_permutation(a),
        forall|g: int| 0 <= g < 54 && !on_corner(g, i) && !on_corner(g, j) ==> #[trigger] cell(b, g) == cell(a, g),
    ensures
        forall|cj: int| 0 <= cj < 8 && cj != i && cj != j ==> #[trigger] corner_id(b, cj) == corner_id(a, cj),
        forall|ej: int| 0 <= ej < 12 ==> #[trigger] edge_id(b, ej) == edge_id(a, ej) && edge_flip(b, ej) == edge_flip(a, ej),
{
    assert forall|cj: int| 0 <= cj < 8 && cj != i && cj != j implies #[trigger] corner_id(b, cj) == corner_id(a, cj) by {
        lemma_other_corner_kept(a, b, i, j, cj);
    }
    assert forall|ej: int| 0 <= ej < 12 implies #[trigger] edge_id(b, ej) == edge_id(a, ej)
        && edge_flip(b, ej) == edge_flip(a, ej) by {
        lemma_edge_kept_by_corners(a, b, i, j, ej);
    }
}

proof fn lemma_other_corner_kept(a: Cells, b: Cells, i: int, j: int, cj: int)
    requires
        0 <= i < 8,
        0 <= j < 8,
        0 <= cj < 8,
        cj != i,
        cj != j,
        all_known(a),
        pieces_form_permutation(a),
        forall|g: int| 0 <= g < 54 && !on_corner(g, i) && !on_corner(g, j) ==> #[trigger] cell(b, g) == cell(a, g),
    ensures
        corner_id(b, cj) == corner_id(a, cj),
{
    lemma_slots_distinct();
    lemma_slots_off_centers();
    assert(cell(a, cslot(cj, 0)) is Some);
    assert(cell(a, cslot(cj, 1)) is Some);
    assert(cell(a, cslot(cj, 2)) is Some);
    assert(corner_id(a, cj) < 8);
    assert(!on_corner(cslot(cj, 0), i) && !on_corner(cslot(cj, 0), j));
    assert(!on_corner(cslot(cj, 1), i) && !on_corner(cslot(cj, 1), j));
    assert(!on_corner(cslot(cj, 2), i) && !on_corner(cslot(cj, 2), j));
    lemma_corner_kept(a, b, cj);
}

proof fn lemma_edge_kept_by_corners(a: Cells, b: Cells, i: int, j: int, ej: int)
    requires
        0 <= i < 8,
        0 <= j < 8,
        0 <= ej < 12,
        all_known(a),
        pieces_form_permutation(a),
        forall|g: int| 0 <= g < 54 && !on_corner(g, i) && !on_corner(g, j) ==> #[trigger] cell(b, g) == cell(a, g),
    ensures
        edge_id(b, ej) == edge_id(a, ej),
        edge_flip(b, ej) == edge_flip(a, ej),
{
    lemma_slots_distinct();
    lemma_slots_off_centers();
    assert(cell(a, eslot(ej, 0)) is Some);
    assert(cell(a, eslot(ej, 1)) is Some);
    assert(edge_id(a, ej) < 12);
    assert(!on_corner(eslot(ej, 0), i) && !on_corner(eslot(ej, 0), j));
    assert(!on_corner(eslot(ej, 1), i) && !on_corner(eslot(ej, 1), j));
    lemma_edge_kept(a, b, ej);
}

proof fn lemma_exchange_xs(i: int, j: int)
    requires
        0 <= i < 8,
        0 <= j < 8,
        i != j,
    ensures
        (corner_xs(i) + corner_xs(j)).no_duplicates(),
        forall|q: int| 0 <= q < 6 ==> 0 <= #[trigger] (corner_xs(i) + corner_xs(j))[q] < 54,
        forall|g: int| (on_corner(g, i) || on_corner(g, j)) ==> #[trigger] (corner_xs(i) + corner_xs(j)).contains(g),
{
    lemma_slots_distinct();
    lemma_slots_off_centers();
    let xs = corner_xs(i) + corner_xs(j);
    assert(xs.len() == 6);
    assert(xs[0] == cslot(i, 0) && xs[1] == cslot(i, 1) && xs[2] == cslot(i, 2));
    assert(xs[3] == cslot(j, 0) && xs[4] == cslot(j, 1) && xs[5] == cslot(j, 2));
    assert forall|p: int, q: int| 0 <= p < 6 && 0 <= q < 6 && p != q implies xs[p] != xs[q] by {
        let (cp, sp) = if p < 3 { (i, p) } else { (j, p - 3) };
        let (cq, sq) = if q < 3 { (i, q) } else { (j, q - 3) };
        assert(xs[p] == cslot(cp, sp));
        assert(xs[q] == cslot(cq, sq));
    }
    assert forall|g: int| (on_corner(g, i) || on_corner(g, j)) implies #[trigger] xs.contains(g) by {
        if g == cslot(i, 0) { assert(xs[0] == g); }
        else if g == cslot(i, 1) { assert(xs[1] == g); }
        else if g == cslot(i, 2) { assert(xs[2] == g); }
        else if g == cslot(j, 0) { assert(xs[3] == g); }
        else if g == cslot(j, 1) { assert(xs[4] == g); }
        else { assert(xs[5] == g); }
    }
}

proof fn lemma_exchange_counts(a: Cells, b: Cells, i: int, j: int, r: int, r2: int)
    requires
        0 <= i < 8,
        0 <= j < 8,
        i != j,
        0 <= r < 3,
        0 <= r2 < 3,
        all_known(a),
        pieces_form_permutation(a),
        forall|g: int| 0 <= g < 54 && !on_corner(g, i) && !on_corner(g, j) ==> #[trigger] cell(b, g) == cell(a, g),
        corner_full(b, i),
        corner_fits(b, i, corner_id(a, j), r),
        corner_full(b, j),
        corner_fits(b, j, corner_id(a, i), r2),
    ensures
        forall|c: StickerColor| #[trigger] count_of(b, c) == count_of(a, c),
{
    let xs = corner_xs(i) + corner_xs(j);
    lemma_exchange_xs(i, j);
    assert forall|g: int| 0 <= g < 54 && !xs.contains(g) implies #[trigger] cell(b, g) == cell(a, g) by {
        assert(!on_corner(g, i) && !on_corner(g, j));
    }
    assert forall|q: int| 0 <= q < xs.len() implies 0 <= #[trigger] xs[q] < 54 by {}
    let ki = corner_id(a, i);
    let kj = corner_id(a, j);
    assert(corner_match(a, i, ki));
    assert(corner_match(a, j, kj));
    assert(corner_full(a, i)) by {
        assert(cell(a, cslot(i, 0)) is Some);
        assert(cell(a, cslot(i, 1)) is Some);
        assert(cell(a, cslot(i, 2)) is Some);
    }
    assert(corner_full(a, j)) by {
        assert(cell(a, cslot(j, 0)) is Some);
        assert(cell(a, cslot(j, 1)) is Some);
        assert(cell(a, cslot(j, 2)) is Some);
    }
    let ri = if corner_fits(a, i, ki, 0) { 0int } else if corner_fits(a, i, ki, 1) { 1int } else { 2int };
    let rj = if corner_fits(a, j, kj, 0) { 0int } else if corner_fits(a, j, kj, 1) { 1int } else { 2int };
    assert forall|c: StickerColor| #[trigger] count_of(b, c) == count_of(a, c) by {
        lemma_count_local(a, b, c, xs);
        lemma_count_in_concat(a, c, corner_xs(i), corner_xs(j));
        lemma_count_in_concat(b, c, corner_xs(i), corner_xs(j));
        lemma_corner_count(a, i, ki, ri, c);
        lemma_corner_count(a, j, kj, rj, c);
        lemma_corner_count(b, i, kj, r, c);
        lemma_corner_count(b, j, ki, r2, c);
    }
}

proof fn lemma_inversions_at_same(p: Seq<int>, q: Seq<int>, i: int, i2: int, j0: int)
    requires
        p.len() == q.len(),
        0 <= j0,
        q[i] == p[i2],
        forall|j: int| j0 <= j < p.len() ==> #[trigger] q[j] == p[j],
    ensures
        inversions_at(q, i, j0) == inversions_at(p, i2, j0),
    decreases p.len() - j0,
{
    if j0 < p.len() {
        lemma_inversions_at_same(p, q, i, i2, j0 + 1);
    }
}

proof fn lemma_inversions_from_same(p: Seq<int>, q: Seq<int>, i0: int)
    requires
        p.len() == q.len(),
        0 <= i0,
        forall|j: int| i0 <= j < p.len() ==> #[trigger] q[j] == p[j],
    ensures
        inversions_from(q, i0) == inversions_from(p, i0),
    decreases p.len() - i0,
{
    if i0 < p.len() {
        lemma_inversions_at_same(p, q, i0, i0, i0 + 1);
        lemma_inversions_from_same(p, q, i0 + 1);
    }
}

/// Exchanging the first two entries of an arrangement changes its parity.
pub proof fn lemma_swap_parity(p: Seq<int>)
    requires
        p.len() >= 2,
        p[0] != p[1],
    ensures
        is_even(p.update(0, p[1]).update(1, p[0])) != is_even(p),
{
    let q = p.update(0, p[1]).update(1, p[0]);
    lemma_inversions_from_same(p, q, 2);
    lemma_inversions_at_same(p, q, 0, 1, 2);
    lemma_inversions_at_same(p, q, 1, 0, 2);
    assert(inversions_at(p, 0, 1) == (if p[0] > p[1] { 1nat } else { 0nat }) + inversions_at(p, 0, 2));
    assert(inversions_at(q, 0, 1) == (if q[0] > q[1] { 1nat } else { 0nat }) + inversions_at(q, 0, 2));
    assert(inversions_from(p, 0) == inversions_at(p, 0, 1) + inversions_from(p, 1));
    assert(inversions_from(p, 1) == inversions_at(p, 1, 2) + inversions_from(p, 2));
    assert(inversions_from(q, 0) == inversions_at(q, 0, 1) + inversions_from(q, 1));
    assert(inversions_from(q, 1) == inversions_at(q, 1, 2) + inversions_from(q, 2));
}

} // verus!
