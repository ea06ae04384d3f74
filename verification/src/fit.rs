//! Which pieces can sit at which positions, given the known stickers.

use vstd::prelude::*;
use crate::model::StickerColor;
use crate::pieces::{
    cell, corner_color, corner_fits, corner_full, corner_known, corner_match, corner_slot_fits,
    cslot, edge_color, edge_fits, edge_full, edge_known, edge_match, edge_slot_fits, eslot, get,
    solved_corner_piece, solved_edge_piece, Cells, CORNER_FACELETS, EDGE_FACELETS,
};

verus! {

/// The three colours of a corner piece are pairwise different.
pub proof fn lemma_corner_colors_distinct(k: int, s1: int, s2: int)
    requires
        0 <= k < 8,
        0 <= s1 < 3,
        0 <= s2 < 3,
        s1 != s2,
    ensures
        corner_color(k, s1) != corner_color(k, s2),
{
}

/// The two colours of an edge piece are different.
pub proof fn lemma_edge_colors_distinct(k: int)
    requires
        0 <= k < 12,
    ensures
        edge_color(k, 0) != edge_color(k, 1),
{
}

/// Two corner pieces showing the same colours in cyclic order are the same piece,
/// turned the same way.
pub proof fn lemma_corner_pieces_distinct(k1: int, k2: int, r1: int, r2: int)
    requires
        0 <= k1 < 8,
        0 <= k2 < 8,
        0 <= r1 < 3,
        0 <= r2 < 3,
        corner_color(k1, r1 % 3) == corner_color(k2, r2 % 3),
        corner_color(k1, (1 + r1) % 3) == corner_color(k2, (1 + r2) % 3),
        corner_color(k1, (2 + r1) % 3) == corner_color(k2, (2 + r2) % 3),
    ensures
        k1 == k2,
        r1 == r2,
{
    assert(k1 == k2) by {
        if k1 != k2 {
            assert(false);
        }
    }
    if r1 != r2 {
        lemma_corner_colors_distinct(k1, r1 % 3, r2 % 3);
    }
}

/// Two edge pieces showing the same colours in the same order are the same piece,
/// flipped the same way.
pub proof fn lemma_edge_pieces_distinct(k1: int, k2: int, r1: int, r2: int)
    requires
        0 <= k1 < 12,
        0 <= k2 < 12,
        0 <= r1 < 2,
        0 <= r2 < 2,
        edge_color(k1, r1 % 2) == edge_color(k2, r2 % 2),
        edge_color(k1, (1 + r1) % 2) == edge_color(k2, (1 + r2) % 2),
    ensures
        k1 == k2,
        r1 == r2,
{
    assert(k1 == k2) by {
        if k1 != k2 {
            assert(false);
        }
    }
    if r1 != r2 {
        lemma_edge_colors_distinct(k1);
    }
}

/// At a corner position with a known sticker, a piece fits in at most one orientation.
pub proof fn lemma_corner_rot_unique(cells: Cells, ci: int, k: int, r1: int, r2: int)
    requires
        0 <= ci < 8,
        0 <= k < 8,
        0 <= r1 < 3,
        0 <= r2 < 3,
        corner_known(cells, ci),
        corner_fits(cells, ci, k, r1),
        corner_fits(cells, ci, k, r2),
    ensures
        r1 == r2,
{
    if r1 != r2 {
        if cell(cells, cslot(ci, 0)) is Some {
            lemma_corner_colors_distinct(k, r1 % 3, r2 % 3);
        } else if cell(cells, cslot(ci, 1)) is Some {
            lemma_corner_colors_distinct(k, (1 + r1) % 3, (1 + r2) % 3);
        } else {
            lemma_corner_colors_distinct(k, (2 + r1) % 3, (2 + r2) % 3);
        }
    }
}

/// At an edge position with a known sticker, a piece fits in at most one orientation.
pub proof fn lemma_edge_rot_unique(cells: Cells, ei: int, k: int, r1: int, r2: int)
    requires
        0 <= ei < 12,
        0 <= k < 12,
        0 <= r1 < 2,
        0 <= r2 < 2,
        edge_known(cells, ei),
        edge_fits(cells, ei, k, r1),
        edge_fits(cells, ei, k, r2),
    ensures
        r1 == r2,
{
    if r1 != r2 {
        lemma_edge_colors_distinct(k);
    }
}

/// A fully known corner position holds at most one piece.
pub proof fn lemma_corner_match_unique(cells: Cells, ci: int, k1: int, k2: int)
    requires
        0 <= ci < 8,
        0 <= k1 < 8,
        0 <= k2 < 8,
        corner_full(cells, ci),
        corner_match(cells, ci, k1),
        corner_match(cells, ci, k2),
    ensures
        k1 == k2,
{
    let r1 = if corner_fits(cells, ci, k1, 0) { 0int } else if corner_fits(cells, ci, k1, 1) { 1int } else { 2int };
    let r2 = if corner_fits(cells, ci, k2, 0) { 0int } else if corner_fits(cells, ci, k2, 1) { 1int } else { 2int };
    lemma_corner_pieces_distinct(k1, k2, r1, r2);
}

/// A fully known edge position holds at most one piece.
pub proof fn lemma_edge_match_unique(cells: Cells, ei: int, k1: int, k2: int)
    requires
        0 <= ei < 12,
        0 <= k1 < 12,
        0 <= k2 < 12,
        edge_full(cells, ei),
        edge_match(cells, ei, k1),
        edge_match(cells, ei, k2),
    ensures
        k1 == k2,
{
    let r1 = if edge_fits(cells, ei, k1, 0) { 0int } else { 1int };
    let r2 = if edge_fits(cells, ei, k2, 0) { 0int } else { 1int };
    lemma_edge_pieces_distinct(k1, k2, r1, r2);
}

/// First rotation `r` (0..3) with `piece[(i + r) % 3] == c`.
fn corner_rot_for(piece: &[StickerColor; 3], i: usize, c: StickerColor) -> (res: Option<usize>)
    requires
        i < 3,
    ensures
        match res {
            Some(r) => r < 3 && piece[((i + r) % 3) as int] == c,
            None => piece[(i % 3) as int] != c && piece[((i + 1) % 3) as int] != c
                && piece[((i + 2) % 3) as int] != c,
        },
{
    let mut r: usize = 0;
    while r < 3
        invariant
            r <= 3,
            i < 3,
            r > 0 ==> piece[(i % 3) as int] != c,
            r > 1 ==> piece[((i + 1) % 3) as int] != c,
            r > 2 ==> piece[((i + 2) % 3) as int] != c,
        decreases 3 - r,
    {
        if piece[(i + r) % 3] == c {
            return Some(r);
        }
        r += 1;
    }
    None
}

/// First flip `r` (0..2) with `piece[(i + r) % 2] == c`.
fn edge_rot_for(piece: &[StickerColor; 2], i: usize, c: StickerColor) -> (res: Option<usize>)
    requires
        i < 2,
    ensures
        match res {
            Some(r) => r < 2 && piece[((i + r) % 2) as int] == c,
            None => piece[(i % 2) as int] != c && piece[((i + 1) % 2) as int] != c,
        },
{
    let mut r: usize = 0;
    while r < 2
        invariant
            r <= 2,
            i < 2,
            r > 0 ==> piece[(i % 2) as int] != c,
            r > 1 ==> piece[((i + 1) % 2) as int] != c,
        decreases 2 - r,
    {
        if piece[(i + r) % 2] == c {
            return Some(r);
        }
        r += 1;
    }
    None
}

/// Slots `0..n` of corner position `ci` agree with piece `k` turned by `r`.
pub open spec fn corner_prefix_fits(cells: Cells, ci: int, k: int, r: int, n: int) -> bool {
    &&& (n > 0 ==> corner_slot_fits(cells, ci, k, r, 0))
    &&& (n > 1 ==> corner_slot_fits(cells, ci, k, r, 1))
    &&& (n > 2 ==> corner_slot_fits(cells, ci, k, r, 2))
}

/// Some of slots `0..n` of corner position `ci` is known.
pub open spec fn corner_prefix_known(cells: Cells, ci: int, n: int) -> bool {
    ||| (n > 0 && cell(cells, cslot(ci, 0)) is Some)
    ||| (n > 1 && cell(cells, cslot(ci, 1)) is Some)
    ||| (n > 2 && cell(cells, cslot(ci, 2)) is Some)
}

/// Can piece `k` sit at corner position `ci`? If so, the orientation `r` in which it
/// agrees with the known stickers (`0` when none is known).
#[verifier::spinoff_prover]
#[verifier::rlimit(60)]
pub fn corner_consistent(cells: &Cells, ci: usize, k: usize) -> (res: Option<usize>)
    requires
        ci < 8,
        k < 8,
    ensures
        res is Some <==> corner_match(*cells, ci as int, k as int),
        res matches Some(r) ==> r < 3 && corner_fits(*cells, ci as int, k as int, r as int)
            && (!corner_known(*cells, ci as int) ==> r == 0),
{
    let slots = CORNER_FACELETS[ci];
    let piece = solved_corner_piece(k);
    let mut rot: Option<usize> = None;
    let mut i: usize = 0;
    while i < 3
        invariant
            i <= 3,
            ci < 8,
            k < 8,
            slots == CORNER_FACELETS[ci as int],
            piece[0] == corner_color(k as int, 0),
            piece[1] == corner_color(k as int, 1),
            piece[2] == corner_color(k as int, 2),
            rot is None <==> !corner_prefix_known(*cells, ci as int, i as int),
            rot matches Some(r0) ==> r0 < 3 && corner_prefix_fits(*cells, ci as int, k as int, r0 as int, i as int)
                && forall|r: int| 0 <= r < 3 && corner_prefix_fits(*cells, ci as int, k as int, r, i as int) ==> r == r0,
        decreases 3 - i,
    {
        let g = slots[i];
        if let Some(c) = get(cells, g) {
            match corner_rot_for(&piece, i, c) {
                None => {
                    proof {
                        assert forall|r: int| 0 <= r < 3 implies !corner_fits(*cells, ci as int, k as int, r) by {
                            assert(r == 0 || r == 1 || r == 2);
                        }
                    }
                    return None;
                }
                Some(r) => {
                    match rot {
                        None => {
                            rot = Some(r);
                            proof {
                                let ghost ni: int = i + 1;
                                assert forall|q: int| 0 <= q < 3 && #[trigger] corner_prefix_fits(*cells, ci as int, k as int, q, ni) implies q == r by {
                                    if q != r {
                                        lemma_corner_colors_distinct(k as int, (i + q) % 3, (i + r) % 3);
                                    }
                                }
                            }
                        }
                        Some(r0) => {
                            if r0 != r {
                                proof {
                                    assert forall|q: int| 0 <= q < 3 implies !corner_fits(*cells, ci as int, k as int, q) by {
                                        if corner_fits(*cells, ci as int, k as int, q) {
                                            assert(corner_prefix_fits(*cells, ci as int, k as int, q, i as int));
                                            if q != r {
                                                lemma_corner_colors_distinct(k as int, (i + q) % 3, (i + r) % 3);
                                            }
                                        }
                                    }
                                }
                                return None;
                            }
                        }
                    }
                }
            }
        }
        i += 1;
    }
    let r = match rot {
        Some(r) => r,
        None => 0,
    };
    r_some(r)
}

#[inline(always)]
fn r_some(r: usize) -> (res: Option<usize>)
    ensures
        res == Some(r),
{
    Some(r)
}

/// Slots `0..n` of edge position `ei` agree with piece `k` flipped by `r`.
pub open spec fn edge_prefix_fits(cells: Cells, ei: int, k: int, r: int, n: int) -> bool {
    &&& (n > 0 ==> edge_slot_fits(cells, ei, k, r, 0))
    &&& (n > 1 ==> edge_slot_fits(cells, ei, k, r, 1))
}

/// Some of slots `0..n` of edge position `ei` is known.
pub open spec fn edge_prefix_known(cells: Cells, ei: int, n: int) -> bool {
    ||| (n > 0 && cell(cells, eslot(ei, 0)) is Some)
    ||| (n > 1 && cell(cells, eslot(ei, 1)) is Some)
}

/// Can piece `k` sit at edge position `ei`? If so, the flip `r` in which it agrees
/// with the known stickers (`0` when none is known).
pub fn edge_consistent(cells: &Cells, ei: usize, k: usize) -> (res: Option<usize>)
    requires
        ei < 12,
        k < 12,
    ensures
        res is Some <==> edge_match(*cells, ei as int, k as int),
        res matches Some(r) ==> r < 2 && edge_fits(*cells, ei as int, k as int, r as int)
            && (!edge_known(*cells, ei as int) ==> r == 0),
{
    let slots = EDGE_FACELETS[ei];
    let piece = solved_edge_piece(k);
    let mut rot: Option<usize> = None;
    let mut i: usize = 0;
    while i < 2
        invariant
            i <= 2,
            ei < 12,
            k < 12,
            slots == EDGE_FACELETS[ei as int],
            piece[0] == edge_color(k as int, 0),
            piece[1] == edge_color(k as int, 1),
            rot is None <==> !edge_prefix_known(*cells, ei as int, i as int),
            rot matches Some(r0) ==> r0 < 2 && edge_prefix_fits(*cells, ei as int, k as int, r0 as int, i as int)
                && forall|r: int| 0 <= r < 2 && edge_prefix_fits(*cells, ei as int, k as int, r, i as int) ==> r == r0,
        decreases 2 - i,
    {
        let g = slots[i];
        if let Some(c) = get(cells, g) {
            match edge_rot_for(&piece, i, c) {
                None => {
                    proof {
                        assert forall|r: int| 0 <= r < 2 implies !edge_fits(*cells, ei as int, k as int, r) by {
                            assert(r == 0 || r == 1);
                        }
                    }
                    return None;
                }
                Some(r) => {
                    match rot {
                        None => {
                            rot = Some(r);
                            proof {
                                lemma_edge_colors_distinct(k as int);
                            }
                        }
                        Some(r0) => {
                            if r0 != r {
                                proof {
                                    lemma_edge_colors_distinct(k as int);
                                }
                                return None;
                            }
                        }
                    }
                }
            }
        }
        i += 1;
    }
    let r = match rot {
        Some(r) => r,
        None => 0,
    };
    r_some(r)
}

/// The triple `a` equals `b` shifted cyclically by `s`.
pub open spec fn cyclic_shift_eq(a: [StickerColor; 3], b: [StickerColor; 3], s: int) -> bool {
    a[0] == b[s % 3] && a[1] == b[(1 + s) % 3] && a[2] == b[(2 + s) % 3]
}

/// Do the two colour triples agree up to a cyclic shift?
pub fn same_cyclic(a: &[StickerColor; 3], b: &[StickerColor; 3]) -> (res: bool)
    ensures
        res == (cyclic_shift_eq(*a, *b, 0) || cyclic_shift_eq(*a, *b, 1) || cyclic_shift_eq(*a, *b, 2)),
{
    let mut s: usize = 0;
    while s < 3
        invariant
            s <= 3,
            s > 0 ==> !cyclic_shift_eq(*a, *b, 0),
            s > 1 ==> !cyclic_shift_eq(*a, *b, 1),
            s > 2 ==> !cyclic_shift_eq(*a, *b, 2),
        decreases 3 - s,
    {
        if a[0] == b[s % 3] && a[1] == b[(1 + s) % 3] && a[2] == b[(2 + s) % 3] {
            return true;
        }
        s += 1;
    }
    false
}

/// Piece `k` already occupies some fully known corner position.
pub open spec fn corner_used(cells: Cells, k: int) -> bool {
    exists|ci: int| 0 <= ci < 8 && corner_full(cells, ci) && corner_match(cells, ci, k)
}

/// Piece `k` already occupies some fully known edge position.
pub open spec fn edge_used(cells: Cells, k: int) -> bool {
    exists|ei: int| 0 <= ei < 12 && edge_full(cells, ei) && edge_match(cells, ei, k)
}

/// The piece sitting at corner position `ci`, when all three of its stickers are known
/// and show some piece in some orientation.
pub fn corner_piece_at(cells: &Cells, ci: usize) -> (res: Option<usize>)
    requires
        ci < 8,
    ensures
        match res {
            Some(k) => k < 8 && corner_full(*cells, ci as int) && corner_match(*cells, ci as int, k as int),
            None => !corner_full(*cells, ci as int)
                || forall|k: int| 0 <= k < 8 ==> !corner_match(*cells, ci as int, k),
        },
{
    let a = get(cells, CORNER_FACELETS[ci][0]);
    let b = get(cells, CORNER_FACELETS[ci][1]);
    let c = get(cells, CORNER_FACELETS[ci][2]);
    if let (Some(a), Some(b), Some(c)) = (a, b, c) {
        let cols = [a, b, c];
        let mut k: usize = 0;
        while k < 8
            invariant
                ci < 8,
                k <= 8,
                corner_full(*cells, ci as int),
                cols[0] == cell(*cells, cslot(ci as int, 0))->0,
                cols[1] == cell(*cells, cslot(ci as int, 1))->0,
                cols[2] == cell(*cells, cslot(ci as int, 2))->0,
                forall|q: int| 0 <= q < k ==> !corner_match(*cells, ci as int, q),
            decreases 8 - k,
        {
            let p = solved_corner_piece(k);
            if same_cyclic(&cols, &p) {
                return Some(k);
            }
            k += 1;
        }
    }
    None
}

/// The piece sitting at edge position `ei`, when both of its stickers are known and
/// show some piece in some orientation.
pub fn edge_piece_at(cells: &Cells, ei: usize) -> (res: Option<usize>)
    requires
        ei < 12,
    ensures
        match res {
            Some(k) => k < 12 && edge_full(*cells, ei as int) && edge_match(*cells, ei as int, k as int),
            None => !edge_full(*cells, ei as int)
                || forall|k: int| 0 <= k < 12 ==> !edge_match(*cells, ei as int, k),
        },
{
    let a = get(cells, EDGE_FACELETS[ei][0]);
    let b = get(cells, EDGE_FACELETS[ei][1]);
    if let (Some(a), Some(b)) = (a, b) {
        let mut k: usize = 0;
        while k < 12
            invariant
                ei < 12,
                k <= 12,
                edge_full(*cells, ei as int),
                a == cell(*cells, eslot(ei as int, 0))->0,
                b == cell(*cells, eslot(ei as int, 1))->0,
                forall|q: int| 0 <= q < k ==> !edge_match(*cells, ei as int, q),
            decreases 12 - k,
        {
            let p = solved_edge_piece(k);
            if (a == p[0] && b == p[1]) || (a == p[1] && b == p[0]) {
                return Some(k);
            }
            k += 1;
        }
    }
    None
}

/// The pieces already placed at fully known corner positions.
pub fn used_corners(cells: &Cells) -> (used: [bool; 8])
    ensures
        forall|k: int| 0 <= k < 8 ==> used[k] == corner_used(*cells, k),
{
    let mut used = [false; 8];
    let mut ci: usize = 0;
    while ci < 8
        invariant
            ci <= 8,
            forall|k: int| 0 <= k < 8 ==> used[k] == exists|cj: int| 0 <= cj < ci && corner_full(*cells, cj) && corner_match(*cells, cj, k),
        decreases 8 - ci,
    {
        if let Some(k) = corner_piece_at(cells, ci) {
            used[k] = true;
            proof {
                assert forall|q: int| 0 <= q < 8 && q != k implies !corner_match(*cells, ci as int, q) by {
                    if corner_match(*cells, ci as int, q) {
                        lemma_corner_match_unique(*cells, ci as int, q, k as int);
                    }
                }
            }
        }
        ci += 1;
    }
    used
}

/// The pieces already placed at fully known edge positions.
pub fn used_edges(cells: &Cells) -> (used: [bool; 12])
    ensures
        forall|k: int| 0 <= k < 12 ==> used[k] == edge_used(*cells, k),
{
    let mut used = [false; 12];
    let mut ei: usize = 0;
    while ei < 12
        invariant
            ei <= 12,
            forall|k: int| 0 <= k < 12 ==> used[k] == exists|ej: int| 0 <= ej < ei && edge_full(*cells, ej) && edge_match(*cells, ej, k),
        decreases 12 - ei,
    {
        if let Some(k) = edge_piece_at(cells, ei) {
            used[k] = true;
            proof {
                assert forall|q: int| 0 <= q < 12 && q != k implies !edge_match(*cells, ei as int, q) by {
                    if edge_match(*cells, ei as int, q) {
                        lemma_edge_match_unique(*cells, ei as int, q, k as int);
                    }
                }
            }
        }
        ei += 1;
    }
    used
}

} // verus!
