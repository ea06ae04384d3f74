//! Face turns keep a cube legal: each quarter turn moves four corners and four
//! edges round a cycle (an odd permutation of each), shifts their orientations by
//! amounts that cancel, and keeps the centres and the colour counts; half and
//! anticlockwise turns are made of quarter turns.

use vstd::prelude::*;
use crate::model::{solved_face_color, StickerColor};
use crate::pieces::{
    cell, corner_fits, corner_full, corner_match, count_of, count_upto, cslot, edge_fits, edge_full,
    edge_match, eslot, lemma_cells_ext, lemma_put_cells, put, Cells,
};
use crate::legal::{
    all_known, centers_fixed, corner_id, corner_perm, corner_twist, edge_flip, edge_id, edge_perm,
    flip_upto, inversions_at, inversions_from, is_even, legal, lemma_corner_id, lemma_edge_id,
    pieces_form_permutation, twist_upto,
};
use crate::moves::{lemma_flip_of_turn, lemma_twist_of_turn};
use crate::cube_core::{
    board_face, dest, dot_case, face_of_normal, half, index_spec, is_solved_board,
    lemma_dest_half_then_quarter, lemma_dest_twice, lemma_dest_undo, lemma_undo_undo, normal_spec,
    pos_spec, quarters, rot_by, rot_case, sticker, turned, undo, Face, Move, Turn, Vec3,
};

verus! {

/// `p` with the entries at `i` and `j` exchanged.
pub open spec fn swapped(p: Seq<int>, i: int, j: int) -> Seq<int> {
    p.update(i, p[j]).update(j, p[i])
}

/// No value occurs twice in `p`.
pub open spec fn distinct(p: Seq<int>) -> bool {
    forall|a: int, b: int| 0 <= a < p.len() && 0 <= b < p.len() && a != b ==> p[a] != p[b]
}

proof fn lemma_at_same(p: Seq<int>, q: Seq<int>, i: int, i2: int, j0: int)
    requires
        p.len() == q.len(),
        0 <= j0,
        q[i] == p[i2],
        forall|j: int| j0 <= j < p.len() ==> #[trigger] q[j] == p[j],
    ensures
        inversions_at(q, i, j0) == inversions_at(p, i2, j0),
    decreases p.len() - j0,
{
    if j0 < p.len() {
        lemma_at_same(p, q, i, i2, j0 + 1);
    }
}

proof fn lemma_from_same(p: Seq<int>, q: Seq<int>, i0: int)
    requires
        p.len() == q.len(),
        0 <= i0,
        forall|j: int| i0 <= j < p.len() ==> #[trigger] q[j] == p[j],
    ensures
        inversions_from(q, i0) == inversions_from(p, i0),
    decreases p.len() - i0,
{
    if i0 < p.len() {
        lemma_at_same(p, q, i0, i0, i0 + 1);
        lemma_from_same(p, q, i0 + 1);
    }
}

/// Counting from before `k`, an entry ahead of an adjacent exchange at `k` meets the
/// same larger entries.
proof fn lemma_at_before_adjacent(p: Seq<int>, i: int, k: int, j0: int)
    requires
        0 <= i < k,
        k + 1 < p.len(),
        i < j0 <= k,
    ensures
        inversions_at(swapped(p, k, k + 1), i, j0) == inversions_at(p, i, j0),
    decreases k - j0,
{
    let q = swapped(p, k, k + 1);
    if j0 < k {
        lemma_at_before_adjacent(p, i, k, j0 + 1);
    } else {
        lemma_at_same(p, q, i, i, k + 2);
        assert(inversions_at(q, i, k) == (if q[i] > q[k] { 1nat } else { 0nat }) + inversions_at(q, i, k + 1));
        assert(inversions_at(q, i, k + 1) == (if q[i] > q[k + 1] { 1nat } else { 0nat }) + inversions_at(q, i, k + 2));
        assert(inversions_at(p, i, k) == (if p[i] > p[k] { 1nat } else { 0nat }) + inversions_at(p, i, k + 1));
        assert(inversions_at(p, i, k + 1) == (if p[i] > p[k + 1] { 1nat } else { 0nat }) + inversions_at(p, i, k + 2));
    }
}

/// The inversions from `i0` (up to `k`) change by exactly what they change from `k`.
proof fn lemma_from_before_adjacent(p: Seq<int>, k: int, i0: int)
    requires
        0 <= i0 <= k,
        k + 1 < p.len(),
    ensures
        inversions_from(swapped(p, k, k + 1), i0) - inversions_from(p, i0)
            == inversions_from(swapped(p, k, k + 1), k) - inversions_from(p, k),
    decreases k - i0,
{
    if i0 < k {
        lemma_from_before_adjacent(p, k, i0 + 1);
        lemma_at_before_adjacent(p, i0, k, i0 + 1);
    }
}

/// Exchanging two neighbouring, different entries changes the parity.
pub proof fn lemma_adjacent_parity(p: Seq<int>, k: int)
    requires
        0 <= k,
        k + 1 < p.len(),
        p[k] != p[k + 1],
    ensures
        is_even(swapped(p, k, k + 1)) != is_even(p),
{
    let q = swapped(p, k, k + 1);
    lemma_from_same(p, q, k + 2);
    lemma_at_same(p, q, k, k + 1, k + 2);
    lemma_at_same(p, q, k + 1, k, k + 2);
    assert(inversions_at(p, k, k + 1) == (if p[k] > p[k + 1] { 1nat } else { 0nat }) + inversions_at(p, k, k + 2));
    assert(inversions_at(q, k, k + 1) == (if q[k] > q[k + 1] { 1nat } else { 0nat }) + inversions_at(q, k, k + 2));
    assert(inversions_from(p, k) == inversions_at(p, k, k + 1) + inversions_from(p, k + 1));
    assert(inversions_from(p, k + 1) == inversions_at(p, k + 1, k + 2) + inversions_from(p, k + 2));
    assert(inversions_from(q, k) == inversions_at(q, k, k + 1) + inversions_from(q, k + 1));
    assert(inversions_from(q, k + 1) == inversions_at(q, k + 1, k + 2) + inversions_from(q, k + 2));
    lemma_from_before_adjacent(p, k, 0);
}

proof fn lemma_swapped_distinct(p: Seq<int>, i: int, j: int)
    requires
        distinct(p),
        0 <= i < p.len(),
        0 <= j < p.len(),
    ensures
        distinct(swapped(p, i, j)),
        swapped(p, i, j).len() == p.len(),
{
    let q = swapped(p, i, j);
    assert forall|a: int, b: int| 0 <= a < q.len() && 0 <= b < q.len() && a != b implies q[a] != q[b] by {
        let pa = if a == j { i } else if a == i { j } else { a };
        let pb = if b == j { i } else if b == i { j } else { b };
        assert(q[a] == p[pa] && q[b] == p[pb]);
        if i != j {
            assert(pa != pb);
        }
    }
}

/// Exchanging two entries of an arrangement without repeated values changes its
/// parity.
pub proof fn lemma_swap_changes_parity(p: Seq<int>, i: int, j: int)
    requires
        distinct(p),
        0 <= i < j < p.len(),
    ensures
        is_even(swapped(p, i, j)) != is_even(p),
    decreases j - i,
{
    if j == i + 1 {
        lemma_adjacent_parity(p, i);
    } else {
        let p1 = swapped(p, j - 1, j);
        lemma_adjacent_parity(p, j - 1);
        lemma_swapped_distinct(p, j - 1, j);
        let p2 = swapped(p1, i, j - 1);
        lemma_swap_changes_parity(p1, i, j - 1);
        lemma_swapped_distinct(p1, i, j - 1);
        let p3 = swapped(p2, j - 1, j);
        lemma_adjacent_parity(p2, j - 1);
        assert(p3 =~= swapped(p, i, j));
    }
}

/// `k` quarter turns about face `c`'s normal, written out per face.
pub open spec fn rot_case_by(c: int, v: Vec3, k: int) -> Vec3 {
    if k == 1 {
        rot_case(c, v)
    } else if k == 2 {
        rot_case(c, rot_case(c, v))
    } else if k == 3 {
        rot_case(c, rot_case(c, rot_case(c, v)))
    } else {
        v
    }
}

/// [`dest`] with the turns written out per face.
pub open spec fn dest_lin(m: Move, g: int) -> int {
    let c = board_face(m.face);
    let b = g / 9;
    let p = pos_spec(b, g % 9);
    let k = quarters(m.turn);
    if dot_case(c, p) == 1 {
        let b2 = face_of_normal(rot_case_by(c, normal_spec(b), k));
        b2 * 9 + index_spec(b2, rot_case_by(c, p, k))
    } else {
        g
    }
}

proof fn lemma_rot_by_cases(c: int, v: Vec3, k: int)
    requires
        0 <= c < 6,
    ensures
        rot_by(normal_spec(c), v, k) == rot_case_by(c, v, k),
{
    crate::cube_core::lemma_rot_cases(c, v);
    crate::cube_core::lemma_rot_cases(c, rot_case(c, v));
    crate::cube_core::lemma_rot_cases(c, rot_case(c, rot_case(c, v)));
}

proof fn lemma_dest_lin(m: Move, g: int)
    ensures
        dest(m, g) == dest_lin(m, g),
{
    let c = board_face(m.face);
    let b = g / 9;
    let p = pos_spec(b, g % 9);
    let k = quarters(m.turn);
    crate::cube_core::lemma_dest_def(m, g);
    crate::cube_core::lemma_dot_cases(c, p);
    lemma_rot_by_cases(c, normal_spec(b), k);
    lemma_rot_by_cases(c, p, k);
}

/// Where a clockwise quarter turn of face `c` moves corner position `i`.
pub open spec fn cw_corner_to(c: int, i: int) -> int {
    if c == 0 {
        if i == 0 { 1 } else if i == 1 { 2 } else if i == 2 { 3 } else if i == 3 { 0 } else if i == 4 { 4 } else if i == 5 { 5 } else if i == 6 { 6 } else { 7 }
    } else if c == 1 {
        if i == 0 { 3 } else if i == 1 { 1 } else if i == 2 { 2 } else if i == 3 { 7 } else if i == 4 { 0 } else if i == 5 { 5 } else if i == 6 { 6 } else { 4 }
    } else if c == 2 {
        if i == 0 { 4 } else if i == 1 { 0 } else if i == 2 { 2 } else if i == 3 { 3 } else if i == 4 { 5 } else if i == 5 { 1 } else if i == 6 { 6 } else { 7 }
    } else if c == 3 {
        if i == 0 { 0 } else if i == 1 { 1 } else if i == 2 { 2 } else if i == 3 { 3 } else if i == 4 { 7 } else if i == 5 { 4 } else if i == 6 { 5 } else { 6 }
    } else if c == 4 {
        if i == 0 { 0 } else if i == 1 { 5 } else if i == 2 { 1 } else if i == 3 { 3 } else if i == 4 { 4 } else if i == 5 { 6 } else if i == 6 { 2 } else { 7 }
    } else {
        if i == 0 { 0 } else if i == 1 { 1 } else if i == 2 { 6 } else if i == 3 { 2 } else if i == 4 { 4 } else if i == 5 { 5 } else if i == 6 { 7 } else { 3 }
    }
}

/// By how many slots a clockwise quarter turn of face `c` shifts the stickers of corner position `i`.
pub open spec fn cw_corner_shift(c: int, i: int) -> int {
    if c == 0 {
        if i == 0 { 0 } else if i == 1 { 0 } else if i == 2 { 0 } else if i == 3 { 0 } else if i == 4 { 0 } else if i == 5 { 0 } else if i == 6 { 0 } else { 0 }
    } else if c == 1 {
        if i == 0 { 1 } else if i == 1 { 0 } else if i == 2 { 0 } else if i == 3 { 2 } else if i == 4 { 2 } else if i == 5 { 0 } else if i == 6 { 0 } else { 1 }
    } else if c == 2 {
        if i == 0 { 2 } else if i == 1 { 1 } else if i == 2 { 0 } else if i == 3 { 0 } else if i == 4 { 1 } else if i == 5 { 2 } else if i == 6 { 0 } else { 0 }
    } else if c == 3 {
        if i == 0 { 0 } else if i == 1 { 0 } else if i == 2 { 0 } else if i == 3 { 0 } else if i == 4 { 0 } else if i == 5 { 0 } else if i == 6 { 0 } else { 0 }
    } else if c == 4 {
        if i == 0 { 0 } else if i == 1 { 2 } else if i == 2 { 1 } else if i == 3 { 0 } else if i == 4 { 0 } else if i == 5 { 1 } else if i == 6 { 2 } else { 0 }
    } else {
        if i == 0 { 0 } else if i == 1 { 0 } else if i == 2 { 2 } else if i == 3 { 1 } else if i == 4 { 0 } else if i == 5 { 0 } else if i == 6 { 1 } else { 2 }
    }
}

/// Which corner position a clockwise quarter turn of face `c` moves to position `i`.
pub open spec fn cw_corner_from(c: int, i: int) -> int {
    if c == 0 {
        if i == 0 { 3 } else if i == 1 { 0 } else if i == 2 { 1 } else if i == 3 { 2 } else if i == 4 { 4 } else if i == 5 { 5 } else if i == 6 { 6 } else { 7 }
    } else if c == 1 {
        if i == 0 { 4 } else if i == 1 { 1 } else if i == 2 { 2 } else if i == 3 { 0 } else if i == 4 { 7 } else if i == 5 { 5 } else if i == 6 { 6 } else { 3 }
    } else if c == 2 {
        if i == 0 { 1 } else if i == 1 { 5 } else if i == 2 { 2 } else if i == 3 { 3 } else if i == 4 { 0 } else if i == 5 { 4 } else if i == 6 { 6 } else { 7 }
    } else if c == 3 {
        if i == 0 { 0 } else if i == 1 { 1 } else if i == 2 { 2 } else if i == 3 { 3 } else if i == 4 { 5 } else if i == 5 { 6 } else if i == 6 { 7 } else { 4 }
    } else if c == 4 {
        if i == 0 { 0 } else if i == 1 { 2 } else if i == 2 { 6 } else if i == 3 { 3 } else if i == 4 { 4 } else if i == 5 { 1 } else if i == 6 { 5 } else { 7 }
    } else {
        if i == 0 { 0 } else if i == 1 { 1 } else if i == 2 { 3 } else if i == 3 { 7 } else if i == 4 { 4 } else if i == 5 { 5 } else if i == 6 { 2 } else { 6 }
    }
}

/// Where a clockwise quarter turn of face `c` moves edge position `i`.
pub open spec fn cw_edge_to(c: int, i: int) -> int {
    if c == 0 {
        if i == 0 { 1 } else if i == 1 { 2 } else if i == 2 { 3 } else if i == 3 { 0 } else if i == 4 { 4 } else if i == 5 { 5 } else if i == 6 { 6 } else if i == 7 { 7 } else if i == 8 { 8 } else if i == 9 { 9 } else if i == 10 { 10 } else { 11 }
    } else if c == 1 {
        if i == 0 { 11 } else if i == 1 { 1 } else if i == 2 { 2 } else if i == 3 { 3 } else if i == 4 { 8 } else if i == 5 { 5 } else if i == 6 { 6 } else if i == 7 { 7 } else if i == 8 { 0 } else if i == 9 { 9 } else if i == 10 { 10 } else { 4 }
    } else if c == 2 {
        if i == 0 { 0 } else if i == 1 { 8 } else if i == 2 { 2 } else if i == 3 { 3 } else if i == 4 { 4 } else if i == 5 { 9 } else if i == 6 { 6 } else if i == 7 { 7 } else if i == 8 { 5 } else if i == 9 { 1 } else if i == 10 { 10 } else { 11 }
    } else if c == 3 {
        if i == 0 { 0 } else if i == 1 { 1 } else if i == 2 { 2 } else if i == 3 { 3 } else if i == 4 { 7 } else if i == 5 { 4 } else if i == 6 { 5 } else if i == 7 { 6 } else if i == 8 { 8 } else if i == 9 { 9 } else if i == 10 { 10 } else { 11 }
    } else if c == 4 {
        if i == 0 { 0 } else if i == 1 { 1 } else if i == 2 { 9 } else if i == 3 { 3 } else if i == 4 { 4 } else if i == 5 { 5 } else if i == 6 { 10 } else if i == 7 { 7 } else if i == 8 { 8 } else if i == 9 { 6 } else if i == 10 { 2 } else { 11 }
    } else {
        if i == 0 { 0 } else if i == 1 { 1 } else if i == 2 { 2 } else if i == 3 { 10 } else if i == 4 { 4 } else if i == 5 { 5 } else if i == 6 { 6 } else if i == 7 { 11 } else if i == 8 { 8 } else if i == 9 { 9 } else if i == 10 { 7 } else { 3 }
    }
}

/// By how many slots a clockwise quarter turn of face `c` shifts the stickers of edge position `i`.
pub open spec fn cw_edge_shift(c: int, i: int) -> int {
    if c == 0 {
        if i == 0 { 0 } else if i == 1 { 0 } else if i == 2 { 0 } else if i == 3 { 0 } else if i == 4 { 0 } else if i == 5 { 0 } else if i == 6 { 0 } else if i == 7 { 0 } else if i == 8 { 0 } else if i == 9 { 0 } else if i == 10 { 0 } else { 0 }
    } else if c == 1 {
        if i == 0 { 0 } else if i == 1 { 0 } else if i == 2 { 0 } else if i == 3 { 0 } else if i == 4 { 0 } else if i == 5 { 0 } else if i == 6 { 0 } else if i == 7 { 0 } else if i == 8 { 0 } else if i == 9 { 0 } else if i == 10 { 0 } else { 0 }
    } else if c == 2 {
        if i == 0 { 0 } else if i == 1 { 1 } else if i == 2 { 0 } else if i == 3 { 0 } else if i == 4 { 0 } else if i == 5 { 1 } else if i == 6 { 0 } else if i == 7 { 0 } else if i == 8 { 1 } else if i == 9 { 1 } else if i == 10 { 0 } else { 0 }
    } else if c == 3 {
        if i == 0 { 0 } else if i == 1 { 0 } else if i == 2 { 0 } else if i == 3 { 0 } else if i == 4 { 0 } else if i == 5 { 0 } else if i == 6 { 0 } else if i == 7 { 0 } else if i == 8 { 0 } else if i == 9 { 0 } else if i == 10 { 0 } else { 0 }
    } else if c == 4 {
        if i == 0 { 0 } else if i == 1 { 0 } else if i == 2 { 0 } else if i == 3 { 0 } else if i == 4 { 0 } else if i == 5 { 0 } else if i == 6 { 0 } else if i == 7 { 0 } else if i == 8 { 0 } else if i == 9 { 0 } else if i == 10 { 0 } else { 0 }
    } else {
        if i == 0 { 0 } else if i == 1 { 0 } else if i == 2 { 0 } else if i == 3 { 1 } else if i == 4 { 0 } else if i == 5 { 0 } else if i == 6 { 0 } else if i == 7 { 1 } else if i == 8 { 0 } else if i == 9 { 0 } else if i == 10 { 1 } else { 1 }
    }
}

/// Which edge position a clockwise quarter turn of face `c` moves to position `i`.
pub open spec fn cw_edge_from(c: int, i: int) -> int {
    if c == 0 {
        if i == 0 { 3 } else if i == 1 { 0 } else if i == 2 { 1 } else if i == 3 { 2 } else if i == 4 { 4 } else if i == 5 { 5 } else if i == 6 { 6 } else if i == 7 { 7 } else if i == 8 { 8 } else if i == 9 { 9 } else if i == 10 { 10 } else { 11 }
    } else if c == 1 {
        if i == 0 { 8 } else if i == 1 { 1 } else if i == 2 { 2 } else if i == 3 { 3 } else if i == 4 { 11 } else if i == 5 { 5 } else if i == 6 { 6 } else if i == 7 { 7 } else if i == 8 { 4 } else if i == 9 { 9 } else if i == 10 { 10 } else { 0 }
    } else if c == 2 {
        if i == 0 { 0 } else if i == 1 { 9 } else if i == 2 { 2 } else if i == 3 { 3 } else if i == 4 { 4 } else if i == 5 { 8 } else if i == 6 { 6 } else if i == 7 { 7 } else if i == 8 { 1 } else if i == 9 { 5 } else if i == 10 { 10 } else { 11 }
    } else if c == 3 {
        if i == 0 { 0 } else if i == 1 { 1 } else if i == 2 { 2 } else if i == 3 { 3 } else if i == 4 { 5 } else if i == 5 { 6 } else if i == 6 { 7 } else if i == 7 { 4 } else if i == 8 { 8 } else if i == 9 { 9 } else if i == 10 { 10 } else { 11 }
    } else if c == 4 {
        if i == 0 { 0 } else if i == 1 { 1 } else if i == 2 { 10 } else if i == 3 { 3 } else if i == 4 { 4 } else if i == 5 { 5 } else if i == 6 { 9 } else if i == 7 { 7 } else if i == 8 { 8 } else if i == 9 { 2 } else if i == 10 { 6 } else { 11 }
    } else {
        if i == 0 { 0 } else if i == 1 { 1 } else if i == 2 { 2 } else if i == 3 { 11 } else if i == 4 { 4 } else if i == 5 { 5 } else if i == 6 { 6 } else if i == 7 { 10 } else if i == 8 { 8 } else if i == 9 { 9 } else if i == 10 { 3 } else { 7 }
    }
}

/// A clockwise quarter turn of face U on the corner, edge and centre stickers.
proof fn lemma_cw_pieces_u()
    ensures
        forall|ci: int, s: int| 0 <= ci < 8 && 0 <= s < 3 ==> #[trigger] dest(Move { face: Face::U, turn: Turn::Cw }, cslot(ci, s))
            == cslot(cw_corner_to(0, ci), (s + cw_corner_shift(0, ci)) % 3),
        forall|ei: int, s: int| 0 <= ei < 12 && 0 <= s < 2 ==> #[trigger] dest(Move { face: Face::U, turn: Turn::Cw }, eslot(ei, s))
            == eslot(cw_edge_to(0, ei), (s + cw_edge_shift(0, ei)) % 2),
        forall|f: int| 0 <= f < 6 ==> #[trigger] dest(Move { face: Face::U, turn: Turn::Cw }, f * 9 + 4) == f * 9 + 4,
{
    let m = Move { face: Face::U, turn: Turn::Cw };
    assert forall|ci: int, s: int| 0 <= ci < 8 && 0 <= s < 3 implies #[trigger] dest(m, cslot(ci, s))
        == cslot(cw_corner_to(0, ci), (s + cw_corner_shift(0, ci)) % 3) by {
        lemma_dest_lin(m, cslot(ci, s));
    }
    assert forall|ei: int, s: int| 0 <= ei < 12 && 0 <= s < 2 implies #[trigger] dest(m, eslot(ei, s))
        == eslot(cw_edge_to(0, ei), (s + cw_edge_shift(0, ei)) % 2) by {
        lemma_dest_lin(m, eslot(ei, s));
    }
    assert forall|f: int| 0 <= f < 6 implies #[trigger] dest(m, f * 9 + 4) == f * 9 + 4 by {
        lemma_dest_lin(m, f * 9 + 4);
    }
}

/// A clockwise quarter turn of face R on the corner, edge and centre stickers.
proof fn lemma_cw_pieces_r()
    ensures
        forall|ci: int, s: int| 0 <= ci < 8 && 0 <= s < 3 ==> #[trigger] dest(Move { face: Face::R, turn: Turn::Cw }, cslot(ci, s))
            == cslot(cw_corner_to(1, ci), (s + cw_corner_shift(1, ci)) % 3),
        forall|ei: int, s: int| 0 <= ei < 12 && 0 <= s < 2 ==> #[trigger] dest(Move { face: Face::R, turn: Turn::Cw }, eslot(ei, s))
            == eslot(cw_edge_to(1, ei), (s + cw_edge_shift(1, ei)) % 2),
        forall|f: int| 0 <= f < 6 ==> #[trigger] dest(Move { face: Face::R, turn: Turn::Cw }, f * 9 + 4) == f * 9 + 4,
{
    let m = Move { face: Face::R, turn: Turn::Cw };
    assert forall|ci: int, s: int| 0 <= ci < 8 && 0 <= s < 3 implies #[trigger] dest(m, cslot(ci, s))
        == cslot(cw_corner_to(1, ci), (s + cw_corner_shift(1, ci)) % 3) by {
        lemma_dest_lin(m, cslot(ci, s));
    }
    assert forall|ei: int, s: int| 0 <= ei < 12 && 0 <= s < 2 implies #[trigger] dest(m, eslot(ei, s))
        == eslot(cw_edge_to(1, ei), (s + cw_edge_shift(1, ei)) % 2) by {
        lemma_dest_lin(m, eslot(ei, s));
    }
    assert forall|f: int| 0 <= f < 6 implies #[trigger] dest(m, f * 9 + 4) == f * 9 + 4 by {
        lemma_dest_lin(m, f * 9 + 4);
    }
}

/// A clockwise quarter turn of face F on the corner, edge and centre stickers.
proof fn lemma_cw_pieces_f()
    ensures
        forall|ci: int, s: int| 0 <= ci < 8 && 0 <= s < 3 ==> #[trigger] dest(Move { face: Face::F, turn: Turn::Cw }, cslot(ci, s))
            == cslot(cw_corner_to(2, ci), (s + cw_corner_shift(2, ci)) % 3),
        forall|ei: int, s: int| 0 <= ei < 12 && 0 <= s < 2 ==> #[trigger] dest(Move { face: Face::F, turn: Turn::Cw }, eslot(ei, s))
            == eslot(cw_edge_to(2, ei), (s + cw_edge_shift(2, ei)) % 2),
        forall|f: int| 0 <= f < 6 ==> #[trigger] dest(Move { face: Face::F, turn: Turn::Cw }, f * 9 + 4) == f * 9 + 4,
{
    let m = Move { face: Face::F, turn: Turn::Cw };
    assert forall|ci: int, s: int| 0 <= ci < 8 && 0 <= s < 3 implies #[trigger] dest(m, cslot(ci, s))
        == cslot(cw_corner_to(2, ci), (s + cw_corner_shift(2, ci)) % 3) by {
        lemma_dest_lin(m, cslot(ci, s));
    }
    assert forall|ei: int, s: int| 0 <= ei < 12 && 0 <= s < 2 implies #[trigger] dest(m, eslot(ei, s))
        == eslot(cw_edge_to(2, ei), (s + cw_edge_shift(2, ei)) % 2) by {
        lemma_dest_lin(m, eslot(ei, s));
    }
    assert forall|f: int| 0 <= f < 6 implies #[trigger] dest(m, f * 9 + 4) == f * 9 + 4 by {
        lemma_dest_lin(m, f * 9 + 4);
    }
}

/// A clockwise quarter turn of face D on the corner, edge and centre stickers.
proof fn lemma_cw_pieces_d()
    ensures
        forall|ci: int, s: int| 0 <= ci < 8 && 0 <= s < 3 ==> #[trigger] dest(Move { face: Face::D, turn: Turn::Cw }, cslot(ci, s))
            == cslot(cw_corner_to(3, ci), (s + cw_corner_shift(3, ci)) % 3),
        forall|ei: int, s: int| 0 <= ei < 12 && 0 <= s < 2 ==> #[trigger] dest(Move { face: Face::D, turn: Turn::Cw }, eslot(ei, s))
            == eslot(cw_edge_to(3, ei), (s + cw_edge_shift(3, ei)) % 2),
        forall|f: int| 0 <= f < 6 ==> #[trigger] dest(Move { face: Face::D, turn: Turn::Cw }, f * 9 + 4) == f * 9 + 4,
{
    let m = Move { face: Face::D, turn: Turn::Cw };
    assert forall|ci: int, s: int| 0 <= ci < 8 && 0 <= s < 3 implies #[trigger] dest(m, cslot(ci, s))
        == cslot(cw_corner_to(3, ci), (s + cw_corner_shift(3, ci)) % 3) by {
        lemma_dest_lin(m, cslot(ci, s));
    }
    assert forall|ei: int, s: int| 0 <= ei < 12 && 0 <= s < 2 implies #[trigger] dest(m, eslot(ei, s))
        == eslot(cw_edge_to(3, ei), (s + cw_edge_shift(3, ei)) % 2) by {
        lemma_dest_lin(m, eslot(ei, s));
    }
    assert forall|f: int| 0 <= f < 6 implies #[trigger] dest(m, f * 9 + 4) == f * 9 + 4 by {
        lemma_dest_lin(m, f * 9 + 4);
    }
}

/// A clockwise quarter turn of face L on the corner, edge and centre stickers.
proof fn lemma_cw_pieces_l()
    ensures
        forall|ci: int, s: int| 0 <= ci < 8 && 0 <= s < 3 ==> #[trigger] dest(Move { face: Face::L, turn: Turn::Cw }, cslot(ci, s))
            == cslot(cw_corner_to(4, ci), (s + cw_corner_shift(4, ci)) % 3),
        forall|ei: int, s: int| 0 <= ei < 12 && 0 <= s < 2 ==> #[trigger] dest(Move { face: Face::L, turn: Turn::Cw }, eslot(ei, s))
            == eslot(cw_edge_to(4, ei), (s + cw_edge_shift(4, ei)) % 2),
        forall|f: int| 0 <= f < 6 ==> #[trigger] dest(Move { face: Face::L, turn: Turn::Cw }, f * 9 + 4) == f * 9 + 4,
{
    let m = Move { face: Face::L, turn: Turn::Cw };
    assert forall|ci: int, s: int| 0 <= ci < 8 && 0 <= s < 3 implies #[trigger] dest(m, cslot(ci, s))
        == cslot(cw_corner_to(4, ci), (s + cw_corner_shift(4, ci)) % 3) by {
        lemma_dest_lin(m, cslot(ci, s));
    }
    assert forall|ei: int, s: int| 0 <= ei < 12 && 0 <= s < 2 implies #[trigger] dest(m, eslot(ei, s))
        == eslot(cw_edge_to(4, ei), (s + cw_edge_shift(4, ei)) % 2) by {
        lemma_dest_lin(m, eslot(ei, s));
    }
    assert forall|f: int| 0 <= f < 6 implies #[trigger] dest(m, f * 9 + 4) == f * 9 + 4 by {
        lemma_dest_lin(m, f * 9 + 4);
    }
}

/// A clockwise quarter turn of face B on the corner, edge and centre stickers.
proof fn lemma_cw_pieces_b()
    ensures
        forall|ci: int, s: int| 0 <= ci < 8 && 0 <= s < 3 ==> #[trigger] dest(Move { face: Face::B, turn: Turn::Cw }, cslot(ci, s))
            == cslot(cw_corner_to(5, ci), (s + cw_corner_shift(5, ci)) % 3),
        forall|ei: int, s: int| 0 <= ei < 12 && 0 <= s < 2 ==> #[trigger] dest(Move { face: Face::B, turn: Turn::Cw }, eslot(ei, s))
            == eslot(cw_edge_to(5, ei), (s + cw_edge_shift(5, ei)) % 2),
        forall|f: int| 0 <= f < 6 ==> #[trigger] dest(Move { face: Face::B, turn: Turn::Cw }, f * 9 + 4) == f * 9 + 4,
{
    let m = Move { face: Face::B, turn: Turn::Cw };
    assert forall|ci: int, s: int| 0 <= ci < 8 && 0 <= s < 3 implies #[trigger] dest(m, cslot(ci, s))
        == cslot(cw_corner_to(5, ci), (s + cw_corner_shift(5, ci)) % 3) by {
        lemma_dest_lin(m, cslot(ci, s));
    }
    assert forall|ei: int, s: int| 0 <= ei < 12 && 0 <= s < 2 implies #[trigger] dest(m, eslot(ei, s))
        == eslot(cw_edge_to(5, ei), (s + cw_edge_shift(5, ei)) % 2) by {
        lemma_dest_lin(m, eslot(ei, s));
    }
    assert forall|f: int| 0 <= f < 6 implies #[trigger] dest(m, f * 9 + 4) == f * 9 + 4 by {
        lemma_dest_lin(m, f * 9 + 4);
    }
}


/// `y` is the board `x` with move `m` made: every sticker has gone where the move
/// carries it.
pub open spec fn cells_turned(x: Cells, y: Cells, m: Move) -> bool {
    forall|g: int| 0 <= g < 54 ==> #[trigger] cell(y, dest(m, g)) == cell(x, g)
}

/// A clockwise quarter turn on the corner, edge and centre stickers.
proof fn lemma_cw_pieces(m: Move)
    requires
        m.turn == Turn::Cw,
    ensures
        forall|ci: int, s: int| 0 <= ci < 8 && 0 <= s < 3 ==> #[trigger] dest(m, cslot(ci, s))
            == cslot(cw_corner_to(board_face(m.face), ci), (s + cw_corner_shift(board_face(m.face), ci)) % 3),
        forall|ei: int, s: int| 0 <= ei < 12 && 0 <= s < 2 ==> #[trigger] dest(m, eslot(ei, s))
            == eslot(cw_edge_to(board_face(m.face), ei), (s + cw_edge_shift(board_face(m.face), ei)) % 2),
        forall|f: int| 0 <= f < 6 ==> #[trigger] dest(m, f * 9 + 4) == f * 9 + 4,
{
    match m.face {
        Face::U => lemma_cw_pieces_u(),
        Face::R => lemma_cw_pieces_r(),
        Face::F => lemma_cw_pieces_f(),
        Face::D => lemma_cw_pieces_d(),
        Face::L => lemma_cw_pieces_l(),
        Face::B => lemma_cw_pieces_b(),
    }
}

/// The tables of a clockwise quarter turn describe a permutation of the positions,
/// with shifts in range.
proof fn lemma_cw_tables(c: int)
    requires
        0 <= c < 6,
    ensures
        forall|i: int| 0 <= i < 8 ==> 0 <= #[trigger] cw_corner_to(c, i) < 8 && 0 <= cw_corner_shift(c, i) < 3
            && cw_corner_from(c, cw_corner_to(c, i)) == i,
        forall|j: int| 0 <= j < 8 ==> 0 <= #[trigger] cw_corner_from(c, j) < 8 && cw_corner_to(c, cw_corner_from(c, j)) == j,
        forall|i: int| 0 <= i < 12 ==> 0 <= #[trigger] cw_edge_to(c, i) < 12 && 0 <= cw_edge_shift(c, i) < 2
            && cw_edge_from(c, cw_edge_to(c, i)) == i,
        forall|j: int| 0 <= j < 12 ==> 0 <= #[trigger] cw_edge_from(c, j) < 12 && cw_edge_to(c, cw_edge_from(c, j)) == j,
{
}

proof fn lemma_corner_shift_fits(x: Cells, y: Cells, i: int, j: int, sh: int, k: int, r: int)
    requires
        0 <= i < 8,
        0 <= j < 8,
        0 <= sh < 3,
        0 <= r < 3,
        corner_full(x, i),
        corner_fits(x, i, k, r),
        forall|s: int| 0 <= s < 3 ==> #[trigger] cell(y, cslot(j, (s + sh) % 3)) == cell(x, cslot(i, s)),
    ensures
        corner_full(y, j),
        corner_fits(y, j, k, (r + 3 - sh) % 3),
{
    assert(cell(y, cslot(j, (0 + sh) % 3)) == cell(x, cslot(i, 0)));
    assert(cell(y, cslot(j, (1 + sh) % 3)) == cell(x, cslot(i, 1)));
    assert(cell(y, cslot(j, (2 + sh) % 3)) == cell(x, cslot(i, 2)));
    let r2 = (r + 3 - sh) % 3;
    if sh == 0 {
        assert(r2 == r);
    } else if sh == 1 {
        assert(cell(y, cslot(j, 1)) == cell(x, cslot(i, 0)));
        assert(cell(y, cslot(j, 2)) == cell(x, cslot(i, 1)));
        assert(cell(y, cslot(j, 0)) == cell(x, cslot(i, 2)));
    } else {
        assert(cell(y, cslot(j, 2)) == cell(x, cslot(i, 0)));
        assert(cell(y, cslot(j, 0)) == cell(x, cslot(i, 1)));
        assert(cell(y, cslot(j, 1)) == cell(x, cslot(i, 2)));
    }
}

/// A full corner moved to position `j` with its stickers shifted by `sh` slots keeps
/// its piece, and its twist advances by `sh`.
proof fn lemma_corner_moved(x: Cells, y: Cells, i: int, j: int, sh: int, k: int, r: int)
    requires
        0 <= i < 8,
        0 <= j < 8,
        0 <= sh < 3,
        0 <= k < 8,
        0 <= r < 3,
        corner_full(x, i),
        corner_fits(x, i, k, r),
        forall|s: int| 0 <= s < 3 ==> #[trigger] cell(y, cslot(j, (s + sh) % 3)) == cell(x, cslot(i, s)),
    ensures
        corner_full(y, j),
        corner_id(x, i) == k,
        corner_id(y, j) == k,
        corner_twist(y, j) == (corner_twist(x, i) + sh) % 3,
{
    let r2 = (r + 3 - sh) % 3;
    lemma_corner_shift_fits(x, y, i, j, sh, k, r);
    lemma_corner_id(x, i, k);
    lemma_corner_id(y, j, k);
    lemma_twist_of_turn(x, i, k, r);
    lemma_twist_of_turn(y, j, k, r2);
}

proof fn lemma_edge_shift_fits(x: Cells, y: Cells, i: int, j: int, sh: int, k: int, r: int)
    requires
        0 <= i < 12,
        0 <= j < 12,
        0 <= sh < 2,
        0 <= r < 2,
        edge_full(x, i),
        edge_fits(x, i, k, r),
        forall|s: int| 0 <= s < 2 ==> #[trigger] cell(y, eslot(j, (s + sh) % 2)) == cell(x, eslot(i, s)),
    ensures
        edge_full(y, j),
        edge_fits(y, j, k, (r + 2 - sh) % 2),
{
    assert(cell(y, eslot(j, (0 + sh) % 2)) == cell(x, eslot(i, 0)));
    assert(cell(y, eslot(j, (1 + sh) % 2)) == cell(x, eslot(i, 1)));
    if sh == 0 {
        assert((r + 2 - sh) % 2 == r);
    } else {
        assert(cell(y, eslot(j, 1)) == cell(x, eslot(i, 0)));
        assert(cell(y, eslot(j, 0)) == cell(x, eslot(i, 1)));
    }
}

/// A full edge moved to position `j` with its stickers shifted by `sh` slots keeps
/// its piece, and its flip changes by `sh`.
proof fn lemma_edge_moved(x: Cells, y: Cells, i: int, j: int, sh: int, k: int, r: int)
    requires
        0 <= i < 12,
        0 <= j < 12,
        0 <= sh < 2,
        0 <= k < 12,
        0 <= r < 2,
        edge_full(x, i),
        edge_fits(x, i, k, r),
        forall|s: int| 0 <= s < 2 ==> #[trigger] cell(y, eslot(j, (s + sh) % 2)) == cell(x, eslot(i, s)),
    ensures
        edge_full(y, j),
        edge_id(x, i) == k,
        edge_id(y, j) == k,
        edge_flip(y, j) == (edge_flip(x, i) + sh) % 2,
{
    let r2 = (r + 2 - sh) % 2;
    lemma_edge_shift_fits(x, y, i, j, sh, k, r);
    lemma_edge_id(x, i, k);
    lemma_edge_id(y, j, k);
    lemma_flip_of_turn(x, i, k, r);
    lemma_flip_of_turn(y, j, k, r2);
}

/// A clockwise quarter turn carries the corner at position `i` to its new position
/// with its twist advanced by the turn's shift.
proof fn lemma_cw_corner(x: Cells, y: Cells, m: Move, i: int)
    requires
        all_known(x),
        pieces_form_permutation(x),
        cells_turned(x, y, m),
        m.turn == Turn::Cw,
        0 <= i < 8,
    ensures
        0 <= cw_corner_to(board_face(m.face), i) < 8,
        corner_full(y, cw_corner_to(board_face(m.face), i)),
        corner_id(y, cw_corner_to(board_face(m.face), i)) == corner_id(x, i),
        corner_twist(y, cw_corner_to(board_face(m.face), i))
            == (corner_twist(x, i) + cw_corner_shift(board_face(m.face), i)) % 3,
{
    let c = board_face(m.face);
    lemma_cw_tables(c);
    let j = cw_corner_to(c, i);
    let sh = cw_corner_shift(c, i);
    assert forall|s: int| 0 <= s < 3 implies #[trigger] cell(y, cslot(j, (s + sh) % 3)) == cell(x, cslot(i, s)) by {
        crate::feasible::lemma_slots_distinct();
        assert(0 <= cslot(i, s) < 54);
        assert(dest(m, cslot(i, s)) == cslot(j, (s + sh) % 3)) by {
            lemma_cw_pieces(m);
        }
        assert(cell(y, dest(m, cslot(i, s))) == cell(x, cslot(i, s)));
    }
    let k = corner_id(x, i);
    assert(0 <= k < 8);
    assert(corner_match(x, i, k));
    let r = if corner_fits(x, i, k, 0) { 0int } else if corner_fits(x, i, k, 1) { 1int } else { 2int };
    assert(corner_full(x, i));
    lemma_corner_moved(x, y, i, j, sh, k, r);
}

/// A clockwise quarter turn carries the edge at position `i` to its new position
/// with its flip changed by the turn's shift.
proof fn lemma_cw_edge(x: Cells, y: Cells, m: Move, i: int)
    requires
        all_known(x),
        pieces_form_permutation(x),
        cells_turned(x, y, m),
        m.turn == Turn::Cw,
        0 <= i < 12,
    ensures
        0 <= cw_edge_to(board_face(m.face), i) < 12,
        edge_full(y, cw_edge_to(board_face(m.face), i)),
        edge_id(y, cw_edge_to(board_face(m.face), i)) == edge_id(x, i),
        edge_flip(y, cw_edge_to(board_face(m.face), i))
            == (edge_flip(x, i) + cw_edge_shift(board_face(m.face), i)) % 2,
{
    let c = board_face(m.face);
    lemma_cw_tables(c);
    let j = cw_edge_to(c, i);
    let sh = cw_edge_shift(c, i);
    assert forall|s: int| 0 <= s < 2 implies #[trigger] cell(y, eslot(j, (s + sh) % 2)) == cell(x, eslot(i, s)) by {
        crate::feasible::lemma_slots_distinct();
        assert(0 <= eslot(i, s) < 54);
        assert(dest(m, eslot(i, s)) == eslot(j, (s + sh) % 2)) by {
            lemma_cw_pieces(m);
        }
        assert(cell(y, dest(m, eslot(i, s))) == cell(x, eslot(i, s)));
    }
    let k = edge_id(x, i);
    assert(0 <= k < 12);
    assert(edge_match(x, i, k));
    let r = if edge_fits(x, i, k, 0) { 0int } else { 1int };
    assert(edge_full(x, i));
    lemma_edge_moved(x, y, i, j, sh, k, r);
}

/// A clockwise quarter turn rearranges the corner pieces by an odd permutation.
proof fn lemma_cw_corner_parity(c: int, px: Seq<int>, py: Seq<int>)
    requires
        0 <= c < 6,
        px.len() == 8,
        py.len() == 8,
        distinct(px),
        forall|j: int| 0 <= j < 8 ==> #[trigger] py[j] == px[cw_corner_from(c, j)],
    ensures
        is_even(py) != is_even(px),
{
    if c == 0 {
        let p1 = swapped(px, 0, 3);
        let p2 = swapped(p1, 1, 3);
        let p3 = swapped(p2, 2, 3);
        lemma_swap_changes_parity(px, 0, 3);
        lemma_swapped_distinct(px, 0, 3);
        lemma_swap_changes_parity(p1, 1, 3);
        lemma_swapped_distinct(p1, 1, 3);
        lemma_swap_changes_parity(p2, 2, 3);
        assert(py =~= p3);
    } else if c == 1 {
        let p1 = swapped(px, 0, 4);
        let p2 = swapped(p1, 3, 4);
        let p3 = swapped(p2, 4, 7);
        lemma_swap_changes_parity(px, 0, 4);
        lemma_swapped_distinct(px, 0, 4);
        lemma_swap_changes_parity(p1, 3, 4);
        lemma_swapped_distinct(p1, 3, 4);
        lemma_swap_changes_parity(p2, 4, 7);
        assert(py =~= p3);
    } else if c == 2 {
        let p1 = swapped(px, 0, 1);
        let p2 = swapped(p1, 1, 5);
        let p3 = swapped(p2, 4, 5);
        lemma_swap_changes_parity(px, 0, 1);
        lemma_swapped_distinct(px, 0, 1);
        lemma_swap_changes_parity(p1, 1, 5);
        lemma_swapped_distinct(p1, 1, 5);
        lemma_swap_changes_parity(p2, 4, 5);
        assert(py =~= p3);
    } else if c == 3 {
        let p1 = swapped(px, 4, 5);
        let p2 = swapped(p1, 5, 6);
        let p3 = swapped(p2, 6, 7);
        lemma_swap_changes_parity(px, 4, 5);
        lemma_swapped_distinct(px, 4, 5);
        lemma_swap_changes_parity(p1, 5, 6);
        lemma_swapped_distinct(p1, 5, 6);
        lemma_swap_changes_parity(p2, 6, 7);
        assert(py =~= p3);
    } else if c == 4 {
        let p1 = swapped(px, 1, 2);
        let p2 = swapped(p1, 2, 6);
        let p3 = swapped(p2, 5, 6);
        lemma_swap_changes_parity(px, 1, 2);
        lemma_swapped_distinct(px, 1, 2);
        lemma_swap_changes_parity(p1, 2, 6);
        lemma_swapped_distinct(p1, 2, 6);
        lemma_swap_changes_parity(p2, 5, 6);
        assert(py =~= p3);
    } else {
        let p1 = swapped(px, 2, 3);
        let p2 = swapped(p1, 3, 7);
        let p3 = swapped(p2, 6, 7);
        lemma_swap_changes_parity(px, 2, 3);
        lemma_swapped_distinct(px, 2, 3);
        lemma_swap_changes_parity(p1, 3, 7);
        lemma_swapped_distinct(p1, 3, 7);
        lemma_swap_changes_parity(p2, 6, 7);
        assert(py =~= p3);
    }
}

/// A clockwise quarter turn rearranges the edge pieces by an odd permutation.
proof fn lemma_cw_edge_parity(c: int, px: Seq<int>, py: Seq<int>)
    requires
        0 <= c < 6,
        px.len() == 12,
        py.len() == 12,
        distinct(px),
        forall|j: int| 0 <= j < 12 ==> #[trigger] py[j] == px[cw_edge_from(c, j)],
    ensures
        is_even(py) != is_even(px),
{
    if c == 0 {
        let p1 = swapped(px, 0, 3);
        let p2 = swapped(p1, 1, 3);
        let p3 = swapped(p2, 2, 3);
        lemma_swap_changes_parity(px, 0, 3);
        lemma_swapped_distinct(px, 0, 3);
        lemma_swap_changes_parity(p1, 1, 3);
        lemma_swapped_distinct(p1, 1, 3);
        lemma_swap_changes_parity(p2, 2, 3);
        assert(py =~= p3);
    } else if c == 1 {
        let p1 = swapped(px, 0, 8);
        let p2 = swapped(p1, 4, 11);
        let p3 = swapped(p2, 8, 11);
        lemma_swap_changes_parity(px, 0, 8);
        lemma_swapped_distinct(px, 0, 8);
        lemma_swap_changes_parity(p1, 4, 11);
        lemma_swapped_distinct(p1, 4, 11);
        lemma_swap_changes_parity(p2, 8, 11);
        assert(py =~= p3);
    } else if c == 2 {
        let p1 = swapped(px, 1, 9);
        let p2 = swapped(p1, 5, 8);
        let p3 = swapped(p2, 8, 9);
        lemma_swap_changes_parity(px, 1, 9);
        lemma_swapped_distinct(px, 1, 9);
        lemma_swap_changes_parity(p1, 5, 8);
        lemma_swapped_distinct(p1, 5, 8);
        lemma_swap_changes_parity(p2, 8, 9);
        assert(py =~= p3);
    } else if c == 3 {
        let p1 = swapped(px, 4, 5);
        let p2 = swapped(p1, 5, 6);
        let p3 = swapped(p2, 6, 7);
        lemma_swap_changes_parity(px, 4, 5);
        lemma_swapped_distinct(px, 4, 5);
        lemma_swap_changes_parity(p1, 5, 6);
        lemma_swapped_distinct(p1, 5, 6);
        lemma_swap_changes_parity(p2, 6, 7);
        assert(py =~= p3);
    } else if c == 4 {
        let p1 = swapped(px, 2, 10);
        let p2 = swapped(p1, 6, 9);
        let p3 = swapped(p2, 9, 10);
        lemma_swap_changes_parity(px, 2, 10);
        lemma_swapped_distinct(px, 2, 10);
        lemma_swap_changes_parity(p1, 6, 9);
        lemma_swapped_distinct(p1, 6, 9);
        lemma_swap_changes_parity(p2, 9, 10);
        assert(py =~= p3);
    } else {
        let p1 = swapped(px, 3, 11);
        let p2 = swapped(p1, 7, 10);
        let p3 = swapped(p2, 10, 11);
        lemma_swap_changes_parity(px, 3, 11);
        lemma_swapped_distinct(px, 3, 11);
        lemma_swap_changes_parity(p1, 7, 10);
        lemma_swapped_distinct(p1, 7, 10);
        lemma_swap_changes_parity(p2, 10, 11);
        assert(py =~= p3);
    }
}

proof fn lemma_mod3_moved_u(a: Seq<int>, b: Seq<int>)
    requires
        a.len() == 8,
        b.len() == 8,
        forall|i: int| 0 <= i < 8 ==> 0 <= #[trigger] a[i] < 3,
        forall|i: int| 0 <= i < 8 ==> #[trigger] b[cw_corner_to(0, i)] == (a[i] + cw_corner_shift(0, i)) % 3,
    ensures
        (b[0] + b[1] + b[2] + b[3] + b[4] + b[5] + b[6] + b[7]) % 3 == (a[0] + a[1] + a[2] + a[3] + a[4] + a[5] + a[6] + a[7]) % 3,
{
    assert(b[cw_corner_to(0, 0)] == (a[0] + cw_corner_shift(0, 0)) % 3);
    assert(b[cw_corner_to(0, 1)] == (a[1] + cw_corner_shift(0, 1)) % 3);
    assert(b[cw_corner_to(0, 2)] == (a[2] + cw_corner_shift(0, 2)) % 3);
    assert(b[cw_corner_to(0, 3)] == (a[3] + cw_corner_shift(0, 3)) % 3);
    assert(b[cw_corner_to(0, 4)] == (a[4] + cw_corner_shift(0, 4)) % 3);
    assert(b[cw_corner_to(0, 5)] == (a[5] + cw_corner_shift(0, 5)) % 3);
    assert(b[cw_corner_to(0, 6)] == (a[6] + cw_corner_shift(0, 6)) % 3);
    assert(b[cw_corner_to(0, 7)] == (a[7] + cw_corner_shift(0, 7)) % 3);
    assert(b[1] == a[0]);
    assert(b[2] == a[1]);
    assert(b[3] == a[2]);
    assert(b[0] == a[3]);
    assert(b[4] == a[4]);
    assert(b[5] == a[5]);
    assert(b[6] == a[6]);
    assert(b[7] == a[7]);
    assert((b[0] + b[1] + b[2] + b[3] + b[4] + b[5] + b[6] + b[7]) % 3 == (a[0] + a[1] + a[2] + a[3] + a[4] + a[5] + a[6] + a[7]) % 3) by (nonlinear_arith)
        requires
            b[1] == (a[0] + 0) % 3,
            0 <= a[0] < 3,
            b[2] == (a[1] + 0) % 3,
            0 <= a[1] < 3,
            b[3] == (a[2] + 0) % 3,
            0 <= a[2] < 3,
            b[0] == (a[3] + 0) % 3,
            0 <= a[3] < 3,
            b[4] == (a[4] + 0) % 3,
            0 <= a[4] < 3,
            b[5] == (a[5] + 0) % 3,
            0 <= a[5] < 3,
            b[6] == (a[6] + 0) % 3,
            0 <= a[6] < 3,
            b[7] == (a[7] + 0) % 3,
            0 <= a[7] < 3,
    ;
}

proof fn lemma_mod3_moved_r(a: Seq<int>, b: Seq<int>)
    requires
        a.len() == 8,
        b.len() == 8,
        forall|i: int| 0 <= i < 8 ==> 0 <= #[trigger] a[i] < 3,
        forall|i: int| 0 <= i < 8 ==> #[trigger] b[cw_corner_to(1, i)] == (a[i] + cw_corner_shift(1, i)) % 3,
    ensures
        (b[0] + b[1] + b[2] + b[3] + b[4] + b[5] + b[6] + b[7]) % 3 == (a[0] + a[1] + a[2] + a[3] + a[4] + a[5] + a[6] + a[7]) % 3,
{
    assert(b[cw_corner_to(1, 0)] == (a[0] + cw_corner_shift(1, 0)) % 3);
    assert(b[cw_corner_to(1, 1)] == (a[1] + cw_corner_shift(1, 1)) % 3);
    assert(b[cw_corner_to(1, 2)] == (a[2] + cw_corner_shift(1, 2)) % 3);
    assert(b[cw_corner_to(1, 3)] == (a[3] + cw_corner_shift(1, 3)) % 3);
    assert(b[cw_corner_to(1, 4)] == (a[4] + cw_corner_shift(1, 4)) % 3);
    assert(b[cw_corner_to(1, 5)] == (a[5] + cw_corner_shift(1, 5)) % 3);
    assert(b[cw_corner_to(1, 6)] == (a[6] + cw_corner_shift(1, 6)) % 3);
    assert(b[cw_corner_to(1, 7)] == (a[7] + cw_corner_shift(1, 7)) % 3);
    assert(b[3] == (a[0] + 1) % 3);
    assert(b[1] == a[1]);
    assert(b[2] == a[2]);
    assert(b[7] == (a[3] + 2) % 3);
    assert(b[0] == (a[4] + 2) % 3);
    assert(b[5] == a[5]);
    assert(b[6] == a[6]);
    assert(b[4] == (a[7] + 1) % 3);
    assert((b[0] + b[1] + b[2] + b[3] + b[4] + b[5] + b[6] + b[7]) % 3 == (a[0] + a[1] + a[2] + a[3] + a[4] + a[5] + a[6] + a[7]) % 3) by (nonlinear_arith)
        requires
            b[3] == (a[0] + 1) % 3,
            0 <= a[0] < 3,
            b[1] == (a[1] + 0) % 3,
            0 <= a[1] < 3,
            b[2] == (a[2] + 0) % 3,
            0 <= a[2] < 3,
            b[7] == (a[3] + 2) % 3,
            0 <= a[3] < 3,
            b[0] == (a[4] + 2) % 3,
            0 <= a[4] < 3,
            b[5] == (a[5] + 0) % 3,
            0 <= a[5] < 3,
            b[6] == (a[6] + 0) % 3,
            0 <= a[6] < 3,
            b[4] == (a[7] + 1) % 3,
            0 <= a[7] < 3,
    ;
}

proof fn lemma_mod3_moved_f(a: Seq<int>, b: Seq<int>)
    requires
        a.len() == 8,
        b.len() == 8,
        forall|i: int| 0 <= i < 8 ==> 0 <= #[trigger] a[i] < 3,
        forall|i: int| 0 <= i < 8 ==> #[trigger] b[cw_corner_to(2, i)] == (a[i] + cw_corner_shift(2, i)) % 3,
    ensures
        (b[0] + b[1] + b[2] + b[3] + b[4] + b[5] + b[6] + b[7]) % 3 == (a[0] + a[1] + a[2] + a[3] + a[4] + a[5] + a[6] + a[7]) % 3,
{
    assert(b[cw_corner_to(2, 0)] == (a[0] + cw_corner_shift(2, 0)) % 3);
    assert(b[cw_corner_to(2, 1)] == (a[1] + cw_corner_shift(2, 1)) % 3);
    assert(b[cw_corner_to(2, 2)] == (a[2] + cw_corner_shift(2, 2)) % 3);
    assert(b[cw_corner_to(2, 3)] == (a[3] + cw_corner_shift(2, 3)) % 3);
    assert(b[cw_corner_to(2, 4)] == (a[4] + cw_corner_shift(2, 4)) % 3);
    assert(b[cw_corner_to(2, 5)] == (a[5] + cw_corner_shift(2, 5)) % 3);
    assert(b[cw_corner_to(2, 6)] == (a[6] + cw_corner_shift(2, 6)) % 3);
    assert(b[cw_corner_to(2, 7)] == (a[7] + cw_corner_shift(2, 7)) % 3);
    assert(b[4] == (a[0] + 2) % 3);
    assert(b[0] == (a[1] + 1) % 3);
    assert(b[2] == a[2]);
    assert(b[3] == a[3]);
    assert(b[5] == (a[4] + 1) % 3);
    assert(b[1] == (a[5] + 2) % 3);
    assert(b[6] == a[6]);
    assert(b[7] == a[7]);
    assert((b[0] + b[1] + b[2] + b[3] + b[4] + b[5] + b[6] + b[7]) % 3 == (a[0] + a[1] + a[2] + a[3] + a[4] + a[5] + a[6] + a[7]) % 3) by (nonlinear_arith)
        requires
            b[4] == (a[0] + 2) % 3,
            0 <= a[0] < 3,
            b[0] == (a[1] + 1) % 3,
            0 <= a[1] < 3,
            b[2] == (a[2] + 0) % 3,
            0 <= a[2] < 3,
            b[3] == (a[3] + 0) % 3,
            0 <= a[3] < 3,
            b[5] == (a[4] + 1) % 3,
            0 <= a[4] < 3,
            b[1] == (a[5] + 2) % 3,
            0 <= a[5] < 3,
            b[6] == (a[6] + 0) % 3,
            0 <= a[6] < 3,
            b[7] == (a[7] + 0) % 3,
            0 <= a[7] < 3,
    ;
}

proof fn lemma_mod3_moved_d(a: Seq<int>, b: Seq<int>)
    requires
        a.len() == 8,
        b.len() == 8,
        forall|i: int| 0 <= i < 8 ==> 0 <= #[trigger] a[i] < 3,
        forall|i: int| 0 <= i < 8 ==> #[trigger] b[cw_corner_to(3, i)] == (a[i] + cw_corner_shift(3, i)) % 3,
    ensures
        (b[0] + b[1] + b[2] + b[3] + b[4] + b[5] + b[6] + b[7]) % 3 == (a[0] + a[1] + a[2] + a[3] + a[4] + a[5] + a[6] + a[7]) % 3,
{
    assert(b[cw_corner_to(3, 0)] == (a[0] + cw_corner_shift(3, 0)) % 3);
    assert(b[cw_corner_to(3, 1)] == (a[1] + cw_corner_shift(3, 1)) % 3);
    assert(b[cw_corner_to(3, 2)] == (a[2] + cw_corner_shift(3, 2)) % 3);
    assert(b[cw_corner_to(3, 3)] == (a[3] + cw_corner_shift(3, 3)) % 3);
    assert(b[cw_corner_to(3, 4)] == (a[4] + cw_corner_shift(3, 4)) % 3);
    assert(b[cw_corner_to(3, 5)] == (a[5] + cw_corner_shift(3, 5)) % 3);
    assert(b[cw_corner_to(3, 6)] == (a[6] + cw_corner_shift(3, 6)) % 3);
    assert(b[cw_corner_to(3, 7)] == (a[7] + cw_corner_shift(3, 7)) % 3);
    assert(b[0] == a[0]);
    assert(b[1] == a[1]);
    assert(b[2] == a[2]);
    assert(b[3] == a[3]);
    assert(b[7] == a[4]);
    assert(b[4] == a[5]);
    assert(b[5] == a[6]);
    assert(b[6] == a[7]);
    assert((b[0] + b[1] + b[2] + b[3] + b[4] + b[5] + b[6] + b[7]) % 3 == (a[0] + a[1] + a[2] + a[3] + a[4] + a[5] + a[6] + a[7]) % 3) by (nonlinear_arith)
        requires
            b[0] == (a[0] + 0) % 3,
            0 <= a[0] < 3,
            b[1] == (a[1] + 0) % 3,
            0 <= a[1] < 3,
            b[2] == (a[2] + 0) % 3,
            0 <= a[2] < 3,
            b[3] == (a[3] + 0) % 3,
            0 <= a[3] < 3,
            b[7] == (a[4] + 0) % 3,
            0 <= a[4] < 3,
            b[4] == (a[5] + 0) % 3,
            0 <= a[5] < 3,
            b[5] == (a[6] + 0) % 3,
            0 <= a[6] < 3,
            b[6] == (a[7] + 0) % 3,
            0 <= a[7] < 3,
    ;
}

proof fn lemma_mod3_moved_l(a: Seq<int>, b: Seq<int>)
    requires
        a.len() == 8,
        b.len() == 8,
        forall|i: int| 0 <= i < 8 ==> 0 <= #[trigger] a[i] < 3,
        forall|i: int| 0 <= i < 8 ==> #[trigger] b[cw_corner_to(4, i)] == (a[i] + cw_corner_shift(4, i)) % 3,
    ensures
        (b[0] + b[1] + b[2] + b[3] + b[4] + b[5] + b[6] + b[7]) % 3 == (a[0] + a[1] + a[2] + a[3] + a[4] + a[5] + a[6] + a[7]) % 3,
{
    assert(b[cw_corner_to(4, 0)] == (a[0] + cw_corner_shift(4, 0)) % 3);
    assert(b[cw_corner_to(4, 1)] == (a[1] + cw_corner_shift(4, 1)) % 3);
    assert(b[cw_corner_to(4, 2)] == (a[2] + cw_corner_shift(4, 2)) % 3);
    assert(b[cw_corner_to(4, 3)] == (a[3] + cw_corner_shift(4, 3)) % 3);
    assert(b[cw_corner_to(4, 4)] == (a[4] + cw_corner_shift(4, 4)) % 3);
    assert(b[cw_corner_to(4, 5)] == (a[5] + cw_corner_shift(4, 5)) % 3);
    assert(b[cw_corner_to(4, 6)] == (a[6] + cw_corner_shift(4, 6)) % 3);
    assert(b[cw_corner_to(4, 7)] == (a[7] + cw_corner_shift(4, 7)) % 3);
    assert(b[0] == a[0]);
    assert(b[5] == (a[1] + 2) % 3);
    assert(b[1] == (a[2] + 1) % 3);
    assert(b[3] == a[3]);
    assert(b[4] == a[4]);
    assert(b[6] == (a[5] + 1) % 3);
    assert(b[2] == (a[6] + 2) % 3);
    assert(b[7] == a[7]);
    assert((b[0] + b[1] + b[2] + b[3] + b[4] + b[5] + b[6] + b[7]) % 3 == (a[0] + a[1] + a[2] + a[3] + a[4] + a[5] + a[6] + a[7]) % 3) by (nonlinear_arith)
        requires
            b[0] == (a[0] + 0) % 3,
            0 <= a[0] < 3,
            b[5] == (a[1] + 2) % 3,
            0 <= a[1] < 3,
            b[1] == (a[2] + 1) % 3,
            0 <= a[2] < 3,
            b[3] == (a[3] + 0) % 3,
            0 <= a[3] < 3,
            b[4] == (a[4] + 0) % 3,
            0 <= a[4] < 3,
            b[6] == (a[5] + 1) % 3,
            0 <= a[5] < 3,
            b[2] == (a[6] + 2) % 3,
            0 <= a[6] < 3,
            b[7] == (a[7] + 0) % 3,
            0 <= a[7] < 3,
    ;
}

proof fn lemma_mod3_moved_b(a: Seq<int>, b: Seq<int>)
    requires
        a.len() == 8,
        b.len() == 8,
        forall|i: int| 0 <= i < 8 ==> 0 <= #[trigger] a[i] < 3,
        forall|i: int| 0 <= i < 8 ==> #[trigger] b[cw_corner_to(5, i)] == (a[i] + cw_corner_shift(5, i)) % 3,
    ensures
        (b[0] + b[1] + b[2] + b[3] + b[4] + b[5] + b[6] + b[7]) % 3 == (a[0] + a[1] + a[2] + a[3] + a[4] + a[5] + a[6] + a[7]) % 3,
{
    assert(b[cw_corner_to(5, 0)] == (a[0] + cw_corner_shift(5, 0)) % 3);
    assert(b[cw_corner_to(5, 1)] == (a[1] + cw_corner_shift(5, 1)) % 3);
    assert(b[cw_corner_to(5, 2)] == (a[2] + cw_corner_shift(5, 2)) % 3);
    assert(b[cw_corner_to(5, 3)] == (a[3] + cw_corner_shift(5, 3)) % 3);
    assert(b[cw_corner_to(5, 4)] == (a[4] + cw_corner_shift(5, 4)) % 3);
    assert(b[cw_corner_to(5, 5)] == (a[5] + cw_corner_shift(5, 5)) % 3);
    assert(b[cw_corner_to(5, 6)] == (a[6] + cw_corner_shift(5, 6)) % 3);
    assert(b[cw_corner_to(5, 7)] == (a[7] + cw_corner_shift(5, 7)) % 3);
    assert(b[0] == a[0]);
    assert(b[1] == a[1]);
    assert(b[6] == (a[2] + 2) % 3);
    assert(b[2] == (a[3] + 1) % 3);
    assert(b[4] == a[4]);
    assert(b[5] == a[5]);
    assert(b[7] == (a[6] + 1) % 3);
    assert(b[3] == (a[7] + 2) % 3);
    assert((b[0] + b[1] + b[2] + b[3] + b[4] + b[5] + b[6] + b[7]) % 3 == (a[0] + a[1] + a[2] + a[3] + a[4] + a[5] + a[6] + a[7]) % 3) by (nonlinear_arith)
        requires
            b[0] == (a[0] + 0) % 3,
            0 <= a[0] < 3,
            b[1] == (a[1] + 0) % 3,
            0 <= a[1] < 3,
            b[6] == (a[2] + 2) % 3,
            0 <= a[2] < 3,
            b[2] == (a[3] + 1) % 3,
            0 <= a[3] < 3,
            b[4] == (a[4] + 0) % 3,
            0 <= a[4] < 3,
            b[5] == (a[5] + 0) % 3,
            0 <= a[5] < 3,
            b[7] == (a[6] + 1) % 3,
            0 <= a[6] < 3,
            b[3] == (a[7] + 2) % 3,
            0 <= a[7] < 3,
    ;
}

proof fn lemma_mod3_moved(c: int, a: Seq<int>, b: Seq<int>)
    requires
        0 <= c < 6,
        a.len() == 8,
        b.len() == 8,
        forall|i: int| 0 <= i < 8 ==> 0 <= #[trigger] a[i] < 3,
        forall|i: int| 0 <= i < 8 ==> #[trigger] b[cw_corner_to(c, i)] == (a[i] + cw_corner_shift(c, i)) % 3,
    ensures
        (b[0] + b[1] + b[2] + b[3] + b[4] + b[5] + b[6] + b[7]) % 3 == (a[0] + a[1] + a[2] + a[3] + a[4] + a[5] + a[6] + a[7]) % 3,
{
    if c == 0 {
        lemma_mod3_moved_u(a, b);
    } else if c == 1 {
        lemma_mod3_moved_r(a, b);
    } else if c == 2 {
        lemma_mod3_moved_f(a, b);
    } else if c == 3 {
        lemma_mod3_moved_d(a, b);
    } else if c == 4 {
        lemma_mod3_moved_l(a, b);
    } else {
        lemma_mod3_moved_b(a, b);
    }
}

proof fn lemma_mod2_moved_u(a: Seq<int>, b: Seq<int>)
    requires
        a.len() == 12,
        b.len() == 12,
        forall|i: int| 0 <= i < 12 ==> 0 <= #[trigger] a[i] < 2,
        forall|i: int| 0 <= i < 12 ==> #[trigger] b[cw_edge_to(0, i)] == (a[i] + cw_edge_shift(0, i)) % 2,
    ensures
        (b[0] + b[1] + b[2] + b[3] + b[4] + b[5] + b[6] + b[7] + b[8] + b[9] + b[10] + b[11]) % 2 == (a[0] + a[1] + a[2] + a[3] + a[4] + a[5] + a[6] + a[7] + a[8] + a[9] + a[10] + a[11]) % 2,
{
    assert(b[cw_edge_to(0, 0)] == (a[0] + cw_edge_shift(0, 0)) % 2);
    assert(b[cw_edge_to(0, 1)] == (a[1] + cw_edge_shift(0, 1)) % 2);
    assert(b[cw_edge_to(0, 2)] == (a[2] + cw_edge_shift(0, 2)) % 2);
    assert(b[cw_edge_to(0, 3)] == (a[3] + cw_edge_shift(0, 3)) % 2);
    assert(b[cw_edge_to(0, 4)] == (a[4] + cw_edge_shift(0, 4)) % 2);
    assert(b[cw_edge_to(0, 5)] == (a[5] + cw_edge_shift(0, 5)) % 2);
    assert(b[cw_edge_to(0, 6)] == (a[6] + cw_edge_shift(0, 6)) % 2);
    assert(b[cw_edge_to(0, 7)] == (a[7] + cw_edge_shift(0, 7)) % 2);
    assert(b[cw_edge_to(0, 8)] == (a[8] + cw_edge_shift(0, 8)) % 2);
    assert(b[cw_edge_to(0, 9)] == (a[9] + cw_edge_shift(0, 9)) % 2);
    assert(b[cw_edge_to(0, 10)] == (a[10] + cw_edge_shift(0, 10)) % 2);
    assert(b[cw_edge_to(0, 11)] == (a[11] + cw_edge_shift(0, 11)) % 2);
    assert(b[1] == a[0]);
    assert(b[2] == a[1]);
    assert(b[3] == a[2]);
    assert(b[0] == a[3]);
    assert(b[4] == a[4]);
    assert(b[5] == a[5]);
    assert(b[6] == a[6]);
    assert(b[7] == a[7]);
    assert(b[8] == a[8]);
    assert(b[9] == a[9]);
    assert(b[10] == a[10]);
    assert(b[11] == a[11]);
}

proof fn lemma_mod2_moved_r(a: Seq<int>, b: Seq<int>)
    requires
        a.len() == 12,
        b.len() == 12,
        forall|i: int| 0 <= i < 12 ==> 0 <= #[trigger] a[i] < 2,
        forall|i: int| 0 <= i < 12 ==> #[trigger] b[cw_edge_to(1, i)] == (a[i] + cw_edge_shift(1, i)) % 2,
    ensures
        (b[0] + b[1] + b[2] + b[3] + b[4] + b[5] + b[6] + b[7] + b[8] + b[9] + b[10] + b[11]) % 2 == (a[0] + a[1] + a[2] + a[3] + a[4] + a[5] + a[6] + a[7] + a[8] + a[9] + a[10] + a[11]) % 2,
{
    assert(b[cw_edge_to(1, 0)] == (a[0] + cw_edge_shift(1, 0)) % 2);
    assert(b[cw_edge_to(1, 1)] == (a[1] + cw_edge_shift(1, 1)) % 2);
    assert(b[cw_edge_to(1, 2)] == (a[2] + cw_edge_shift(1, 2)) % 2);
    assert(b[cw_edge_to(1, 3)] == (a[3] + cw_edge_shift(1, 3)) % 2);
    assert(b[cw_edge_to(1, 4)] == (a[4] + cw_edge_shift(1, 4)) % 2);
    assert(b[cw_edge_to(1, 5)] == (a[5] + cw_edge_shift(1, 5)) % 2);
    assert(b[cw_edge_to(1, 6)] == (a[6] + cw_edge_shift(1, 6)) % 2);
    assert(b[cw_edge_to(1, 7)] == (a[7] + cw_edge_shift(1, 7)) % 2);
    assert(b[cw_edge_to(1, 8)] == (a[8] + cw_edge_shift(1, 8)) % 2);
    assert(b[cw_edge_to(1, 9)] == (a[9] + cw_edge_shift(1, 9)) % 2);
    assert(b[cw_edge_to(1, 10)] == (a[10] + cw_edge_shift(1, 10)) % 2);
    assert(b[cw_edge_to(1, 11)] == (a[11] + cw_edge_shift(1, 11)) % 2);
    assert(b[11] == a[0]);
    assert(b[1] == a[1]);
    assert(b[2] == a[2]);
    assert(b[3] == a[3]);
    assert(b[8] == a[4]);
    assert(b[5] == a[5]);
    assert(b[6] == a[6]);
    assert(b[7] == a[7]);
    assert(b[0] == a[8]);
    assert(b[9] == a[9]);
    assert(b[10] == a[10]);
    assert(b[4] == a[11]);
}

proof fn lemma_mod2_moved_f(a: Seq<int>, b: Seq<int>)
    requires
        a.len() == 12,
        b.len() == 12,
        forall|i: int| 0 <= i < 12 ==> 0 <= #[trigger] a[i] < 2,
        forall|i: int| 0 <= i < 12 ==> #[trigger] b[cw_edge_to(2, i)] == (a[i] + cw_edge_shift(2, i)) % 2,
    ensures
        (b[0] + b[1] + b[2] + b[3] + b[4] + b[5] + b[6] + b[7] + b[8] + b[9] + b[10] + b[11]) % 2 == (a[0] + a[1] + a[2] + a[3] + a[4] + a[5] + a[6] + a[7] + a[8] + a[9] + a[10] + a[11]) % 2,
{
    assert(b[cw_edge_to(2, 0)] == (a[0] + cw_edge_shift(2, 0)) % 2);
    assert(b[cw_edge_to(2, 1)] == (a[1] + cw_edge_shift(2, 1)) % 2);
    assert(b[cw_edge_to(2, 2)] == (a[2] + cw_edge_shift(2, 2)) % 2);
    assert(b[cw_edge_to(2, 3)] == (a[3] + cw_edge_shift(2, 3)) % 2);
    assert(b[cw_edge_to(2, 4)] == (a[4] + cw_edge_shift(2, 4)) % 2);
    assert(b[cw_edge_to(2, 5)] == (a[5] + cw_edge_shift(2, 5)) % 2);
    assert(b[cw_edge_to(2, 6)] == (a[6] + cw_edge_shift(2, 6)) % 2);
    assert(b[cw_edge_to(2, 7)] == (a[7] + cw_edge_shift(2, 7)) % 2);
    assert(b[cw_edge_to(2, 8)] == (a[8] + cw_edge_shift(2, 8)) % 2);
    assert(b[cw_edge_to(2, 9)] == (a[9] + cw_edge_shift(2, 9)) % 2);
    assert(b[cw_edge_to(2, 10)] == (a[10] + cw_edge_shift(2, 10)) % 2);
    assert(b[cw_edge_to(2, 11)] == (a[11] + cw_edge_shift(2, 11)) % 2);
    assert(b[0] == a[0]);
    assert(b[8] == 1 - a[1]);
    assert(b[2] == a[2]);
    assert(b[3] == a[3]);
    assert(b[4] == a[4]);
    assert(b[9] == 1 - a[5]);
    assert(b[6] == a[6]);
    assert(b[7] == a[7]);
    assert(b[5] == 1 - a[8]);
    assert(b[1] == 1 - a[9]);
    assert(b[10] == a[10]);
    assert(b[11] == a[11]);
}

proof fn lemma_mod2_moved_d(a: Seq<int>, b: Seq<int>)
    requires
        a.len() == 12,
        b.len() == 12,
        forall|i: int| 0 <= i < 12 ==> 0 <= #[trigger] a[i] < 2,
        forall|i: int| 0 <= i < 12 ==> #[trigger] b[cw_edge_to(3, i)] == (a[i] + cw_edge_shift(3, i)) % 2,
    ensures
        (b[0] + b[1] + b[2] + b[3] + b[4] + b[5] + b[6] + b[7] + b[8] + b[9] + b[10] + b[11]) % 2 == (a[0] + a[1] + a[2] + a[3] + a[4] + a[5] + a[6] + a[7] + a[8] + a[9] + a[10] + a[11]) % 2,
{
    assert(b[cw_edge_to(3, 0)] == (a[0] + cw_edge_shift(3, 0)) % 2);
    assert(b[cw_edge_to(3, 1)] == (a[1] + cw_edge_shift(3, 1)) % 2);
    assert(b[cw_edge_to(3, 2)] == (a[2] + cw_edge_shift(3, 2)) % 2);
    assert(b[cw_edge_to(3, 3)] == (a[3] + cw_edge_shift(3, 3)) % 2);
    assert(b[cw_edge_to(3, 4)] == (a[4] + cw_edge_shift(3, 4)) % 2);
    assert(b[cw_edge_to(3, 5)] == (a[5] + cw_edge_shift(3, 5)) % 2);
    assert(b[cw_edge_to(3, 6)] == (a[6] + cw_edge_shift(3, 6)) % 2);
    assert(b[cw_edge_to(3, 7)] == (a[7] + cw_edge_shift(3, 7)) % 2);
    assert(b[cw_edge_to(3, 8)] == (a[8] + cw_edge_shift(3, 8)) % 2);
    assert(b[cw_edge_to(3, 9)] == (a[9] + cw_edge_shift(3, 9)) % 2);
    assert(b[cw_edge_to(3, 10)] == (a[10] + cw_edge_shift(3, 10)) % 2);
    assert(b[cw_edge_to(3, 11)] == (a[11] + cw_edge_shift(3, 11)) % 2);
    assert(b[0] == a[0]);
    assert(b[1] == a[1]);
    assert(b[2] == a[2]);
    assert(b[3] == a[3]);
    assert(b[7] == a[4]);
    assert(b[4] == a[5]);
    assert(b[5] == a[6]);
    assert(b[6] == a[7]);
    assert(b[8] == a[8]);
    assert(b[9] == a[9]);
    assert(b[10] == a[10]);
    assert(b[11] == a[11]);
}

proof fn lemma_mod2_moved_l(a: Seq<int>, b: Seq<int>)
    requires
        a.len() == 12,
        b.len() == 12,
        forall|i: int| 0 <= i < 12 ==> 0 <= #[trigger] a[i] < 2,
        forall|i: int| 0 <= i < 12 ==> #[trigger] b[cw_edge_to(4, i)] == (a[i] + cw_edge_shift(4, i)) % 2,
    ensures
        (b[0] + b[1] + b[2] + b[3] + b[4] + b[5] + b[6] + b[7] + b[8] + b[9] + b[10] + b[11]) % 2 == (a[0] + a[1] + a[2] + a[3] + a[4] + a[5] + a[6] + a[7] + a[8] + a[9] + a[10] + a[11]) % 2,
{
    assert(b[cw_edge_to(4, 0)] == (a[0] + cw_edge_shift(4, 0)) % 2);
    assert(b[cw_edge_to(4, 1)] == (a[1] + cw_edge_shift(4, 1)) % 2);
    assert(b[cw_edge_to(4, 2)] == (a[2] + cw_edge_shift(4, 2)) % 2);
    assert(b[cw_edge_to(4, 3)] == (a[3] + cw_edge_shift(4, 3)) % 2);
    assert(b[cw_edge_to(4, 4)] == (a[4] + cw_edge_shift(4, 4)) % 2);
    assert(b[cw_edge_to(4, 5)] == (a[5] + cw_edge_shift(4, 5)) % 2);
    assert(b[cw_edge_to(4, 6)] == (a[6] + cw_edge_shift(4, 6)) % 2);
    assert(b[cw_edge_to(4, 7)] == (a[7] + cw_edge_shift(4, 7)) % 2);
    assert(b[cw_edge_to(4, 8)] == (a[8] + cw_edge_shift(4, 8)) % 2);
    assert(b[cw_edge_to(4, 9)] == (a[9] + cw_edge_shift(4, 9)) % 2);
    assert(b[cw_edge_to(4, 10)] == (a[10] + cw_edge_shift(4, 10)) % 2);
    assert(b[cw_edge_to(4, 11)] == (a[11] + cw_edge_shift(4, 11)) % 2);
    assert(b[0] == a[0]);
    assert(b[1] == a[1]);
    assert(b[9] == a[2]);
    assert(b[3] == a[3]);
    assert(b[4] == a[4]);
    assert(b[5] == a[5]);
    assert(b[10] == a[6]);
    assert(b[7] == a[7]);
    assert(b[8] == a[8]);
    assert(b[6] == a[9]);
    assert(b[2] == a[10]);
    assert(b[11] == a[11]);
}

proof fn lemma_mod2_moved_b(a: Seq<int>, b: Seq<int>)
    requires
        a.len() == 12,
        b.len() == 12,
        forall|i: int| 0 <= i < 12 ==> 0 <= #[trigger] a[i] < 2,
        forall|i: int| 0 <= i < 12 ==> #[trigger] b[cw_edge_to(5, i)] == (a[i] + cw_edge_shift(5, i)) % 2,
    ensures
        (b[0] + b[1] + b[2] + b[3] + b[4] + b[5] + b[6] + b[7] + b[8] + b[9] + b[10] + b[11]) % 2 == (a[0] + a[1] + a[2] + a[3] + a[4] + a[5] + a[6] + a[7] + a[8] + a[9] + a[10] + a[11]) % 2,
{
    assert(b[cw_edge_to(5, 0)] == (a[0] + cw_edge_shift(5, 0)) % 2);
    assert(b[cw_edge_to(5, 1)] == (a[1] + cw_edge_shift(5, 1)) % 2);
    assert(b[cw_edge_to(5, 2)] == (a[2] + cw_edge_shift(5, 2)) % 2);
    assert(b[cw_edge_to(5, 3)] == (a[3] + cw_edge_shift(5, 3)) % 2);
    assert(b[cw_edge_to(5, 4)] == (a[4] + cw_edge_shift(5, 4)) % 2);
    assert(b[cw_edge_to(5, 5)] == (a[5] + cw_edge_shift(5, 5)) % 2);
    assert(b[cw_edge_to(5, 6)] == (a[6] + cw_edge_shift(5, 6)) % 2);
    assert(b[cw_edge_to(5, 7)] == (a[7] + cw_edge_shift(5, 7)) % 2);
    assert(b[cw_edge_to(5, 8)] == (a[8] + cw_edge_shift(5, 8)) % 2);
    assert(b[cw_edge_to(5, 9)] == (a[9] + cw_edge_shift(5, 9)) % 2);
    assert(b[cw_edge_to(5, 10)] == (a[10] + cw_edge_shift(5, 10)) % 2);
    assert(b[cw_edge_to(5, 11)] == (a[11] + cw_edge_shift(5, 11)) % 2);
    assert(b[0] == a[0]);
    assert(b[1] == a[1]);
    assert(b[2] == a[2]);
    assert(b[10] == 1 - a[3]);
    assert(b[4] == a[4]);
    assert(b[5] == a[5]);
    assert(b[6] == a[6]);
    assert(b[11] == 1 - a[7]);
    assert(b[8] == a[8]);
    assert(b[9] == a[9]);
    assert(b[7] == 1 - a[10]);
    assert(b[3] == 1 - a[11]);
}

proof fn lemma_mod2_moved(c: int, a: Seq<int>, b: Seq<int>)
    requires
        0 <= c < 6,
        a.len() == 12,
        b.len() == 12,
        forall|i: int| 0 <= i < 12 ==> 0 <= #[trigger] a[i] < 2,
        forall|i: int| 0 <= i < 12 ==> #[trigger] b[cw_edge_to(c, i)] == (a[i] + cw_edge_shift(c, i)) % 2,
    ensures
        (b[0] + b[1] + b[2] + b[3] + b[4] + b[5] + b[6] + b[7] + b[8] + b[9] + b[10] + b[11]) % 2 == (a[0] + a[1] + a[2] + a[3] + a[4] + a[5] + a[6] + a[7] + a[8] + a[9] + a[10] + a[11]) % 2,
{
    if c == 0 {
        lemma_mod2_moved_u(a, b);
    } else if c == 1 {
        lemma_mod2_moved_r(a, b);
    } else if c == 2 {
        lemma_mod2_moved_f(a, b);
    } else if c == 3 {
        lemma_mod2_moved_d(a, b);
    } else if c == 4 {
        lemma_mod2_moved_l(a, b);
    } else {
        lemma_mod2_moved_b(a, b);
    }
}

proof fn lemma_twist_expand(cells: Cells)
    ensures
        twist_upto(cells, 8) == corner_twist(cells, 0) + corner_twist(cells, 1) + corner_twist(cells, 2) + corner_twist(cells, 3) + corner_twist(cells, 4) + corner_twist(cells, 5) + corner_twist(cells, 6) + corner_twist(cells, 7),
        forall|i: int| 0 <= i < 8 ==> 0 <= #[trigger] corner_twist(cells, i) < 3,
{
    reveal_with_fuel(twist_upto, 9);
}

proof fn lemma_flip_expand(cells: Cells)
    ensures
        flip_upto(cells, 12) == edge_flip(cells, 0) + edge_flip(cells, 1) + edge_flip(cells, 2) + edge_flip(cells, 3) + edge_flip(cells, 4) + edge_flip(cells, 5) + edge_flip(cells, 6) + edge_flip(cells, 7) + edge_flip(cells, 8) + edge_flip(cells, 9) + edge_flip(cells, 10) + edge_flip(cells, 11),
        forall|i: int| 0 <= i < 12 ==> 0 <= #[trigger] edge_flip(cells, i) < 2,
{
    reveal_with_fuel(flip_upto, 13);
}

/// The twists after a clockwise quarter turn add up, modulo 3, as before.
proof fn lemma_cw_twist_sum(c: int, x: Cells, y: Cells)
    requires
        0 <= c < 6,
        forall|i: int| 0 <= i < 8 ==> #[trigger] corner_twist(y, cw_corner_to(c, i))
            == (corner_twist(x, i) + cw_corner_shift(c, i)) % 3,
    ensures
        twist_upto(y, 8) % 3 == twist_upto(x, 8) % 3,
{
    let a = Seq::new(8, |i: int| corner_twist(x, i));
    let b = Seq::new(8, |j: int| corner_twist(y, j));
    lemma_twist_expand(x);
    lemma_twist_expand(y);
    lemma_cw_tables(c);
    assert forall|i: int| 0 <= i < 8 implies #[trigger] b[cw_corner_to(c, i)] == (a[i] + cw_corner_shift(c, i)) % 3 by {
        assert(corner_twist(y, cw_corner_to(c, i)) == (corner_twist(x, i) + cw_corner_shift(c, i)) % 3);
    }
    lemma_mod3_moved(c, a, b);
}

/// The flips after a clockwise quarter turn add up, modulo 2, as before.
proof fn lemma_cw_flip_sum(c: int, x: Cells, y: Cells)
    requires
        0 <= c < 6,
        forall|i: int| 0 <= i < 12 ==> #[trigger] edge_flip(y, cw_edge_to(c, i))
            == (edge_flip(x, i) + cw_edge_shift(c, i)) % 2,
    ensures
        flip_upto(y, 12) % 2 == flip_upto(x, 12) % 2,
{
    let a = Seq::new(12, |i: int| edge_flip(x, i));
    let b = Seq::new(12, |j: int| edge_flip(y, j));
    lemma_flip_expand(x);
    lemma_flip_expand(y);
    lemma_cw_tables(c);
    assert forall|i: int| 0 <= i < 12 implies #[trigger] b[cw_edge_to(c, i)] == (a[i] + cw_edge_shift(c, i)) % 2 by {
        assert(edge_flip(y, cw_edge_to(c, i)) == (edge_flip(x, i) + cw_edge_shift(c, i)) % 2);
    }
    lemma_mod2_moved(c, a, b);
}

/// The stickers of colour `c` among board indices `0..n`.
pub open spec fn color_set(cells: Cells, c: StickerColor, n: int) -> Set<int> {
    Set::new(|g: int| 0 <= g < n && cell(cells, g) == Some(c))
}

proof fn lemma_count_set(cells: Cells, c: StickerColor, n: int)
    requires
        0 <= n <= 54,
    ensures
        color_set(cells, c, n).finite(),
        color_set(cells, c, n).len() == count_upto(cells, c, n),
    decreases n,
{
    if n == 0 {
        assert(color_set(cells, c, 0) =~= Set::<int>::empty());
    } else {
        lemma_count_set(cells, c, n - 1);
        if cell(cells, n - 1) == Some(c) {
            assert(color_set(cells, c, n) =~= color_set(cells, c, n - 1).insert(n - 1));
        } else {
            assert(color_set(cells, c, n) =~= color_set(cells, c, n - 1));
        }
    }
}

/// A move keeps the number of stickers of every colour.
proof fn lemma_turn_counts(x: Cells, y: Cells, m: Move, c: StickerColor)
    requires
        cells_turned(x, y, m),
    ensures
        count_of(y, c) == count_of(x, c),
{
    lemma_count_set(x, c, 54);
    lemma_count_set(y, c, 54);
    let sx = color_set(x, c, 54);
    let sy = color_set(y, c, 54);
    let f = |g: int| dest(m, g);
    assert(vstd::relations::injective_on(f, sx)) by {
        assert forall|g1: int, g2: int| sx.contains(g1) && sx.contains(g2) && #[trigger] f(g1) == #[trigger] f(g2)
            implies g1 == g2 by {
            lemma_dest_undo(m, g1);
            lemma_dest_undo(m, g2);
        }
    }
    assert(sx.map(f) =~= sy) by {
        assert forall|h: int| sx.map(f).contains(h) implies sy.contains(h) by {
            let g = choose|g: int| sx.contains(g) && f(g) == h;
            lemma_dest_undo(m, g);
        }
        assert forall|h: int| sy.contains(h) implies sx.map(f).contains(h) by {
            let g = dest(undo(m), h);
            lemma_dest_undo(undo(m), h);
            lemma_undo_undo(m);
            assert(f(g) == h);
            assert(sx.contains(g));
        }
    }
    vstd::set_lib::lemma_map_size(sx, sy, f);
}

/// After a clockwise quarter turn every sticker is still known and the centres stay.
proof fn lemma_cw_known(x: Cells, y: Cells, m: Move)
    requires
        all_known(x),
        centers_fixed(x),
        cells_turned(x, y, m),
        m.turn == Turn::Cw,
    ensures
        all_known(y),
        centers_fixed(y),
{
    lemma_undo_undo(m);
    assert forall|h: int| 0 <= h < 54 implies #[trigger] cell(y, h) is Some by {
        lemma_dest_undo(undo(m), h);
        let g = dest(undo(m), h);
        assert(cell(y, dest(m, g)) == cell(x, g));
    }
    assert forall|f: int| 0 <= f < 6 implies (#[trigger] y[f][4] matches Some(c) ==> c == solved_face_color(f)) by {
        let g = f * 9 + 4;
        assert(g / 9 == f && g % 9 == 4);
        assert(dest(m, g) == g) by {
            lemma_cw_pieces(m);
        }
        assert(cell(y, dest(m, g)) == cell(x, g));
        assert(cell(y, g) == y[f][4] && cell(x, g) == x[f][4]);
    }
}

/// After a clockwise quarter turn the pieces still form a permutation: each position
/// holds the piece of the position the turn brought to it.
proof fn lemma_cw_ids(x: Cells, y: Cells, m: Move)
    requires
        all_known(x),
        pieces_form_permutation(x),
        cells_turned(x, y, m),
        m.turn == Turn::Cw,
    ensures
        pieces_form_permutation(y),
        forall|j: int| 0 <= j < 8 ==> #[trigger] corner_id(y, j) == corner_id(x, cw_corner_from(board_face(m.face), j)),
        forall|j: int| 0 <= j < 12 ==> #[trigger] edge_id(y, j) == edge_id(x, cw_edge_from(board_face(m.face), j)),
        forall|i: int| 0 <= i < 8 ==> #[trigger] corner_twist(y, cw_corner_to(board_face(m.face), i))
            == (corner_twist(x, i) + cw_corner_shift(board_face(m.face), i)) % 3,
        forall|i: int| 0 <= i < 12 ==> #[trigger] edge_flip(y, cw_edge_to(board_face(m.face), i))
            == (edge_flip(x, i) + cw_edge_shift(board_face(m.face), i)) % 2,
{
    let c = board_face(m.face);
    lemma_cw_tables(c);
    assert forall|i: int| 0 <= i < 8 implies #[trigger] corner_twist(y, cw_corner_to(c, i))
        == (corner_twist(x, i) + cw_corner_shift(c, i)) % 3 by {
        lemma_cw_corner(x, y, m, i);
    }
    assert forall|i: int| 0 <= i < 12 implies #[trigger] edge_flip(y, cw_edge_to(c, i))
        == (edge_flip(x, i) + cw_edge_shift(c, i)) % 2 by {
        lemma_cw_edge(x, y, m, i);
    }
    assert forall|j: int| 0 <= j < 8 implies #[trigger] corner_id(y, j) == corner_id(x, cw_corner_from(c, j)) by {
        lemma_cw_corner(x, y, m, cw_corner_from(c, j));
    }
    assert forall|j: int| 0 <= j < 12 implies #[trigger] edge_id(y, j) == edge_id(x, cw_edge_from(c, j)) by {
        lemma_cw_edge(x, y, m, cw_edge_from(c, j));
    }
    assert forall|a: int, b: int| 0 <= a < 8 && 0 <= b < 8 && a != b implies corner_id(y, a) != corner_id(y, b) by {
        assert(corner_id(y, a) == corner_id(x, cw_corner_from(c, a)));
        assert(corner_id(y, b) == corner_id(x, cw_corner_from(c, b)));
        assert(cw_corner_from(c, a) != cw_corner_from(c, b));
    }
    assert forall|a: int, b: int| 0 <= a < 12 && 0 <= b < 12 && a != b implies edge_id(y, a) != edge_id(y, b) by {
        assert(edge_id(y, a) == edge_id(x, cw_edge_from(c, a)));
        assert(edge_id(y, b) == edge_id(x, cw_edge_from(c, b)));
        assert(cw_edge_from(c, a) != cw_edge_from(c, b));
    }
}

/// A clockwise quarter turn keeps a cube legal.
proof fn lemma_cw_legal(x: Cells, y: Cells, m: Move)
    requires
        legal(x),
        cells_turned(x, y, m),
        m.turn == Turn::Cw,
    ensures
        legal(y),
{
    let c = board_face(m.face);
    lemma_cw_known(x, y, m);
    lemma_cw_ids(x, y, m);
    assert forall|col: StickerColor| #[trigger] count_of(y, col) == 9 by {
        lemma_turn_counts(x, y, m, col);
    }
    lemma_cw_twist_sum(c, x, y);
    lemma_cw_flip_sum(c, x, y);
    let px = corner_perm(x);
    let py = corner_perm(y);
    assert forall|j: int| 0 <= j < 8 implies #[trigger] py[j] == px[cw_corner_from(c, j)] by {
        lemma_cw_tables(c);
    }
    lemma_cw_corner_parity(c, px, py);
    let qx = edge_perm(x);
    let qy = edge_perm(y);
    assert forall|j: int| 0 <= j < 12 implies #[trigger] qy[j] == qx[cw_edge_from(c, j)] by {
        lemma_cw_tables(c);
    }
    lemma_cw_edge_parity(c, qx, qy);
}

/// The board `x` with the stickers `0..n` put where move `m` carries them.
pub open spec fn build_turn(x: Cells, m: Move, n: int) -> Cells
    decreases n,
{
    if n <= 0 {
        x
    } else {
        put(build_turn(x, m, n - 1), dest(m, n - 1), cell(x, n - 1))
    }
}

proof fn lemma_build_turn(x: Cells, m: Move, n: int)
    requires
        0 <= n <= 54,
    ensures
        forall|g: int| 0 <= g < n ==> #[trigger] cell(build_turn(x, m, n), dest(m, g)) == cell(x, g),
    decreases n,
{
    if n > 0 {
        lemma_build_turn(x, m, n - 1);
        let prev = build_turn(x, m, n - 1);
        lemma_dest_undo(m, n - 1);
        lemma_put_cells(prev, dest(m, n - 1), cell(x, n - 1));
        assert forall|g: int| 0 <= g < n implies #[trigger] cell(build_turn(x, m, n), dest(m, g)) == cell(x, g) by {
            lemma_dest_undo(m, g);
            if g < n - 1 {
                assert(dest(m, g) != dest(m, n - 1));
            }
        }
    }
}

/// Every board has a turned board.
proof fn lemma_turn_exists(x: Cells, m: Move)
    ensures
        cells_turned(x, build_turn(x, m, 54), m),
{
    lemma_build_turn(x, m, 54);
}

/// A board turned by a move is unique.
proof fn lemma_turned_same(x: Cells, y: Cells, z: Cells, m: Move)
    requires
        cells_turned(x, y, m),
        cells_turned(x, z, m),
    ensures
        y == z,
{
    lemma_undo_undo(m);
    assert forall|h: int| 0 <= h < 54 implies #[trigger] cell(y, h) == cell(z, h) by {
        lemma_dest_undo(undo(m), h);
        let g = dest(undo(m), h);
        assert(cell(y, dest(m, g)) == cell(x, g));
        assert(cell(z, dest(m, g)) == cell(x, g));
    }
    lemma_cells_ext(y, z);
}

/// A move keeps a cube legal: every cube reached from a legal one by face turns is
/// legal.
pub proof fn lemma_turn_keeps_legal(x: Cells, y: Cells, m: Move)
    requires
        legal(x),
        cells_turned(x, y, m),
    ensures
        legal(y),
{
    let cw = Move { face: m.face, turn: Turn::Cw };
    if m.turn == Turn::Cw {
        lemma_cw_legal(x, y, m);
    } else {
        let y1 = build_turn(x, cw, 54);
        lemma_turn_exists(x, cw);
        lemma_cw_legal(x, y1, cw);
        let y2 = build_turn(y1, cw, 54);
        lemma_turn_exists(y1, cw);
        lemma_cw_legal(y1, y2, cw);
        assert(half(cw) == Move { face: m.face, turn: Turn::Double });
        assert forall|g: int| 0 <= g < 54 implies #[trigger] cell(y2, dest(half(cw), g)) == cell(x, g) by {
            lemma_dest_twice(cw, g);
            lemma_dest_undo(cw, g);
            assert(cell(y2, dest(cw, dest(cw, g))) == cell(y1, dest(cw, g)));
            assert(cell(y1, dest(cw, g)) == cell(x, g));
        }
        if m.turn == Turn::Double {
            assert(m == half(cw));
            lemma_turned_same(x, y, y2, m);
        } else {
            let y3 = build_turn(y2, cw, 54);
            lemma_turn_exists(y2, cw);
            lemma_cw_legal(y2, y3, cw);
            assert(m == undo(cw));
            assert forall|g: int| 0 <= g < 54 implies #[trigger] cell(y3, dest(undo(cw), g)) == cell(x, g) by {
                lemma_dest_half_then_quarter(cw, g);
                lemma_dest_undo(half(cw), g);
                assert(cell(y3, dest(cw, dest(half(cw), g))) == cell(y2, dest(half(cw), g)));
            }
            lemma_turned_same(x, y, y3, m);
        }
    }
}

/// The board `bd` as a board of known stickers (indices `0..n`).
pub open spec fn board_cells(bd: [[StickerColor; 9]; 6], n: int) -> Cells
    decreases n,
{
    if n <= 0 {
        vstd::pervasive::arbitrary()
    } else {
        put(board_cells(bd, n - 1), n - 1, Some(sticker(bd, n - 1)))
    }
}

pub proof fn lemma_board_cells(bd: [[StickerColor; 9]; 6], n: int)
    requires
        0 <= n <= 54,
    ensures
        forall|g: int| 0 <= g < n ==> #[trigger] cell(board_cells(bd, n), g) == Some(sticker(bd, g)),
    decreases n,
{
    if n > 0 {
        lemma_board_cells(bd, n - 1);
        lemma_put_cells(board_cells(bd, n - 1), n - 1, Some(sticker(bd, n - 1)));
    }
}

/// A face turn keeps a cube legal (said of full boards of stickers).
pub proof fn lemma_board_turn_legal(x: [[StickerColor; 9]; 6], y: [[StickerColor; 9]; 6], m: Move)
    requires
        legal(board_cells(x, 54)),
        turned(x, y, m),
    ensures
        legal(board_cells(y, 54)),
{
    lemma_board_cells(x, 54);
    lemma_board_cells(y, 54);
    lemma_undo_undo(m);
    assert forall|g: int| 0 <= g < 54 implies #[trigger] cell(board_cells(y, 54), dest(m, g)) == cell(board_cells(x, 54), g) by {
        lemma_dest_undo(m, g);
        assert(sticker(y, dest(m, g)) == sticker(x, dest(undo(m), dest(m, g))));
    }
    lemma_turn_keeps_legal(board_cells(x, 54), board_cells(y, 54), m);
}

/// A sorted arrangement has no inversions.
proof fn lemma_sorted_even(p: Seq<int>)
    requires
        forall|a: int, b: int| 0 <= a < b < p.len() ==> p[a] < p[b],
    ensures
        is_even(p),
{
    lemma_sorted_from(p, 0);
}

proof fn lemma_sorted_at(p: Seq<int>, i: int, j0: int)
    requires
        forall|a: int, b: int| 0 <= a < b < p.len() ==> p[a] < p[b],
        0 <= i < j0,
    ensures
        inversions_at(p, i, j0) == 0,
    decreases p.len() - j0,
{
    if j0 < p.len() {
        lemma_sorted_at(p, i, j0 + 1);
    }
}

proof fn lemma_sorted_from(p: Seq<int>, i0: int)
    requires
        forall|a: int, b: int| 0 <= a < b < p.len() ==> p[a] < p[b],
        0 <= i0,
    ensures
        inversions_from(p, i0) == 0,
    decreases p.len() - i0,
{
    if i0 < p.len() {
        lemma_sorted_at(p, i0, i0 + 1);
        lemma_sorted_from(p, i0 + 1);
    }
}

proof fn lemma_solved_cells(bd: [[StickerColor; 9]; 6])
    requires
        is_solved_board(bd),
    ensures
        forall|g: int| 0 <= g < 54 ==> #[trigger] cell(board_cells(bd, 54), g) == Some(solved_face_color(g / 9)),
        forall|h: int, j: int| 0 <= h < 6 && 0 <= j < 9 ==> #[trigger] board_cells(bd, 54)[h][j] == Some(solved_face_color(h)),
{
    let s = board_cells(bd, 54);
    lemma_board_cells(bd, 54);
    assert forall|g: int| 0 <= g < 54 implies #[trigger] cell(s, g) == Some(solved_face_color(g / 9)) by {
        assert(sticker(bd, g) == bd[g / 9][g % 9]);
    }
    assert forall|h: int, j: int| 0 <= h < 6 && 0 <= j < 9 implies #[trigger] s[h][j] == Some(solved_face_color(h)) by {
        let g = h * 9 + j;
        assert(g / 9 == h && g % 9 == j);
        assert(cell(s, g) == s[h][j]);
    }
}

proof fn lemma_solved_corners(s: Cells)
    requires
        forall|g: int| 0 <= g < 54 ==> #[trigger] cell(s, g) == Some(solved_face_color(g / 9)),
    ensures
        forall|ci: int| 0 <= ci < 8 ==> #[trigger] corner_id(s, ci) == ci && corner_twist(s, ci) == 0,
{
    crate::feasible::lemma_slots_distinct();
    assert forall|ci: int| 0 <= ci < 8 implies #[trigger] corner_id(s, ci) == ci && corner_twist(s, ci) == 0 by {
        assert(cell(s, cslot(ci, 0)) == Some(solved_face_color(cslot(ci, 0) / 9)));
        assert(cell(s, cslot(ci, 1)) == Some(solved_face_color(cslot(ci, 1) / 9)));
        assert(cell(s, cslot(ci, 2)) == Some(solved_face_color(cslot(ci, 2) / 9)));
        assert(corner_fits(s, ci, ci, 0));
        lemma_corner_id(s, ci, ci);
    }
}

proof fn lemma_solved_edges(s: Cells)
    requires
        forall|g: int| 0 <= g < 54 ==> #[trigger] cell(s, g) == Some(solved_face_color(g / 9)),
    ensures
        forall|ei: int| 0 <= ei < 12 ==> #[trigger] edge_id(s, ei) == ei && edge_flip(s, ei) == 0,
{
    crate::feasible::lemma_slots_distinct();
    assert forall|ei: int| 0 <= ei < 12 implies #[trigger] edge_id(s, ei) == ei && edge_flip(s, ei) == 0 by {
        assert(cell(s, eslot(ei, 0)) == Some(solved_face_color(eslot(ei, 0) / 9)));
        assert(cell(s, eslot(ei, 1)) == Some(solved_face_color(eslot(ei, 1) / 9)));
        assert(edge_fits(s, ei, ei, 0));
        lemma_edge_id(s, ei, ei);
    }
}

/// The solved cube is legal.
pub proof fn lemma_solved_legal(bd: [[StickerColor; 9]; 6])
    requires
        is_solved_board(bd),
    ensures
        legal(board_cells(bd, 54)),
{
    let s = board_cells(bd, 54);
    lemma_solved_cells(bd);
    crate::editor::lemma_solved_counts(s);
    lemma_solved_corners(s);
    lemma_solved_edges(s);
    lemma_twist_expand(s);
    lemma_flip_expand(s);
    lemma_sorted_even(corner_perm(s));
    lemma_sorted_even(edge_perm(s));
    assert forall|f: int| 0 <= f < 6 implies (#[trigger] s[f][4] matches Some(c) ==> c == solved_face_color(f)) by {
        assert(s[f][4] == Some(solved_face_color(f)));
    }
    assert forall|g: int| 0 <= g < 54 implies #[trigger] cell(s, g) is Some by {}
}

} // verus!
