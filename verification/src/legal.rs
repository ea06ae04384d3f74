//! What makes a full board a legal (reachable) cube: the five invariants.

use vstd::prelude::*;
use crate::model::{solved_face_color, StickerColor};
use crate::pieces::{
    cell, corner_color, corner_full, corner_match, count_of, cslot, edge_color, edge_full,
    edge_match, eslot, Cells,
};
use crate::fit::{lemma_corner_match_unique, lemma_edge_match_unique};

verus! {

/// The piece at corner position `ci` (0..8), or 8 when no piece fits there.
pub open spec fn corner_id(cells: Cells, ci: int) -> int {
    if exists|k: int| 0 <= k < 8 && corner_match(cells, ci, k) {
        choose|k: int| 0 <= k < 8 && corner_match(cells, ci, k)
    } else {
        8
    }
}

/// The piece at edge position `ei` (0..12), or 12 when no piece fits there.
pub open spec fn edge_id(cells: Cells, ei: int) -> int {
    if exists|k: int| 0 <= k < 12 && edge_match(cells, ei, k) {
        choose|k: int| 0 <= k < 12 && edge_match(cells, ei, k)
    } else {
        12
    }
}

/// Twist of corner position `ci`: the slot (0..3) showing the piece's U/D colour.
pub open spec fn corner_twist(cells: Cells, ci: int) -> int {
    let top = Some(corner_color(corner_id(cells, ci), 0));
    if cell(cells, cslot(ci, 0)) == top {
        0
    } else if cell(cells, cslot(ci, 1)) == top {
        1
    } else {
        2
    }
}

/// Flip of edge position `ei`: 1 when its first slot does not show the piece's
/// first colour.
pub open spec fn edge_flip(cells: Cells, ei: int) -> int {
    if cell(cells, eslot(ei, 0)) == Some(edge_color(edge_id(cells, ei), 0)) {
        0
    } else {
        1
    }
}

/// Sum of the twists of corner positions `0..n`.
pub open spec fn twist_upto(cells: Cells, n: int) -> int
    decreases n,
{
    if n <= 0 {
        0
    } else {
        twist_upto(cells, n - 1) + corner_twist(cells, n - 1)
    }
}

/// Sum of the flips of edge positions `0..n`.
pub open spec fn flip_upto(cells: Cells, n: int) -> int
    decreases n,
{
    if n <= 0 {
        0
    } else {
        flip_upto(cells, n - 1) + edge_flip(cells, n - 1)
    }
}

/// Number of `j` in `j0..p.len()` with `p[i] > p[j]`.
pub open spec fn inversions_at(p: Seq<int>, i: int, j0: int) -> nat
    decreases p.len() - j0,
{
    if j0 >= p.len() || j0 < 0 {
        0
    } else {
        (if p[i] > p[j0] { 1nat } else { 0nat }) + inversions_at(p, i, j0 + 1)
    }
}

/// Number of inversions `(i, j)`, `i0 <= i < j`, of `p`.
pub open spec fn inversions_from(p: Seq<int>, i0: int) -> nat
    decreases p.len() - i0,
{
    if i0 >= p.len() || i0 < 0 {
        0
    } else {
        inversions_at(p, i0, i0 + 1) + inversions_from(p, i0 + 1)
    }
}

/// A sequence is an even arrangement: it has an even number of inversions.
pub open spec fn is_even(p: Seq<int>) -> bool {
    inversions_from(p, 0) % 2 == 0
}

/// The corner pieces position by position.
pub open spec fn corner_perm(cells: Cells) -> Seq<int> {
    Seq::new(8, |ci: int| corner_id(cells, ci))
}

/// The edge pieces position by position.
pub open spec fn edge_perm(cells: Cells) -> Seq<int> {
    Seq::new(12, |ei: int| edge_id(cells, ei))
}

/// Every sticker is known.
pub open spec fn all_known(cells: Cells) -> bool {
    forall|g: int| 0 <= g < 54 ==> #[trigger] cell(cells, g) is Some
}

/// Every known centre shows its face's colour.
pub open spec fn centers_fixed(cells: Cells) -> bool {
    forall|f: int| 0 <= f < 6 ==> (#[trigger] cells[f][4] matches Some(c) ==> c == solved_face_color(f))
}

/// Every colour appears exactly nine times.
pub open spec fn counts_nine(cells: Cells) -> bool {
    forall|c: StickerColor| #[trigger] count_of(cells, c) == 9
}

/// Every position shows a real piece, and no piece appears twice.
pub open spec fn pieces_form_permutation(cells: Cells) -> bool {
    &&& forall|ci: int| 0 <= ci < 8 ==> #[trigger] corner_id(cells, ci) < 8
    &&& forall|ei: int| 0 <= ei < 12 ==> #[trigger] edge_id(cells, ei) < 12
    &&& forall|a: int, b: int| 0 <= a < 8 && 0 <= b < 8 && a != b ==> corner_id(cells, a) != corner_id(cells, b)
    &&& forall|a: int, b: int| 0 <= a < 12 && 0 <= b < 12 && a != b ==> edge_id(cells, a) != edge_id(cells, b)
}

/// A board is a legal cube: full, centres fixed, nine of each colour, the pieces
/// form a permutation, twists sum to 0 (mod 3), flips to 0 (mod 2), and the corner
/// and edge permutations have the same parity.
pub open spec fn legal(cells: Cells) -> bool {
    &&& all_known(cells)
    &&& centers_fixed(cells)
    &&& counts_nine(cells)
    &&& pieces_form_permutation(cells)
    &&& twist_upto(cells, 8) % 3 == 0
    &&& flip_upto(cells, 12) % 2 == 0
    &&& is_even(corner_perm(cells)) == is_even(edge_perm(cells))
}

/// A fully known corner position holding piece `k` has `corner_id == k`.
pub proof fn lemma_corner_id(cells: Cells, ci: int, k: int)
    requires
        0 <= ci < 8,
        0 <= k < 8,
        corner_full(cells, ci),
        corner_match(cells, ci, k),
    ensures
        corner_id(cells, ci) == k,
{
    let j = corner_id(cells, ci);
    assert(0 <= j < 8 && corner_match(cells, ci, j));
    lemma_corner_match_unique(cells, ci, j, k);
}

/// A fully known edge position holding piece `k` has `edge_id == k`.
pub proof fn lemma_edge_id(cells: Cells, ei: int, k: int)
    requires
        0 <= ei < 12,
        0 <= k < 12,
        edge_full(cells, ei),
        edge_match(cells, ei, k),
    ensures
        edge_id(cells, ei) == k,
{
    let j = edge_id(cells, ei);
    assert(0 <= j < 12 && edge_match(cells, ei, j));
    lemma_edge_match_unique(cells, ei, j, k);
}

/// With no matching piece, the corner id is 8.
pub proof fn lemma_corner_id_none(cells: Cells, ci: int)
    requires
        forall|k: int| 0 <= k < 8 ==> !corner_match(cells, ci, k),
    ensures
        corner_id(cells, ci) == 8,
{
}

/// With no matching piece, the edge id is 12.
pub proof fn lemma_edge_id_none(cells: Cells, ei: int)
    requires
        forall|k: int| 0 <= k < 12 ==> !edge_match(cells, ei, k),
    ensures
        edge_id(cells, ei) == 12,
{
}

/// Whether `p` is even, i.e. has an even number of inversions. `true` means even.
pub fn parity(p: &[usize]) -> (even: bool)
    ensures
        even == is_even(p@.map_values(|x: usize| x as int)),
{
    let ghost q = p@.map_values(|x: usize| x as int);
    let n = p.len();
    let mut odd = false;
    let mut i: usize = 0;
    while i < n
        invariant
            n == p@.len(),
            i <= n,
            q == p@.map_values(|x: usize| x as int),
            (inversions_from(q, 0) - inversions_from(q, i as int)) % 2 == (if odd { 1int } else { 0int }),
        decreases n - i,
    {
        let mut j: usize = i + 1;
        while j < n
            invariant
                n == p@.len(),
                i < n,
                i + 1 <= j <= n,
                q == p@.map_values(|x: usize| x as int),
                (inversions_from(q, 0) - inversions_from(q, i as int) + inversions_at(q, i as int, i + 1)
                    - inversions_at(q, i as int, j as int)) % 2 == (if odd { 1int } else { 0int }),
            decreases n - j,
        {
            proof {
                assert(inversions_at(q, i as int, j as int)
                    == (if q[i as int] > q[j as int] { 1nat } else { 0nat }) + inversions_at(q, i as int, j + 1));
                assert(q[i as int] == p@[i as int] as int && q[j as int] == p@[j as int] as int);
            }
            if p[i] > p[j] {
                odd = !odd;
            }
            j += 1;
        }
        proof {
            assert(inversions_at(q, i as int, n as int) == 0);
            assert(inversions_from(q, i as int) == inversions_at(q, i as int, i + 1) + inversions_from(q, i + 1));
        }
        i += 1;
    }
    proof {
        assert(inversions_from(q, n as int) == 0);
    }
    !odd
}

} // verus!
