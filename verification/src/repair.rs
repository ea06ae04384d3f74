//! Getting a stuck board going again: the piece-by-piece analysis of a full board,
//! the one-change repair, and the targeted fix of the orientation and parity
//! invariants.

use vstd::prelude::*;
use crate::model::StickerColor;
use crate::pieces::{
    cell, color_cn, color_idx, color_index, count_of, counts, empty_total, lemma_put_cells, mark,
    Marks, COLOR_ORDER, CENTER_IDX, corner_color, empty_count, lemma_cells_ext, corner_fits, corner_full, corner_match, cslot, edge_color,
    edge_fits, edge_full, edge_match, eslot, get, Cells, CORNER_FACELETS, EDGE_FACELETS,
};
use crate::fit::{corner_piece_at, edge_piece_at, lemma_corner_colors_distinct, lemma_edge_colors_distinct};
use crate::legal::{
    all_known, centers_fixed, corner_id, corner_perm, corner_twist, counts_nine, edge_flip, edge_id,
    edge_perm, flip_upto, is_even, legal, lemma_corner_id, lemma_edge_id, parity,
    pieces_form_permutation, twist_upto,
};
use crate::moves::{
    flip_edge, is_corner_swap, is_edge_swap, swap_corner_stickers, is_flip, is_placed, is_twist, lemma_exchange_board, lemma_flip_board,
    lemma_flip_of_turn, lemma_slots_off_centers, lemma_swap_parity, lemma_twist_board,
    lemma_twist_of_turn, on_corner, on_edge, place_corner, swap_edge_stickers, twist_corner,
};
use crate::feasible::{
    agrees, cn_of, feasible, first_from, is_feasible, lemma_agrees_legal_feasible, lemma_first_from_is,
    lemma_first_from_none, lemma_slots_distinct,
};
use crate::completion::{color_rank, completable, completes, find_completion, first_gap_diff, lemma_precedes_lift, precedes};
use crate::propagate::{consistent, covers, extends, propagate, propagation_closed};
use crate::model::solved_face_color;
use crate::validate::{lemma_all_known_iff, texts, validate};
use crate::completion::{lemma_count_after_fill, lemma_fill_agrees, lemma_full_agrees_eq, lemma_quota_full};
use crate::propagate::empty_list;
use crate::text::{dec_text, push_dec, push_str, text};

verus! {

/// Every sticker of every corner and edge position is known.
pub open spec fn pieces_known(cells: Cells) -> bool {
    &&& forall|ci: int| 0 <= ci < 8 ==> #[trigger] corner_full(cells, ci)
    &&& forall|ei: int| 0 <= ei < 12 ==> #[trigger] edge_full(cells, ei)
}

/// The pieces of a board position by position, with their orientations.
pub struct Analysis {
    /// The piece (0..8) at each corner position.
    pub corner_of: [usize; 8],
    /// The turn `r` (0..3) of each corner: slot `s` shows the piece's colour `(s + r) % 3`.
    pub corner_ori: [u8; 8],
    /// The piece (0..12) at each edge position.
    pub edge_of: [usize; 12],
    /// The flip (0..2) of each edge: slot `s` shows the piece's colour `(s + r) % 2`.
    pub edge_ori: [u8; 12],
}

/// `a` describes the pieces of `cells`.
pub open spec fn describes(a: Analysis, cells: Cells) -> bool {
    &&& forall|ci: int| 0 <= ci < 8 ==> {
        &&& #[trigger] a.corner_of[ci] as int == corner_id(cells, ci)
        &&& a.corner_ori[ci] < 3
        &&& corner_fits(cells, ci, a.corner_of[ci] as int, a.corner_ori[ci] as int)
    }
    &&& forall|ei: int| 0 <= ei < 12 ==> {
        &&& #[trigger] a.edge_of[ei] as int == edge_id(cells, ei)
        &&& a.edge_ori[ei] < 2
        &&& edge_fits(cells, ei, a.edge_of[ei] as int, a.edge_ori[ei] as int)
    }
}

/// The turn of piece `k` at the fully known corner position `ci`.
fn corner_turn(cells: &Cells, ci: usize, k: usize) -> (r: u8)
    requires
        ci < 8,
        k < 8,
        corner_full(*cells, ci as int),
        corner_match(*cells, ci as int, k as int),
    ensures
        r < 3,
        corner_fits(*cells, ci as int, k as int, r as int),
{
    let p = crate::pieces::solved_corner_piece(k);
    let a = get(cells, CORNER_FACELETS[ci][0]);
    if a == Some(p[0]) {
        if corner_fits_at(cells, ci, k, 0) {
            return 0;
        }
    }
    if corner_fits_at(cells, ci, k, 1) {
        return 1;
    }
    if corner_fits_at(cells, ci, k, 2) {
        return 2;
    }
    proof {
        assert(false);
    }
    0
}

/// Every known sticker of corner position `ci` agrees with piece `k` turned by `r`.
fn corner_fits_at(cells: &Cells, ci: usize, k: usize, r: usize) -> (res: bool)
    requires
        ci < 8,
        k < 8,
        r < 3,
    ensures
        res == corner_fits(*cells, ci as int, k as int, r as int),
{
    let p = crate::pieces::solved_corner_piece(k);
    let mut s: usize = 0;
    while s < 3
        invariant
            s <= 3,
            ci < 8,
            k < 8,
            r < 3,
            p[0] == corner_color(k as int, 0),
            p[1] == corner_color(k as int, 1),
            p[2] == corner_color(k as int, 2),
            forall|t: int| 0 <= t < s ==> #[trigger] crate::pieces::corner_slot_fits(*cells, ci as int, k as int, r as int, t),
        decreases 3 - s,
    {
        let g = CORNER_FACELETS[ci][s];
        let want = p[(s + r) % 3];
        match get(cells, g) {
            Some(c) => {
                if c != want {
                    return false;
                }
            },
            None => {},
        }
        s += 1;
    }
    true
}

/// Corner position `ci` has an unknown sticker, shows no real piece, or shows the
/// piece of an earlier position.
pub open spec fn corner_fault(cells: Cells) -> spec_fn(int) -> bool {
    |ci: int| !corner_full(cells, ci) || corner_id(cells, ci) == 8
        || exists|cj: int| 0 <= cj < ci && #[trigger] corner_id(cells, cj) == corner_id(cells, ci)
}

/// Edge position `ei` has an unknown sticker, shows no real piece, or shows the
/// piece of an earlier position.
pub open spec fn edge_fault(cells: Cells) -> spec_fn(int) -> bool {
    |ei: int| !edge_full(cells, ei) || edge_id(cells, ei) == 12
        || exists|ej: int| 0 <= ej < ei && #[trigger] edge_id(cells, ej) == edge_id(cells, ei)
}

/// The message for the fault at corner position `ci`.
pub open spec fn corner_fault_text(cells: Cells, ci: int) -> Seq<char> {
    if !corner_full(cells, ci) {
        "角位未填满"@
    } else if corner_id(cells, ci) == 8 {
        "角位 "@ + dec_text((ci + 1) as nat) + " 的配色 "@ + cn_of(cell(cells, cslot(ci, 0)))
            + cn_of(cell(cells, cslot(ci, 1))) + cn_of(cell(cells, cslot(ci, 2))) + " 不是任何合法角块"@
    } else {
        "角块出现了两次(序号 "@ + dec_text((corner_id(cells, ci) + 1) as nat) + ")"@
    }
}

/// The message for the fault at edge position `ei`.
pub open spec fn edge_fault_text(cells: Cells, ei: int) -> Seq<char> {
    if !edge_full(cells, ei) {
        "棱位未填满"@
    } else if edge_id(cells, ei) == 12 {
        "棱位 "@ + dec_text((ei + 1) as nat) + " 的配色 "@ + cn_of(cell(cells, eslot(ei, 0)))
            + cn_of(cell(cells, eslot(ei, 1))) + " 不是任何合法棱块"@
    } else {
        "棱块出现了两次(序号 "@ + dec_text((edge_id(cells, ei) + 1) as nat) + ")"@
    }
}

/// Why [`analyze`] refuses a board: the fault of the first faulty corner position,
/// else of the first faulty edge position.
pub open spec fn analysis_text(cells: Cells) -> Seq<char> {
    if let Some(ci) = first_from(corner_fault(cells), 0, 8) {
        corner_fault_text(cells, ci)
    } else if let Some(ei) = first_from(edge_fault(cells), 0, 12) {
        edge_fault_text(cells, ei)
    } else {
        seq![]
    }
}

/// The corner half of [`analyze`].
#[verifier::spinoff_prover]
fn analyze_corners(cells: &Cells) -> (res: Result<([usize; 8], [u8; 8]), String>)
    ensures
        res is Ok <==> {
            &&& forall|ci: int| 0 <= ci < 8 ==> #[trigger] corner_full(*cells, ci)
            &&& forall|ci: int| 0 <= ci < 8 ==> #[trigger] corner_id(*cells, ci) < 8
            &&& forall|a: int, b: int| 0 <= a < 8 && 0 <= b < 8 && a != b ==> corner_id(*cells, a) != corner_id(*cells, b)
        },
        res matches Ok(r) ==> forall|ci: int| 0 <= ci < 8 ==> {
            &&& #[trigger] r.0[ci] as int == corner_id(*cells, ci)
            &&& r.1[ci] < 3
            &&& corner_fits(*cells, ci, r.0[ci] as int, r.1[ci] as int)
        },
        res is Ok ==> first_from(corner_fault(*cells), 0, 8) is None,
        res matches Err(m) ==> first_from(corner_fault(*cells), 0, 8) matches Some(ci)
            && m@ == corner_fault_text(*cells, ci),
{
    let mut corner_of = [usize::MAX; 8];
    let mut corner_ori = [0u8; 8];
    let mut used_c = [false; 8];
    let mut ci: usize = 0;
    while ci < 8
        invariant
            ci <= 8,
            forall|cj: int| 0 <= cj < ci ==> #[trigger] corner_full(*cells, cj),
            forall|cj: int| 0 <= cj < ci ==> {
                &&& #[trigger] corner_of[cj] as int == corner_id(*cells, cj)
                &&& corner_id(*cells, cj) < 8
                &&& corner_ori[cj] < 3
                &&& corner_fits(*cells, cj, corner_of[cj] as int, corner_ori[cj] as int)
            },
            forall|a: int, b: int| 0 <= a < ci && 0 <= b < ci && a != b ==> corner_id(*cells, a) != corner_id(*cells, b),
            forall|k: int| 0 <= k < 8 ==> used_c[k] == exists|cj: int| 0 <= cj < ci && #[trigger] corner_id(*cells, cj) == k,
            forall|j: int| 0 <= j < ci ==> !#[trigger] corner_fault(*cells)(j),
        decreases 8 - ci,
    {
        let x0 = get(cells, CORNER_FACELETS[ci][0]);
        let x1 = get(cells, CORNER_FACELETS[ci][1]);
        let x2 = get(cells, CORNER_FACELETS[ci][2]);
        if x0.is_none() || x1.is_none() || x2.is_none() {
            proof {
                assert(!corner_full(*cells, ci as int));
                assert(corner_fault(*cells)(ci as int));
                lemma_first_from_is(corner_fault(*cells), 0, 8, ci as int);
            }
            return Err(text("角位未填满"));
        }
        match corner_piece_at(cells, ci) {
            None => {
                proof {
                    assert(corner_id(*cells, ci as int) == 8);
                }
                let mut m = text("角位 ");
                push_dec(&mut m, ci + 1);
                push_str(&mut m, " 的配色 ");
                push_str(&mut m, color_cn(x0.unwrap()));
                push_str(&mut m, color_cn(x1.unwrap()));
                push_str(&mut m, color_cn(x2.unwrap()));
                push_str(&mut m, " 不是任何合法角块");
                proof {
                    assert(corner_fault(*cells)(ci as int));
                    lemma_first_from_is(corner_fault(*cells), 0, 8, ci as int);
                    assert(m@ =~= corner_fault_text(*cells, ci as int));
                }
                return Err(m);
            },
            Some(k) => {
                proof {
                    lemma_corner_id(*cells, ci as int, k as int);
                }
                if used_c[k] {
                    proof {
                        let cj = choose|cj: int| 0 <= cj < ci && #[trigger] corner_id(*cells, cj) == k;
                        assert(corner_id(*cells, cj) == corner_id(*cells, ci as int));
                        assert(corner_fault(*cells)(ci as int));
                        lemma_first_from_is(corner_fault(*cells), 0, 8, ci as int);
                    }
                    let mut m = text("角块出现了两次(序号 ");
                    push_dec(&mut m, k + 1);
                    push_str(&mut m, ")");
                    proof {
                        assert(m@ =~= corner_fault_text(*cells, ci as int));
                    }
                    return Err(m);
                }
                let r = corner_turn(cells, ci, k);
                let ghost used0 = used_c;
                let ghost of0 = corner_of;
                let ghost ori0 = corner_ori;
                used_c[k] = true;
                corner_of[ci] = k;
                corner_ori[ci] = r;
                proof {
                    assert forall|cj: int| 0 <= cj < ci + 1 implies {
                        &&& #[trigger] corner_of[cj] as int == corner_id(*cells, cj)
                        &&& corner_id(*cells, cj) < 8
                        &&& corner_ori[cj] < 3
                        &&& corner_fits(*cells, cj, corner_of[cj] as int, corner_ori[cj] as int)
                    } by {
                        if cj < ci {
                            assert(corner_of[cj] == of0[cj]);
                            assert(corner_ori[cj] == ori0[cj]);
                        }
                    }
                    assert forall|q: int| 0 <= q < 8 implies used_c[q] == exists|cj: int| 0 <= cj < ci + 1 && #[trigger] corner_id(*cells, cj) == q by {
                        if q == k {
                            assert(corner_id(*cells, ci as int) == q);
                        } else {
                            assert(used_c[q] == used0[q]);
                            if exists|cj: int| 0 <= cj < ci + 1 && #[trigger] corner_id(*cells, cj) == q {
                                let cj = choose|cj: int| 0 <= cj < ci + 1 && #[trigger] corner_id(*cells, cj) == q;
                                assert(cj != ci);
                            }
                        }
                    }
                    assert forall|j: int| 0 <= j < ci + 1 implies !#[trigger] corner_fault(*cells)(j) by {
                        assert(corner_of[j] as int == corner_id(*cells, j));
                        assert(corner_full(*cells, j));
                        if j == ci {
                            assert(!used0[k as int]);
                        } else {
                            assert(!corner_fault(*cells)(j));
                        }
                    }
                }
            },
        }
        ci += 1;
    }
    proof {
        assert forall|cj: int| 0 <= cj < 8 implies #[trigger] corner_id(*cells, cj) < 8 by {
            assert(corner_of[cj] as int == corner_id(*cells, cj));
        }
        lemma_first_from_none(corner_fault(*cells), 0, 8);
    }
    Ok((corner_of, corner_ori))
}

#[verifier::spinoff_prover]
proof fn lemma_edges_step(
    cells: Cells,
    edge_of: [usize; 12],
    edge_ori: [u8; 12],
    of0: [usize; 12],
    ori0: [u8; 12],
    ei: int,
    k: int,
    o: int,
)
    requires
        0 <= ei < 12,
        edge_of[ei] == k,
        edge_ori[ei] == o,
        edge_id(cells, ei) == k,
        k < 12,
        0 <= o < 2,
        edge_fits(cells, ei, k, o),
        forall|ej: int| 0 <= ej < 12 && ej != ei ==> edge_of[ej] == of0[ej] && edge_ori[ej] == ori0[ej],
        forall|ej: int| 0 <= ej < ei ==> {
            &&& #[trigger] of0[ej] as int == edge_id(cells, ej)
            &&& edge_id(cells, ej) < 12
            &&& ori0[ej] < 2
            &&& edge_fits(cells, ej, of0[ej] as int, ori0[ej] as int)
        },
    ensures
        forall|ej: int| 0 <= ej < ei + 1 ==> {
            &&& #[trigger] edge_of[ej] as int == edge_id(cells, ej)
            &&& edge_id(cells, ej) < 12
            &&& edge_ori[ej] < 2
            &&& edge_fits(cells, ej, edge_of[ej] as int, edge_ori[ej] as int)
        },
{
    assert forall|ej: int| 0 <= ej < ei + 1 implies {
        &&& #[trigger] edge_of[ej] as int == edge_id(cells, ej)
        &&& edge_id(cells, ej) < 12
        &&& edge_ori[ej] < 2
        &&& edge_fits(cells, ej, edge_of[ej] as int, edge_ori[ej] as int)
    } by {
        if ej < ei {
            assert(edge_of[ej] == of0[ej] && edge_ori[ej] == ori0[ej]);
            assert(of0[ej] as int == edge_id(cells, ej));
        } else {
            assert(ej == ei);
            assert(edge_of[ej] as int == k && edge_ori[ej] as int == o);
        }
    }
}

/// The edge half of [`analyze`].
#[verifier::spinoff_prover]
#[verifier::rlimit(30)]
fn analyze_edges(cells: &Cells) -> (res: Result<([usize; 12], [u8; 12]), String>)
    ensures
        res is Ok <==> {
            &&& forall|ei: int| 0 <= ei < 12 ==> #[trigger] edge_full(*cells, ei)
            &&& forall|ei: int| 0 <= ei < 12 ==> #[trigger] edge_id(*cells, ei) < 12
            &&& forall|a: int, b: int| 0 <= a < 12 && 0 <= b < 12 && a != b ==> edge_id(*cells, a) != edge_id(*cells, b)
        },
        res matches Ok(r) ==> forall|ei: int| 0 <= ei < 12 ==> {
            &&& #[trigger] r.0[ei] as int == edge_id(*cells, ei)
            &&& r.1[ei] < 2
            &&& edge_fits(*cells, ei, r.0[ei] as int, r.1[ei] as int)
        },
        res is Ok ==> first_from(edge_fault(*cells), 0, 12) is None,
        res matches Err(m) ==> first_from(edge_fault(*cells), 0, 12) matches Some(ei)
            && m@ == edge_fault_text(*cells, ei),
{
    let mut edge_of = [usize::MAX; 12];
    let mut edge_ori = [0u8; 12];
    let mut used_e = [false; 12];
    let mut ei: usize = 0;
    while ei < 12
        invariant
            ei <= 12,
            forall|ej: int| 0 <= ej < ei ==> #[trigger] edge_full(*cells, ej),
            forall|ej: int| 0 <= ej < ei ==> {
                &&& #[trigger] edge_of[ej] as int == edge_id(*cells, ej)
                &&& edge_id(*cells, ej) < 12
                &&& edge_ori[ej] < 2
                &&& edge_fits(*cells, ej, edge_of[ej] as int, edge_ori[ej] as int)
            },
            forall|a: int, b: int| 0 <= a < ei && 0 <= b < ei && a != b ==> edge_id(*cells, a) != edge_id(*cells, b),
            forall|k: int| 0 <= k < 12 ==> used_e[k] == exists|ej: int| 0 <= ej < ei && #[trigger] edge_id(*cells, ej) == k,
            forall|j: int| 0 <= j < ei ==> !#[trigger] edge_fault(*cells)(j),
        decreases 12 - ei,
    {
        let a = get(cells, EDGE_FACELETS[ei][0]);
        let b = get(cells, EDGE_FACELETS[ei][1]);
        if a.is_none() || b.is_none() {
            proof {
                assert(!edge_full(*cells, ei as int));
                assert(edge_fault(*cells)(ei as int));
                lemma_first_from_is(edge_fault(*cells), 0, 12, ei as int);
            }
            return Err(text("棱位未填满"));
        }
        match edge_piece_at(cells, ei) {
            None => {
                proof {
                    assert(edge_id(*cells, ei as int) == 12);
                }
                let mut m = text("棱位 ");
                push_dec(&mut m, ei + 1);
                push_str(&mut m, " 的配色 ");
                push_str(&mut m, color_cn(a.unwrap()));
                push_str(&mut m, color_cn(b.unwrap()));
                push_str(&mut m, " 不是任何合法棱块");
                proof {
                    assert(edge_fault(*cells)(ei as int));
                    lemma_first_from_is(edge_fault(*cells), 0, 12, ei as int);
                    assert(m@ =~= edge_fault_text(*cells, ei as int));
                }
                return Err(m);
            },
            Some(k) => {
                proof {
                    lemma_edge_id(*cells, ei as int, k as int);
                }
                if used_e[k] {
                    proof {
                        let ej = choose|ej: int| 0 <= ej < ei && #[trigger] edge_id(*cells, ej) == k;
                        assert(edge_id(*cells, ej) == edge_id(*cells, ei as int));
                        assert(edge_fault(*cells)(ei as int));
                        lemma_first_from_is(edge_fault(*cells), 0, 12, ei as int);
                    }
                    let mut m = text("棱块出现了两次(序号 ");
                    push_dec(&mut m, k + 1);
                    push_str(&mut m, ")");
                    proof {
                        assert(m@ =~= edge_fault_text(*cells, ei as int));
                    }
                    return Err(m);
                }
                let p = crate::pieces::solved_edge_piece(k);
                let straight = match (a, b) {
                    (Some(x), Some(y)) => x == p[0] && y == p[1],
                    _ => false,
                };
                let o: u8 = if straight { 0 } else { 1 };
                proof {
                    lemma_edge_colors_distinct(k as int);
                    assert(edge_fits(*cells, ei as int, k as int, o as int));
                }
                let ghost used0 = used_e;
                let ghost of0 = edge_of;
                let ghost ori0 = edge_ori;
                used_e[k] = true;
                edge_of[ei] = k;
                edge_ori[ei] = o;
                proof {
                    assert forall|ej: int| 0 <= ej < 12 && ej != ei implies edge_of[ej] == of0[ej] && edge_ori[ej] == ori0[ej] by {}
                    lemma_edges_step(*cells, edge_of, edge_ori, of0, ori0, ei as int, k as int, o as int);
                    assert(forall|ej: int| 0 <= ej < ei + 1 ==> {
                        &&& #[trigger] edge_of[ej] as int == edge_id(*cells, ej)
                        &&& edge_id(*cells, ej) < 12
                        &&& edge_ori[ej] < 2
                        &&& edge_fits(*cells, ej, edge_of[ej] as int, edge_ori[ej] as int)
                    });
                    assert forall|q: int| 0 <= q < 12 implies used_e[q] == exists|ej: int| 0 <= ej < ei + 1 && #[trigger] edge_id(*cells, ej) == q by {
                        if q == k {
                            assert(edge_id(*cells, ei as int) == q);
                        } else {
                            assert(used_e[q] == used0[q]);
                            if exists|ej: int| 0 <= ej < ei + 1 && #[trigger] edge_id(*cells, ej) == q {
                                let ej = choose|ej: int| 0 <= ej < ei + 1 && #[trigger] edge_id(*cells, ej) == q;
                                assert(ej != ei);
                            }
                        }
                    }
                    assert forall|j: int| 0 <= j < ei + 1 implies !#[trigger] edge_fault(*cells)(j) by {
                        assert(edge_of[j] as int == edge_id(*cells, j));
                        assert(edge_full(*cells, j));
                        if j == ei {
                            assert(!used0[k as int]);
                        } else {
                            assert(!edge_fault(*cells)(j));
                        }
                    }
                }
            },
        }
        ei += 1;
    }
    proof {
        assert forall|ej: int| 0 <= ej < 12 implies #[trigger] edge_id(*cells, ej) < 12 by {
            assert(edge_of[ej] as int == edge_id(*cells, ej));
        }
        lemma_first_from_none(edge_fault(*cells), 0, 12);
    }
    Ok((edge_of, edge_ori))
}

/// Split a full board into pieces and orientations. `Err` when some corner or edge
/// sticker is unknown, when a position shows no real piece, or when a piece
/// appears twice (the first problem in position order, corners first, is reported).
pub fn analyze(cells: &Cells) -> (res: Result<Analysis, String>)
    ensures
        res is Ok <==> pieces_known(*cells) && pieces_form_permutation(*cells),
        res matches Ok(a) ==> describes(a, *cells),
        res matches Err(m) ==> m@ == analysis_text(*cells),
{
    let (corner_of, corner_ori) = match analyze_corners(cells) {
        Ok(r) => r,
        Err(e) => return Err(e),
    };
    let (edge_of, edge_ori) = match analyze_edges(cells) {
        Ok(r) => r,
        Err(e) => return Err(e),
    };
    Ok(Analysis { corner_of, corner_ori, edge_of, edge_ori })
}

// ───────────────────────── the targeted fix ─────────────────────────

/// A board for which an analysis exists (every corner and edge position fully known
/// and showing a real piece, turned as the analysis says, the pieces a permutation) is
/// one that [`analyze`] accepts, and the analysis is the one it returns.
pub proof fn lemma_analysis_accepted(an: Analysis, cells: Cells)
    requires
        forall|ci: int| 0 <= ci < 8 ==> #[trigger] corner_full(cells, ci) && an.corner_of[ci] < 8
            && an.corner_ori[ci] < 3 && corner_fits(cells, ci, an.corner_of[ci] as int, an.corner_ori[ci] as int),
        forall|ei: int| 0 <= ei < 12 ==> #[trigger] edge_full(cells, ei) && an.edge_of[ei] < 12
            && an.edge_ori[ei] < 2 && edge_fits(cells, ei, an.edge_of[ei] as int, an.edge_ori[ei] as int),
        forall|a: int, b: int| 0 <= a < 8 && 0 <= b < 8 && a != b ==> an.corner_of[a] != an.corner_of[b],
        forall|a: int, b: int| 0 <= a < 12 && 0 <= b < 12 && a != b ==> an.edge_of[a] != an.edge_of[b],
    ensures
        pieces_known(cells),
        pieces_form_permutation(cells),
        describes(an, cells),
{
    assert forall|ci: int| 0 <= ci < 8 implies #[trigger] corner_id(cells, ci) == an.corner_of[ci] as int by {
        assert(corner_full(cells, ci));
        assert(corner_match(cells, ci, an.corner_of[ci] as int));
        lemma_corner_id(cells, ci, an.corner_of[ci] as int);
    }
    assert forall|ei: int| 0 <= ei < 12 implies #[trigger] edge_id(cells, ei) == an.edge_of[ei] as int by {
        assert(edge_full(cells, ei));
        assert(edge_match(cells, ei, an.edge_of[ei] as int));
        lemma_edge_id(cells, ei, an.edge_of[ei] as int);
    }
    assert forall|a: int, b: int| 0 <= a < 8 && 0 <= b < 8 && a != b implies
        #[trigger] corner_id(cells, a) != #[trigger] corner_id(cells, b) by {
        assert(an.corner_of[a] != an.corner_of[b]);
    }
    assert forall|a: int, b: int| 0 <= a < 12 && 0 <= b < 12 && a != b implies
        #[trigger] edge_id(cells, a) != #[trigger] edge_id(cells, b) by {
        assert(an.edge_of[a] != an.edge_of[b]);
    }
    assert forall|ci: int| 0 <= ci < 8 implies #[trigger] corner_id(cells, ci) < 8 by {
        assert(corner_full(cells, ci));
    }
    assert forall|ei: int| 0 <= ei < 12 implies #[trigger] edge_id(cells, ei) < 12 by {
        assert(edge_full(cells, ei));
    }
    assert forall|ci: int| 0 <= ci < 8 implies {
        &&& #[trigger] an.corner_of[ci] as int == corner_id(cells, ci)
        &&& an.corner_ori[ci] < 3
        &&& corner_fits(cells, ci, an.corner_of[ci] as int, an.corner_ori[ci] as int)
    } by {
        assert(corner_full(cells, ci));
    }
    assert forall|ei: int| 0 <= ei < 12 implies {
        &&& #[trigger] an.edge_of[ei] as int == edge_id(cells, ei)
        &&& an.edge_ori[ei] < 2
        &&& edge_fits(cells, ei, an.edge_of[ei] as int, an.edge_ori[ei] as int)
    } by {
        assert(edge_full(cells, ei));
    }
}

/// On a board that an analysis describes, the invariants read from the analysis: the
/// board is a legal cube exactly when it is full with its centres and colour counts
/// right, the corner turns add up to a multiple of three, the edge flips to an even
/// number, and the corner and edge arrangements have the same parity.
pub proof fn lemma_legal_by_analysis(an: Analysis, cells: Cells)
    requires
        describes(an, cells),
        pieces_known(cells),
        pieces_form_permutation(cells),
    ensures
        legal(cells) <==> all_known(cells) && centers_fixed(cells) && counts_nine(cells)
            && turn_upto(an.corner_ori, 8) % 3 == 0 && flip_sum_upto(an.edge_ori, 12) % 2 == 0
            && is_even(an.corner_of@.map_values(|x: usize| x as int))
                == is_even(an.edge_of@.map_values(|x: usize| x as int)),
{
    lemma_turns_twists(an, cells, 8);
    lemma_flips(an, cells, 12);
    broadcast use vstd::array::group_array_axioms;
    assert(an.corner_of@.map_values(|x: usize| x as int) =~= corner_perm(cells));
    assert(an.edge_of@.map_values(|x: usize| x as int) =~= edge_perm(cells));
    assert((turn_upto(an.corner_ori, 8) % 3 == 0) == (twist_upto(cells, 8) % 3 == 0));
}

/// A legal cube always has an analysis: every position is full and the pieces form
/// a permutation, which is when [`analyze`] returns `Ok`. With
/// [`lemma_legal_by_analysis`] this gives the whole test: a board is legal exactly
/// when it is full, its centres and colour counts are right, it has an analysis, and
/// the analysis passes the twist, flip and parity tests.
pub proof fn lemma_legal_analyzable(cells: Cells)
    requires
        legal(cells),
    ensures
        pieces_known(cells),
        pieces_form_permutation(cells),
{
    broadcast use vstd::array::group_array_axioms;
    assert forall|ci: int| 0 <= ci < 8 implies #[trigger] corner_full(cells, ci) by {
        assert(cell(cells, cslot(ci, 0)) is Some);
        assert(cell(cells, cslot(ci, 1)) is Some);
        assert(cell(cells, cslot(ci, 2)) is Some);
    }
    assert forall|ei: int| 0 <= ei < 12 implies #[trigger] edge_full(cells, ei) by {
        assert(cell(cells, eslot(ei, 0)) is Some);
        assert(cell(cells, eslot(ei, 1)) is Some);
    }
}

/// A full board whose only possible faults are the orientation and parity
/// invariants: centres fixed, nine stickers of each colour, and every position
/// showing a real piece, no piece twice.
pub open spec fn fixable(cells: Cells) -> bool {
    &&& all_known(cells)
    &&& centers_fixed(cells)
    &&& counts_nine(cells)
    &&& pieces_form_permutation(cells)
}

/// Board indices outside corner positions 0 and 1 and edge positions 0 and 1: the
/// stickers the targeted fix never moves.
pub open spec fn fix_frame(g: int) -> bool {
    !on_corner(g, 0) && !on_corner(g, 1) && !on_edge(g, 0) && !on_edge(g, 1)
}

/// Exchange the pieces of two full corner positions, each turned so that the board
/// still passes [`analyze`] (the first turns, in order, that do). `false`, with the
/// board unchanged, when either position shows no real piece or no turns work.
#[verifier::spinoff_prover]
#[verifier::rlimit(40)]
fn swap_corners_valid(cells: &mut Cells, i: usize, j: usize) -> (res: bool)
    requires
        i < 8,
        j < 8,
        i != j,
        corner_full(*old(cells), i as int),
        corner_full(*old(cells), j as int),
    ensures
        res ==> {
            &&& pieces_known(*final(cells))
            &&& pieces_form_permutation(*final(cells))
            &&& forall|g: int| 0 <= g < 54 && !on_corner(g, i as int) && !on_corner(g, j as int)
                ==> #[trigger] cell(*final(cells), g) == cell(*old(cells), g)
            &&& exists|r: int, r2: int| 0 <= r < 3 && 0 <= r2 < 3
                && corner_full(*final(cells), i as int) && corner_full(*final(cells), j as int)
                && #[trigger] corner_fits(*final(cells), i as int, corner_id(*old(cells), j as int), r)
                && #[trigger] corner_fits(*final(cells), j as int, corner_id(*old(cells), i as int), r2)
        },
        !res ==> *final(cells) == *old(cells),
        all_known(*old(cells)) && pieces_form_permutation(*old(cells)) ==> res
            && corner_fits(*final(cells), i as int, corner_id(*old(cells), j as int), 0)
            && corner_fits(*final(cells), j as int, corner_id(*old(cells), i as int), 0),
{
    let ghost a = *cells;
    proof {
        if all_known(a) && pieces_form_permutation(a) {
            assert(corner_id(a, i as int) < 8);
            assert(corner_match(a, i as int, corner_id(a, i as int)));
            assert(corner_id(a, j as int) < 8);
            assert(corner_match(a, j as int, corner_id(a, j as int)));
        }
    }
    let ki = match corner_piece_at(cells, i) {
        Some(k) => k,
        None => return false,
    };
    let kj = match corner_piece_at(cells, j) {
        Some(k) => k,
        None => return false,
    };
    proof {
        lemma_corner_id(a, i as int, ki as int);
        lemma_corner_id(a, j as int, kj as int);
        lemma_corners_apart(i as int, j as int);
    }
    let ghost good = all_known(a) && pieces_form_permutation(a);
    let before = *cells;
    let mut r: usize = 0;
    while r < 3
        invariant
            r <= 3,
            i < 8,
            j < 8,
            i != j,
            ki < 8,
            kj < 8,
            ki == corner_id(a, i as int),
            kj == corner_id(a, j as int),
            before == a,
            a == *old(cells),
            good == (all_known(a) && pieces_form_permutation(a)),
            good ==> r == 0,
            forall|s: int| 0 <= s < 3 ==> !on_corner(#[trigger] cslot(i as int, s), j as int),
            forall|g: int| 0 <= g < 54 && !on_corner(g, i as int) && !on_corner(g, j as int)
                ==> #[trigger] cell(*cells, g) == cell(a, g),
        decreases 3 - r,
    {
        let ghost c1 = *cells;
        place_corner(cells, i, kj, r);
        let ghost c2 = *cells;
        let mut r2: usize = 0;
        while r2 < 3
            invariant
                r2 <= 3,
                r < 3,
                i < 8,
                j < 8,
                i != j,
                ki < 8,
                kj < 8,
                ki == corner_id(a, i as int),
                kj == corner_id(a, j as int),
                a == *old(cells),
                good == (all_known(a) && pieces_form_permutation(a)),
                good ==> r == 0 && r2 == 0,
                forall|s: int| 0 <= s < 3 ==> !on_corner(#[trigger] cslot(i as int, s), j as int),
                forall|s: int| 0 <= s < 3 ==> #[trigger] cell(*cells, cslot(i as int, s)) == Some(corner_color(kj as int, (s + r) % 3)),
                forall|g: int| 0 <= g < 54 && !on_corner(g, i as int) && !on_corner(g, j as int)
                    ==> #[trigger] cell(*cells, g) == cell(a, g),
            decreases 3 - r2,
        {
            let ghost c3 = *cells;
            place_corner(cells, j, ki, r2);
            proof {
                assert forall|s: int| 0 <= s < 3 implies #[trigger] cell(*cells, cslot(i as int, s)) == Some(corner_color(kj as int, (s + r) % 3)) by {
                    assert(!on_corner(cslot(i as int, s), j as int));
                    assert(cell(*cells, cslot(i as int, s)) == cell(c3, cslot(i as int, s)));
                }
                assert(corner_full(*cells, i as int));
                assert(corner_fits(*cells, i as int, kj as int, r as int));
                assert(corner_full(*cells, j as int));
                assert(corner_fits(*cells, j as int, ki as int, r2 as int));
                if good {
                    lemma_pair_analyzable(a, *cells, i as int, j as int, r as int, r2 as int);
                }
            }
            if analyze(cells).is_ok() {
                proof {
                    assert(corner_fits(*cells, i as int, corner_id(a, j as int), r as int));
                    assert(corner_fits(*cells, j as int, corner_id(a, i as int), r2 as int));
                }
                return true;
            }
            r2 += 1;
        }
        r += 1;
    }
    *cells = before;
    false
}

proof fn lemma_corners_apart(i: int, j: int)
    requires
        0 <= i < 8,
        0 <= j < 8,
        i != j,
    ensures
        forall|s: int| 0 <= s < 3 ==> !on_corner(#[trigger] cslot(i, s), j),
{
    lemma_slots_distinct();
}

proof fn lemma_pair_analyzable(a: Cells, b: Cells, i: int, j: int, r: int, r2: int)
    requires
        0 <= i < 8,
        0 <= j < 8,
        i != j,
        0 <= r < 3,
        0 <= r2 < 3,
        all_known(a),
        pieces_form_permutation(a),
        forall|g: int| 0 <= g < 54 && !on_corner(g, i) && !on_corner(g, j) ==> #[trigger] cell(b, g) == cell(a, g),
        corner_full(b, i),
        corner_fits(b, i, corner_id(a, j), r),
        corner_full(b, j),
        corner_fits(b, j, corner_id(a, i), r2),
    ensures
        pieces_known(b),
        pieces_form_permutation(b),
{
    lemma_exchange_board(a, b, i, j, r, r2);
    assert forall|ci: int| 0 <= ci < 8 implies #[trigger] corner_full(b, ci) by {
        assert(cell(b, cslot(ci, 0)) is Some);
        assert(cell(b, cslot(ci, 1)) is Some);
        assert(cell(b, cslot(ci, 2)) is Some);
    }
    assert forall|ei: int| 0 <= ei < 12 implies #[trigger] edge_full(b, ei) by {
        assert(cell(b, eslot(ei, 0)) is Some);
        assert(cell(b, eslot(ei, 1)) is Some);
    }
}

/// Exchange the stickers of two full edge positions; `true` when the board then
/// passes [`analyze`].
#[verifier::spinoff_prover]
#[verifier::rlimit(40)]
fn swap_edges_valid(cells: &mut Cells, i: usize, j: usize) -> (res: bool)
    requires
        i < 12,
        j < 12,
        i != j,
        edge_full(*old(cells), i as int),
        edge_full(*old(cells), j as int),
    ensures
        is_edge_swap(*old(cells), *final(cells), i as int, j as int),
        res == (pieces_known(*final(cells)) && pieces_form_permutation(*final(cells))),
{
    swap_edge_stickers(cells, i, j);
    analyze(cells).is_ok()
}

/// Sum of the corner turns `ori[0..n]`.
pub open spec fn turn_upto(ori: [u8; 8], n: int) -> int
    decreases n,
{
    if n <= 0 {
        0
    } else {
        turn_upto(ori, n - 1) + ori[n - 1] as int
    }
}

/// Sum of the edge flips `ori[0..n]`.
pub open spec fn flip_sum_upto(ori: [u8; 12], n: int) -> int
    decreases n,
{
    if n <= 0 {
        0
    } else {
        flip_sum_upto(ori, n - 1) + ori[n - 1] as int
    }
}

proof fn lemma_turns_twists(an: Analysis, cells: Cells, n: int)
    requires
        0 <= n <= 8,
        describes(an, cells),
        pieces_known(cells),
        pieces_form_permutation(cells),
    ensures
        (turn_upto(an.corner_ori, n) + twist_upto(cells, n)) % 3 == 0,
        0 <= turn_upto(an.corner_ori, n) <= 2 * n,
    decreases n,
{
    if n > 0 {
        lemma_turns_twists(an, cells, n - 1);
        let ci = n - 1;
        assert(corner_full(cells, ci));
        assert(corner_id(cells, ci) < 8);
        lemma_twist_of_turn(cells, ci, an.corner_of[ci] as int, an.corner_ori[ci] as int);
    }
}

proof fn lemma_flips(an: Analysis, cells: Cells, n: int)
    requires
        0 <= n <= 12,
        describes(an, cells),
        pieces_known(cells),
        pieces_form_permutation(cells),
    ensures
        flip_sum_upto(an.edge_ori, n) == flip_upto(cells, n),
        0 <= flip_sum_upto(an.edge_ori, n) <= n,
    decreases n,
{
    if n > 0 {
        lemma_flips(an, cells, n - 1);
        let ei = n - 1;
        assert(edge_full(cells, ei));
        assert(edge_id(cells, ei) < 12);
        lemma_flip_of_turn(cells, ei, an.edge_of[ei] as int, an.edge_ori[ei] as int);
    }
}

/// A twist total fixed by turning one corner by `need`.
proof fn lemma_twist_fixed(t: int, s: int, r: int, need: int, t2: int)
    requires
        (s + t) % 3 == 0,
        0 <= s,
        0 <= r < 3,
        need == (3 - s % 3) % 3,
        t2 == t - (3 - r) % 3 + (3 - (r + need) % 3) % 3,
    ensures
        t2 % 3 == 0,
{
}

/// The corner and edge arrangements have different parities.
pub open spec fn parity_broken(cells: Cells) -> bool {
    is_even(corner_perm(cells)) != is_even(edge_perm(cells))
}

/// The corner twists do not add up to a multiple of three.
pub open spec fn twist_broken(cells: Cells) -> bool {
    twist_upto(cells, 8) % 3 != 0
}

/// The edge flips do not add up to an even number.
pub open spec fn flip_broken(cells: Cells) -> bool {
    flip_upto(cells, 12) % 2 != 0
}

/// Where the targeted fix of `cells` stands after `round` moves, at board `cur`.
#[verifier::opaque]
spec fn fix_state(cells: Cells, cur: Cells, round: int) -> bool {
    &&& 0 <= round
    &&& all_known(cur)
    &&& centers_fixed(cur) == centers_fixed(cells)
    &&& forall|c: StickerColor| #[trigger] count_of(cur, c) == count_of(cells, c)
    &&& round == 0 ==> cur == cells
    &&& round > 0 ==> pieces_form_permutation(cur) && pieces_form_permutation(cells)
    &&& parity_broken(cur) ==> round == 0
    &&& twist_broken(cur) ==> round <= 1
    &&& flip_broken(cur) ==> round <= 2
    &&& forall|g: int| 0 <= g < 54 && fix_frame(g) ==> #[trigger] cell(cur, g) == cell(cells, g)
}

proof fn lemma_state_init(cells: Cells)
    requires
        all_known(cells),
    ensures
        fix_state(cells, cells, 0),
{
    reveal(fix_state);
}

proof fn lemma_state_known(cells: Cells, cur: Cells, round: int)
    requires
        fix_state(cells, cur, round),
    ensures
        all_known(cur),
        forall|g: int| 0 <= g < 54 && fix_frame(g) ==> #[trigger] cell(cur, g) == cell(cells, g),
        round == 0 ==> cur == cells,
{
    reveal(fix_state);
}

proof fn lemma_state_legal(cells: Cells, cur: Cells, round: int)
    requires
        fix_state(cells, cur, round),
        all_known(cells),
        !legal(cells),
        legal(cur),
    ensures
        fixable(cells),
{
    reveal(fix_state);
    if round == 0 {
        assert(cur == cells);
    }
    assert(pieces_form_permutation(cells));
    assert(centers_fixed(cells));
    assert forall|c: StickerColor| #[trigger] count_of(cells, c) == 9 by {
        assert(count_of(cur, c) == 9);
        assert(count_of(cur, c) == count_of(cells, c));
    }
    assert(counts_nine(cells));
}

proof fn lemma_state_no_pieces(cells: Cells, cur: Cells, round: int)
    requires
        fix_state(cells, cur, round),
        !(pieces_known(cur) && pieces_form_permutation(cur)),
    ensures
        !fixable(cells),
{
    reveal(fix_state);
    assert(pieces_known(cur)) by {
        assert forall|ci: int| 0 <= ci < 8 implies #[trigger] corner_full(cur, ci) by {
            assert(cell(cur, cslot(ci, 0)) is Some);
            assert(cell(cur, cslot(ci, 1)) is Some);
            assert(cell(cur, cslot(ci, 2)) is Some);
        }
        assert forall|ei: int| 0 <= ei < 12 implies #[trigger] edge_full(cur, ei) by {
            assert(cell(cur, eslot(ei, 0)) is Some);
            assert(cell(cur, eslot(ei, 1)) is Some);
        }
    }
    assert(!pieces_form_permutation(cur));
    assert(round == 0);
    assert(cur == cells);
}

proof fn lemma_state_stuck(cells: Cells, cur: Cells, round: int)
    requires
        fix_state(cells, cur, round),
        pieces_form_permutation(cur),
        !parity_broken(cur),
        !twist_broken(cur),
        !flip_broken(cur),
        !legal(cur),
    ensures
        !fixable(cells),
{
    reveal(fix_state);
    if fixable(cells) {
        assert forall|c: StickerColor| #[trigger] count_of(cur, c) == 9 by {
            assert(count_of(cells, c) == 9);
        }
    }
}

proof fn lemma_state_parity(cells: Cells, c0: Cells, b: Cells, round: int)
    requires
        fix_state(cells, c0, round),
        pieces_form_permutation(c0),
        parity_broken(c0),
        forall|g: int| 0 <= g < 54 && !on_corner(g, 0) && !on_corner(g, 1) ==> #[trigger] cell(b, g) == cell(c0, g),
        corner_full(b, 0),
        corner_full(b, 1),
        corner_fits(b, 0, corner_id(c0, 1), 0),
        corner_fits(b, 1, corner_id(c0, 0), 0),
    ensures
        round == 0,
        fix_state(cells, b, 1),
        !parity_broken(b),
{
    reveal(fix_state);
    lemma_exchange_board(c0, b, 0, 1, 0, 0);
    lemma_swap_parity(corner_perm(c0));
    assert(corner_perm(c0)[0] == corner_id(c0, 0));
    assert(corner_perm(c0)[1] == corner_id(c0, 1));
    assert(round == 0);
    assert(c0 == cells);
    assert forall|c: StickerColor| #[trigger] count_of(b, c) == count_of(cells, c) by {
        assert(count_of(b, c) == count_of(c0, c));
    }
    assert(!parity_broken(b));
    assert(flip_broken(b) == flip_broken(c0));
    assert forall|g: int| 0 <= g < 54 && fix_frame(g) implies #[trigger] cell(b, g) == cell(cells, g) by {
        assert(cell(b, g) == cell(c0, g));
    }
}

proof fn lemma_twist_result(c0: Cells, b: Cells, an: Analysis, need: int)
    requires
        pieces_known(c0),
        pieces_form_permutation(c0),
        all_known(c0),
        describes(an, c0),
        0 <= need < 3,
        need == (3 - turn_upto(an.corner_ori, 8) % 3) % 3,
        is_twist(c0, b, 0, need),
    ensures
        !twist_broken(b),
{
    lemma_turns_twists(an, c0, 8);
    lemma_twist_board(c0, b, 0, need);
    let k0 = an.corner_of[0] as int;
    let r0 = an.corner_ori[0] as int;
    assert(k0 == corner_id(c0, 0));
    assert(corner_fits(c0, 0, k0, r0));
    assert(corner_fits(b, 0, k0, (r0 + need) % 3));
    assert(corner_full(c0, 0));
    lemma_twist_of_turn(c0, 0, k0, r0);
    assert(corner_full(b, 0)) by {
        assert(cell(b, cslot(0, 0)) is Some);
        assert(cell(b, cslot(0, 1)) is Some);
        assert(cell(b, cslot(0, 2)) is Some);
    }
    lemma_twist_of_turn(b, 0, k0, (r0 + need) % 3);
    lemma_twist_fixed(twist_upto(c0, 8), turn_upto(an.corner_ori, 8), r0, need, twist_upto(b, 8));
}

proof fn lemma_state_twist(cells: Cells, c0: Cells, b: Cells, round: int, an: Analysis, need: int)
    requires
        fix_state(cells, c0, round),
        pieces_known(c0),
        pieces_form_permutation(c0),
        describes(an, c0),
        !parity_broken(c0),
        twist_broken(c0),
        0 <= need < 3,
        need == (3 - turn_upto(an.corner_ori, 8) % 3) % 3,
        is_twist(c0, b, 0, need),
    ensures
        round <= 1,
        fix_state(cells, b, round + 1),
        !parity_broken(b),
        !twist_broken(b),
        flip_broken(b) == flip_broken(c0),
{
    reveal(fix_state);
    lemma_twist_board(c0, b, 0, need);
    lemma_twist_result(c0, b, an, need);
    if round == 0 {
        assert(c0 == cells);
    }
    assert(pieces_form_permutation(cells));
    assert forall|c: StickerColor| #[trigger] count_of(b, c) == count_of(cells, c) by {
        assert(count_of(b, c) == count_of(c0, c));
        assert(count_of(c0, c) == count_of(cells, c));
    }
    assert(!parity_broken(b));
    assert(flip_broken(b) == flip_broken(c0));
    assert forall|g: int| 0 <= g < 54 && fix_frame(g) implies #[trigger] cell(b, g) == cell(cells, g) by {
        assert(cell(b, g) == cell(c0, g));
    }
}

proof fn lemma_state_flip(cells: Cells, c0: Cells, b: Cells, round: int)
    requires
        fix_state(cells, c0, round),
        pieces_form_permutation(c0),
        !parity_broken(c0),
        !twist_broken(c0),
        flip_broken(c0),
        is_flip(c0, b, 0),
    ensures
        round <= 2,
        fix_state(cells, b, round + 1),
        !parity_broken(b),
        !twist_broken(b),
        !flip_broken(b),
{
    reveal(fix_state);
    lemma_flip_board(c0, b, 0);
    if round == 0 {
        assert(c0 == cells);
    }
    assert(pieces_form_permutation(cells));
    assert forall|c: StickerColor| #[trigger] count_of(b, c) == count_of(cells, c) by {
        assert(count_of(b, c) == count_of(c0, c));
        assert(count_of(c0, c) == count_of(cells, c));
    }
    assert(!parity_broken(b));
    assert(!twist_broken(b));
    assert(!flip_broken(b));
    assert forall|g: int| 0 <= g < 54 && fix_frame(g) implies #[trigger] cell(b, g) == cell(cells, g) by {
        assert(cell(b, g) == cell(c0, g));
    }
}

/// Where a note of the targeted fix stands in the order of its moves: 0 for an
/// exchange of two positions, 1 for a corner turn, 2 for an edge flip, 3 for any
/// other text.
pub open spec fn note_stage(n: Seq<char>) -> int {
    if n == "交换两个角位"@ || n == "交换两个棱位"@ {
        0
    } else if n == "扭转一个角"@ {
        1
    } else if n == "翻转一个棱"@ {
        2
    } else {
        3
    }
}

/// The notes of the targeted fix: each names one of its moves, in the order it makes
/// them, each at most once: an exchange, a corner turn, an edge flip.
pub open spec fn fix_notes(log: Seq<Seq<char>>) -> bool {
    &&& forall|i: int| 0 <= i < log.len() ==> #[trigger] note_stage(log[i]) < 3
    &&& forall|i: int, j: int| 0 <= i < j < log.len() ==> #[trigger] note_stage(log[i]) < #[trigger] note_stage(log[j])
}

proof fn lemma_note_stages()
    ensures
        note_stage("交换两个角位"@) == 0,
        note_stage("交换两个棱位"@) == 0,
        note_stage("扭转一个角"@) == 1,
        note_stage("翻转一个棱"@) == 2,
{
    reveal_strlit("交换两个角位");
    reveal_strlit("交换两个棱位");
    reveal_strlit("扭转一个角");
    reveal_strlit("翻转一个棱");
    assert("扭转一个角"@[0] != "交换两个角位"@[0]);
    assert("扭转一个角"@[0] != "交换两个棱位"@[0]);
    assert("翻转一个棱"@[0] != "交换两个角位"@[0]);
    assert("翻转一个棱"@[0] != "交换两个棱位"@[0]);
    assert("翻转一个棱"@[0] != "扭转一个角"@[0]);
}

/// A note of a later move may follow the notes so far.
proof fn lemma_notes_push(log: Seq<Seq<char>>, x: Seq<char>)
    requires
        fix_notes(log),
        note_stage(x) < 3,
        forall|i: int| 0 <= i < log.len() ==> #[trigger] note_stage(log[i]) < note_stage(x),
    ensures
        fix_notes(log.push(x)),
{
    let l2 = log.push(x);
    assert forall|i: int, j: int| 0 <= i < j < l2.len() implies #[trigger] note_stage(l2[i]) < #[trigger] note_stage(l2[j]) by {
        if j == log.len() {
            assert(l2[i] == log[i]);
        } else {
            assert(l2[i] == log[i] && l2[j] == log[j]);
        }
    }
    assert forall|i: int| 0 <= i < l2.len() implies #[trigger] note_stage(l2[i]) < 3 by {
        if i < log.len() {
            assert(l2[i] == log[i]);
        }
    }
}

/// Corner position `ci` of `b` holds the stickers of corner position `ci` of `a`,
/// turned by `r`: slot `s` shows what slot `(s + r) % 3` showed.
pub open spec fn corner_turned_by(a: Cells, b: Cells, ci: int, r: int) -> bool {
    forall|s: int| 0 <= s < 3 ==> #[trigger] cell(b, cslot(ci, s)) == cell(a, cslot(ci, (s + r) % 3))
}

/// Edge position `ei` of `b` holds the two stickers of edge position `ei` of `a`,
/// either as they were or exchanged.
pub open spec fn edge_kept_or_flipped(a: Cells, b: Cells, ei: int) -> bool {
    ||| cell(b, eslot(ei, 0)) == cell(a, eslot(ei, 0)) && cell(b, eslot(ei, 1)) == cell(a, eslot(ei, 1))
    ||| cell(b, eslot(ei, 0)) == cell(a, eslot(ei, 1)) && cell(b, eslot(ei, 1)) == cell(a, eslot(ei, 0))
}

/// What the targeted fix may change on the filled board `t0` to reach `b`: nothing
/// outside corner positions 0 and 1 and edge position 0 (edge position 1 and every
/// other edge keep their stickers); edge position 0 keeps its own two stickers,
/// flipped or not; and when the arrangements of `t0` have the same parity, corner
/// position 1 is kept as well and corner position 0 keeps its own three stickers,
/// turned.
#[verifier::opaque]
pub open spec fn fix_moves(t0: Cells, b: Cells) -> bool {
    &&& forall|g: int| 0 <= g < 54 && !on_corner(g, 0) && !on_corner(g, 1) && !on_edge(g, 0)
        ==> #[trigger] cell(b, g) == cell(t0, g)
    &&& edge_kept_or_flipped(t0, b, 0)
    &&& !parity_broken(t0) ==> {
        &&& forall|s: int| 0 <= s < 3 ==> #[trigger] cell(b, cslot(1, s)) == cell(t0, cslot(1, s))
        &&& exists|r: int| 0 <= r < 3 && #[trigger] corner_turned_by(t0, b, 0, r)
    }
}

/// Corner positions 0 and 1 of `b` hold the pieces that corner positions 1 and 0 of
/// `t0` held: the two corners were exchanged (each in some turn).
pub open spec fn corners_exchanged(t0: Cells, b: Cells) -> bool {
    exists|r: int, r2: int| 0 <= r < 3 && 0 <= r2 < 3
        && #[trigger] corner_fits(b, 0, corner_id(t0, 1), r) && #[trigger] corner_fits(b, 1, corner_id(t0, 0), r2)
}

#[verifier::spinoff_prover]
proof fn lemma_exchanged_twist(cells: Cells, c0: Cells, b: Cells, n: int)
    requires
        corners_exchanged(cells, c0),
        pieces_form_permutation(cells),
        all_known(c0),
        pieces_form_permutation(c0),
        is_twist(c0, b, 0, n),
        0 <= n < 3,
    ensures
        corners_exchanged(cells, b),
{
    let (r, r2) = choose|r: int, r2: int| 0 <= r < 3 && 0 <= r2 < 3
        && #[trigger] corner_fits(c0, 0, corner_id(cells, 1), r) && #[trigger] corner_fits(c0, 1, corner_id(cells, 0), r2);
    let k = corner_id(cells, 1);
    assert(0 <= k < 8);
    assert(corner_full(c0, 0)) by {
        assert(cell(c0, cslot(0, 0)) is Some);
        assert(cell(c0, cslot(0, 1)) is Some);
        assert(cell(c0, cslot(0, 2)) is Some);
    }
    lemma_corner_id(c0, 0, k);
    lemma_twist_board(c0, b, 0, n);
    assert(corner_fits(b, 0, k, (r + n) % 3));
    lemma_corner1_kept(c0, b);
    assert(corner_fits(b, 1, corner_id(cells, 0), r2));
}

proof fn lemma_corner1_kept(c0: Cells, b: Cells)
    requires
        forall|g: int| 0 <= g < 54 && !on_corner(g, 0) ==> #[trigger] cell(b, g) == cell(c0, g),
    ensures
        cell(b, cslot(1, 0)) == cell(c0, cslot(1, 0)),
        cell(b, cslot(1, 1)) == cell(c0, cslot(1, 1)),
        cell(b, cslot(1, 2)) == cell(c0, cslot(1, 2)),
{
    lemma_slots_distinct();
}

proof fn lemma_exchanged_flip(cells: Cells, c0: Cells, b: Cells)
    requires
        corners_exchanged(cells, c0),
        is_flip(c0, b, 0),
    ensures
        corners_exchanged(cells, b),
{
    let (r, r2) = choose|r: int, r2: int| 0 <= r < 3 && 0 <= r2 < 3
        && #[trigger] corner_fits(c0, 0, corner_id(cells, 1), r) && #[trigger] corner_fits(c0, 1, corner_id(cells, 0), r2);
    lemma_slots_distinct();
    assert forall|ci: int, s: int| 0 <= ci < 2 && 0 <= s < 3 implies #[trigger] cell(b, cslot(ci, s)) == cell(c0, cslot(ci, s)) by {
        assert(!on_edge(cslot(ci, s), 0));
    }
    assert(cell(b, cslot(0, 0)) == cell(c0, cslot(0, 0)));
    assert(cell(b, cslot(0, 1)) == cell(c0, cslot(0, 1)));
    assert(cell(b, cslot(0, 2)) == cell(c0, cslot(0, 2)));
    assert(cell(b, cslot(1, 0)) == cell(c0, cslot(1, 0)));
    assert(cell(b, cslot(1, 1)) == cell(c0, cslot(1, 1)));
    assert(cell(b, cslot(1, 2)) == cell(c0, cslot(1, 2)));
    assert(corner_fits(b, 0, corner_id(cells, 1), r));
    assert(corner_fits(b, 1, corner_id(cells, 0), r2));
}

/// `log` holds the note `n`.
pub open spec fn has_note(log: Seq<Seq<char>>, n: Seq<char>) -> bool {
    exists|i: int| 0 <= i < log.len() && #[trigger] log[i] == n
}

/// The notes say what was done to the filled board `t0` to reach `b`: edge position
/// 0 is flipped exactly when a flip is noted (else it keeps its stickers as they
/// were), and, when the parities of `t0` agree, corner position 0 is turned (by one
/// or two thirds) exactly when a turn is noted (else it is kept as it was).
pub open spec fn notes_match(t0: Cells, b: Cells, log: Seq<Seq<char>>) -> bool {
    &&& has_note(log, "翻转一个棱"@) ==> cell(b, eslot(0, 0)) == cell(t0, eslot(0, 1))
        && cell(b, eslot(0, 1)) == cell(t0, eslot(0, 0))
    &&& !has_note(log, "翻转一个棱"@) ==> cell(b, eslot(0, 0)) == cell(t0, eslot(0, 0))
        && cell(b, eslot(0, 1)) == cell(t0, eslot(0, 1))
    &&& !parity_broken(t0) && has_note(log, "扭转一个角"@)
        ==> exists|r: int| 1 <= r < 3 && #[trigger] corner_turned_by(t0, b, 0, r)
    &&& !parity_broken(t0) && !has_note(log, "扭转一个角"@) ==> corner_turned_by(t0, b, 0, 0)
}

proof fn lemma_has_note_push(log: Seq<Seq<char>>, x: Seq<char>, n: Seq<char>)
    ensures
        has_note(log.push(x), n) == (has_note(log, n) || x == n),
{
    let l2 = log.push(x);
    if has_note(log, n) {
        let i = choose|i: int| 0 <= i < log.len() && #[trigger] log[i] == n;
        assert(l2[i] == n);
    }
    if x == n {
        assert(l2[log.len() as int] == n);
    }
    if has_note(l2, n) {
        let i = choose|i: int| 0 <= i < l2.len() && #[trigger] l2[i] == n;
        if i < log.len() {
            assert(log[i] == n);
        }
    }
}

proof fn lemma_match_init(cells: Cells)
    ensures
        notes_match(cells, cells, Seq::empty()),
{
    assert(corner_turned_by(cells, cells, 0, 0));
}

proof fn lemma_match_swap(cells: Cells, b: Cells, x: Seq<char>)
    requires
        parity_broken(cells),
        forall|g: int| 0 <= g < 54 && !on_corner(g, 0) && !on_corner(g, 1) ==> #[trigger] cell(b, g) == cell(cells, g),
        x != "翻转一个棱"@,
    ensures
        notes_match(cells, b, Seq::<Seq<char>>::empty().push(x)),
{
    lemma_slots_distinct();
    lemma_has_note_push(Seq::empty(), x, "翻转一个棱"@);
    assert(cell(b, eslot(0, 0)) == cell(cells, eslot(0, 0)));
    assert(cell(b, eslot(0, 1)) == cell(cells, eslot(0, 1)));
}

#[verifier::spinoff_prover]
proof fn lemma_match_twist(cells: Cells, c0: Cells, b: Cells, n: int, log: Seq<Seq<char>>)
    requires
        notes_match(cells, c0, log),
        !has_note(log, "扭转一个角"@),
        !has_note(log, "翻转一个棱"@),
        is_twist(c0, b, 0, n),
        1 <= n < 3,
        "扭转一个角"@ != "翻转一个棱"@,
    ensures
        notes_match(cells, b, log.push("扭转一个角"@)),
{
    lemma_has_note_push(log, "扭转一个角"@, "翻转一个棱"@);
    lemma_has_note_push(log, "扭转一个角"@, "扭转一个角"@);
    lemma_slots_distinct();
    assert(cell(b, eslot(0, 0)) == cell(c0, eslot(0, 0)));
    assert(cell(b, eslot(0, 1)) == cell(c0, eslot(0, 1)));
    if !parity_broken(cells) {
        lemma_turn_compose(cells, c0, b, 0, n, n);
        assert(corner_turned_by(cells, b, 0, n));
    }
}

#[verifier::spinoff_prover]
proof fn lemma_match_flip(cells: Cells, c0: Cells, b: Cells, log: Seq<Seq<char>>)
    requires
        notes_match(cells, c0, log),
        !has_note(log, "翻转一个棱"@),
        is_flip(c0, b, 0),
        "扭转一个角"@ != "翻转一个棱"@,
    ensures
        notes_match(cells, b, log.push("翻转一个棱"@)),
{
    lemma_has_note_push(log, "翻转一个棱"@, "翻转一个棱"@);
    lemma_has_note_push(log, "翻转一个棱"@, "扭转一个角"@);
    lemma_slots_distinct();
    assert forall|s: int| 0 <= s < 3 implies #[trigger] cell(b, cslot(0, s)) == cell(c0, cslot(0, s)) by {
        assert(!on_edge(cslot(0, s), 0));
    }
    if !parity_broken(cells) {
        if has_note(log, "扭转一个角"@) {
            let r = choose|r: int| 1 <= r < 3 && #[trigger] corner_turned_by(cells, c0, 0, r);
            assert(corner_turned_by(cells, b, 0, r));
        } else {
            assert(corner_turned_by(cells, b, 0, 0));
        }
    }
}

proof fn lemma_moves_init(cells: Cells)
    ensures
        fix_moves(cells, cells),
{
    reveal(fix_moves);
    assert(corner_turned_by(cells, cells, 0, 0));
}

proof fn lemma_moves_swap(cells: Cells, b: Cells)
    requires
        parity_broken(cells),
        forall|g: int| 0 <= g < 54 && !on_corner(g, 0) && !on_corner(g, 1) ==> #[trigger] cell(b, g) == cell(cells, g),
    ensures
        fix_moves(cells, b),
{
    reveal(fix_moves);
    lemma_slots_distinct();
    assert(cell(b, eslot(0, 0)) == cell(cells, eslot(0, 0)));
    assert(cell(b, eslot(0, 1)) == cell(cells, eslot(0, 1)));
}

proof fn lemma_turn_compose(a: Cells, c: Cells, b: Cells, r: int, n: int, r2: int)
    requires
        0 <= r < 3,
        0 <= n < 3,
        r2 == (r + n) % 3,
        corner_turned_by(a, c, 0, r),
        forall|s: int| 0 <= s < 3 ==> #[trigger] cell(b, cslot(0, s)) == cell(c, cslot(0, (s + n) % 3)),
    ensures
        corner_turned_by(a, b, 0, r2),
{
    assert forall|s: int| 0 <= s < 3 implies #[trigger] cell(b, cslot(0, s)) == cell(a, cslot(0, (s + r2) % 3)) by {
        let s1 = (s + n) % 3;
        assert(0 <= s1 < 3);
        assert(cell(b, cslot(0, s)) == cell(c, cslot(0, s1)));
        assert(cell(c, cslot(0, s1)) == cell(a, cslot(0, (s1 + r) % 3)));
        assert((s1 + r) % 3 == (s + r2) % 3);
    }
}

#[verifier::spinoff_prover]
proof fn lemma_moves_twist(cells: Cells, c0: Cells, b: Cells, n: int)
    requires
        fix_moves(cells, c0),
        is_twist(c0, b, 0, n),
        0 <= n < 3,
    ensures
        fix_moves(cells, b),
{
    reveal(fix_moves);
    lemma_slots_distinct();
    assert(cell(b, eslot(0, 0)) == cell(c0, eslot(0, 0)));
    assert(cell(b, eslot(0, 1)) == cell(c0, eslot(0, 1)));
    if !parity_broken(cells) {
        assert forall|s: int| 0 <= s < 3 implies #[trigger] cell(b, cslot(1, s)) == cell(cells, cslot(1, s)) by {
            assert(cell(b, cslot(1, s)) == cell(c0, cslot(1, s)));
        }
        let r = choose|r: int| 0 <= r < 3 && #[trigger] corner_turned_by(cells, c0, 0, r);
        let r2 = (r + n) % 3;
        lemma_turn_compose(cells, c0, b, r, n, r2);
        assert(corner_turned_by(cells, b, 0, r2));
    }
}

proof fn lemma_moves_flip(cells: Cells, c0: Cells, b: Cells)
    requires
        fix_moves(cells, c0),
        is_flip(c0, b, 0),
    ensures
        fix_moves(cells, b),
{
    reveal(fix_moves);
    lemma_slots_distinct();
    if !parity_broken(cells) {
        assert forall|s: int| 0 <= s < 3 implies #[trigger] cell(b, cslot(1, s)) == cell(cells, cslot(1, s)) by {
            assert(cell(b, cslot(1, s)) == cell(c0, cslot(1, s)));
        }
        let r = choose|r: int| 0 <= r < 3 && #[trigger] corner_turned_by(cells, c0, 0, r);
        assert forall|s: int| 0 <= s < 3 implies #[trigger] cell(b, cslot(0, s)) == cell(cells, cslot(0, (s + r) % 3)) by {
            assert(cell(b, cslot(0, s)) == cell(c0, cslot(0, s)));
        }
        assert(corner_turned_by(cells, b, 0, r));
    }
}

/// When the arrangements already have the same parity, the targeted fix touches
/// only corner position 0, which keeps its own stickers turned, and edge position 0,
/// which keeps its own stickers flipped or not: every other sticker of the filled
/// board stays. So a flip is always repaired at edge position 0 and nowhere else.
pub proof fn lemma_fix_moves_local(t0: Cells, b: Cells)
    requires
        fix_moves(t0, b),
        !parity_broken(t0),
    ensures
        forall|g: int| 0 <= g < 54 && !on_corner(g, 0) && !on_edge(g, 0) ==> #[trigger] cell(b, g) == cell(t0, g),
        edge_kept_or_flipped(t0, b, 0),
        exists|r: int| 0 <= r < 3 && #[trigger] corner_turned_by(t0, b, 0, r),
{
    reveal(fix_moves);
    assert forall|g: int| 0 <= g < 54 && !on_corner(g, 0) && !on_edge(g, 0) implies #[trigger] cell(b, g) == cell(t0, g) by {
        if on_corner(g, 1) {
            if g == cslot(1, 0) {
                assert(cell(b, cslot(1, 0)) == cell(t0, cslot(1, 0)));
            } else if g == cslot(1, 1) {
                assert(cell(b, cslot(1, 1)) == cell(t0, cslot(1, 1)));
            } else {
                assert(cell(b, cslot(1, 2)) == cell(t0, cslot(1, 2)));
            }
        }
    }
}

/// On a full board, repair the orientation and parity invariants by targeted moves:
/// exchange corner positions 0 and 1 (each turned so the pieces stay real) when the
/// parities differ, turn corner position 0 when the twists do not add up, flip edge
/// position 0 when the flips do not. Returns the legal board reached and the moves
/// made, or `None` when no such repair gives a legal cube.
#[verifier::spinoff_prover]
#[verifier::rlimit(90)]
fn try_fix_complete(cells: &Cells) -> (res: Option<(Cells, Vec<String>)>)
    requires
        all_known(*cells),
    ensures
        res is Some <==> fixable(*cells),
        res matches Some(p) ==> {
            &&& legal(p.0)
            &&& forall|g: int| 0 <= g < 54 && fix_frame(g) ==> #[trigger] cell(p.0, g) == cell(*cells, g)
        },
        legal(*cells) ==> (res matches Some(p) && p.0 == *cells && p.1@.len() == 0),
        res matches Some(p) ==> {
            &&& fix_notes(texts(p.1@))
            &&& (p.1@.len() == 0 <==> legal(*cells))
            &&& (p.1@.len() > 0 && note_stage(p.1@[0]@) == 0 <==> parity_broken(*cells))
            &&& fix_moves(*cells, p.0)
            &&& parity_broken(*cells) ==> corners_exchanged(*cells, p.0)
            &&& notes_match(*cells, p.0, texts(p.1@))
        },
{
    if validate(cells).is_ok() {
        let none: Vec<String> = Vec::new();
        proof {
            assert(texts(none@) =~= Seq::<Seq<char>>::empty());
            lemma_moves_init(*cells);
            lemma_match_init(*cells);
        }
        return Some((*cells, none));
    }
    let mut fixes: Vec<String> = Vec::new();
    let mut cur = *cells;
    let mut round: usize = 0;
    proof {
        lemma_state_init(*cells);
        lemma_moves_init(*cells);
        lemma_match_init(*cells);
        lemma_note_stages();
        assert(texts(fixes@) =~= Seq::<Seq<char>>::empty());
    }
    while round < 8
        invariant
            round <= 3,
            all_known(*cells),
            !legal(*cells),
            fix_state(*cells, cur, round as int),
            fix_moves(*cells, cur),
            round > 0 && parity_broken(*cells) ==> corners_exchanged(*cells, cur),
            notes_match(*cells, cur, texts(fixes@)),
            fixes@.len() == round,
            fix_notes(texts(fixes@)),
            round > 0 ==> !parity_broken(cur),
            forall|i: int| 0 <= i < round && note_stage(#[trigger] fixes@[i]@) >= 1 ==> !twist_broken(cur),
            forall|i: int| 0 <= i < round && note_stage(#[trigger] fixes@[i]@) >= 2 ==> !flip_broken(cur),
            round > 0 ==> (note_stage(fixes@[0]@) == 0 <==> parity_broken(*cells)),
            note_stage("交换两个角位"@) == 0,
            note_stage("交换两个棱位"@) == 0,
            note_stage("扭转一个角"@) == 1,
            note_stage("翻转一个棱"@) == 2,
        decreases 8 - round,
    {
        proof {
            lemma_state_known(*cells, cur, round as int);
        }
        if validate(&cur).is_ok() {
            proof {
                lemma_state_legal(*cells, cur, round as int);
                if round == 0 {
                    assert(cur == *cells);
                }
            }
            return Some((cur, fixes));
        }
        let an = match analyze(&cur) {
            Ok(an) => an,
            Err(_) => {
                proof {
                    lemma_state_no_pieces(*cells, cur, round as int);
                }
                return None;
            },
        };
        let ghost c0 = cur;
        proof {
            lemma_turns_twists(an, cur, 8);
            lemma_flips(an, cur, 12);
            assert forall|q: int| 0 <= q < 8 implies #[trigger] an.corner_ori[q] < 3 by {
                assert(an.corner_of[q] as int == corner_id(cur, q));
            }
            assert forall|q: int| 0 <= q < 12 implies #[trigger] an.edge_ori[q] < 2 by {
                assert(an.edge_of[q] as int == edge_id(cur, q));
            }
        }
        let mut twist_sum: u32 = 0;
        let mut k: usize = 0;
        while k < 8
            invariant
                k <= 8,
                twist_sum == turn_upto(an.corner_ori, k as int),
                twist_sum <= 2 * k,
                forall|q: int| 0 <= q < 8 ==> #[trigger] an.corner_ori[q] < 3,
            decreases 8 - k,
        {
            twist_sum += an.corner_ori[k] as u32;
            k += 1;
        }
        let mut flip_sum: u32 = 0;
        let mut e: usize = 0;
        while e < 12
            invariant
                e <= 12,
                flip_sum == flip_sum_upto(an.edge_ori, e as int),
                flip_sum <= e,
                forall|q: int| 0 <= q < 12 ==> #[trigger] an.edge_ori[q] < 2,
            decreases 12 - e,
        {
            flip_sum += an.edge_ori[e] as u32;
            e += 1;
        }
        let pc = parity(an.corner_of.as_slice());
        let pe = parity(an.edge_of.as_slice());
        proof {
            broadcast use vstd::array::group_array_axioms;
            assert(an.corner_of@.map_values(|x: usize| x as int) =~= corner_perm(cur));
            assert(an.edge_of@.map_values(|x: usize| x as int) =~= edge_perm(cur));
        }
        if pc != pe {
            if swap_corners_valid(&mut cur, 0, 1) {
                proof {
                    lemma_state_parity(*cells, c0, cur, round as int);
                    lemma_moves_swap(*cells, cur);
                    assert(c0 == *cells);
                }
                let ghost before = fixes@;
                fixes.push(text("交换两个角位"));
                proof {
                    assert(texts(fixes@) =~= texts(before).push("交换两个角位"@));
                    lemma_notes_push(texts(before), "交换两个角位"@);
                    assert(c0 == *cells);
                    assert(texts(before) =~= Seq::<Seq<char>>::empty());
                    assert("交换两个角位"@ != "翻转一个棱"@);
                    lemma_match_swap(*cells, cur, "交换两个角位"@);
                }
                round += 1;
                continue;
            }
            proof {
                // a full board whose pieces form a permutation always lets the
                // corners be exchanged
                assert(false);
            }
            if swap_edges_valid(&mut cur, 0, 1) {
                fixes.push(text("交换两个棱位"));
                round += 1;
                continue;
            }
            return None;
        }
        if twist_sum % 3 != 0 {
            let need = ((3 - twist_sum % 3) % 3) as usize;
            twist_corner(&mut cur, 0, need);
            proof {
                lemma_state_twist(*cells, c0, cur, round as int, an, need as int);
                lemma_moves_twist(*cells, c0, cur, need as int);
                if round > 0 && parity_broken(*cells) {
                    reveal(fix_state);
                    lemma_exchanged_twist(*cells, c0, cur, need as int);
                }
            }
            let ghost before = fixes@;
            fixes.push(text("扭转一个角"));
            proof {
                assert(texts(fixes@) =~= texts(before).push("扭转一个角"@));
                assert forall|i: int| 0 <= i < before.len() implies #[trigger] note_stage(texts(before)[i]) < 1 by {
                    assert(texts(before)[i] == before[i]@);
                    assert(note_stage(before[i]@) < 1);
                }
                lemma_notes_push(texts(before), "扭转一个角"@);
                assert(!has_note(texts(before), "扭转一个角"@) && !has_note(texts(before), "翻转一个棱"@)) by {
                    if has_note(texts(before), "扭转一个角"@) {
                        let i = choose|i: int| 0 <= i < texts(before).len() && #[trigger] texts(before)[i] == "扭转一个角"@;
                        assert(note_stage(texts(before)[i]) < 1);
                    }
                    if has_note(texts(before), "翻转一个棱"@) {
                        let i = choose|i: int| 0 <= i < texts(before).len() && #[trigger] texts(before)[i] == "翻转一个棱"@;
                        assert(note_stage(texts(before)[i]) < 1);
                    }
                }
                assert("扭转一个角"@ != "翻转一个棱"@);
                lemma_match_twist(*cells, c0, cur, need as int, texts(before));
                if round == 0 {
                    assert(c0 == *cells);
                } else {
                    assert(fixes@[0] == before[0]);
                }
                assert forall|i: int| 0 <= i < round + 1 && note_stage(#[trigger] fixes@[i]@) >= 2 implies !flip_broken(cur) by {
                    if i < round {
                        assert(fixes@[i] == before[i]);
                    }
                }
            }
            round += 1;
            continue;
        }
        if flip_sum % 2 != 0 {
            flip_edge(&mut cur, 0);
            proof {
                lemma_state_flip(*cells, c0, cur, round as int);
                lemma_moves_flip(*cells, c0, cur);
                if round > 0 && parity_broken(*cells) {
                    lemma_exchanged_flip(*cells, c0, cur);
                }
            }
            let ghost before = fixes@;
            fixes.push(text("翻转一个棱"));
            proof {
                assert(texts(fixes@) =~= texts(before).push("翻转一个棱"@));
                assert forall|i: int| 0 <= i < before.len() implies #[trigger] note_stage(texts(before)[i]) < 2 by {
                    assert(texts(before)[i] == before[i]@);
                    assert(note_stage(before[i]@) < 2);
                }
                lemma_notes_push(texts(before), "翻转一个棱"@);
                assert(!has_note(texts(before), "翻转一个棱"@)) by {
                    if has_note(texts(before), "翻转一个棱"@) {
                        let i = choose|i: int| 0 <= i < texts(before).len() && #[trigger] texts(before)[i] == "翻转一个棱"@;
                        assert(note_stage(texts(before)[i]) < 2);
                    }
                }
                assert("扭转一个角"@ != "翻转一个棱"@);
                lemma_match_flip(*cells, c0, cur, texts(before));
                if round == 0 {
                    assert(c0 == *cells);
                } else {
                    assert(fixes@[0] == before[0]);
                }
            }
            round += 1;
            continue;
        }
        proof {
            lemma_state_stuck(*cells, cur, round as int);
        }
        return None;
    }
    None
}

/// `t0` is the first way (gaps by board index, colours in [`COLOR_ORDER`]) to fill
/// the gaps of `a` that gives a board the targeted fix can work on, and `b` shows
/// what `t0` shows outside the stickers that fix may move.
pub open spec fn fix_pick(a: Cells, t0: Cells, b: Cells) -> bool {
    &&& agrees(a, t0)
    &&& fixable(t0)
    &&& forall|t: Cells| #[trigger] agrees(a, t) && fixable(t) && t != t0 ==> precedes(a, t0, t)
    &&& forall|g: int| 0 <= g < 54 && fix_frame(g) ==> #[trigger] cell(b, g) == cell(t0, g)
}

/// The targeted fix took the filled board `t0` to `b` and noted `log`: `b` changes
/// only what [`fix_moves`] allows, and exchanges corner positions 0 and 1 when the
/// parities of `t0` differ; the notes say which of its stickers were flipped and
/// turned ([`notes_match`]); the notes name its moves in order, none when `t0`
/// was legal already (then `b` is `t0`), an exchange first exactly when the
/// parities of `t0` differ.
pub open spec fn fix_notes_of(t0: Cells, b: Cells, log: Seq<Seq<char>>) -> bool {
    &&& fix_moves(t0, b)
    &&& notes_match(t0, b, log)
    &&& parity_broken(t0) ==> corners_exchanged(t0, b)
    &&& fix_notes(log)
    &&& (log.len() == 0 <==> legal(t0))
    &&& (log.len() == 0 ==> b == t0)
    &&& (log.len() > 0 && note_stage(log[0]) == 0 <==> parity_broken(t0))
}

/// The first `k` notes, separated by " + ".
pub open spec fn joined_notes(log: Seq<Seq<char>>, k: int) -> Seq<char>
    decreases k,
{
    if k <= 0 {
        seq![]
    } else if k == 1 {
        log[0]
    } else {
        joined_notes(log, k - 1) + " + "@ + log[k - 1]
    }
}

/// What [`force_fix`] reports for the notes `log`.
pub open spec fn fix_message(log: Seq<Seq<char>>) -> Seq<char> {
    if log.len() == 0 {
        "重新补成合法状态"@
    } else {
        joined_notes(log, log.len() as int)
    }
}

/// Depth-first search over the gaps `empties[i..]` of `cur`, colours in
/// [`COLOR_ORDER`], skipping a colour already shown nine times; at each full board
/// the targeted fix is tried. Returns the first fixed board (with its moves); `cur`
/// and `cnt` come back unchanged.
fn fix_search(cur: &mut Cells, empties: &Vec<usize>, i: usize, cnt: &mut [u8; 6]) -> (res: Option<(Cells, Vec<String>)>)
    requires
        i <= empties@.len(),
        forall|a: int| 0 <= a < empties@.len() ==> #[trigger] empties@[a] < 54,
        forall|a: int, b: int| 0 <= a < b < empties@.len() ==> empties@[a] < empties@[b],
        forall|a: int| i <= a < empties@.len() ==> #[trigger] cell(*old(cur), empties@[a] as int) is None,
        forall|h: int| 0 <= h < 54 && #[trigger] cell(*old(cur), h) is None
            ==> exists|a: int| i <= a < empties@.len() && empties@[a] == h,
        forall|c: StickerColor| #[trigger] old(cnt)[color_index(c)] == count_of(*old(cur), c),
    ensures
        *final(cur) == *old(cur),
        *final(cnt) == *old(cnt),
        res matches Some(p) ==> {
            &&& legal(p.0)
            &&& forall|g: int| 0 <= g < 54 && fix_frame(g) && #[trigger] cell(*old(cur), g) is Some
                ==> cell(p.0, g) == cell(*old(cur), g)
        },
        res is None <==> forall|t: Cells| #[trigger] agrees(*old(cur), t) ==> !fixable(t),
        res matches Some(p) ==> exists|t0: Cells| #[trigger] fix_pick(*old(cur), t0, p.0)
            && fix_notes_of(t0, p.0, texts(p.1@)),
    decreases empties@.len() - i,
{
    let ghost c0 = *cur;
    let ghost n0 = *cnt;
    if i == empties.len() {
        proof {
            assert forall|h: int| 0 <= h < 54 implies #[trigger] cell(c0, h) is Some by {
                if cell(c0, h) is None {
                    let a = choose|a: int| i <= a < empties@.len() && empties@[a] == h;
                }
            }
            assert forall|t: Cells| #[trigger] agrees(c0, t) implies t == c0 by {
                lemma_full_agrees_eq(c0, t);
            }
            assert(agrees(c0, c0));
        }
        let r = try_fix_complete(cur);
        proof {
            if r is Some {
                let b = r.unwrap().0;
                assert(fix_pick(c0, c0, b));
                assert(fix_notes_of(c0, b, texts(r.unwrap().1@)));
            }
        }
        return r;
    }
    let n = empties.len();
    let g = empties[i];
    proof {
        assert forall|h: int| 0 <= h < g && #[trigger] cell(c0, h) is None implies false by {
            let a = choose|a: int| i <= a < empties@.len() && empties@[a] == h;
            if a > i {
                assert(empties@[i as int] < empties@[a]);
            }
        }
    }
    let mut j: usize = 0;
    while j < 6
        invariant
            j <= 6,
            n == empties@.len(),
            i < empties@.len(),
            g == empties@[i as int],
            g < 54,
            cell(c0, g as int) is None,
            *cur == c0,
            *cnt == n0,
            c0 == *old(cur),
            n0 == *old(cnt),
            forall|a: int| 0 <= a < empties@.len() ==> #[trigger] empties@[a] < 54,
            forall|a: int, b: int| 0 <= a < b < empties@.len() ==> empties@[a] < empties@[b],
            forall|a: int| i <= a < empties@.len() ==> #[trigger] cell(c0, empties@[a] as int) is None,
            forall|h: int| 0 <= h < 54 && #[trigger] cell(c0, h) is None
                ==> exists|a: int| i <= a < empties@.len() && empties@[a] == h,
            forall|c: StickerColor| #[trigger] n0[color_index(c)] == count_of(c0, c),
            forall|t: Cells| #[trigger] agrees(c0, t) && fixable(t) ==> crate::completion::color_rank(cell(t, g as int)) >= j,
            forall|h: int| 0 <= h < g && #[trigger] cell(c0, h) is None ==> false,
        decreases 6 - j,
    {
        let c = COLOR_ORDER[j];
        let ci = color_idx(c);
        proof {
            assert(color_index(c) == j);
        }
        if cnt[ci] >= 9 {
            proof {
                assert forall|t: Cells| #[trigger] agrees(c0, t) && fixable(t) implies crate::completion::color_rank(cell(t, g as int)) >= j + 1 by {
                    lemma_quota_full(c0, g as int, c, t);
                    assert(cell(t, g as int) is Some);
                }
            }
            j += 1;
            continue;
        }
        cnt[ci] = cnt[ci] + 1;
        crate::pieces::set(cur, g, Some(c));
        let ghost c1 = *cur;
        proof {
            lemma_put_cells(c0, g as int, Some(c));
            assert forall|x: StickerColor| #[trigger] cnt[color_index(x)] == count_of(c1, x) by {
                lemma_count_after_fill(c0, g as int, c, x, 54);
            }
            assert forall|a: int| i + 1 <= a < empties@.len() implies #[trigger] cell(c1, empties@[a] as int) is None by {
                assert(empties@[i as int] < empties@[a]);
            }
            assert forall|h: int| 0 <= h < 54 && #[trigger] cell(c1, h) is None
                implies exists|a: int| i + 1 <= a < empties@.len() && empties@[a] == h by {
                assert(h != g);
                assert(cell(c0, h) is None);
                let a = choose|a: int| i <= a < empties@.len() && empties@[a] == h;
                assert(a != i);
            }
        }
        let r = fix_search(cur, empties, i + 1, cnt);
        crate::pieces::set(cur, g, None);
        cnt[ci] = cnt[ci] - 1;
        proof {
            lemma_put_cells(c1, g as int, None);
            assert forall|h: int| 0 <= h < 54 implies #[trigger] cell(*cur, h) == cell(c0, h) by {}
            crate::pieces::lemma_cells_ext(*cur, c0);
            assert(*cnt =~= n0);
        }
        match r {
            Some(p) => {
                proof {
                    assert forall|h: int| 0 <= h < 54 && fix_frame(h) && #[trigger] cell(c0, h) is Some
                        implies cell(p.0, h) == cell(c0, h) by {
                        assert(h != g);
                        assert(cell(c1, h) == cell(c0, h));
                    }
                    if forall|t: Cells| #[trigger] agrees(c0, t) ==> !fixable(t) {
                        // the recursive call found a fixable filling of c1, which fills c0 too
                        let t = choose|t: Cells| #[trigger] agrees(c1, t) && fixable(t);
                        lemma_fill_agrees(c0, g as int, c, t);
                    }
                    let t0 = choose|t0: Cells| #[trigger] fix_pick(c1, t0, p.0) && fix_notes_of(t0, p.0, texts(p.1@));
                    lemma_fill_agrees(c0, g as int, c, t0);
                    assert forall|t: Cells| #[trigger] agrees(c0, t) && fixable(t) && t != t0
                        implies precedes(c0, t0, t) by {
                        lemma_fill_agrees(c0, g as int, c, t);
                        assert(cell(t, g as int) is Some);
                        if color_rank(cell(t, g as int)) == j {
                            assert(cell(t, g as int) == Some(c));
                            assert(precedes(c1, t0, t));
                            lemma_precedes_lift(c0, g as int, c, t0, t);
                        } else {
                            assert(color_rank(cell(t0, g as int)) == j);
                            assert(first_gap_diff(c0, t0, t, g as int));
                        }
                    }
                    assert(fix_pick(c0, t0, p.0));
                }
                return Some(p);
            },
            None => {
                proof {
                    assert forall|t: Cells| #[trigger] agrees(c0, t) && fixable(t) implies crate::completion::color_rank(cell(t, g as int)) >= j + 1 by {
                        assert(cell(t, g as int) is Some);
                        if crate::completion::color_rank(cell(t, g as int)) == j {
                            assert(cell(t, g as int) == Some(c));
                            lemma_fill_agrees(c0, g as int, c, t);
                        }
                    }
                }
            },
        }
        j += 1;
    }
    proof {
        assert forall|t: Cells| #[trigger] agrees(c0, t) implies !fixable(t) by {
            if fixable(t) {
                assert(cell(t, g as int) is Some);
            }
        }
    }
    None
}

/// **Targeted full repair**: fill the gaps (at most four) in every way that keeps
/// each colour at nine or fewer, and on each filling try the targeted fix of the
/// orientation and parity invariants ([`try_fix_complete`]); the first board that
/// comes out legal is taken. The derived marks keep their values, except that the
/// U centre is unmarked. On `Err` nothing changes.
pub fn force_fix(cells: &mut Cells, derived: &mut Marks) -> (res: Result<String, String>)
    ensures
        res is Ok <==> empty_total(*old(cells)) <= 4
            && exists|t: Cells| #[trigger] agrees(*old(cells), t) && fixable(t),
        res is Ok ==> {
            &&& legal(*final(cells))
            &&& forall|g: int| 0 <= g < 54 && fix_frame(g) && #[trigger] cell(*old(cells), g) is Some
                ==> cell(*final(cells), g) == cell(*old(cells), g)
            &&& forall|g: int| 0 <= g < 54 ==> #[trigger] mark(*final(derived), g) == (g != 4 && mark(*old(derived), g))
        },
        res is Err ==> *final(cells) == *old(cells) && *final(derived) == *old(derived),
        empty_total(*old(cells)) > 4 ==> (res matches Err(m)
            && m@ == "空格较多("@ + dec_text(empty_total(*old(cells))) + " 格),请先继续涂到接近填满"@),
        empty_total(*old(cells)) <= 4 ==> (res matches Err(m) ==> m@ == "把所有补齐方案都试过了,仍无法凑出合法魔方"@),
        res matches Ok(m) ==> exists|t0: Cells, log: Seq<Seq<char>>|
            #![trigger fix_pick(*old(cells), t0, *final(cells)), fix_notes_of(t0, *final(cells), log)]
            fix_pick(*old(cells), t0, *final(cells)) && fix_notes_of(t0, *final(cells), log) && m@ == fix_message(log),
{
    let empties = empty_list(cells);
    if empties.len() > 4 {
        let mut m = text("空格较多(");
        push_dec(&mut m, empties.len());
        push_str(&mut m, " 格),请先继续涂到接近填满");
        return Err(m);
    }
    let mut cur = *cells;
    let mut cnt = counts(cells);
    proof {
        assert forall|h: int| 0 <= h < 54 && #[trigger] cell(cur, h) is None
            implies exists|a: int| 0 <= a < empties@.len() && empties@[a] == h by {
            assert(empties@.contains(h as usize));
        }
    }
    let best = fix_search(&mut cur, &empties, 0, &mut cnt);
    let (fixed, log) = match best {
        Some(p) => p,
        None => return Err(text("把所有补齐方案都试过了,仍无法凑出合法魔方")),
    };
    *cells = fixed;
    let ghost d0 = *derived;
    let mut f: usize = 0;
    while f < 6
        invariant
            f <= 6,
            crate::legal::all_known(*cells),
            *derived == d0,
        decreases 6 - f,
    {
        let mut i: usize = 0;
        while i < 9
            invariant
                f < 6,
                i <= 9,
                crate::legal::all_known(*cells),
                *derived == d0,
            decreases 9 - i,
        {
            proof {
                assert(cell(*cells, f * 9 + i) is Some);
                assert((f * 9 + i) / 9 == f && (f * 9 + i) % 9 == i);
            }
            if !cells[f][i].is_some() {
                derived[f][i] = true;
            }
            i += 1;
        }
        f += 1;
    }
    derived[0][CENTER_IDX] = false;
    proof {
        assert forall|g: int| 0 <= g < 54 implies #[trigger] mark(*derived, g) == (g != 4 && mark(d0, g)) by {
            if g / 9 == 0 && g % 9 == 4 {
                assert(g == 4);
            }
        }
    }
    if log.len() == 0 {
        let m = text("重新补成合法状态");
        proof {
            assert(m@ == fix_message(texts(log@)));
        }
        Ok(m)
    } else {
        let mut m = String::new();
        let mut k: usize = 0;
        proof {
            assert(m@ =~= joined_notes(texts(log@), 0));
        }
        while k < log.len()
            invariant
                k <= log@.len(),
                m@ == joined_notes(texts(log@), k as int),
            decreases log.len() - k,
        {
            if k > 0 {
                push_str(&mut m, " + ");
            }
            push_str(&mut m, log[k].as_str());
            proof {
                assert(texts(log@)[k as int] == log@[k as int]@);
                if k == 0 {
                    assert(m@ =~= joined_notes(texts(log@), 1));
                } else {
                    assert(m@ =~= joined_notes(texts(log@), k + 1));
                }
            }
            k += 1;
        }
        proof {
            assert(m@ == fix_message(texts(log@)));
        }
        Ok(m)
    }
}

// ───────────────────────── the one-change repair ─────────────────────────

/// What the acceptance test leaves of the candidate board `m` (marks `dm`): the
/// deductions drawn from `m`, ending in a legal cube, in a board with at most four
/// gaps that some legal cube completes, or in a board with more gaps; the board left
/// is feasible whenever some legal cube completes `m`.
pub open spec fn accepted(m: Cells, dm: Marks, b: Cells, db: Marks) -> bool {
    &&& feasible(m)
    &&& forall|f: int| 0 <= f < 6 ==> #[trigger] b[f][4] == Some(solved_face_color(f))
    &&& forall|g: int| 0 <= g < 54 && g % 9 != 4 && #[trigger] cell(m, g) is Some ==> cell(b, g) == cell(m, g)
    &&& forall|t: Cells| #![trigger agrees(b, t)] legal(t) && agrees(m, t) ==> agrees(b, t)
    &&& propagation_closed(b)
    &&& forall|g: int| 0 <= g < 54 ==> #[trigger] mark(db, g)
        == (mark(dm, g) || (g % 9 != 4 && cell(m, g) is None && cell(b, g) is Some))
    &&& empty_total(b) == 0 ==> legal(b)
    &&& 0 < empty_total(b) <= 4 ==> completable(b)
    &&& completable(m) ==> feasible(b)
}

/// `b` is a board deduction may reach from `m`: centres set, the known stickers of
/// `m` kept, no legal cube agreeing with `m` contradicted, no rule left to apply,
/// nothing held beyond what every closed board above `m` agreeing with a legal cube
/// holds.
pub open spec fn deduction_of(m: Cells, b: Cells) -> bool {
    &&& forall|f: int| 0 <= f < 6 ==> #[trigger] b[f][4] == Some(solved_face_color(f))
    &&& forall|g: int| 0 <= g < 54 && g % 9 != 4 && #[trigger] cell(m, g) is Some ==> cell(b, g) == cell(m, g)
    &&& forall|t: Cells| #![trigger agrees(b, t)] legal(t) && agrees(m, t) ==> agrees(b, t)
    &&& propagation_closed(b)
    &&& forall|b2: Cells| #![trigger extends(b, b2)]
        propagation_closed(b2) && consistent(b2) && covers(m, b2) ==> extends(b, b2)
}

/// The acceptance test turns the candidate `m` down: `m` is not feasible, or its
/// deductions end in a full board that is no legal cube, or in a board with one to
/// four gaps that no legal cube fills.
pub open spec fn rejected(m: Cells) -> bool {
    ||| !feasible(m)
    ||| exists|b: Cells| #[trigger] deduction_of(m, b)
        && ((empty_total(b) == 0 && !legal(b)) || (0 < empty_total(b) <= 4 && !completable(b)))
}

/// A candidate that the test turns down is one that no legal cube completes.
pub proof fn lemma_rejected_not_completable(m: Cells)
    requires
        rejected(m),
    ensures
        !completable(m),
{
    if completable(m) {
        let t = choose|t: Cells| #[trigger] completes(m, t);
        lemma_agrees_legal_feasible(m, t);
        let b = choose|b: Cells| #[trigger] deduction_of(m, b)
            && ((empty_total(b) == 0 && !legal(b)) || (0 < empty_total(b) <= 4 && !completable(b)));
        assert(agrees(b, t));
        assert(completes(b, t));
        if empty_total(b) == 0 {
            lemma_all_known_iff(b);
            lemma_full_agrees_eq(b, t);
        }
    }
}

/// Accept the candidate board when it is feasible and the deductions drawn from it
/// leave either a legal cube or (with at most four gaps) a completable board; the
/// board and marks then become those deductions. Otherwise nothing changes.
fn try_accept(cells: &mut Cells, derived: &mut Marks) -> (res: bool)
    ensures
        res ==> accepted(*old(cells), *old(derived), *final(cells), *final(derived)),
        !res ==> *final(cells) == *old(cells) && *final(derived) == *old(derived),
        !res ==> rejected(*old(cells)),
        completable(*old(cells)) ==> res,
{
    proof {
        if completable(*cells) {
            let t = choose|t: Cells| #[trigger] completes(*cells, t);
            lemma_agrees_legal_feasible(*cells, t);
        }
    }
    if is_feasible(cells).is_err() {
        return false;
    }
    let mut c2 = *cells;
    let mut d2 = *derived;
    propagate(&mut c2, &mut d2);
    let left = empty_count(&c2);
    proof {
        lemma_all_known_iff(c2);
        if completable(*cells) {
            let t = choose|t: Cells| #[trigger] completes(*cells, t);
            assert(agrees(c2, t));
            assert(completes(c2, t));
            lemma_agrees_legal_feasible(c2, t);
            if left == 0 {
                lemma_full_agrees_eq(c2, t);
            }
        }
    }
    proof {
        assert(deduction_of(*old(cells), c2));
    }
    if left == 0 {
        if validate(&c2).is_err() {
            return false;
        }
    } else if left <= 4 {
        if find_completion(&c2).is_none() {
            return false;
        }
    }
    *cells = c2;
    *derived = d2;
    true
}

/// Two boards that are both edge position `ei` of `a` flipped are the same board.
proof fn lemma_flip_unique(a: Cells, m1: Cells, m2: Cells, ei: int)
    requires
        0 <= ei < 12,
        is_flip(a, m1, ei),
        is_flip(a, m2, ei),
    ensures
        m1 == m2,
{
    assert forall|g: int| 0 <= g < 54 implies #[trigger] cell(m1, g) == cell(m2, g) by {}
    lemma_cells_ext(m1, m2);
}

/// Two boards that are both corner position `ci` of `a` turned by `n` are the same.
proof fn lemma_twist_unique(a: Cells, m1: Cells, m2: Cells, ci: int, n: int)
    requires
        0 <= ci < 8,
        is_twist(a, m1, ci, n),
        is_twist(a, m2, ci, n),
    ensures
        m1 == m2,
{
    assert forall|g: int| 0 <= g < 54 implies #[trigger] cell(m1, g) == cell(m2, g) by {
        if g == cslot(ci, 0) {
            assert(cell(m1, cslot(ci, 0)) == cell(m2, cslot(ci, 0)));
        } else if g == cslot(ci, 1) {
            assert(cell(m1, cslot(ci, 1)) == cell(m2, cslot(ci, 1)));
        } else if g == cslot(ci, 2) {
            assert(cell(m1, cslot(ci, 2)) == cell(m2, cslot(ci, 2)));
        }
    }
    lemma_cells_ext(m1, m2);
}

/// Two boards that both exchange corner positions `i` and `j` of `a` are the same.
proof fn lemma_corner_swap_unique(a: Cells, m1: Cells, m2: Cells, i: int, j: int)
    requires
        0 <= i < 8,
        0 <= j < 8,
        is_corner_swap(a, m1, i, j),
        is_corner_swap(a, m2, i, j),
    ensures
        m1 == m2,
{
    assert forall|g: int| 0 <= g < 54 implies #[trigger] cell(m1, g) == cell(m2, g) by {
        if g == cslot(i, 0) {
            assert(cell(m1, cslot(i, 0)) == cell(m2, cslot(i, 0)));
        } else if g == cslot(i, 1) {
            assert(cell(m1, cslot(i, 1)) == cell(m2, cslot(i, 1)));
        } else if g == cslot(i, 2) {
            assert(cell(m1, cslot(i, 2)) == cell(m2, cslot(i, 2)));
        } else if g == cslot(j, 0) {
            assert(cell(m1, cslot(j, 0)) == cell(m2, cslot(j, 0)));
        } else if g == cslot(j, 1) {
            assert(cell(m1, cslot(j, 1)) == cell(m2, cslot(j, 1)));
        } else if g == cslot(j, 2) {
            assert(cell(m1, cslot(j, 2)) == cell(m2, cslot(j, 2)));
        }
    }
    lemma_cells_ext(m1, m2);
}

/// Two boards that both exchange edge positions `i` and `j` of `a` are the same.
proof fn lemma_edge_swap_unique(a: Cells, m1: Cells, m2: Cells, i: int, j: int)
    requires
        0 <= i < 12,
        0 <= j < 12,
        is_edge_swap(a, m1, i, j),
        is_edge_swap(a, m2, i, j),
    ensures
        m1 == m2,
{
    assert forall|g: int| 0 <= g < 54 implies #[trigger] cell(m1, g) == cell(m2, g) by {
        if g == eslot(i, 0) {
            assert(cell(m1, eslot(i, 0)) == cell(m2, eslot(i, 0)));
        } else if g == eslot(i, 1) {
            assert(cell(m1, eslot(i, 1)) == cell(m2, eslot(i, 1)));
        } else if g == eslot(j, 0) {
            assert(cell(m1, eslot(j, 0)) == cell(m2, eslot(j, 0)));
        } else if g == eslot(j, 1) {
            assert(cell(m1, eslot(j, 1)) == cell(m2, eslot(j, 1)));
        }
    }
    lemma_cells_ext(m1, m2);
}

/// `m` is `a` with one edge flipped at a position where both stickers are known.
pub open spec fn flip_candidate(a: Cells, m: Cells, ei: int) -> bool {
    0 <= ei < 12 && edge_full(a, ei) && is_flip(a, m, ei)
}

/// `m` is `a` with one fully known corner turned by one or two steps.
pub open spec fn twist_candidate(a: Cells, m: Cells, ci: int, n: int) -> bool {
    0 <= ci < 8 && 1 <= n < 3 && corner_full(a, ci) && is_twist(a, m, ci, n)
}

/// `m` is `a` with two fully known corner positions exchanged.
pub open spec fn corner_swap_candidate(a: Cells, m: Cells, i: int, j: int) -> bool {
    0 <= i < j < 8 && corner_full(a, i) && corner_full(a, j) && is_corner_swap(a, m, i, j)
}

/// `m` is `a` with two fully known edge positions exchanged.
pub open spec fn edge_swap_candidate(a: Cells, m: Cells, i: int, j: int) -> bool {
    0 <= i < j < 12 && edge_full(a, i) && edge_full(a, j) && is_edge_swap(a, m, i, j)
}

/// `m` differs from `a` by one of the repair's single changes.
pub open spec fn one_change(a: Cells, m: Cells) -> bool {
    ||| exists|ei: int| #[trigger] flip_candidate(a, m, ei)
    ||| exists|ci: int, n: int| #[trigger] twist_candidate(a, m, ci, n)
    ||| exists|i: int, j: int| #[trigger] corner_swap_candidate(a, m, i, j)
    ||| exists|i: int, j: int| #[trigger] edge_swap_candidate(a, m, i, j)
}

/// The message of the flip of edge position `ei`.
pub open spec fn flip_fix_text(ei: int) -> Seq<char> {
    "已翻转棱位 "@ + dec_text((ei + 1) as nat) + " 的两个贴纸(原输入该处朝向不合法)"@
}

/// The message of a turn of corner position `ci`.
pub open spec fn twist_fix_text(ci: int) -> Seq<char> {
    "已扭转角位 "@ + dec_text((ci + 1) as nat) + "(原输入该处朝向不合法)"@
}

/// The message of the exchange of corner positions `i` and `j`.
pub open spec fn corner_swap_text(i: int, j: int) -> Seq<char> {
    "已交换角位 "@ + dec_text((i + 1) as nat) + " 与 "@ + dec_text((j + 1) as nat) + "(原输入块顺序不合法)"@
}

/// The message of the exchange of edge positions `i` and `j`.
pub open spec fn edge_swap_text(i: int, j: int) -> Seq<char> {
    "已交换棱位 "@ + dec_text((i + 1) as nat) + " 与 "@ + dec_text((j + 1) as nat) + "(原输入块顺序不合法)"@
}

/// Among the flips, the repair took that of edge position `ei`, giving `b` with marks
/// `db`: the test turned down the flip of every earlier position, and passed
/// this one.
pub open spec fn flip_taken(a: Cells, da: Marks, b: Cells, db: Marks, ei: int) -> bool {
    &&& exists|m: Cells| #[trigger] flip_candidate(a, m, ei) && accepted(m, da, b, db)
    &&& forall|m: Cells, e: int| #[trigger] flip_candidate(a, m, e) && e < ei ==> rejected(m)
}

/// Among the turns, the repair took that of corner position `ci` by `n` steps: no
/// earlier turn (by position, then steps) passed the acceptance test, and this one
/// did.
pub open spec fn twist_taken(a: Cells, da: Marks, b: Cells, db: Marks, ci: int, n: int) -> bool {
    &&& exists|m: Cells| #[trigger] twist_candidate(a, m, ci, n) && accepted(m, da, b, db)
    &&& forall|m: Cells, c: int, k: int| #[trigger] twist_candidate(a, m, c, k) && (c < ci || (c == ci && k < n))
        ==> rejected(m)
}

/// Among the corner exchanges, the repair took that of positions `i` and `j`: no
/// earlier pair passed the acceptance test, and this one did.
pub open spec fn corner_swap_taken(a: Cells, da: Marks, b: Cells, db: Marks, i: int, j: int) -> bool {
    &&& exists|m: Cells| #[trigger] corner_swap_candidate(a, m, i, j) && accepted(m, da, b, db)
    &&& forall|m: Cells, p: int, q: int| #[trigger] corner_swap_candidate(a, m, p, q) && (p < i || (p == i && q < j))
        ==> rejected(m)
}

/// Among the edge exchanges, the repair took that of positions `i` and `j`: no
/// earlier pair passed the acceptance test, and this one did.
pub open spec fn edge_swap_taken(a: Cells, da: Marks, b: Cells, db: Marks, i: int, j: int) -> bool {
    &&& exists|m: Cells| #[trigger] edge_swap_candidate(a, m, i, j) && accepted(m, da, b, db)
    &&& forall|m: Cells, p: int, q: int| #[trigger] edge_swap_candidate(a, m, p, q) && (p < i || (p == i && q < j))
        ==> rejected(m)
}

/// The acceptance test turns down every flip of `a`.
pub open spec fn no_flip_fits(a: Cells) -> bool {
    forall|m: Cells, e: int| #[trigger] flip_candidate(a, m, e) ==> rejected(m)
}

/// The acceptance test turns down every turn of a corner of `a`.
pub open spec fn no_twist_fits(a: Cells) -> bool {
    forall|m: Cells, c: int, k: int| #[trigger] twist_candidate(a, m, c, k) ==> rejected(m)
}

/// The acceptance test turns down every exchange of two corner positions of `a`.
pub open spec fn no_corner_swap_fits(a: Cells) -> bool {
    forall|m: Cells, p: int, q: int| #[trigger] corner_swap_candidate(a, m, p, q) ==> rejected(m)
}

/// What the repair of `a` (marks `da`) did to reach `b` (marks `db`), and the message
/// `msg` that says so: the first accepted change in the order flips, turns, corner
/// exchanges, edge exchanges, every change of an earlier kind turned down.
pub open spec fn repair_note(a: Cells, da: Marks, b: Cells, db: Marks, msg: Seq<char>) -> bool {
    ||| exists|ei: int| #[trigger] flip_taken(a, da, b, db, ei) && msg == flip_fix_text(ei)
    ||| no_flip_fits(a) && exists|ci: int, n: int| #[trigger] twist_taken(a, da, b, db, ci, n)
        && msg == twist_fix_text(ci)
    ||| no_flip_fits(a) && no_twist_fits(a) && exists|i: int, j: int| #[trigger] corner_swap_taken(a, da, b, db, i, j)
        && msg == corner_swap_text(i, j)
    ||| no_flip_fits(a) && no_twist_fits(a) && no_corner_swap_fits(a)
        && exists|i: int, j: int| #[trigger] edge_swap_taken(a, da, b, db, i, j) && msg == edge_swap_text(i, j)
}

/// Try flipping each edge with both stickers known, in position order.
fn repair_flips(cells: &mut Cells, derived: &mut Marks) -> (res: Option<String>)
    ensures
        res matches Some(msg) ==> exists|ei: int| #[trigger] flip_taken(*old(cells), *old(derived), *final(cells), *final(derived), ei)
            && msg@ == flip_fix_text(ei),
        res is None ==> *final(cells) == *old(cells) && *final(derived) == *old(derived)
            && forall|m: Cells, ei: int| #[trigger] flip_candidate(*old(cells), m, ei) ==> rejected(m),
{
    let snap = *cells;
    let snap_d = *derived;
    let mut ei: usize = 0;
    while ei < 12
        invariant
            ei <= 12,
            snap == *old(cells),
            snap_d == *old(derived),
            *cells == snap,
            *derived == snap_d,
            forall|m: Cells, e: int| #[trigger] flip_candidate(snap, m, e) && e < ei ==> rejected(m),
        decreases 12 - ei,
    {
        let a = get(cells, EDGE_FACELETS[ei][0]);
        let b = get(cells, EDGE_FACELETS[ei][1]);
        if a.is_some() && b.is_some() {
            flip_edge(cells, ei);
            let ghost m = *cells;
            if try_accept(cells, derived) {
                let mut msg = text("已翻转棱位 ");
                push_dec(&mut msg, ei + 1);
                push_str(&mut msg, " 的两个贴纸(原输入该处朝向不合法)");
                proof {
                    assert(flip_candidate(snap, m, ei as int));
                    assert(flip_taken(snap, snap_d, *cells, *derived, ei as int));
                    assert(msg@ =~= flip_fix_text(ei as int));
                }
                return Some(msg);
            }
            proof {
                assert forall|m2: Cells, e: int| #[trigger] flip_candidate(snap, m2, e) && e < ei + 1 implies rejected(m2) by {
                    if e == ei {
                        lemma_flip_unique(snap, m, m2, e);
                    }
                }
            }
            *cells = snap;
            *derived = snap_d;
        }
        ei += 1;
    }
    None
}

/// Try turning each fully known corner by one, then two steps, in position order.
fn repair_twists(cells: &mut Cells, derived: &mut Marks) -> (res: Option<String>)
    ensures
        res matches Some(msg) ==> exists|ci: int, n: int| #[trigger] twist_taken(*old(cells), *old(derived), *final(cells), *final(derived), ci, n)
            && msg@ == twist_fix_text(ci),
        res is None ==> *final(cells) == *old(cells) && *final(derived) == *old(derived)
            && forall|m: Cells, ci: int, n: int| #[trigger] twist_candidate(*old(cells), m, ci, n) ==> rejected(m),
{
    let snap = *cells;
    let snap_d = *derived;
    let mut ci: usize = 0;
    while ci < 8
        invariant
            ci <= 8,
            snap == *old(cells),
            snap_d == *old(derived),
            *cells == snap,
            *derived == snap_d,
            forall|m: Cells, c: int, n: int| #[trigger] twist_candidate(snap, m, c, n) && c < ci ==> rejected(m),
        decreases 8 - ci,
    {
        let f = CORNER_FACELETS[ci];
        let x0 = get(cells, f[0]);
        let x1 = get(cells, f[1]);
        let x2 = get(cells, f[2]);
        if x0.is_some() && x1.is_some() && x2.is_some() {
            let mut rot: usize = 1;
            while rot < 3
                invariant
                    1 <= rot <= 3,
                    ci < 8,
                    corner_full(snap, ci as int),
                    snap == *old(cells),
                    snap_d == *old(derived),
                    *cells == snap,
                    *derived == snap_d,
                    forall|m: Cells, c: int, n: int| #[trigger] twist_candidate(snap, m, c, n)
                        && (c < ci || (c == ci && n < rot)) ==> rejected(m),
                decreases 3 - rot,
            {
                twist_corner(cells, ci, rot);
                let ghost m = *cells;
                if try_accept(cells, derived) {
                    let mut msg = text("已扭转角位 ");
                    push_dec(&mut msg, ci + 1);
                    push_str(&mut msg, "(原输入该处朝向不合法)");
                    proof {
                        assert(twist_candidate(snap, m, ci as int, rot as int));
                        assert(twist_taken(snap, snap_d, *cells, *derived, ci as int, rot as int));
                        assert(msg@ =~= twist_fix_text(ci as int));
                    }
                    return Some(msg);
                }
                proof {
                    assert forall|m2: Cells, c: int, n: int| #[trigger] twist_candidate(snap, m2, c, n)
                        && (c < ci || (c == ci && n < rot + 1)) implies rejected(m2) by {
                        if c == ci && n == rot {
                            lemma_twist_unique(snap, m, m2, c, n);
                        }
                    }
                }
                *cells = snap;
                *derived = snap_d;
                rot += 1;
            }
        }
        ci += 1;
    }
    None
}

/// Try exchanging each pair of fully known corner positions, in order.
#[verifier::spinoff_prover]
#[verifier::rlimit(30)]
fn repair_corner_swaps(cells: &mut Cells, derived: &mut Marks) -> (res: Option<String>)
    ensures
        res matches Some(msg) ==> exists|i: int, j: int| #[trigger] corner_swap_taken(*old(cells), *old(derived), *final(cells), *final(derived), i, j)
            && msg@ == corner_swap_text(i, j),
        res is None ==> *final(cells) == *old(cells) && *final(derived) == *old(derived)
            && forall|m: Cells, i: int, j: int| #[trigger] corner_swap_candidate(*old(cells), m, i, j) ==> rejected(m),
{
    let snap = *cells;
    let snap_d = *derived;
    let mut i: usize = 0;
    while i < 8
        invariant
            i <= 8,
            snap == *old(cells),
            snap_d == *old(derived),
            *cells == snap,
            *derived == snap_d,
            forall|m: Cells, p: int, q: int| #[trigger] corner_swap_candidate(snap, m, p, q) && p < i ==> rejected(m),
        decreases 8 - i,
    {
        let mut j: usize = i + 1;
        while j < 8
            invariant
                i < 8,
                i + 1 <= j <= 8,
                snap == *old(cells),
                snap_d == *old(derived),
                *cells == snap,
                *derived == snap_d,
                forall|m: Cells, p: int, q: int| #[trigger] corner_swap_candidate(snap, m, p, q)
                    && (p < i || (p == i && q < j)) ==> rejected(m),
            decreases 8 - j,
        {
            let fi = CORNER_FACELETS[i];
            let fj = CORNER_FACELETS[j];
            let full = get(cells, fi[0]).is_some() && get(cells, fi[1]).is_some() && get(cells, fi[2]).is_some()
                && get(cells, fj[0]).is_some() && get(cells, fj[1]).is_some() && get(cells, fj[2]).is_some();
            if full {
                swap_corner_stickers(cells, i, j);
                let ghost m = *cells;
                if try_accept(cells, derived) {
                    let mut msg = text("已交换角位 ");
                    push_dec(&mut msg, i + 1);
                    push_str(&mut msg, " 与 ");
                    push_dec(&mut msg, j + 1);
                    push_str(&mut msg, "(原输入块顺序不合法)");
                    proof {
                        assert(corner_swap_candidate(snap, m, i as int, j as int));
                        assert(corner_swap_taken(snap, snap_d, *cells, *derived, i as int, j as int));
                        assert(msg@ =~= corner_swap_text(i as int, j as int));
                    }
                    return Some(msg);
                }
                proof {
                    assert forall|m2: Cells, p: int, q: int| #[trigger] corner_swap_candidate(snap, m2, p, q)
                        && (p < i || (p == i && q < j + 1)) implies rejected(m2) by {
                        if p == i && q == j {
                            lemma_corner_swap_unique(snap, m, m2, p, q);
                        }
                    }
                }
                *cells = snap;
                *derived = snap_d;
            }
            j += 1;
        }
        i += 1;
    }
    None
}

/// Try exchanging each pair of fully known edge positions, in order.
#[verifier::spinoff_prover]
#[verifier::rlimit(30)]
fn repair_edge_swaps(cells: &mut Cells, derived: &mut Marks) -> (res: Option<String>)
    ensures
        res matches Some(msg) ==> exists|i: int, j: int| #[trigger] edge_swap_taken(*old(cells), *old(derived), *final(cells), *final(derived), i, j)
            && msg@ == edge_swap_text(i, j),
        res is None ==> *final(cells) == *old(cells) && *final(derived) == *old(derived)
            && forall|m: Cells, i: int, j: int| #[trigger] edge_swap_candidate(*old(cells), m, i, j) ==> rejected(m),
{
    let snap = *cells;
    let snap_d = *derived;
    let mut i: usize = 0;
    while i < 12
        invariant
            i <= 12,
            snap == *old(cells),
            snap_d == *old(derived),
            *cells == snap,
            *derived == snap_d,
            forall|m: Cells, p: int, q: int| #[trigger] edge_swap_candidate(snap, m, p, q) && p < i ==> rejected(m),
        decreases 12 - i,
    {
        let mut j: usize = i + 1;
        while j < 12
            invariant
                i < 12,
                i + 1 <= j <= 12,
                snap == *old(cells),
                snap_d == *old(derived),
                *cells == snap,
                *derived == snap_d,
                forall|m: Cells, p: int, q: int| #[trigger] edge_swap_candidate(snap, m, p, q)
                    && (p < i || (p == i && q < j)) ==> rejected(m),
            decreases 12 - j,
        {
            let fi = EDGE_FACELETS[i];
            let fj = EDGE_FACELETS[j];
            let full = get(cells, fi[0]).is_some() && get(cells, fi[1]).is_some()
                && get(cells, fj[0]).is_some() && get(cells, fj[1]).is_some();
            if full {
                swap_edge_stickers(cells, i, j);
                let ghost m = *cells;
                if try_accept(cells, derived) {
                    let mut msg = text("已交换棱位 ");
                    push_dec(&mut msg, i + 1);
                    push_str(&mut msg, " 与 ");
                    push_dec(&mut msg, j + 1);
                    push_str(&mut msg, "(原输入块顺序不合法)");
                    proof {
                        assert(edge_swap_candidate(snap, m, i as int, j as int));
                        assert(edge_swap_taken(snap, snap_d, *cells, *derived, i as int, j as int));
                        assert(msg@ =~= edge_swap_text(i as int, j as int));
                    }
                    return Some(msg);
                }
                proof {
                    assert forall|m2: Cells, p: int, q: int| #[trigger] edge_swap_candidate(snap, m2, p, q)
                        && (p < i || (p == i && q < j + 1)) implies rejected(m2) by {
                        if p == i && q == j {
                            lemma_edge_swap_unique(snap, m, m2, p, q);
                        }
                    }
                }
                *cells = snap;
                *derived = snap_d;
            }
            j += 1;
        }
        i += 1;
    }
    None
}

/// **One-change repair**: find a single change that makes a stuck board solvable
/// again. A legal full board is left as it is. Otherwise, in this order: flip an
/// edge (both stickers known), turn a corner by one or two steps (all three known),
/// exchange two fully known corner positions, exchange two fully known edge
/// positions; the first candidate that passes the acceptance test is taken. On
/// `Err` nothing changes.
pub fn repair(cells: &mut Cells, derived: &mut Marks) -> (res: Result<String, String>)
    ensures
        legal(*old(cells)) ==> (res matches Ok(m) && m@ == "当前盘面本来就合法,无需修正"@)
            && *final(cells) == *old(cells) && *final(derived) == *old(derived),
        res is Ok && !legal(*old(cells)) ==> exists|m: Cells| #[trigger] one_change(*old(cells), m)
            && accepted(m, *old(derived), *final(cells), *final(derived)),
        !legal(*old(cells)) ==> (res matches Ok(msg)
            ==> repair_note(*old(cells), *old(derived), *final(cells), *final(derived), msg@)),
        (exists|m: Cells| #[trigger] one_change(*old(cells), m) && completable(m)) ==> res is Ok,
        res is Err ==> *final(cells) == *old(cells) && *final(derived) == *old(derived),
        res matches Err(e) ==> e@ == "没找到一步可修正的方案 —— 请用「擦除」清掉几格重涂,或点「清空」重来"@,
{
    proof {
        lemma_all_known_iff(*cells);
    }
    if empty_count(cells) == 0 && validate(cells).is_ok() {
        return Ok(text("当前盘面本来就合法,无需修正"));
    }
    let ghost a = *cells;
    let ghost da = *derived;
    if let Some(msg) = repair_flips(cells, derived) {
        proof {
            let ei = choose|ei: int| #[trigger] flip_taken(a, da, *cells, *derived, ei) && msg@ == flip_fix_text(ei);
            let m = choose|m: Cells| #[trigger] flip_candidate(a, m, ei) && accepted(m, da, *cells, *derived);
            assert(one_change(a, m));
        }
        return Ok(msg);
    }
    proof {
        assert(no_flip_fits(a));
    }
    if let Some(msg) = repair_twists(cells, derived) {
        proof {
            let (ci, n) = choose|ci: int, n: int| #[trigger] twist_taken(a, da, *cells, *derived, ci, n)
                && msg@ == twist_fix_text(ci);
            let m = choose|m: Cells| #[trigger] twist_candidate(a, m, ci, n) && accepted(m, da, *cells, *derived);
            assert(one_change(a, m));
        }
        return Ok(msg);
    }
    proof {
        assert(no_twist_fits(a));
    }
    if let Some(msg) = repair_corner_swaps(cells, derived) {
        proof {
            let (i, j) = choose|i: int, j: int| #[trigger] corner_swap_taken(a, da, *cells, *derived, i, j)
                && msg@ == corner_swap_text(i, j);
            let m = choose|m: Cells| #[trigger] corner_swap_candidate(a, m, i, j) && accepted(m, da, *cells, *derived);
            assert(one_change(a, m));
        }
        return Ok(msg);
    }
    proof {
        assert(no_corner_swap_fits(a));
    }
    if let Some(msg) = repair_edge_swaps(cells, derived) {
        proof {
            let (i, j) = choose|i: int, j: int| #[trigger] edge_swap_taken(a, da, *cells, *derived, i, j)
                && msg@ == edge_swap_text(i, j);
            let m = choose|m: Cells| #[trigger] edge_swap_candidate(a, m, i, j) && accepted(m, da, *cells, *derived);
            assert(one_change(a, m));
        }
        return Ok(msg);
    }
    proof {
        assert forall|m: Cells| #[trigger] one_change(a, m) implies !completable(m) by {
            if exists|ei: int| #[trigger] flip_candidate(a, m, ei) {
                let ei = choose|ei: int| #[trigger] flip_candidate(a, m, ei);
            } else if exists|ci: int, n: int| #[trigger] twist_candidate(a, m, ci, n) {
                let (ci, n) = choose|ci: int, n: int| #[trigger] twist_candidate(a, m, ci, n);
            } else if exists|i: int, j: int| #[trigger] corner_swap_candidate(a, m, i, j) {
                let (i, j) = choose|i: int, j: int| #[trigger] corner_swap_candidate(a, m, i, j);
            } else {
                let (i, j) = choose|i: int, j: int| #[trigger] edge_swap_candidate(a, m, i, j);
            }
            lemma_rejected_not_completable(m);
        }
    }
    Err(text("没找到一步可修正的方案 —— 请用「擦除」清掉几格重涂,或点「清空」重来"))
}

} // verus!
