//! Completing a nearly full board: every way to fill the last few gaps is tried,
//! in a fixed order, and the legal ones are reported.

use vstd::prelude::*;
use crate::model::StickerColor;
use crate::pieces::{
    cell, color_idx, color_index, count_of, count_upto, counts, empty_total, get,
    lemma_cells_ext, lemma_put_cells, put, Cells, COLOR_ORDER,
};
use crate::legal::{all_known, counts_nine, legal};
use crate::feasible::{agrees, lemma_count_agrees};
use crate::validate::{lemma_all_known_iff, validate};
use crate::propagate::empty_list;

verus! {

/// `t` completes `a`: a legal cube showing every known sticker of `a`.
pub open spec fn completes(a: Cells, t: Cells) -> bool {
    legal(t) && agrees(a, t)
}

/// Some legal cube completes `a`.
pub open spec fn completable(a: Cells) -> bool {
    exists|t: Cells| #[trigger] completes(a, t)
}

/// Exactly one legal cube completes `a`.
pub open spec fn uniquely_completable(a: Cells) -> bool {
    completable(a) && forall|t1: Cells, t2: Cells| completes(a, t1) && completes(a, t2) ==> t1 == t2
}

/// Rank of a sticker in the search order: its colour's place in [`COLOR_ORDER`]
/// (an unknown sticker ranks last).
pub open spec fn color_rank(v: Option<StickerColor>) -> int {
    match v {
        Some(c) => color_index(c),
        None => 6,
    }
}

/// `t1` and `t2` first differ, among the unknown stickers of `a` taken by board
/// index, at sticker `g`, where `t1` shows the earlier colour.
pub open spec fn first_gap_diff(a: Cells, t1: Cells, t2: Cells, g: int) -> bool {
    &&& 0 <= g < 54
    &&& cell(a, g) is None
    &&& color_rank(cell(t1, g)) < color_rank(cell(t2, g))
    &&& forall|h: int| 0 <= h < g && #[trigger] cell(a, h) is None ==> cell(t1, h) == cell(t2, h)
}

/// In the order in which the gaps of `a` are filled (gaps by board index, colours
/// in [`COLOR_ORDER`]), `t1` comes before `t2`.
pub open spec fn precedes(a: Cells, t1: Cells, t2: Cells) -> bool {
    exists|g: int| #[trigger] first_gap_diff(a, t1, t2, g)
}

pub(crate) proof fn lemma_count_after_fill(a: Cells, g: int, c: StickerColor, x: StickerColor, n: int)
    requires
        0 <= g < 54,
        0 <= n <= 54,
        cell(a, g) is None,
    ensures
        count_upto(put(a, g, Some(c)), x, n) == count_upto(a, x, n) + (if x == c && g < n { 1int } else { 0int }),
    decreases n,
{
    lemma_put_cells(a, g, Some(c));
    if n > 0 {
        lemma_count_after_fill(a, g, c, x, n - 1);
    }
}

/// A full board agreeing with `t` is `t`.
pub(crate) proof fn lemma_full_agrees_eq(a: Cells, t: Cells)
    requires
        all_known(a),
        agrees(a, t),
    ensures
        a == t,
{
    assert forall|g: int| 0 <= g < 54 implies #[trigger] cell(a, g) == cell(t, g) by {
        assert(cell(a, g) is Some);
    }
    lemma_cells_ext(a, t);
}

/// A board agrees with the gap of `a` filled by `c` exactly when it agrees with `a`
/// and shows `c` in that gap.
pub(crate) proof fn lemma_fill_agrees(a: Cells, g: int, c: StickerColor, t: Cells)
    requires
        0 <= g < 54,
        cell(a, g) is None,
    ensures
        agrees(put(a, g, Some(c)), t) <==> agrees(a, t) && cell(t, g) == Some(c),
{
    lemma_put_cells(a, g, Some(c));
    if agrees(put(a, g, Some(c)), t) {
        assert(cell(put(a, g, Some(c)), g) == Some(c));
        assert forall|h: int| 0 <= h < 54 implies (#[trigger] cell(a, h) matches Some(x) ==> cell(t, h) == Some(x)) by {
            if h != g {
                assert(cell(put(a, g, Some(c)), h) == cell(a, h));
            }
        }
    }
}

/// Filling a gap of `a` with the colour a completion shows there keeps it a completion,
/// and a completion of the filled board completes `a`.
proof fn lemma_fill_completes(a: Cells, g: int, c: StickerColor, t: Cells)
    requires
        0 <= g < 54,
        cell(a, g) is None,
    ensures
        completes(put(a, g, Some(c)), t) ==> completes(a, t) && cell(t, g) == Some(c),
        completes(a, t) && cell(t, g) == Some(c) ==> completes(put(a, g, Some(c)), t),
{
    lemma_fill_agrees(a, g, c, t);
}

/// A colour already shown nine times cannot fill another gap of a board agreeing
/// with one that shows every colour nine times.
pub(crate) proof fn lemma_quota_full(a: Cells, g: int, c: StickerColor, t: Cells)
    requires
        0 <= g < 54,
        cell(a, g) is None,
        count_of(a, c) >= 9,
        counts_nine(t),
        agrees(a, t),
    ensures
        cell(t, g) != Some(c),
{
    if cell(t, g) == Some(c) {
        lemma_fill_agrees(a, g, c, t);
        lemma_count_after_fill(a, g, c, c, 54);
        lemma_count_agrees(put(a, g, Some(c)), t, c, 54);
        assert(count_of(t, c) == 9);
    }
}

/// An order found on the board with one more gap filled, where both boards show that
/// gap alike, holds on the board without that fill.
pub(crate) proof fn lemma_precedes_lift(a: Cells, g: int, c: StickerColor, d: Cells, t: Cells)
    requires
        0 <= g < 54,
        cell(a, g) is None,
        precedes(put(a, g, Some(c)), d, t),
        cell(d, g) == cell(t, g),
    ensures
        precedes(a, d, t),
{
    let b = put(a, g, Some(c));
    lemma_put_cells(a, g, Some(c));
    let w = choose|w: int| #[trigger] first_gap_diff(b, d, t, w);
    assert(w != g);
    assert forall|h: int| 0 <= h < w && #[trigger] cell(a, h) is None implies cell(d, h) == cell(t, h) by {
        if h != g {
            assert(cell(b, h) is None);
        }
    }
    assert(first_gap_diff(a, d, t, w));
}

/// Exec equality of boards.
fn same_board(a: &Cells, b: &Cells) -> (r: bool)
    ensures
        r == (*a == *b),
{
    let mut g: usize = 0;
    while g < 54
        invariant
            g <= 54,
            forall|h: int| 0 <= h < g ==> #[trigger] cell(*a, h) == cell(*b, h),
        decreases 54 - g,
    {
        let x = get(a, g);
        let y = get(b, g);
        let eq = match (x, y) {
            (Some(p), Some(q)) => p == q,
            (None, None) => true,
            _ => false,
        };
        if !eq {
            return false;
        }
        g += 1;
    }
    proof {
        lemma_cells_ext(*a, *b);
    }
    true
}

/// Depth-first search over the gaps `empties[i..]` of `cur`, colours in
/// [`COLOR_ORDER`], skipping a colour already shown nine times. Returns the first
/// completion of `cur` that is not `avoid`; `cur` and `cnt` come back unchanged.
fn search(
    cur: &mut Cells,
    empties: &Vec<usize>,
    i: usize,
    cnt: &mut [u8; 6],
    avoid: &Option<Cells>,
) -> (res: Option<Cells>)
    requires
        i <= empties@.len(),
        forall|a: int| 0 <= a < empties@.len() ==> #[trigger] empties@[a] < 54,
        forall|a: int, b: int| 0 <= a < b < empties@.len() ==> empties@[a] < empties@[b],
        forall|a: int| i <= a < empties@.len() ==> #[trigger] cell(*old(cur), empties@[a] as int) is None,
        forall|h: int| 0 <= h < 54 && #[trigger] cell(*old(cur), h) is None
            ==> exists|a: int| i <= a < empties@.len() && empties@[a] == h,
        forall|c: StickerColor| #[trigger] old(cnt)[color_index(c)] == count_of(*old(cur), c),
    ensures
        *final(cur) == *old(cur),
        *final(cnt) == *old(cnt),
        res matches Some(d) ==> {
            &&& completes(*old(cur), d)
            &&& *avoid != Some(d)
            &&& forall|t: Cells| #[trigger] completes(*old(cur), t) && *avoid != Some(t) && t != d
                ==> precedes(*old(cur), d, t)
        },
        res is None ==> forall|t: Cells| #[trigger] completes(*old(cur), t) ==> *avoid == Some(t),
    decreases empties@.len() - i,
{
    let ghost c0 = *cur;
    let ghost n0 = *cnt;
    if i == empties.len() {
        proof {
            assert forall|h: int| 0 <= h < 54 implies #[trigger] cell(c0, h) is Some by {
                if cell(c0, h) is None {
                    let a = choose|a: int| i <= a < empties@.len() && empties@[a] == h;
                }
            }
            assert forall|t: Cells| #[trigger] completes(c0, t) implies t == c0 by {
                lemma_full_agrees_eq(c0, t);
            }
        }
        let ok = validate(cur).is_ok();
        let fresh = match avoid {
            Some(a) => !same_board(cur, a),
            None => true,
        };
        if ok && fresh {
            return Some(*cur);
        }
        return None;
    }
    let n = empties.len();
    let g = empties[i];
    proof {
        assert forall|h: int| 0 <= h < g && #[trigger] cell(c0, h) is None implies false by {
            let a = choose|a: int| i <= a < empties@.len() && empties@[a] == h;
            if a > i {
                assert(empties@[i as int] < empties@[a]);
            }
        }
    }
    let mut j: usize = 0;
    while j < 6
        invariant
            j <= 6,
            n == empties@.len(),
            i < empties@.len(),
            g == empties@[i as int],
            g < 54,
            cell(c0, g as int) is None,
            forall|h: int| 0 <= h < g && #[trigger] cell(c0, h) is None ==> false,
            *cur == c0,
            *cnt == n0,
            c0 == *old(cur),
            n0 == *old(cnt),
            forall|a: int| 0 <= a < empties@.len() ==> #[trigger] empties@[a] < 54,
            forall|a: int, b: int| 0 <= a < b < empties@.len() ==> empties@[a] < empties@[b],
            forall|a: int| i <= a < empties@.len() ==> #[trigger] cell(c0, empties@[a] as int) is None,
            forall|h: int| 0 <= h < 54 && #[trigger] cell(c0, h) is None
                ==> exists|a: int| i <= a < empties@.len() && empties@[a] == h,
            forall|c: StickerColor| #[trigger] n0[color_index(c)] == count_of(c0, c),
            forall|t: Cells| #[trigger] completes(c0, t) && color_rank(cell(t, g as int)) < j ==> *avoid == Some(t),
        decreases 6 - j,
    {
        let c = COLOR_ORDER[j];
        let ci = color_idx(c);
        proof {
            assert(color_index(c) == j);
        }
        if cnt[ci] >= 9 {
            proof {
                assert forall|t: Cells| #[trigger] completes(c0, t) && color_rank(cell(t, g as int)) < j + 1 implies *avoid == Some(t) by {
                    if color_rank(cell(t, g as int)) == j {
                        assert(cell(t, g as int) is Some);
                        assert(cell(t, g as int) == Some(c));
                        lemma_quota_full(c0, g as int, c, t);
                    }
                }
            }
            j += 1;
            continue;
        }
        cnt[ci] = cnt[ci] + 1;
        crate::pieces::set(cur, g, Some(c));
        let ghost c1 = *cur;
        proof {
            lemma_put_cells(c0, g as int, Some(c));
            assert forall|x: StickerColor| #[trigger] cnt[color_index(x)] == count_of(c1, x) by {
                lemma_count_after_fill(c0, g as int, c, x, 54);
            }
            assert forall|a: int| i + 1 <= a < empties@.len() implies #[trigger] cell(c1, empties@[a] as int) is None by {
                assert(empties@[i as int] < empties@[a]);
            }
            assert forall|h: int| 0 <= h < 54 && #[trigger] cell(c1, h) is None
                implies exists|a: int| i + 1 <= a < empties@.len() && empties@[a] == h by {
                assert(h != g);
                assert(cell(c0, h) is None);
                let a = choose|a: int| i <= a < empties@.len() && empties@[a] == h;
                assert(a != i);
            }
        }
        let r = search(cur, empties, i + 1, cnt, avoid);
        crate::pieces::set(cur, g, None);
        cnt[ci] = cnt[ci] - 1;
        proof {
            lemma_put_cells(c1, g as int, None);
            assert forall|h: int| 0 <= h < 54 implies #[trigger] cell(*cur, h) == cell(c0, h) by {}
            lemma_cells_ext(*cur, c0);
            assert(*cnt =~= n0);
        }
        match r {
            Some(d) => {
                proof {
                    lemma_fill_completes(c0, g as int, c, d);
                    assert forall|t: Cells| #[trigger] completes(c0, t) && *avoid != Some(t) && t != d
                        implies precedes(c0, d, t) by {
                        lemma_fill_completes(c0, g as int, c, t);
                        assert(cell(t, g as int) is Some);
                        if color_rank(cell(t, g as int)) == j {
                            assert(cell(t, g as int) == Some(c));
                            lemma_precedes_lift(c0, g as int, c, d, t);
                        } else {
                            assert(first_gap_diff(c0, d, t, g as int));
                        }
                    }
                }
                return Some(d);
            },
            None => {
                proof {
                    assert forall|t: Cells| #[trigger] completes(c0, t) && color_rank(cell(t, g as int)) < j + 1 implies *avoid == Some(t) by {
                        if color_rank(cell(t, g as int)) == j {
                            assert(cell(t, g as int) is Some);
                            assert(cell(t, g as int) == Some(c));
                            lemma_fill_completes(c0, g as int, c, t);
                        }
                    }
                }
            },
        }
        j += 1;
    }
    proof {
        assert forall|t: Cells| #[trigger] completes(c0, t) implies *avoid == Some(t) by {
            assert(cell(t, g as int) is Some);
            assert(color_rank(cell(t, g as int)) < 6);
        }
    }
    None
}

/// When at most four stickers are unknown, try every way to fill them and return the
/// first legal cube (gaps by board index, colours in [`COLOR_ORDER`]); a full board
/// comes back as it is when legal. `None` when more than four stickers are unknown,
/// or when no filling gives a legal cube (the board is stuck).
pub fn find_completion(cells: &Cells) -> (res: Option<Cells>)
    ensures
        res is Some <==> empty_total(*cells) <= 4 && completable(*cells),
        res matches Some(d) ==> {
            &&& completes(*cells, d)
            &&& forall|t: Cells| #[trigger] completes(*cells, t) && t != d ==> precedes(*cells, d, t)
        },
{
    let empties = empty_list(cells);
    if empties.len() > 4 {
        return None;
    }
    let mut cur = *cells;
    let mut cnt = counts(cells);
    let none: Option<Cells> = None;
    proof {
        assert forall|h: int| 0 <= h < 54 && #[trigger] cell(cur, h) is None
            implies exists|a: int| 0 <= a < empties@.len() && empties@[a] == h by {
            assert(empties@.contains(h as usize));
        }
    }
    let r = search(&mut cur, &empties, 0, &mut cnt, &none);
    proof {
        if r is None {
            assert forall|t: Cells| !#[trigger] completes(*cells, t) by {}
        }
    }
    r
}

/// Like [`find_completion`], but only when the legal completion is unique: with
/// several legal completions the board is some cube the user has not finished
/// describing, and none of them is returned.
pub fn find_unique_completion(cells: &Cells) -> (res: Option<Cells>)
    ensures
        res is Some <==> empty_total(*cells) <= 4 && uniquely_completable(*cells),
        res matches Some(d) ==> {
            &&& completes(*cells, d)
            &&& forall|t: Cells| #[trigger] completes(*cells, t) ==> t == d
        },
{
    let first = find_completion(cells);
    match first {
        None => None,
        Some(d) => {
            let empties = empty_list(cells);
            let mut cur = *cells;
            let mut cnt = counts(cells);
            let avoid: Option<Cells> = Some(d);
            proof {
                assert forall|h: int| 0 <= h < 54 && #[trigger] cell(cur, h) is None
                    implies exists|a: int| 0 <= a < empties@.len() && empties@[a] == h by {
                    assert(empties@.contains(h as usize));
                }
            }
            let other = search(&mut cur, &empties, 0, &mut cnt, &avoid);
            match other {
                Some(e) => {
                    proof {
                        assert(completes(*cells, e) && e != d);
                        assert(!uniquely_completable(*cells));
                    }
                    None
                },
                None => Some(d),
            }
        },
    }
}

} // verus!
