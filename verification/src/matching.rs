//! Perfect matchings between positions and pieces (bipartite graphs with at most
//! sixteen pieces).

use vstd::prelude::*;

verus! {

/// `f` assigns to each of the first `f.len()` positions one of its candidate pieces
/// (all below `m`), no piece twice.
pub open spec fn valid_assignment(cands: Seq<Seq<usize>>, m: int, f: Seq<int>) -> bool {
    &&& f.len() <= cands.len()
    &&& forall|i: int| 0 <= i < f.len() ==> 0 <= #[trigger] f[i] < m && cands[i].contains(f[i] as usize)
    &&& forall|i: int, j: int| 0 <= i < f.len() && 0 <= j < f.len() && i != j ==> f[i] != f[j]
}

/// Every position can be given its own candidate piece.
pub open spec fn perfect_matching_exists(cands: Seq<Seq<usize>>, m: int) -> bool {
    exists|f: Seq<int>| f.len() == cands.len() && valid_assignment(cands, m, f)
}

/// Bit `b` of `mask` is set.
pub open spec fn has_bit(mask: u32, b: u32) -> bool {
    (mask >> b) & 1u32 == 1u32
}

/// `mask` with bit `p` set.
pub open spec fn add_bit(mask: u32, p: u32) -> u32 {
    mask | (1u32 << p)
}

/// The set of pieces used by an assignment, as a bit mask.
pub open spec fn mask_of(f: Seq<int>) -> u32
    decreases f.len(),
{
    if f.len() == 0 {
        0
    } else {
        add_bit(mask_of(f.drop_last()), f.last() as u32)
    }
}

proof fn lemma_zero_has_no_bits(b: u32)
    requires
        b < 32,
    ensures
        !has_bit(0u32, b),
{
    assert(((0u32 >> b) & 1u32) == 0u32) by (bit_vector) requires b < 32u32;
}

proof fn lemma_add_bit(mask: u32, p: u32, b: u32)
    requires
        p < 32,
        b < 32,
    ensures
        has_bit(add_bit(mask, p), b) == (has_bit(mask, b) || b == p),
{
    assert((((mask | (1u32 << p)) >> b) & 1u32 == 1u32) == (((mask >> b) & 1u32 == 1u32) || b == p))
        by (bit_vector)
        requires
            p < 32u32,
            b < 32u32,
    ;
}

proof fn lemma_add_bit_bound(mask: u32, p: u32, m: u32)
    requires
        m <= 16,
        p < m,
        mask < (1u32 << m),
    ensures
        add_bit(mask, p) < (1u32 << m),
{
    assert((mask | (1u32 << p)) < (1u32 << m))
        by (bit_vector)
        requires
            m <= 16u32,
            p < m,
            mask < (1u32 << m),
    ;
}

proof fn lemma_pow_bound(m: u32)
    requires
        m <= 16,
    ensures
        (1u32 << m) <= 65536,
        (1u32 << m) >= 1,
{
    assert((1u32 << m) <= 65536u32 && (1u32 << m) >= 1u32) by (bit_vector) requires m <= 16u32;
}

/// The bits of `mask_of(f)` are exactly the values in `f`.
proof fn lemma_mask_of_bits(f: Seq<int>, b: u32)
    requires
        forall|i: int| 0 <= i < f.len() ==> 0 <= #[trigger] f[i] < 32,
        b < 32,
    ensures
        has_bit(mask_of(f), b) == f.contains(b as int),
    decreases f.len(),
{
    if f.len() == 0 {
        lemma_zero_has_no_bits(b);
    } else {
        let g = f.drop_last();
        assert forall|i: int| 0 <= i < g.len() implies 0 <= #[trigger] g[i] < 32 by {
            assert(g[i] == f[i]);
        }
        lemma_mask_of_bits(g, b);
        lemma_add_bit(mask_of(g), f.last() as u32, b);
        if f.contains(b as int) {
            let i = choose|i: int| 0 <= i < f.len() && f[i] == b as int;
            if i < f.len() - 1 {
                assert(g[i] == b as int);
            }
        }
        if g.contains(b as int) {
            let i = choose|i: int| 0 <= i < g.len() && g[i] == b as int;
            assert(f[i] == b as int);
        }
    }
}

/// `mask_of(f)` stays below `2^m` when all values of `f` are below `m`.
proof fn lemma_mask_of_bound(f: Seq<int>, m: u32)
    requires
        m <= 16,
        forall|i: int| 0 <= i < f.len() ==> 0 <= #[trigger] f[i] < m,
    ensures
        mask_of(f) < (1u32 << m),
    decreases f.len(),
{
    if f.len() == 0 {
        lemma_pow_bound(m);
    } else {
        let g = f.drop_last();
        assert forall|i: int| 0 <= i < g.len() implies 0 <= #[trigger] g[i] < m by {
            assert(g[i] == f[i]);
        }
        lemma_mask_of_bound(g, m);
        lemma_add_bit_bound(mask_of(g), f.last() as u32, m);
    }
}

/// Marking `x` is justified by mask `y` of the previous layer plus piece `p`.
pub open spec fn extends_to(cur: Seq<bool>, row: Seq<usize>, m: int, size: int, y: int, p: int, x: int) -> bool {
    &&& 0 <= y < size
    &&& cur[y]
    &&& 0 <= p < m
    &&& row.contains(p as usize)
    &&& !has_bit(y as u32, p as u32)
    &&& add_bit(y as u32, p as u32) == x as u32
}

/// Layer `k` of the search is sound: every marked mask covers the pieces of some
/// valid assignment of the first `k` positions.
pub open spec fn layer_sound(cands: Seq<Seq<usize>>, m: int, k: int, cur: Seq<bool>) -> bool {
    forall|mask: int| 0 <= mask < cur.len() && #[trigger] cur[mask] ==> exists|f: Seq<int>|
        f.len() == k && valid_assignment(cands, m, f)
        && forall|b: int| 0 <= b < m && #[trigger] f.contains(b) ==> has_bit(mask as u32, b as u32)
}

/// Layer `k` of the search is complete: it marks the mask of every valid assignment
/// of the first `k` positions.
pub open spec fn layer_complete(cands: Seq<Seq<usize>>, m: int, k: int, cur: Seq<bool>) -> bool {
    forall|f: Seq<int>| #![trigger valid_assignment(cands, m, f)]
        f.len() == k && valid_assignment(cands, m, f) ==> cur[mask_of(f) as int]
}

/// Is there a perfect matching: can every position `i` be given its own piece from
/// `cands[i]` (pieces numbered below `n_right`)?
///
/// The search keeps one flag for each set of pieces already given out, a table of
/// `2^n_right` entries, so `n_right` is bounded by 16 (65536 flags). A cube has 8
/// corner pieces and 12 edge pieces, and those are the two sizes the library asks
/// about.
pub fn has_perfect_matching(cands: &Vec<Vec<usize>>, n_right: usize) -> (res: bool)
    requires
        n_right <= 16,
    ensures
        res == perfect_matching_exists(cands@.map_values(|v: Vec<usize>| v@), n_right as int),
{
    let ghost cs = cands@.map_values(|v: Vec<usize>| v@);
    let ghost m = n_right as int;
    let mbits = n_right as u32;
    proof {
        lemma_pow_bound(mbits);
    }
    let size: usize = (1u32 << mbits) as usize;
    let mut cur: Vec<bool> = Vec::new();
    while cur.len() < size
        invariant
            cur@.len() <= size,
            forall|i: int| 0 <= i < cur@.len() ==> cur@[i] == (i == 0),
        decreases size - cur@.len(),
    {
        let first = cur.len() == 0;
        cur.push(first);
    }
    proof {
        assert(layer_sound(cs, m, 0, cur@)) by {
            assert forall|mask: int| 0 <= mask < cur@.len() && #[trigger] cur@[mask] implies exists|f: Seq<int>|
                f.len() == 0 && valid_assignment(cs, m, f)
                && forall|b: int| 0 <= b < m && #[trigger] f.contains(b) ==> has_bit(mask as u32, b as u32) by {
                let f = Seq::<int>::empty();
                assert(valid_assignment(cs, m, f));
            }
        }
        assert(layer_complete(cs, m, 0, cur@)) by {
            assert forall|f: Seq<int>| #![trigger valid_assignment(cs, m, f)]
                f.len() == 0 && valid_assignment(cs, m, f) implies cur@[mask_of(f) as int] by {
                assert(mask_of(f) == 0);
            }
        }
    }
    let n = cands.len();
    let mut k: usize = 0;
    while k < n
        invariant
            k <= n,
            n == cands@.len(),
            cs == cands@.map_values(|v: Vec<usize>| v@),
            m == n_right as int,
            mbits == n_right as u32,
            n_right <= 16,
            size == (1u32 << mbits) as usize,
            size >= 1,
            cur@.len() == size,
            layer_sound(cs, m, k as int, cur@),
            layer_complete(cs, m, k as int, cur@),
        decreases n - k,
    {
        let next = next_layer(cands, &cur, k, n_right, size);
        cur = next;
        k += 1;
    }
    let mut found = false;
    let mut mask: usize = 0;
    while mask < size
        invariant
            mask <= size,
            cur@.len() == size,
            found == exists|x: int| 0 <= x < mask && cur@[x],
        decreases size - mask,
    {
        if cur[mask] {
            found = true;
        }
        mask += 1;
    }
    proof {
        if found {
            let x = choose|x: int| 0 <= x < size && cur@[x];
            assert(cur@[x]);
        }
        if perfect_matching_exists(cs, m) {
            let f = choose|f: Seq<int>| f.len() == cs.len() && valid_assignment(cs, m, f);
            assert(valid_assignment(cs, m, f));
            lemma_mask_of_bound(f, mbits);
            assert(cur@[mask_of(f) as int]);
        }
    }
    found
}

/// One step of the search: from the masks reachable by assigning the first `k`
/// positions to those reachable by also assigning position `k`.
fn next_layer(cands: &Vec<Vec<usize>>, cur: &Vec<bool>, k: usize, n_right: usize, size: usize) -> (next: Vec<bool>)
    requires
        k < cands@.len(),
        n_right <= 16,
        size == (1u32 << (n_right as u32)) as usize,
        cur@.len() == size,
        layer_sound(cands@.map_values(|v: Vec<usize>| v@), n_right as int, k as int, cur@),
        layer_complete(cands@.map_values(|v: Vec<usize>| v@), n_right as int, k as int, cur@),
    ensures
        next@.len() == size,
        layer_sound(cands@.map_values(|v: Vec<usize>| v@), n_right as int, k + 1, next@),
        layer_complete(cands@.map_values(|v: Vec<usize>| v@), n_right as int, k + 1, next@),
{
    let ghost cs = cands@.map_values(|v: Vec<usize>| v@);
    let ghost m = n_right as int;
    let mbits = n_right as u32;
    let mut next: Vec<bool> = Vec::new();
    while next.len() < size
        invariant
            next@.len() <= size,
            forall|i: int| 0 <= i < next@.len() ==> !next@[i],
        decreases size - next@.len(),
    {
        next.push(false);
    }
    let row = &cands[k];
    proof {
        assert(row@ == cs[k as int]);
    }
    let mut mask: usize = 0;
    while mask < size
        invariant
            mask <= size,
            k < cands@.len(),
            cs == cands@.map_values(|v: Vec<usize>| v@),
            row@ == cs[k as int],
            m == n_right as int,
            mbits == n_right as u32,
            n_right <= 16,
            size == (1u32 << mbits) as usize,
            cur@.len() == size,
            next@.len() == size,
            layer_sound(cs, m, k as int, cur@),
            layer_complete(cs, m, k as int, cur@),
            // soundness of what was marked so far
            forall|x: int| 0 <= x < size && #[trigger] next@[x] ==> exists|y: int, p: int| #[trigger] extends_to(cur@, row@, m, size as int, y, p, x),
            // completeness for the masks processed so far
            forall|y: int, p: int| 0 <= y < mask && cur@[y] && 0 <= p < m && row@.contains(p as usize)
                && !has_bit(y as u32, p as u32) ==> #[trigger] next@[add_bit(y as u32, p as u32) as int],
        decreases size - mask,
    {
        if cur[mask] {
            let mut j: usize = 0;
            while j < row.len()
                invariant
                    j <= row@.len(),
                    mask < size,
                    cur@[mask as int],
                    k < cands@.len(),
                    cs == cands@.map_values(|v: Vec<usize>| v@),
                    row@ == cs[k as int],
                    m == n_right as int,
                    mbits == n_right as u32,
                    n_right <= 16,
                    size == (1u32 << mbits) as usize,
                    cur@.len() == size,
                    next@.len() == size,
                    forall|x: int| 0 <= x < size && #[trigger] next@[x] ==> exists|y: int, p: int| #[trigger] extends_to(cur@, row@, m, size as int, y, p, x),
                    forall|y: int, p: int| 0 <= y < mask && cur@[y] && 0 <= p < m && row@.contains(p as usize)
                        && !has_bit(y as u32, p as u32) ==> #[trigger] next@[add_bit(y as u32, p as u32) as int],
                    forall|i: int| 0 <= i < j && #[trigger] row@[i] < m
                        && !has_bit(mask as u32, row@[i] as u32) ==> next@[add_bit(mask as u32, row@[i] as u32) as int],
                decreases row@.len() - j,
            {
                let p = row[j];
                if p < n_right {
                    let pb = p as u32;
                    let mk = mask as u32;
                    proof {
                        assert(((mk >> pb) & 1u32 == 0u32) == !((mk >> pb) & 1u32 == 1u32)) by (bit_vector);
                    }
                    if (mk >> pb) & 1u32 == 0u32 {
                        proof {
                            assert(mask < size);
                            assert(mk < (1u32 << mbits));
                            lemma_add_bit_bound(mk, pb, mbits);
                            assert(row@.contains(p));
                        }
                        let t = (mk | (1u32 << pb)) as usize;
                        let ghost before = next@;
                        next.set(t, true);
                        proof {
                            assert forall|x: int| 0 <= x < size && before[x] implies #[trigger] next@[x] by {}
                            assert(next@[add_bit(mask as u32, p as u32) as int]);
                            assert forall|y: int, q: int| 0 <= y < mask && cur@[y] && 0 <= q < m && row@.contains(q as usize)
                                && !has_bit(y as u32, q as u32) implies #[trigger] next@[add_bit(y as u32, q as u32) as int] by {
                                lemma_add_bit_bound(y as u32, q as u32, mbits);
                                assert(before[add_bit(y as u32, q as u32) as int]);
                            }
                            assert forall|i: int| 0 <= i < j + 1 && #[trigger] row@[i] < m
                                && !has_bit(mask as u32, row@[i] as u32) implies next@[add_bit(mask as u32, row@[i] as u32) as int] by {
                                if i < j {
                                    lemma_add_bit_bound(mask as u32, row@[i] as u32, mbits);
                                    assert(before[add_bit(mask as u32, row@[i] as u32) as int]);
                                }
                            }
                            assert forall|x: int| 0 <= x < size && #[trigger] next@[x] implies exists|y: int, q: int|
                                #[trigger] extends_to(cur@, row@, m, size as int, y, q, x) by {
                                if x != t as int {
                                    assert(before[x]);
                                } else {
                                    assert(extends_to(cur@, row@, m, size as int, mask as int, p as int, x));
                                }
                            }
                        }
                    }
                }
                j += 1;
            }
            proof {
                assert forall|y: int, p: int| 0 <= y < mask + 1 && cur@[y] && 0 <= p < m && row@.contains(p as usize)
                    && !has_bit(y as u32, p as u32) implies #[trigger] next@[add_bit(y as u32, p as u32) as int] by {
                    if y == mask {
                        let i = choose|i: int| 0 <= i < row@.len() && row@[i] == p as usize;
                        assert(row@[i] < m);
                    }
                }
            }
        }
        mask += 1;
    }
    proof {
        assert(layer_sound(cs, m, k + 1, next@)) by {
            assert forall|x: int| 0 <= x < next@.len() && #[trigger] next@[x] implies exists|f: Seq<int>|
                f.len() == k + 1 && valid_assignment(cs, m, f)
                && forall|b: int| 0 <= b < m && #[trigger] f.contains(b) ==> has_bit(x as u32, b as u32) by {
                let (y, p) = choose|y: int, p: int| #[trigger] extends_to(cur@, row@, m, size as int, y, p, x);
                let g = choose|g: Seq<int>| g.len() == k && valid_assignment(cs, m, g)
                    && forall|b: int| 0 <= b < m && #[trigger] g.contains(b) ==> has_bit(y as u32, b as u32);
                let f = g.push(p);
                assert(!g.contains(p));
                assert forall|i: int| 0 <= i < f.len() implies 0 <= #[trigger] f[i] < m && cs[i].contains(f[i] as usize) by {
                    if i < k {
                        assert(f[i] == g[i]);
                    }
                }
                assert forall|i: int, j: int| 0 <= i < f.len() && 0 <= j < f.len() && i != j implies f[i] != f[j] by {
                    if i < k && j < k {
                        assert(f[i] == g[i] && f[j] == g[j]);
                    } else if i < k {
                        assert(f[i] == g[i]);
                    } else if j < k {
                        assert(f[j] == g[j]);
                    }
                }
                assert(valid_assignment(cs, m, f));
                assert forall|b: int| 0 <= b < m && #[trigger] f.contains(b) implies has_bit(x as u32, b as u32) by {
                    lemma_add_bit(y as u32, p as u32, b as u32);
                    let i = choose|i: int| 0 <= i < f.len() && f[i] == b;
                    if i < k {
                        assert(g[i] == b);
                        assert(g.contains(b));
                    }
                }
            }
        }
        assert(layer_complete(cs, m, k + 1, next@)) by {
            assert forall|f: Seq<int>| #![trigger valid_assignment(cs, m, f)]
                f.len() == k + 1 && valid_assignment(cs, m, f) implies next@[mask_of(f) as int] by {
                let g = f.drop_last();
                assert forall|i: int| 0 <= i < g.len() implies 0 <= #[trigger] g[i] < m && cs[i].contains(g[i] as usize) by {
                    assert(g[i] == f[i]);
                }
                assert(valid_assignment(cs, m, g));
                assert(cur@[mask_of(g) as int]);
                let p = f.last();
                assert(0 <= f[k as int] < m);
                assert forall|i: int| 0 <= i < g.len() implies 0 <= #[trigger] g[i] < 32 by {
                    assert(g[i] == f[i]);
                }
                lemma_mask_of_bits(g, p as u32);
                if g.contains(p) {
                    let i = choose|i: int| 0 <= i < g.len() && g[i] == p;
                    assert(f[i] == f[k as int]);
                }
                lemma_mask_of_bound(g, mbits);
                assert(cs[k as int].contains(p as usize));
                assert(mask_of(f) == add_bit(mask_of(g), p as u32));
                assert(extends_to(cur@, row@, m, size as int, mask_of(g) as int, p, mask_of(f) as int));
                assert(next@[add_bit(mask_of(g), p as u32) as int]);
            }
        }
    }
    next
}

} // verus!
