//! Board layout: which stickers form which corner and edge, the solved colours of
//! each piece, and the basic per-sticker accessors.

use vstd::prelude::*;
use crate::model::{solved_face_color, StickerColor};

verus! {

/// Face order U R F D L B: the colour of each face's (fixed) centre.
pub const FACE_COLOR: [StickerColor; 6] = [
    StickerColor::W,
    StickerColor::R,
    StickerColor::G,
    StickerColor::Y,
    StickerColor::O,
    StickerColor::B,
];

/// Index of the centre sticker within a face.
pub const CENTER_IDX: usize = 4;

/// The three board indices of each corner position (URF UFL ULB UBR DFR DLF DBL DRB).
/// The first sticker of every corner lies on the U or D face.
pub const CORNER_FACELETS: [[usize; 3]; 8] = [
    [8, 9, 20],
    [6, 18, 38],
    [0, 36, 47],
    [2, 45, 11],
    [29, 26, 15],
    [27, 44, 24],
    [33, 53, 42],
    [35, 17, 51],
];

/// The two board indices of each edge position (UR UF UL UB DR DF DL DB FR FL BL BR).
pub const EDGE_FACELETS: [[usize; 2]; 12] = [
    [5, 10],
    [7, 19],
    [3, 37],
    [1, 46],
    [32, 16],
    [28, 25],
    [30, 43],
    [34, 52],
    [23, 12],
    [21, 41],
    [50, 39],
    [48, 14],
];

/// The colours in their canonical index order (see [`color_idx`]).
pub const COLOR_ORDER: [StickerColor; 6] = [
    StickerColor::W,
    StickerColor::Y,
    StickerColor::R,
    StickerColor::O,
    StickerColor::B,
    StickerColor::G,
];

/// An editor board: `None` marks a sticker that is not known yet.
pub type Cells = [[Option<StickerColor>; 9]; 6];

/// The derived-marks companion of a board (`true` = filled in by deduction).
pub type Marks = [[bool; 9]; 6];

// ───────────────────────── specification layer ─────────────────────────

/// Sticker `g` (0..54) of a board.
pub open spec fn cell(cells: Cells, g: int) -> Option<StickerColor> {
    cells[g / 9][g % 9]
}

/// The board `cells` with sticker `g` replaced by `v`.
pub open spec fn put(cells: Cells, g: int, v: Option<StickerColor>) -> Cells {
    vstd::array::spec_array_update(cells, g / 9, vstd::array::spec_array_update(cells[g / 9], g % 9, v))
}

/// Two boards with the same stickers are the same board.
pub proof fn lemma_cells_ext(a: Cells, b: Cells)
    requires
        forall|g: int| 0 <= g < 54 ==> #[trigger] cell(a, g) == cell(b, g),
    ensures
        a == b,
{
    broadcast use vstd::array::group_array_axioms;
    assert forall|f: int| 0 <= f < 6 implies #[trigger] a[f] == b[f] by {
        assert forall|i: int| 0 <= i < 9 implies #[trigger] a[f][i] == b[f][i] by {
            assert(cell(a, f * 9 + i) == cell(b, f * 9 + i));
        }
        assert(a[f] =~= b[f]);
    }
    assert(a =~= b);
}

/// Reading a board after replacing one sticker.
pub proof fn lemma_put_cell(cells: Cells, g: int, v: Option<StickerColor>, h: int)
    requires
        0 <= g < 54,
        0 <= h < 54,
    ensures
        cell(put(cells, g, v), h) == if h == g { v } else { cell(cells, h) },
{
    broadcast use vstd::array::group_array_axioms;
}

/// Reading a board after replacing one sticker, for every index at once.
pub proof fn lemma_put_cells(cells: Cells, g: int, v: Option<StickerColor>)
    requires
        0 <= g < 54,
    ensures
        forall|h: int| 0 <= h < 54 ==> #[trigger] cell(put(cells, g, v), h) == if h == g { v } else { cell(cells, h) },
{
    assert forall|h: int| 0 <= h < 54 implies #[trigger] cell(put(cells, g, v), h) == if h == g { v } else { cell(cells, h) } by {
        lemma_put_cell(cells, g, v, h);
    }
}

/// Mark `g` (0..54) of a marks board.
pub open spec fn mark(marks: Marks, g: int) -> bool {
    marks[g / 9][g % 9]
}

/// Index of a colour in [`COLOR_ORDER`].
pub open spec fn color_index(c: StickerColor) -> int {
    match c {
        StickerColor::W => 0,
        StickerColor::Y => 1,
        StickerColor::R => 2,
        StickerColor::O => 3,
        StickerColor::B => 4,
        StickerColor::G => 5,
    }
}

/// The colour opposite to `c` on a solved cube.
pub open spec fn opposite_color(c: StickerColor) -> StickerColor {
    match c {
        StickerColor::W => StickerColor::Y,
        StickerColor::Y => StickerColor::W,
        StickerColor::R => StickerColor::O,
        StickerColor::O => StickerColor::R,
        StickerColor::B => StickerColor::G,
        StickerColor::G => StickerColor::B,
    }
}

/// Board index of slot `s` of corner position `ci`.
pub open spec fn cslot(ci: int, s: int) -> int {
    CORNER_FACELETS[ci][s] as int
}

/// Board index of slot `s` of edge position `ei`.
pub open spec fn eslot(ei: int, s: int) -> int {
    EDGE_FACELETS[ei][s] as int
}

/// Colour in slot `s` of corner piece `k` when it sits solved.
pub open spec fn corner_color(k: int, s: int) -> StickerColor {
    solved_face_color(cslot(k, s) / 9)
}

/// Colour in slot `s` of edge piece `k` when it sits solved.
pub open spec fn edge_color(k: int, s: int) -> StickerColor {
    solved_face_color(eslot(k, s) / 9)
}

/// Slot `s` of corner position `ci` is unknown or agrees with piece `k` turned by `r`.
pub open spec fn corner_slot_fits(cells: Cells, ci: int, k: int, r: int, s: int) -> bool {
    match cell(cells, cslot(ci, s)) {
        Some(c) => c == corner_color(k, (s + r) % 3),
        None => true,
    }
}

/// Every known sticker of corner position `ci` agrees with piece `k` turned by `r`
/// (slot `s` shows the piece's colour `(s + r) % 3`).
pub open spec fn corner_fits(cells: Cells, ci: int, k: int, r: int) -> bool {
    &&& corner_slot_fits(cells, ci, k, r, 0)
    &&& corner_slot_fits(cells, ci, k, r, 1)
    &&& corner_slot_fits(cells, ci, k, r, 2)
}

/// Piece `k` can sit at corner position `ci` in some orientation.
pub open spec fn corner_match(cells: Cells, ci: int, k: int) -> bool {
    corner_fits(cells, ci, k, 0) || corner_fits(cells, ci, k, 1) || corner_fits(cells, ci, k, 2)
}

/// Slot `s` of edge position `ei` is unknown or agrees with piece `k` flipped by `r`.
pub open spec fn edge_slot_fits(cells: Cells, ei: int, k: int, r: int, s: int) -> bool {
    match cell(cells, eslot(ei, s)) {
        Some(c) => c == edge_color(k, (s + r) % 2),
        None => true,
    }
}

/// Every known sticker of edge position `ei` agrees with piece `k` flipped by `r`.
pub open spec fn edge_fits(cells: Cells, ei: int, k: int, r: int) -> bool {
    &&& edge_slot_fits(cells, ei, k, r, 0)
    &&& edge_slot_fits(cells, ei, k, r, 1)
}

/// Piece `k` can sit at edge position `ei` in some orientation.
pub open spec fn edge_match(cells: Cells, ei: int, k: int) -> bool {
    edge_fits(cells, ei, k, 0) || edge_fits(cells, ei, k, 1)
}

/// All stickers of corner position `ci` are known.
pub open spec fn corner_full(cells: Cells, ci: int) -> bool {
    &&& cell(cells, cslot(ci, 0)) is Some
    &&& cell(cells, cslot(ci, 1)) is Some
    &&& cell(cells, cslot(ci, 2)) is Some
}

/// Some sticker of corner position `ci` is known.
pub open spec fn corner_known(cells: Cells, ci: int) -> bool {
    ||| cell(cells, cslot(ci, 0)) is Some
    ||| cell(cells, cslot(ci, 1)) is Some
    ||| cell(cells, cslot(ci, 2)) is Some
}

/// Both stickers of edge position `ei` are known.
pub open spec fn edge_full(cells: Cells, ei: int) -> bool {
    &&& cell(cells, eslot(ei, 0)) is Some
    &&& cell(cells, eslot(ei, 1)) is Some
}

/// Some sticker of edge position `ei` is known.
pub open spec fn edge_known(cells: Cells, ei: int) -> bool {
    cell(cells, eslot(ei, 0)) is Some || cell(cells, eslot(ei, 1)) is Some
}

/// Number of stickers of colour `c` among board indices `0..n`.
pub open spec fn count_upto(cells: Cells, c: StickerColor, n: int) -> nat
    decreases n,
{
    if n <= 0 {
        0
    } else {
        count_upto(cells, c, n - 1) + if cell(cells, n - 1) == Some(c) { 1nat } else { 0nat }
    }
}

/// Number of stickers of colour `c` on the board.
pub open spec fn count_of(cells: Cells, c: StickerColor) -> nat {
    count_upto(cells, c, 54)
}

/// Number of unknown stickers among board indices `0..n`.
pub open spec fn empty_upto(cells: Cells, n: int) -> nat
    decreases n,
{
    if n <= 0 {
        0
    } else {
        empty_upto(cells, n - 1) + if cell(cells, n - 1) is None { 1nat } else { 0nat }
    }
}

/// Number of unknown stickers on the board.
pub open spec fn empty_total(cells: Cells) -> nat {
    empty_upto(cells, 54)
}

/// The board index of a centre sticker.
pub open spec fn is_center_spec(g: int) -> bool {
    g % 9 == 4
}

/// Board index `g` is a slot of some corner position.
pub open spec fn in_corner(g: int) -> bool {
    exists|i: int, s: int| 0 <= i < 8 && 0 <= s < 3 && cslot(i, s) == g
}

/// Board index `g` is a slot of some edge position.
pub open spec fn in_edge(g: int) -> bool {
    exists|i: int, s: int| 0 <= i < 12 && 0 <= s < 2 && eslot(i, s) == g
}

/// Every sticker but a centre belongs to a corner or an edge position, and no centre
/// does; so [`piece_of`] finds a slot exactly for the stickers that are no centre.
pub proof fn lemma_every_sticker_has_a_slot(g: int)
    requires
        0 <= g < 54,
    ensures
        (in_corner(g) || in_edge(g)) <==> g % 9 != 4,
{
    if g == 0 {
        assert(cslot(2, 0) == 0);
    } else if g == 1 {
        assert(eslot(3, 0) == 1);
    } else if g == 2 {
        assert(cslot(3, 0) == 2);
    } else if g == 3 {
        assert(eslot(2, 0) == 3);
    } else if g == 5 {
        assert(eslot(0, 0) == 5);
    } else if g == 6 {
        assert(cslot(1, 0) == 6);
    } else if g == 7 {
        assert(eslot(1, 0) == 7);
    } else if g == 8 {
        assert(cslot(0, 0) == 8);
    } else if g == 9 {
        assert(cslot(0, 1) == 9);
    } else if g == 10 {
        assert(eslot(0, 1) == 10);
    } else if g == 11 {
        assert(cslot(3, 2) == 11);
    } else if g == 12 {
        assert(eslot(8, 1) == 12);
    } else if g == 14 {
        assert(eslot(11, 1) == 14);
    } else if g == 15 {
        assert(cslot(4, 2) == 15);
    } else if g == 16 {
        assert(eslot(4, 1) == 16);
    } else if g == 17 {
        assert(cslot(7, 1) == 17);
    } else if g == 18 {
        assert(cslot(1, 1) == 18);
    } else if g == 19 {
        assert(eslot(1, 1) == 19);
    } else if g == 20 {
        assert(cslot(0, 2) == 20);
    } else if g == 21 {
        assert(eslot(9, 0) == 21);
    } else if g == 23 {
        assert(eslot(8, 0) == 23);
    } else if g == 24 {
        assert(cslot(5, 2) == 24);
    } else if g == 25 {
        assert(eslot(5, 1) == 25);
    } else if g == 26 {
        assert(cslot(4, 1) == 26);
    } else if g == 27 {
        assert(cslot(5, 0) == 27);
    } else if g == 28 {
        assert(eslot(5, 0) == 28);
    } else if g == 29 {
        assert(cslot(4, 0) == 29);
    } else if g == 30 {
        assert(eslot(6, 0) == 30);
    } else if g == 32 {
        assert(eslot(4, 0) == 32);
    } else if g == 33 {
        assert(cslot(6, 0) == 33);
    } else if g == 34 {
        assert(eslot(7, 0) == 34);
    } else if g == 35 {
        assert(cslot(7, 0) == 35);
    } else if g == 36 {
        assert(cslot(2, 1) == 36);
    } else if g == 37 {
        assert(eslot(2, 1) == 37);
    } else if g == 38 {
        assert(cslot(1, 2) == 38);
    } else if g == 39 {
        assert(eslot(10, 1) == 39);
    } else if g == 41 {
        assert(eslot(9, 1) == 41);
    } else if g == 42 {
        assert(cslot(6, 2) == 42);
    } else if g == 43 {
        assert(eslot(6, 1) == 43);
    } else if g == 44 {
        assert(cslot(5, 1) == 44);
    } else if g == 45 {
        assert(cslot(3, 1) == 45);
    } else if g == 46 {
        assert(eslot(3, 1) == 46);
    } else if g == 47 {
        assert(cslot(2, 2) == 47);
    } else if g == 48 {
        assert(eslot(11, 0) == 48);
    } else if g == 50 {
        assert(eslot(10, 0) == 50);
    } else if g == 51 {
        assert(cslot(7, 2) == 51);
    } else if g == 52 {
        assert(eslot(7, 1) == 52);
    } else if g == 53 {
        assert(cslot(6, 1) == 53);
    }
    assert forall|i: int, s: int| 0 <= i < 8 && 0 <= s < 3 implies #[trigger] cslot(i, s) % 9 != 4 by {}
    assert forall|i: int, s: int| 0 <= i < 12 && 0 <= s < 2 implies #[trigger] eslot(i, s) % 9 != 4 by {}
}

/// Opposite colours pair up (white and yellow, red and orange, blue and green), and no
/// piece of the solved cube shows a colour together with its opposite.
pub proof fn lemma_opposites(x: StickerColor)
    ensures
        opposite_color(opposite_color(x)) == x,
        opposite_color(x) != x,
        forall|k: int, s: int, t: int| 0 <= k < 8 && 0 <= s < 3 && 0 <= t < 3
            ==> #[trigger] corner_color(k, s) != opposite_color(#[trigger] corner_color(k, t)),
        forall|k: int, s: int, t: int| 0 <= k < 12 && 0 <= s < 2 && 0 <= t < 2
            ==> #[trigger] edge_color(k, s) != opposite_color(#[trigger] edge_color(k, t)),
{
}

/// Which kind of piece a sticker belongs to.
#[derive(PartialEq, Eq, Structural, Clone, Copy, Debug)]
pub enum PieceKind {
    Corner,
    Edge,
}

// ───────────────────────── executable layer ─────────────────────────

/// Board index → (face, index within the face).
pub fn split(g: usize) -> (r: (usize, usize))
    ensures
        r.0 == g / 9,
        r.1 == g % 9,
{
    (g / 9, g % 9)
}

/// The opposite colour: white↔yellow, red↔orange, blue↔green.
pub fn opposite(c: StickerColor) -> (r: StickerColor)
    ensures
        r == opposite_color(c),
{
    match c {
        StickerColor::W => StickerColor::Y,
        StickerColor::Y => StickerColor::W,
        StickerColor::R => StickerColor::O,
        StickerColor::O => StickerColor::R,
        StickerColor::B => StickerColor::G,
        StickerColor::G => StickerColor::B,
    }
}

/// The Chinese name of a colour, as shown to the user.
pub open spec fn color_cn_text(c: StickerColor) -> Seq<char> {
    match c {
        StickerColor::W => "白"@,
        StickerColor::Y => "黄"@,
        StickerColor::R => "红"@,
        StickerColor::O => "橙"@,
        StickerColor::B => "蓝"@,
        StickerColor::G => "绿"@,
    }
}

/// The one-letter name of a colour.
pub open spec fn name_text(c: StickerColor) -> Seq<char> {
    match c {
        StickerColor::W => "W"@,
        StickerColor::Y => "Y"@,
        StickerColor::R => "R"@,
        StickerColor::O => "O"@,
        StickerColor::B => "B"@,
        StickerColor::G => "G"@,
    }
}

/// Chinese colour name (for user-facing messages).
pub fn color_cn(c: StickerColor) -> (r: &'static str)
    ensures
        r@ == color_cn_text(c),
{
    match c {
        StickerColor::W => "白",
        StickerColor::Y => "黄",
        StickerColor::R => "红",
        StickerColor::O => "橙",
        StickerColor::B => "蓝",
        StickerColor::G => "绿",
    }
}

/// One-letter colour name (for compact output).
pub fn name(c: StickerColor) -> (r: &'static str)
    ensures
        r@ == name_text(c),
{
    match c {
        StickerColor::W => "W",
        StickerColor::Y => "Y",
        StickerColor::R => "R",
        StickerColor::O => "O",
        StickerColor::B => "B",
        StickerColor::G => "G",
    }
}

/// Index of a colour in [`COLOR_ORDER`].
pub fn color_idx(c: StickerColor) -> (r: usize)
    ensures
        r == color_index(c),
        r < 6,
        COLOR_ORDER[r as int] == c,
{
    match c {
        StickerColor::W => 0,
        StickerColor::Y => 1,
        StickerColor::R => 2,
        StickerColor::O => 3,
        StickerColor::B => 4,
        StickerColor::G => 5,
    }
}

/// The colours of corner piece `i` in its solved position, slot by slot.
pub fn solved_corner_piece(i: usize) -> (r: [StickerColor; 3])
    requires
        i < 8,
    ensures
        r[0] == corner_color(i as int, 0),
        r[1] == corner_color(i as int, 1),
        r[2] == corner_color(i as int, 2),
{
    let f = CORNER_FACELETS[i];
    [FACE_COLOR[f[0] / 9], FACE_COLOR[f[1] / 9], FACE_COLOR[f[2] / 9]]
}

/// The colours of edge piece `i` in its solved position, slot by slot.
pub fn solved_edge_piece(i: usize) -> (r: [StickerColor; 2])
    requires
        i < 12,
    ensures
        r[0] == edge_color(i as int, 0),
        r[1] == edge_color(i as int, 1),
{
    let f = EDGE_FACELETS[i];
    [FACE_COLOR[f[0] / 9], FACE_COLOR[f[1] / 9]]
}

/// Read sticker `g`.
pub fn get(cells: &Cells, g: usize) -> (r: Option<StickerColor>)
    requires
        g < 54,
    ensures
        r == cell(*cells, g as int),
{
    let (f, i) = split(g);
    cells[f][i]
}

/// Write sticker `g`; every other sticker is unchanged.
pub fn set(cells: &mut Cells, g: usize, c: Option<StickerColor>)
    requires
        g < 54,
    ensures
        cell(*final(cells), g as int) == c,
        forall|h: int| 0 <= h < 54 && h != g ==> cell(*final(cells), h) == cell(*old(cells), h),
        *final(cells) == put(*old(cells), g as int, c),
{
    let (f, i) = split(g);
    cells[f][i] = c;
    proof {
        lemma_put_cells(*old(cells), g as int, c);
        lemma_cells_ext(*cells, put(*old(cells), g as int, c));
    }
}

/// Sticker `g` is a face centre (centres cannot be edited).
pub fn is_center(g: usize) -> (r: bool)
    ensures
        r == is_center_spec(g as int),
{
    g % 9 == CENTER_IDX
}


proof fn lemma_count_upto_bound(cells: Cells, c: StickerColor, n: int)
    requires
        0 <= n,
    ensures
        count_upto(cells, c, n) <= n,
    decreases n,
{
    if n > 0 {
        lemma_count_upto_bound(cells, c, n - 1);
    }
}

proof fn lemma_empty_upto_bound(cells: Cells, n: int)
    requires
        0 <= n,
    ensures
        empty_upto(cells, n) <= n,
    decreases n,
{
    if n > 0 {
        lemma_empty_upto_bound(cells, n - 1);
    }
}

/// A board has at most 54 unknown stickers.
pub proof fn lemma_empty_total_bound(cells: Cells)
    ensures
        empty_total(cells) <= 54,
{
    lemma_empty_upto_bound(cells, 54);
}

/// A board with an unknown sticker has at least one gap.
pub proof fn lemma_empty_total_positive(cells: Cells, g: int)
    requires
        0 <= g < 54,
        cell(cells, g) is None,
    ensures
        empty_total(cells) > 0,
{
    lemma_empty_upto_positive(cells, g, 54);
}

proof fn lemma_empty_upto_positive(cells: Cells, g: int, n: int)
    requires
        0 <= g < n <= 54,
        cell(cells, g) is None,
    ensures
        empty_upto(cells, n) > 0,
    decreases n,
{
    if n - 1 > g {
        lemma_empty_upto_positive(cells, g, n - 1);
    }
}

/// How many stickers of each colour (indexed as in [`COLOR_ORDER`]) the board holds.
pub fn counts(cells: &Cells) -> (n: [u8; 6])
    ensures
        forall|c: StickerColor| #[trigger] n[color_index(c)] == count_of(*cells, c),
{
    let mut n = [0u8; 6];
    let mut g: usize = 0;
    while g < 54
        invariant
            g <= 54,
            forall|c: StickerColor| #[trigger] n[color_index(c)] == count_upto(*cells, c, g as int),
        decreases 54 - g,
    {
        if let Some(c) = get(cells, g) {
            let k = color_idx(c);
            proof {
                lemma_count_upto_bound(*cells, c, g as int);
            }
            n[k] = n[k] + 1;
        }
        g += 1;
    }
    n
}

/// Number of unknown stickers.
pub fn empty_count(cells: &Cells) -> (r: usize)
    ensures
        r == empty_total(*cells),
{
    let mut r: usize = 0;
    let mut g: usize = 0;
    while g < 54
        invariant
            g <= 54,
            r == empty_upto(*cells, g as int),
        decreases 54 - g,
    {
        proof {
            lemma_empty_upto_bound(*cells, g as int);
        }
        if get(cells, g).is_none() {
            r += 1;
        }
        g += 1;
    }
    r
}

/// Which colours already appear nine (or more) times.
pub fn full_colors(cells: &Cells) -> (out: [bool; 6])
    ensures
        forall|c: StickerColor| #[trigger] out[color_index(c)] == (count_of(*cells, c) >= 9),
{
    let n = counts(cells);
    let mut out = [false; 6];
    let mut i: usize = 0;
    while i < 6
        invariant
            i <= 6,
            forall|c: StickerColor| #[trigger] n[color_index(c)] == count_of(*cells, c),
            forall|j: int| 0 <= j < i ==> out[j] == (n[j] >= 9),
        decreases 6 - i,
    {
        out[i] = n[i] >= 9;
        i += 1;
    }
    assert forall|c: StickerColor| #[trigger] out[color_index(c)] == (count_of(*cells, c) >= 9) by {
        assert(n[color_index(c)] == count_of(*cells, c));
    }
    out
}

/// The colours (in [`COLOR_ORDER`]) that still have room for another sticker.
pub fn available_colors(cells: &Cells) -> (r: Vec<StickerColor>)
    ensures
        r@ == COLOR_ORDER@.filter(|c: StickerColor| count_of(*cells, c) < 9),
{
    let full = full_colors(cells);
    let mut r: Vec<StickerColor> = Vec::new();
    let mut i: usize = 0;
    while i < 6
        invariant
            i <= 6,
            forall|c: StickerColor| #[trigger] full[color_index(c)] == (count_of(*cells, c) >= 9),
            r@ == COLOR_ORDER@.take(i as int).filter(|c: StickerColor| count_of(*cells, c) < 9),
        decreases 6 - i,
    {
        let c = COLOR_ORDER[i];
        proof {
            reveal_with_fuel(Seq::filter, 1);
            assert(COLOR_ORDER@.take(i + 1).drop_last() =~= COLOR_ORDER@.take(i as int));
            assert(full[color_index(c)] == (count_of(*cells, c) >= 9));
        }
        if !full[color_idx(c)] {
            r.push(c);
        }
        i += 1;
    }
    assert(COLOR_ORDER@.take(6) =~= COLOR_ORDER@);
    r
}

/// The piece a sticker belongs to: `(kind, position, slot)`, or `None` for a centre.
pub fn piece_of(g: usize) -> (r: Option<(PieceKind, usize, usize)>)
    ensures
        match r {
            Some((PieceKind::Corner, i, s)) => i < 8 && s < 3 && cslot(i as int, s as int) == g,
            Some((PieceKind::Edge, i, s)) => i < 12 && s < 2 && eslot(i as int, s as int) == g
                && !in_corner(g as int),
            None => !in_corner(g as int) && !in_edge(g as int),
        },
{
    let mut i: usize = 0;
    while i < 8
        invariant
            i <= 8,
            forall|a: int, s: int| 0 <= a < i && 0 <= s < 3 ==> cslot(a, s) != g,
        decreases 8 - i,
    {
        let mut s: usize = 0;
        while s < 3
            invariant
                i < 8,
                s <= 3,
                forall|t: int| 0 <= t < s ==> cslot(i as int, t) != g,
            decreases 3 - s,
        {
            if CORNER_FACELETS[i][s] == g {
                return Some((PieceKind::Corner, i, s));
            }
            s += 1;
        }
        i += 1;
    }
    let mut i: usize = 0;
    while i < 12
        invariant
            i <= 12,
            !in_corner(g as int),
            forall|a: int, s: int| 0 <= a < i && 0 <= s < 2 ==> eslot(a, s) != g,
        decreases 12 - i,
    {
        let mut s: usize = 0;
        while s < 2
            invariant
                i < 12,
                s <= 2,
                forall|t: int| 0 <= t < s ==> eslot(i as int, t) != g,
            decreases 2 - s,
        {
            if EDGE_FACELETS[i][s] == g {
                return Some((PieceKind::Edge, i, s));
            }
            s += 1;
        }
        i += 1;
    }
    None
}

} // verus!
