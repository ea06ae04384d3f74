//! The 54-character text form of a board: faces U R F D L B, nine stickers each in
//! row-major order, one letter per sticker.

use vstd::prelude::*;
use vstd::string::StrSliceExecFns;
use crate::model::{CubeState, StickerColor};
use crate::pieces::{cell, put, split, Cells};
use crate::legal::legal;
use crate::validate::{problem_texts, texts, to_cube_state, validate};
use crate::text::{dec_text, join_with, push_dec, push_str, text};

verus! {

/// Whether `c` has the Unicode White_Space property (what `char::is_whitespace`
/// reports): tab to carriage return, space, next line, no-break space, ogham space
/// mark, the spaces from en quad to hair space, line and paragraph separator, narrow
/// no-break space, medium mathematical space and ideographic space.
pub open spec fn white_space(c: char) -> bool {
    let u = c as u32;
    ||| 9 <= u <= 13
    ||| u == 32
    ||| u == 0x85
    ||| u == 0xA0
    ||| u == 0x1680
    ||| 0x2000 <= u <= 0x200A
    ||| u == 0x2028
    ||| u == 0x2029
    ||| u == 0x202F
    ||| u == 0x205F
    ||| u == 0x3000
}

/// The `Debug` rendering of a character (quoted, special characters escaped).
pub uninterp spec fn char_debug_text(c: char) -> Seq<char>;

/// Is `c` white space?
fn is_space(c: char) -> (r: bool)
    ensures
        r == white_space(c),
{
    let u = c as u32;
    (9 <= u && u <= 13) || u == 32 || u == 0x85 || u == 0xA0 || u == 0x1680 || (0x2000 <= u && u <= 0x200A)
        || u == 0x2028 || u == 0x2029 || u == 0x202F || u == 0x205F || u == 0x3000
}

/// ASCII upper case: the letters `a`..=`z` become `A`..=`Z`; every other character
/// is returned unchanged.
fn upper_ascii(c: char) -> (r: char)
    ensures
        r == upper_spec(c),
{
    let u = c as u32;
    if 97 <= u && u <= 122 {
        let b: u8 = (u - 32) as u8;
        b as char
    } else {
        c
    }
}

/// `format!("{:?}", c)`: the contract names the text ([`char_debug_text`]); of the
/// quoting and escaping rules it states only that a printable ASCII character other
/// than `'` and `\` is shown between single quotes as it is.
#[verifier::external_body]
fn char_debug(c: char) -> (r: String)
    ensures
        r@ == char_debug_text(c),
        32 <= c as u32 <= 126 && c != '\'' && c != '\\' ==> r@ == seq!['\'', c, '\''],
{
    format!("{:?}", c)
}

/// The refusal of a text whose `pos`-th kept character (counted from 1) names no
/// colour, given how that character is shown (`shown`).
pub fn bad_letter_message(pos: usize, shown: &str) -> (m: String)
    ensures
        m@ == "第 "@ + dec_text(pos as nat) + " 个字符 "@ + shown@ + " 不是合法颜色"@,
{
    let mut m = text("第 ");
    push_dec(&mut m, pos);
    push_str(&mut m, " 个字符 ");
    push_str(&mut m, shown);
    push_str(&mut m, " 不是合法颜色");
    m
}

/// ASCII upper case: `a`..=`z` become `A`..=`Z`, everything else stays.
pub open spec fn upper_spec(c: char) -> char {
    if 97 <= c as u32 && c as u32 <= 122 {
        ((c as u32) - 32) as char
    } else {
        c
    }
}

/// The colour a letter stands for: a face name (U R F D L B) or a colour name
/// (W R G Y O B), in either case.
pub open spec fn letter_color(c: char) -> Option<StickerColor> {
    let u = upper_spec(c);
    if u == 'U' || u == 'W' {
        Some(StickerColor::W)
    } else if u == 'R' {
        Some(StickerColor::R)
    } else if u == 'F' || u == 'G' {
        Some(StickerColor::G)
    } else if u == 'D' || u == 'Y' {
        Some(StickerColor::Y)
    } else if u == 'L' || u == 'O' {
        Some(StickerColor::O)
    } else if u == 'B' {
        Some(StickerColor::B)
    } else {
        None
    }
}

/// The characters of `s` that are not white space.
pub open spec fn kept_chars(s: Seq<char>) -> Seq<char> {
    s.filter(|c: char| !white_space(c))
}

/// White space is ignored when a text is read: inserting anywhere in a text a
/// character with the Unicode White_Space property (tab, line feed, vertical tab,
/// form feed, carriage return, space, next line, no-break space, ogham space mark,
/// the spaces U+2000 to U+200A, line and paragraph separators, narrow no-break
/// space, medium mathematical space, ideographic space) leaves the letters read
/// unchanged, while any other character is kept in its place.
pub proof fn lemma_white_space_ignored(a: Seq<char>, b: Seq<char>, c: char)
    ensures
        kept_chars(a + seq![c] + b) == if c == '\t' || c == '\n' || c == '\u{0B}' || c == '\u{0C}' || c == '\r'
            || c == ' ' || c == '\u{85}' || c == '\u{A0}' || c == '\u{1680}' || c == '\u{2000}' || c == '\u{2001}'
            || c == '\u{2002}' || c == '\u{2003}' || c == '\u{2004}' || c == '\u{2005}' || c == '\u{2006}'
            || c == '\u{2007}' || c == '\u{2008}' || c == '\u{2009}' || c == '\u{200A}' || c == '\u{2028}'
            || c == '\u{2029}' || c == '\u{202F}' || c == '\u{205F}' || c == '\u{3000}' {
            kept_chars(a + b)
        } else {
            kept_chars(a) + seq![c] + kept_chars(b)
        },
{
    let p = |x: char| !white_space(x);
    Seq::filter_distributes_over_add(a + seq![c], b, p);
    Seq::filter_distributes_over_add(a, seq![c], p);
    Seq::filter_distributes_over_add(a, b, p);
    reveal_with_fuel(Seq::filter, 2);
    assert(seq![c].drop_last() =~= Seq::<char>::empty());
    if !white_space(c) {
        assert(seq![c].filter(p) =~= seq![c]);
    } else {
        assert(seq![c].filter(p) =~= Seq::<char>::empty());
    }
    assert(kept_chars(a) + Seq::<char>::empty() =~= kept_chars(a));
}

/// A board whose sticker `g` is the colour of letter `k[g]` for `g < n` (the other
/// stickers are left unspecified; at `n = 54` there are none).
pub open spec fn letters_board_upto(k: Seq<char>, n: int) -> Cells
    decreases n,
{
    if n <= 0 {
        vstd::pervasive::arbitrary()
    } else {
        put(letters_board_upto(k, n - 1), n - 1, letter_color(k[n - 1]))
    }
}

/// The board a 54-letter text describes.
pub open spec fn letters_board(k: Seq<char>) -> Cells {
    letters_board_upto(k, 54)
}

/// Every one of the first `n` letters names a colour.
pub open spec fn letters_ok(k: Seq<char>, n: int) -> bool {
    forall|i: int| 0 <= i < n ==> (#[trigger] letter_color(k[i])) is Some
}

proof fn lemma_letters_board(k: Seq<char>, n: int)
    requires
        0 <= n <= 54,
    ensures
        forall|g: int| 0 <= g < n ==> #[trigger] cell(letters_board_upto(k, n), g) == letter_color(k[g]),
    decreases n,
{
    if n > 0 {
        lemma_letters_board(k, n - 1);
        crate::pieces::lemma_put_cells(letters_board_upto(k, n - 1), n - 1, letter_color(k[n - 1]));
    }
}

/// Read a board given as text (face letters `U R F D L B` or colour letters
/// `W R G Y O B`, any case; white space ignored) and accept it only when it is a
/// legal cube.
pub fn parse_facelets(s: &str) -> (res: Result<CubeState, String>)
    ensures
        kept_chars(s@).len() != 54 ==> (res matches Err(m)
            && m@ == "需要 54 个字符,收到 "@ + dec_text(kept_chars(s@).len())),
        res is Ok <==> kept_chars(s@).len() == 54 && letters_ok(kept_chars(s@), 54)
            && legal(letters_board(kept_chars(s@))),
        res matches Ok(st) ==> forall|f: int, i: int| 0 <= f < 6 && 0 <= i < 9
            ==> Some(#[trigger] st.face_spec(f)[i]) == letter_color(kept_chars(s@)[9 * f + i]),
        forall|i: int| 0 <= i < 54 && kept_chars(s@).len() == 54 && letters_ok(kept_chars(s@), i)
            && (#[trigger] letter_color(kept_chars(s@)[i])) is None
            ==> (res matches Err(m) && m@ == "第 "@ + dec_text((i + 1) as nat) + " 个字符 "@
                + char_debug_text(upper_spec(kept_chars(s@)[i])) + " 不是合法颜色"@),
        forall|i: int| 0 <= i < 54 && kept_chars(s@).len() == 54 && letters_ok(kept_chars(s@), i)
            && (#[trigger] letter_color(kept_chars(s@)[i])) is None
            && 32 <= upper_spec(kept_chars(s@)[i]) as u32 <= 126
            && upper_spec(kept_chars(s@)[i]) != '\'' && upper_spec(kept_chars(s@)[i]) != '\\'
            ==> (res matches Err(m) && m@ == "第 "@ + dec_text((i + 1) as nat) + " 个字符 "@
                + seq!['\'', upper_spec(kept_chars(s@)[i]), '\''] + " 不是合法颜色"@),
        kept_chars(s@).len() == 54 && letters_ok(kept_chars(s@), 54) && !legal(letters_board(kept_chars(s@)))
            ==> (res matches Err(m) && m@ == "状态不合法: "@ + join_with(problem_texts(letters_board(kept_chars(s@))),
                "; "@, problem_texts(letters_board(kept_chars(s@))).len() as int)),
{
    let n = s.unicode_len();
    let mut chars: Vec<char> = Vec::new();
    let mut i: usize = 0;
    while i < n
        invariant
            n == s@.len(),
            i <= n,
            chars@ == kept_chars(s@.take(i as int)),
        decreases n - i,
    {
        let ch = s.get_char(i);
        proof {
            reveal_with_fuel(Seq::filter, 1);
            assert(s@.take(i + 1).drop_last() =~= s@.take(i as int));
        }
        if !is_space(ch) {
            chars.push(ch);
        }
        i += 1;
    }
    proof {
        assert(s@.take(n as int) =~= s@);
    }
    let ghost k = kept_chars(s@);
    if chars.len() != 54 {
        let mut m = text("需要 54 个字符,收到 ");
        push_dec(&mut m, chars.len());
        return Err(m);
    }
    let mut cells: Cells = [[None; 9]; 6];
    let mut g: usize = 0;
    proof {
        assert forall|h: int| 0 <= h < 54 implies #[trigger] cell(cells, h) == None::<StickerColor> by {
            assert(0 <= h / 9 < 6 && 0 <= h % 9 < 9);
        }
    }
    while g < 54
        invariant
            g <= 54,
            chars@ == k,
            k == kept_chars(s@),
            k.len() == 54,
            letters_ok(k, g as int),
            forall|h: int| 0 <= h < 54 ==> #[trigger] cell(cells, h) == if h < g { letter_color(k[h]) } else { None },
        decreases 54 - g,
    {
        let ch = chars[g];
        let u = upper_ascii(ch);
        let c = match u {
            'U' | 'W' => StickerColor::W,
            'R' => StickerColor::R,
            'F' | 'G' => StickerColor::G,
            'D' | 'Y' => StickerColor::Y,
            'L' | 'O' => StickerColor::O,
            'B' => StickerColor::B,
            other => {
                proof {
                    assert(letter_color(k[g as int]) is None);
                    assert forall|i: int| 0 <= i < 54 && letters_ok(k, i) && (#[trigger] letter_color(k[i])) is None
                        implies i == g by {
                        if i < g {
                            assert(letters_ok(k, g as int));
                        } else if i > g {
                            assert(letter_color(k[g as int]) is Some);
                        }
                    }
                    assert(!letters_ok(k, 54));
                }
                let d = char_debug(other);
                return Err(bad_letter_message(g + 1, d.as_str()));
            },
        };
        proof {
            crate::pieces::lemma_put_cells(cells, g as int, Some(c));
        }
        crate::pieces::set(&mut cells, g, Some(c));
        g += 1;
    }
    proof {
        lemma_letters_board(k, 54);
        assert forall|h: int| 0 <= h < 54 implies #[trigger] cell(cells, h) == cell(letters_board(k), h) by {}
        crate::pieces::lemma_cells_ext(cells, letters_board(k));
    }
    match validate(&cells) {
        Err(errs) => {
            let mut m = text("状态不合法: ");
            let ghost head = "状态不合法: "@;
            let ghost parts = texts(errs@);
            proof {
                assert(m@ =~= head + join_with(parts, "; "@, 0));
            }
            let mut j: usize = 0;
            while j < errs.len()
                invariant
                    j <= errs@.len(),
                    parts == texts(errs@),
                    m@ == head + join_with(parts, "; "@, j as int),
                decreases errs.len() - j,
            {
                if j > 0 {
                    push_str(&mut m, "; ");
                }
                push_str(&mut m, errs[j].as_str());
                proof {
                    assert(parts[j as int] == errs@[j as int]@);
                    if j == 0 {
                        assert(m@ =~= head + join_with(parts, "; "@, 1));
                    } else {
                        assert(m@ =~= head + join_with(parts, "; "@, j + 1));
                    }
                }
                j += 1;
            }
            proof {
                assert(parts.len() == errs@.len());
            }
            return Err(m);
        },
        Ok(()) => {},
    }
    match to_cube_state(&cells) {
        Some(st) => {
            proof {
                assert forall|f: int, i: int| 0 <= f < 6 && 0 <= i < 9
                    implies Some(#[trigger] st.face_spec(f)[i]) == letter_color(k[9 * f + i]) by {
                    assert((9 * f + i) / 9 == f && (9 * f + i) % 9 == i);
                    assert(cell(cells, 9 * f + i) == cells[f][i]);
                }
            }
            Ok(st)
        },
        None => Err(text("内部错误:状态未能组装")),
    }
}

/// The letter of a sticker in the text form (`.` for an unknown sticker).
pub open spec fn facelet_char(v: Option<StickerColor>) -> char {
    match v {
        Some(StickerColor::W) => 'W',
        Some(StickerColor::Y) => 'Y',
        Some(StickerColor::R) => 'R',
        Some(StickerColor::O) => 'O',
        Some(StickerColor::B) => 'B',
        Some(StickerColor::G) => 'G',
        None => '.',
    }
}

fn facelet_str(v: Option<StickerColor>) -> (r: &'static str)
    ensures
        r@ == seq![facelet_char(v)],
{
    match v {
        Some(StickerColor::W) => {
            proof {
                reveal_strlit("W");
            }
            "W"
        },
        Some(StickerColor::Y) => {
            proof {
                reveal_strlit("Y");
            }
            "Y"
        },
        Some(StickerColor::R) => {
            proof {
                reveal_strlit("R");
            }
            "R"
        },
        Some(StickerColor::O) => {
            proof {
                reveal_strlit("O");
            }
            "O"
        },
        Some(StickerColor::B) => {
            proof {
                reveal_strlit("B");
            }
            "B"
        },
        Some(StickerColor::G) => {
            proof {
                reveal_strlit("G");
            }
            "G"
        },
        None => {
            proof {
                reveal_strlit(".");
            }
            "."
        },
    }
}

/// The board as text: 54 letters, faces U R F D L B, row-major, colour letters
/// (`.` for unknown) — the same form [`parse_facelets`] reads.
pub fn cells_to_facelets(cells: &Cells) -> (r: String)
    ensures
        r@ == Seq::new(54, |g: int| facelet_char(cell(*cells, g))),
{
    let mut out = text("");
    proof {
        reveal_strlit("");
    }
    let mut g: usize = 0;
    while g < 54
        invariant
            g <= 54,
            out@ == Seq::new(g as nat, |h: int| facelet_char(cell(*cells, h))),
        decreases 54 - g,
    {
        let (f, i) = split(g);
        push_str(&mut out, facelet_str(cells[f][i]));
        proof {
            assert(out@ =~= Seq::new((g + 1) as nat, |h: int| facelet_char(cell(*cells, h))));
        }
        g += 1;
    }
    out
}

} // verus!
