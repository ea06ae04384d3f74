//! Building user-facing messages: decimal numbers and concatenation.

use vstd::prelude::*;
use vstd::string::StringExecFns;
use vstd::string::StrSliceExecFns;

verus! {

/// The decimal digit `d` (0..10) as text.
pub open spec fn digit_text(d: nat) -> Seq<char> {
    if d == 0 {
        "0"@
    } else if d == 1 {
        "1"@
    } else if d == 2 {
        "2"@
    } else if d == 3 {
        "3"@
    } else if d == 4 {
        "4"@
    } else if d == 5 {
        "5"@
    } else if d == 6 {
        "6"@
    } else if d == 7 {
        "7"@
    } else if d == 8 {
        "8"@
    } else {
        "9"@
    }
}

/// The decimal representation of `n` (no sign, no leading zeros).
pub open spec fn dec_text(n: nat) -> Seq<char>
    decreases n,
{
    if n < 10 {
        digit_text(n)
    } else {
        dec_text(n / 10) + digit_text(n % 10)
    }
}

fn digit_str(d: usize) -> (r: &'static str)
    requires
        d < 10,
    ensures
        r@ == digit_text(d as nat),
{
    if d == 0 {
        "0"
    } else if d == 1 {
        "1"
    } else if d == 2 {
        "2"
    } else if d == 3 {
        "3"
    } else if d == 4 {
        "4"
    } else if d == 5 {
        "5"
    } else if d == 6 {
        "6"
    } else if d == 7 {
        "7"
    } else if d == 8 {
        "8"
    } else {
        "9"
    }
}

/// The first `k` of `parts`, with `sep` between each two.
pub open spec fn join_with(parts: Seq<Seq<char>>, sep: Seq<char>, k: int) -> Seq<char>
    decreases k,
{
    if k <= 0 {
        seq![]
    } else if k == 1 {
        parts[0]
    } else {
        join_with(parts, sep, k - 1) + sep + parts[k - 1]
    }
}

/// Append the decimal representation of `n` to `out`.
pub fn push_dec(out: &mut String, n: usize)
    ensures
        final(out)@ == old(out)@ + dec_text(n as nat),
    decreases n,
{
    if n < 10 {
        out.append(digit_str(n));
    } else {
        push_dec(out, n / 10);
        out.append(digit_str(n % 10));
        proof {
            assert(final(out)@ =~= old(out)@ + dec_text(n as nat));
        }
    }
}

/// Append `t` to `out`.
pub fn push_str(out: &mut String, t: &str)
    ensures
        final(out)@ == old(out)@ + t@,
{
    out.append(t);
}

/// A fresh string holding `t`.
pub fn text(t: &str) -> (r: String)
    ensures
        r@ == t@,
{
    String::from_str(t)
}

/// `pat` occurs in `hay` starting at `i`.
pub open spec fn occurs_at(hay: Seq<char>, pat: Seq<char>, i: int) -> bool {
    0 <= i && i + pat.len() <= hay.len() && hay.subrange(i, i + pat.len()) == pat
}

/// `pat` occurs somewhere in `hay`.
pub open spec fn contains_spec(hay: Seq<char>, pat: Seq<char>) -> bool {
    exists|i: int| #[trigger] occurs_at(hay, pat, i)
}

/// Does `pat` occur in `hay`?
pub fn contains_text(hay: &str, pat: &str) -> (r: bool)
    ensures
        r == contains_spec(hay@, pat@),
{
    let n = hay.unicode_len();
    let m = pat.unicode_len();
    if m > n {
        proof {
            assert forall|i: int| !#[trigger] occurs_at(hay@, pat@, i) by {}
        }
        return false;
    }
    let mut i: usize = 0;
    while i <= n - m
        invariant
            n == hay@.len(),
            m == pat@.len(),
            m <= n,
            i <= n - m + 1,
            forall|k: int| 0 <= k < i ==> !#[trigger] occurs_at(hay@, pat@, k),
        decreases n - i,
    {
        let mut j: usize = 0;
        let mut same = true;
        while j < m
            invariant
                n == hay@.len(),
                m == pat@.len(),
                i + m <= n,
                j <= m,
                same == forall|q: int| 0 <= q < j ==> hay@[i + q] == pat@[q],
            decreases m - j,
        {
            if hay.get_char(i + j) != pat.get_char(j) {
                same = false;
            }
            j += 1;
        }
        if same {
            proof {
                assert(hay@.subrange(i as int, i + m) =~= pat@);
                assert(occurs_at(hay@, pat@, i as int));
            }
            return true;
        }
        proof {
            if occurs_at(hay@, pat@, i as int) {
                let q = choose|q: int| 0 <= q < m && hay@[i + q] != pat@[q];
                assert(hay@.subrange(i as int, i + m)[q] == hay@[i + q]);
            }
        }
        i += 1;
    }
    proof {
        assert forall|k: int| !#[trigger] occurs_at(hay@, pat@, k) by {
            if occurs_at(hay@, pat@, k) {
                assert(k < i);
            }
        }
    }
    false
}

} // verus!
