//! Text helpers for provider URLs: decimal rendering of integers and
//! replacement of the first occurrence of a token.

use vstd::prelude::*;

verus! {

/// The decimal digit characters, indexed by digit value.
pub open spec fn digit_chars() -> Seq<char> {
    "0123456789"@
}

/// Decimal digits of `n`, most significant first, without leading zeros
/// (`"0"` for zero).
pub open spec fn digits(n: nat) -> Seq<char>
    decreases n,
{
    if n < 10 {
        seq![digit_chars()[n as int]]
    } else {
        digits(n / 10) + seq![digit_chars()[(n % 10) as int]]
    }
}

/// Decimal rendering of `v`, with a leading `-` when negative.
pub open spec fn decimal(v: int) -> Seq<char> {
    if v < 0 {
        seq!['-'] + digits((-v) as nat)
    } else {
        digits(v as nat)
    }
}

/// Index of the first occurrence of `pat` in `s` at or after `from`, or
/// `-1` when there is none.
pub open spec fn first_match(s: Seq<char>, pat: Seq<char>, from: int) -> int
    decreases s.len() + 1 - from,
{
    if from < 0 || from + pat.len() > s.len() {
        -1
    } else if s.subrange(from, from + pat.len()) == pat {
        from
    } else {
        first_match(s, pat, from + 1)
    }
}

/// `s` with its first occurrence of `pat` replaced by `with` (unchanged
/// when `pat` does not occur).
pub open spec fn replace_first(s: Seq<char>, pat: Seq<char>, with: Seq<char>) -> Seq<char> {
    let i = first_match(s, pat, 0);
    if i < 0 {
        s
    } else {
        s.subrange(0, i) + with + s.subrange(i + pat.len(), s.len() as int)
    }
}

fn push_digits(out: &mut String, n: u32)
    ensures
        final(out)@ == old(out)@ + digits(n as nat),
    decreases n,
{
    let table = "0123456789";
    proof {
        reveal_strlit("0123456789");
    }
    if n >= 10 {
        push_digits(out, n / 10);
    }
    let d = (n % 10) as usize;
    let ghost before = out@;
    out.append(table.substring_char(d, d + 1));
    proof {
        assert(table@.subrange(d as int, d + 1) =~= seq![digit_chars()[d as int]]);
        if n >= 10 {
            assert(out@ =~= old(out)@ + digits(n as nat));
        } else {
            assert(out@ =~= old(out)@ + digits(n as nat));
        }
    }
}

/// Decimal rendering of an unsigned value.
pub fn u32_to_decimal(n: u32) -> (s: String)
    ensures
        s@ == decimal(n as int),
{
    let mut s = String::new();
    push_digits(&mut s, n);
    proof {
        assert(s@ =~= decimal(n as int));
    }
    s
}

/// Decimal rendering of a signed value.
pub fn i32_to_decimal(v: i32) -> (s: String)
    ensures
        s@ == decimal(v as int),
{
    let mut s = String::new();
    if v < 0 {
        s.append("-");
        proof {
            reveal_strlit("-");
        }
        let magnitude = (0i64 - v as i64) as u32;
        push_digits(&mut s, magnitude);
        proof {
            assert(s@ =~= decimal(v as int));
        }
    } else {
        push_digits(&mut s, v as u32);
        proof {
            assert(s@ =~= decimal(v as int));
        }
    }
    s
}

/// Position of the first occurrence of `pat` in `s`.
fn find_first(s: &str, pat: &str) -> (r: Option<usize>)
    ensures
        match r {
            Some(i) => i == first_match(s@, pat@, 0),
            None => first_match(s@, pat@, 0) == -1,
        },
{
    let n = s.unicode_len();
    let m = pat.unicode_len();
    if m > n {
        proof {
            assert(first_match(s@, pat@, 0) == -1);
        }
        return None;
    }
    let mut i: usize = 0;
    while i <= n - m
        invariant
            n == s@.len(),
            m == pat@.len(),
            m <= n,
            i <= n - m + 1,
            first_match(s@, pat@, 0) == first_match(s@, pat@, i as int),
        decreases n - m + 1 - i,
    {
        let mut j: usize = 0;
        let mut same = true;
        while j < m
            invariant
                n == s@.len(),
                m == pat@.len(),
                i + m <= n,
                j <= m,
                same == (forall|q: int| 0 <= q < j ==> s@[i + q] == pat@[q]),
            decreases m - j,
        {
            if same && s.get_char(i + j) != pat.get_char(j) {
                same = false;
            }
            proof {
                if same {
                    assert forall|q: int| 0 <= q < j + 1 implies s@[i + q] == pat@[q] by {}
                }
            }
            j = j + 1;
        }
        if same {
            proof {
                assert(s@.subrange(i as int, i + m) =~= pat@);
            }
            return Some(i);
        }
        proof {
            assert(s@.subrange(i as int, i + m) != pat@) by {
                let q = choose|q: int| 0 <= q < m && s@[i + q] != pat@[q];
                assert(s@.subrange(i as int, i + m)[q] == s@[i + q]);
            }
        }
        i = i + 1;
    }
    proof {
        assert(first_match(s@, pat@, i as int) == -1);
    }
    None
}

/// `s` with the first occurrence of `pat` replaced by `with`, as
/// `str::replacen(pat, with, 1)` does.
pub fn replace_first_of(s: &str, pat: &str, with: &str) -> (r: String)
    ensures
        r@ == replace_first(s@, pat@, with@),
{
    match find_first(s, pat) {
        None => String::from_str(s),
        Some(i) => {
            proof {
                lemma_first_match_bounds(s@, pat@, 0);
            }
            let n = s.unicode_len();
            let m = pat.unicode_len();
            let mut r = String::from_str(s.substring_char(0, i));
            r.append(with);
            r.append(s.substring_char(i + m, n));
            r
        },
    }
}

proof fn lemma_first_match_bounds(s: Seq<char>, pat: Seq<char>, from: int)
    ensures
        first_match(s, pat, from) == -1 || (from <= first_match(s, pat, from) && first_match(s, pat, from)
            + pat.len() <= s.len()),
    decreases s.len() + 1 - from,
{
    if !(from < 0 || from + pat.len() > s.len()) && s.subrange(from, from + pat.len()) != pat {
        lemma_first_match_bounds(s, pat, from + 1);
    }
}

} // verus!
