//! Verified helpers on character strings: equality with literals, decimal
//! parsing of `"start:length"` span encodings, and ASCII fragments as bytes.

use vstd::prelude::*;
use vstd::string::StrSliceExecFns;

verus! {

/// Exact equality of two string slices, by character.
pub fn str_eq(a: &str, b: &str) -> (r: bool)
    ensures
        r == (a@ == b@),
{
    let la = a.unicode_len();
    let lb = b.unicode_len();
    if la != lb {
        assert(a@ != b@) by {
            assert(a@.len() != b@.len());
        }
        return false;
    }
    let mut i: usize = 0;
    while i < la
        invariant
            0 <= i <= a@.len(),
            la == a@.len(),
            a@.len() == b@.len(),
            forall|k: int| 0 <= k < i ==> a@[k] == b@[k],
        decreases a@.len() - i,
    {
        if a.get_char(i) != b.get_char(i) {
            return false;
        }
        i += 1;
    }
    assert(a@ =~= b@);
    true
}

/// The bytes of an ASCII character string.
pub open spec fn ascii_seq(s: Seq<char>) -> Seq<u8> {
    Seq::new(s.len(), |i: int| s[i] as u8)
}

/// The bytes of an ASCII string slice.
pub fn ascii_bytes(s: &str) -> (r: Vec<u8>)
    requires
        s.is_ascii(),
    ensures
        r@ == ascii_seq(s@),
{
    broadcast use vstd::string::is_ascii_spec_bytes;

    let r = s.as_bytes_vec();
    assert(r@ =~= ascii_seq(s@));
    r
}

/// An ASCII decimal digit character.
pub open spec fn is_digit_char(c: char) -> bool {
    '0' <= c <= '9'
}

/// Every character of `s` is a decimal digit, and there is at least one.
pub open spec fn all_digit_chars(s: Seq<char>) -> bool {
    s.len() > 0 && forall|i: int| 0 <= i < s.len() ==> is_digit_char(#[trigger] s[i])
}

/// Numeric value of a digit string, most significant digit first.
pub open spec fn char_dec_value(s: Seq<char>) -> nat
    decreases s.len(),
{
    if s.len() == 0 {
        0
    } else {
        char_dec_value(s.drop_last()) * 10 + (s.last() as nat - 48) as nat
    }
}

/// Index of the first occurrence of `c` in `s`, or `s.len()` when absent.
pub open spec fn first_char(s: Seq<char>, c: char) -> int
    decreases s.len(),
{
    if s.len() == 0 {
        0
    } else if s[0] == c {
        0
    } else {
        1 + first_char(s.drop_first(), c)
    }
}

pub broadcast proof fn lemma_first_char_bounds(s: Seq<char>, c: char)
    ensures
        0 <= #[trigger] first_char(s, c) <= s.len(),
        first_char(s, c) < s.len() ==> s[first_char(s, c)] == c,
        forall|k: int| 0 <= k < first_char(s, c) ==> s[k] != c,
    decreases s.len(),
{
    if s.len() > 0 && s[0] != c {
        lemma_first_char_bounds(s.drop_first(), c);
        assert forall|k: int| 0 <= k < first_char(s, c) implies s[k] != c by {
            if k > 0 {
                assert(s.drop_first()[k - 1] == s[k]);
            }
        }
    }
}

proof fn lemma_first_char_at(s: Seq<char>, c: char, m: int)
    requires
        0 <= m <= s.len(),
        forall|k: int| 0 <= k < m ==> s[k] != c,
        m < s.len() ==> s[m] == c,
    ensures
        first_char(s, c) == m,
    decreases m,
{
    if s.len() == 0 {
    } else if s[0] == c {
        assert(m == 0);
    } else {
        assert(m >= 1);
        lemma_first_char_at(s.drop_first(), c, m - 1);
    }
}

/// Position of the first `c` in `s`, or the length when there is none.
pub fn find_char(s: &str, c: char) -> (r: usize)
    ensures
        r == first_char(s@, c),
{
    let n = s.unicode_len();
    let mut i: usize = 0;
    while i < n
        invariant
            0 <= i <= s@.len(),
            n == s@.len(),
            forall|k: int| 0 <= k < i ==> s@[k] != c,
        decreases s@.len() - i,
    {
        if s.get_char(i) == c {
            proof {
                lemma_first_char_at(s@, c, i as int);
            }
            return i;
        }
        i += 1;
    }
    proof {
        lemma_first_char_at(s@, c, n as int);
    }
    n
}

/// Parse the character range `[from, to)` of `s` as a decimal `usize`.
/// `None` when the range is empty, holds a non-digit, or encodes a value
/// above `usize::MAX`.
pub fn parse_usize_chars(s: &str, from: usize, to: usize) -> (r: Option<usize>)
    requires
        from <= to <= s@.len(),
    ensures
        r matches Some(v) ==> all_digit_chars(s@.subrange(from as int, to as int)) && v
            == char_dec_value(s@.subrange(from as int, to as int)),
        r is None ==> !(all_digit_chars(s@.subrange(from as int, to as int)) && char_dec_value(
            s@.subrange(from as int, to as int),
        ) <= usize::MAX),
{
    let ghost whole = s@.subrange(from as int, to as int);
    if from == to {
        return None;
    }
    let mut acc: usize = 0;
    let mut i: usize = from;
    while i < to
        invariant
            from <= i <= to <= s@.len(),
            whole == s@.subrange(from as int, to as int),
            whole.len() > 0,
            acc == char_dec_value(s@.subrange(from as int, i as int)),
            forall|k: int| from <= k < i ==> is_digit_char(#[trigger] s@[k]),
        decreases to - i,
    {
        let c = s.get_char(i);
        let u = c as u32;
        if u < 48 || u > 57 {
            assert(whole[i - from] == s@[i as int]);
            assert(!is_digit_char(s@[i as int]));
            return None;
        }
        assert(is_digit_char(s@[i as int]));
        let d: usize = (u - 48) as usize;
        assert(d <= 9);
        assert(d as nat == s@[i as int] as nat - 48);
        if acc > (usize::MAX - d) / 10 {
            // The running value already exceeds the machine limit; a longer
            // digit string is never smaller.
            proof {
                if all_digit_chars(whole) && char_dec_value(whole) <= usize::MAX {
                    assert forall|k: int| from <= k < to implies is_digit_char(
                        #[trigger] s@[k],
                    ) by {
                        assert(whole[k - from] == s@[k]);
                    }
                    lemma_char_dec_prefix(s@, from as int, i + 1, to as int);
                    assert(s@.subrange(from as int, i + 1 as int).drop_last() =~= s@.subrange(
                        from as int,
                        i as int,
                    ));
                    assert(char_dec_value(s@.subrange(from as int, i + 1 as int)) == acc * 10 + (
                    d as nat));
                    assert(acc * 10 + d > usize::MAX) by (nonlinear_arith)
                        requires
                            acc > (usize::MAX - d) / 10,
                            d <= 9,
                    ;
                }
            }
            return None;
        }
        assert(acc * 10 + d <= usize::MAX) by (nonlinear_arith)
            requires
                acc <= (usize::MAX - d) / 10,
                d <= 9,
        ;
        proof {
            assert(s@.subrange(from as int, i + 1 as int).drop_last() =~= s@.subrange(
                from as int,
                i as int,
            ));
        }
        acc = acc * 10 + d;
        i += 1;
    }
    assert forall|k: int| 0 <= k < whole.len() implies is_digit_char(#[trigger] whole[k]) by {
        assert(whole[k] == s@[from + k]);
    }
    Some(acc)
}

/// The value of a digit range is at least the value of any of its prefixes.
proof fn lemma_char_dec_prefix(s: Seq<char>, from: int, mid: int, to: int)
    requires
        0 <= from <= mid <= to <= s.len(),
        forall|k: int| from <= k < to ==> is_digit_char(#[trigger] s[k]),
    ensures
        char_dec_value(s.subrange(from, mid)) <= char_dec_value(s.subrange(from, to)),
    decreases to - mid,
{
    if mid == to {
    } else {
        lemma_char_dec_prefix(s, from, mid + 1, to);
        let p = s.subrange(from, mid);
        let q = s.subrange(from, mid + 1);
        assert(q.drop_last() =~= p);
        assert(char_dec_value(q) == char_dec_value(p) * 10 + (q.last() as nat - 48));
        assert(char_dec_value(p) <= char_dec_value(p) * 10) by (nonlinear_arith);
    }
}

} // verus!

