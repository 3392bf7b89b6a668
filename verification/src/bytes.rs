//! Small verified helpers on byte strings: equality, slicing, decimal
//! parsing and rendering, whitespace trimming, and line splitting.

use vstd::prelude::*;

verus! {

/// Exact byte-wise equality of two slices.
pub fn bytes_eq(a: &[u8], b: &[u8]) -> (r: bool)
    ensures
        r == (a@ == b@),
{
    if a.len() != b.len() {
        assert(a@ != b@) by {
            assert(a@.len() != b@.len());
        }
        return false;
    }
    let mut i: usize = 0;
    while i < a.len()
        invariant
            0 <= i <= a@.len(),
            a@.len() == b@.len(),
            forall|k: int| 0 <= k < i ==> a@[k] == b@[k],
        decreases a@.len() - i,
    {
        if a[i] != b[i] {
            return false;
        }
        i += 1;
    }
    assert(a@ =~= b@);
    true
}

/// Copy of the byte range `[i, j)` of `s`.
pub fn copy_range(s: &[u8], i: usize, j: usize) -> (r: Vec<u8>)
    requires
        i <= j <= s@.len(),
    ensures
        r@ == s@.subrange(i as int, j as int),
{
    let mut r: Vec<u8> = Vec::new();
    let mut k: usize = i;
    while k < j
        invariant
            i <= k <= j <= s@.len(),
            r@ == s@.subrange(i as int, k as int),
        decreases j - k,
    {
        r.push(s[k]);
        assert(r@ =~= s@.subrange(i as int, k + 1 as int));
        k += 1;
    }
    r
}

/// Append all of `src` to `dst`.
pub fn push_all(dst: &mut Vec<u8>, src: &[u8])
    ensures
        final(dst)@ == old(dst)@ + src@,
{
    let mut k: usize = 0;
    while k < src.len()
        invariant
            0 <= k <= src@.len(),
            dst@ == old(dst)@ + src@.subrange(0, k as int),
        decreases src@.len() - k,
    {
        dst.push(src[k]);
        assert(dst@ =~= old(dst)@ + src@.subrange(0, k + 1 as int));
        k += 1;
    }
    assert(dst@ =~= old(dst)@ + src@);
}

/// The canonical decimal rendering of `n` (no leading zeros, and `0` for 0).
pub open spec fn dec_digits(n: nat) -> Seq<u8>
    decreases n,
{
    if n < 10 {
        seq![(n + 48) as u8]
    } else {
        dec_digits(n / 10).push((n % 10 + 48) as u8)
    }
}

/// Render `n` in decimal.
pub fn u64_to_dec(n: u64) -> (r: Vec<u8>)
    ensures
        r@ == dec_digits(n as nat),
{
    let mut rev: Vec<u8> = Vec::new();
    let mut m: u64 = n;
    while m >= 10
        invariant
            dec_digits(n as nat) == dec_digits(m as nat) + rev@.reverse(),
        decreases m,
    {
        let d: u8 = (m % 10) as u8 + 48;
        let ghost old_rev = rev@;
        let ghost old_m = m as nat;
        rev.push(d);
        m = m / 10;
        proof {
            assert(rev@.reverse() =~= seq![d] + old_rev.reverse());
            assert(dec_digits(old_m) == dec_digits(old_m / 10).push(
                (old_m % 10 + 48) as u8,
            ));
            assert(dec_digits(old_m / 10).push((old_m % 10 + 48) as u8) =~= dec_digits(
                old_m / 10,
            ) + seq![d]);
            assert(dec_digits(m as nat) + rev@.reverse() =~= (dec_digits(m as nat) + seq![d])
                + old_rev.reverse());
        }
    }
    let d: u8 = m as u8 + 48;
    let ghost old_rev = rev@;
    rev.push(d);
    proof {
        assert(rev@.reverse() =~= seq![d] + old_rev.reverse());
        assert(dec_digits(m as nat) =~= seq![d]);
        assert(dec_digits(n as nat) =~= seq![d] + old_rev.reverse());
    }
    // Reverse into reading order.
    let mut r: Vec<u8> = Vec::new();
    let mut k: usize = rev.len();
    while k > 0
        invariant
            0 <= k <= rev@.len(),
            r@ == rev@.reverse().take(rev@.len() - k),
        decreases k,
    {
        k -= 1;
        r.push(rev[k]);
        proof {
            assert(rev@.reverse()[rev@.len() - k - 1] == rev@[k as int]);
            assert(r@ =~= rev@.reverse().take(rev@.len() - k));
        }
    }
    assert(r@ =~= rev@.reverse());
    r
}

/// Whitespace for the purpose of trimming a source line.
pub open spec fn is_blankish(b: u8) -> bool {
    b == 32 || b == 9 || b == 13 || b == 10
}

/// Indentation bytes: spaces and tabs.
pub open spec fn is_indent_byte(b: u8) -> bool {
    b == 32 || b == 9
}

/// `s` without leading whitespace.
pub open spec fn spec_ltrim(s: Seq<u8>) -> Seq<u8>
    decreases s.len(),
{
    if s.len() > 0 && is_blankish(s[0]) {
        spec_ltrim(s.drop_first())
    } else {
        s
    }
}

/// `s` without trailing whitespace.
pub open spec fn spec_rtrim(s: Seq<u8>) -> Seq<u8>
    decreases s.len(),
{
    if s.len() > 0 && is_blankish(s.last()) {
        spec_rtrim(s.drop_last())
    } else {
        s
    }
}

/// `s` without leading and trailing whitespace.
pub open spec fn spec_trim(s: Seq<u8>) -> Seq<u8> {
    spec_rtrim(spec_ltrim(s))
}

/// The longest prefix of `s` made of spaces and tabs.
pub open spec fn spec_indent(s: Seq<u8>) -> Seq<u8>
    decreases s.len(),
{
    if s.len() > 0 && is_indent_byte(s[0]) {
        seq![s[0]] + spec_indent(s.drop_first())
    } else {
        Seq::empty()
    }
}

proof fn lemma_ltrim_from(s: Seq<u8>, i: int)
    requires
        0 <= i <= s.len(),
        forall|k: int| 0 <= k < i ==> is_blankish(#[trigger] s[k]),
    ensures
        spec_ltrim(s) == spec_ltrim(s.skip(i)),
    decreases i,
{
    if i > 0 {
        assert(s.len() > 0 && is_blankish(s[0]));
        assert(spec_ltrim(s) == spec_ltrim(s.drop_first()));
        assert(s.drop_first() =~= s.skip(1));
        lemma_ltrim_from(s.skip(1), i - 1);
        assert(s.skip(1).skip(i - 1) =~= s.skip(i));
    } else {
        assert(s.skip(0) =~= s);
    }
}

proof fn lemma_rtrim_to(s: Seq<u8>, j: int)
    requires
        0 <= j <= s.len(),
        forall|k: int| j <= k < s.len() ==> is_blankish(#[trigger] s[k]),
    ensures
        spec_rtrim(s) == spec_rtrim(s.take(j)),
    decreases s.len() - j,
{
    if j < s.len() {
        assert(s.len() > 0 && is_blankish(s.last()));
        assert(spec_rtrim(s) == spec_rtrim(s.drop_last()));
        assert(s.drop_last() =~= s.take(s.len() - 1));
        lemma_rtrim_to(s.take(s.len() - 1), j);
        assert(s.take(s.len() - 1).take(j) =~= s.take(j));
    } else {
        assert(s.take(s.len() as int) =~= s);
    }
}

/// Trim whitespace from both ends of `s`.
pub fn trim_bytes(s: &[u8]) -> (r: Vec<u8>)
    ensures
        r@ == spec_trim(s@),
{
    let mut i: usize = 0;
    while i < s.len() && (s[i] == 32 || s[i] == 9 || s[i] == 13 || s[i] == 10)
        invariant
            0 <= i <= s@.len(),
            forall|k: int| 0 <= k < i ==> is_blankish(#[trigger] s@[k]),
        decreases s@.len() - i,
    {
        i += 1;
    }
    proof {
        lemma_ltrim_from(s@, i as int);
    }
    // `i` now starts the left-trimmed suffix; trim its right end.
    let mut j: usize = s.len();
    while j > i && (s[j - 1] == 32 || s[j - 1] == 9 || s[j - 1] == 13 || s[j - 1] == 10)
        invariant
            i <= j <= s@.len(),
            forall|k: int| j <= k < s@.len() ==> is_blankish(#[trigger] s@[k]),
        decreases j,
    {
        j -= 1;
    }
    proof {
        if i < j {
            assert(!is_blankish(s@.skip(i as int)[0]));
        }
        assert(spec_ltrim(s@) == s@.skip(i as int)) by {
            if s@.skip(i as int).len() > 0 && is_blankish(s@.skip(i as int)[0]) {
                assert(false);
            }
        }
        lemma_rtrim_to(s@.skip(i as int), j - i);
        assert(s@.skip(i as int).take(j - i) =~= s@.subrange(i as int, j as int));
        assert(spec_rtrim(s@.subrange(i as int, j as int)) =~= s@.subrange(i as int, j as int))
            by {
            if i < j {
                assert(!is_blankish(s@.subrange(i as int, j as int).last()));
            }
        }
    }
    copy_range(s, i, j)
}

/// The indentation prefix of `s`.
pub fn indent_of(s: &[u8]) -> (r: Vec<u8>)
    ensures
        r@ == spec_indent(s@),
{
    let mut i: usize = 0;
    while i < s.len() && (s[i] == 32 || s[i] == 9)
        invariant
            0 <= i <= s@.len(),
            forall|k: int| 0 <= k < i ==> is_indent_byte(#[trigger] s@[k]),
        decreases s@.len() - i,
    {
        i += 1;
    }
    proof {
        lemma_indent_from(s@, i as int);
        if i < s.len() {
            assert(!is_indent_byte(s@[i as int]));
        }
        assert(spec_indent(s@) =~= s@.take(i as int));
    }
    copy_range(s, 0, i)
}

proof fn lemma_indent_from(s: Seq<u8>, i: int)
    requires
        0 <= i <= s.len(),
        forall|k: int| 0 <= k < i ==> is_indent_byte(#[trigger] s[k]),
        i < s.len() ==> !is_indent_byte(s[i]),
    ensures
        spec_indent(s) == s.take(i),
    decreases i,
{
    if s.len() > 0 && is_indent_byte(s[0]) {
        assert(i > 0);
        lemma_indent_from(s.drop_first(), i - 1);
        assert(s.drop_first() =~= s.skip(1));
        assert(seq![s[0]] + s.skip(1).take(i - 1) =~= s.take(i));
    } else {
        assert(s.take(0) =~= Seq::<u8>::empty());
    }
}

/// Index of the first newline byte in `s`, or `s.len()` when there is none.
pub open spec fn first_newline(s: Seq<u8>) -> int
    decreases s.len(),
{
    if s.len() == 0 {
        0
    } else if s[0] == 10 {
        0
    } else {
        1 + first_newline(s.drop_first())
    }
}

proof fn lemma_first_newline(s: Seq<u8>, m: int)
    requires
        0 <= m <= s.len(),
        forall|k: int| 0 <= k < m ==> s[k] != 10,
        m < s.len() ==> s[m] == 10,
    ensures
        first_newline(s) == m,
    decreases m,
{
    if s.len() == 0 {
    } else if s[0] == 10 {
        assert(m == 0);
    } else {
        assert(m >= 1);
        lemma_first_newline(s.drop_first(), m - 1);
    }
}

pub broadcast proof fn lemma_first_newline_bounds(s: Seq<u8>)
    ensures
        0 <= #[trigger] first_newline(s) <= s.len(),
        first_newline(s) < s.len() ==> s[first_newline(s)] == 10,
        forall|k: int| 0 <= k < first_newline(s) ==> s[k] != 10,
    decreases s.len(),
{
    if s.len() > 0 && s[0] != 10 {
        lemma_first_newline_bounds(s.drop_first());
        assert forall|k: int| 0 <= k < first_newline(s) implies s[k] != 10 by {
            if k > 0 {
                assert(s.drop_first()[k - 1] == s[k]);
            }
        }
    }
}

/// The lines of `s`: maximal segments split at newline bytes.  A trailing
/// newline closes the last line; text after the last newline forms a final
/// line of its own.  The empty buffer has no lines.
pub open spec fn spec_lines(s: Seq<u8>) -> Seq<Seq<u8>>
    decreases s.len(),
{
    if s.len() == 0 {
        Seq::empty()
    } else {
        let i = first_newline(s);
        if 0 <= i < s.len() {
            seq![s.take(i)] + spec_lines(s.skip(i + 1))
        } else {
            seq![s]
        }
    }
}

/// Split `s` into its lines.
pub fn split_lines(s: &[u8]) -> (r: Vec<Vec<u8>>)
    ensures
        r.deep_view() == spec_lines(s@),
{
    broadcast use lemma_first_newline_bounds;

    let mut r: Vec<Vec<u8>> = Vec::new();
    let mut i: usize = 0;
    proof {
        assert(s@.skip(0) =~= s@);
        assert(r.deep_view() =~~= Seq::<Seq<u8>>::empty());
    }
    while i < s.len()
        invariant
            0 <= i <= s@.len(),
            r.deep_view() + spec_lines(s@.skip(i as int)) =~~= spec_lines(s@),
        decreases s@.len() - i,
    {
        let ghost seen = r.deep_view();
        let mut j: usize = i;
        while j < s.len() && s[j] != 10
            invariant
                i <= j <= s@.len(),
                forall|k: int| i <= k < j ==> s@[k] != 10,
            decreases s@.len() - j,
        {
            j += 1;
        }
        proof {
            let suf = s@.skip(i as int);
            lemma_first_newline(suf, j - i);
            assert(suf.take(j - i) =~= s@.subrange(i as int, j as int));
        }
        let line = copy_range(s, i, j);
        r.push(line);
        let ghost old_i = i as int;
        if j < s.len() {
            i = j + 1;
        } else {
            i = j;
        }
        proof {
            let suf = s@.skip(old_i);
            assert(r.deep_view() =~~= seen + seq![s@.subrange(old_i, j as int)]);
            if j < s@.len() {
                assert(suf.skip(j - old_i + 1) =~= s@.skip(i as int));
                assert(spec_lines(suf) =~~= seq![s@.subrange(old_i, j as int)] + spec_lines(
                    s@.skip(i as int),
                ));
            } else {
                // No further newline: the suffix is a single final line.
                assert(suf =~= s@.subrange(old_i, j as int));
                assert(spec_lines(suf) =~~= seq![s@.subrange(old_i, j as int)]);
                assert(s@.skip(i as int).len() == 0);
                assert(spec_lines(s@.skip(i as int)) =~~= Seq::<Seq<u8>>::empty());
            }
            assert(r.deep_view() + spec_lines(s@.skip(i as int)) =~~= spec_lines(s@));
        }
    }
    proof {
        assert(s@.skip(i as int).len() == 0);
        assert(spec_lines(s@.skip(i as int)) =~~= Seq::<Seq<u8>>::empty());
        assert(r.deep_view() =~~= spec_lines(s@));
    }
    r
}

} // verus!

verus! {

/// `s` with the byte range `[start, end)` replaced by `new`.
pub open spec fn spec_splice(s: Seq<u8>, start: int, end: int, new: Seq<u8>) -> Seq<u8> {
    s.take(start) + new + s.skip(end)
}

/// Splice `new` over the byte range `[start, end)` of `s`.
pub fn splice_bytes(s: &[u8], start: usize, end: usize, new: &[u8]) -> (r: Vec<u8>)
    requires
        start <= end <= s@.len(),
    ensures
        r@ == spec_splice(s@, start as int, end as int, new@),
{
    let mut r = copy_range(s, 0, start);
    push_all(&mut r, new);
    let mut k: usize = end;
    while k < s.len()
        invariant
            start <= end <= k <= s@.len(),
            r@ == s@.take(start as int) + new@ + s@.subrange(end as int, k as int),
        decreases s@.len() - k,
    {
        r.push(s[k]);
        assert(r@ =~= s@.take(start as int) + new@ + s@.subrange(end as int, k + 1 as int));
        k += 1;
    }
    assert(r@ =~= spec_splice(s@, start as int, end as int, new@));
    r
}

} // verus!

verus! {

/// Duplicate of a byte vector.
pub fn dup_bytes(v: &Vec<u8>) -> (r: Vec<u8>)
    ensures
        r@ == v@,
{
    let r = copy_range(v.as_slice(), 0, v.len());
    assert(v@.subrange(0, v@.len() as int) =~= v@);
    r
}

} // verus!
