//! Character classes shared by the detectors.
use vstd::prelude::*;

verus! {

/// Value of `c` as a digit in bases up to 16 (either case for letters);
/// 16 for any other character.
pub open spec fn digit_value(c: char) -> int {
    if '0' <= c && c <= '9' {
        c as int - '0' as int
    } else if 'a' <= c && c <= 'f' {
        c as int - 'a' as int + 10
    } else if 'A' <= c && c <= 'F' {
        c as int - 'A' as int + 10
    } else {
        16
    }
}

pub open spec fn is_digit(c: char, radix: int) -> bool {
    digit_value(c) < radix
}

pub open spec fn all_digits(s: Seq<char>, radix: int) -> bool {
    forall|i: int| 0 <= i < s.len() ==> is_digit(#[trigger] s[i], radix)
}

/// The number that the digit string `s` denotes in base `radix`.
pub open spec fn digits_value(s: Seq<char>, radix: int) -> int
    decreases s.len(),
{
    if s.len() == 0 {
        0
    } else {
        digits_value(s.drop_last(), radix) * radix + digit_value(s.last())
    }
}

pub fn digit_value_exec(c: char) -> (r: u32)
    ensures
        r as int == digit_value(c),
{
    if '0' <= c && c <= '9' {
        (c as u32) - ('0' as u32)
    } else if 'a' <= c && c <= 'f' {
        (c as u32) - ('a' as u32) + 10
    } else if 'A' <= c && c <= 'F' {
        (c as u32) - ('A' as u32) + 10
    } else {
        16
    }
}

/// Length of the run of digits of base `radix` that starts at `i`.
pub open spec fn digit_run(s: Seq<char>, i: int, radix: int) -> int
    decreases s.len() - i,
{
    if 0 <= i < s.len() && is_digit(s[i], radix) {
        1 + digit_run(s, i + 1, radix)
    } else {
        0
    }
}

/// The run of digits that starts at `i` is made of digits.
pub proof fn lemma_digit_run_digits(s: Seq<char>, i: int, radix: int)
    requires
        0 <= i <= s.len(),
    ensures
        0 <= digit_run(s, i, radix) <= s.len() - i,
        all_digits(s.subrange(i, i + digit_run(s, i, radix)), radix),
    decreases s.len() - i,
{
    if i < s.len() && is_digit(s[i], radix) {
        lemma_digit_run_digits(s, i + 1, radix);
        let k = digit_run(s, i, radix);
        let t = s.subrange(i, i + k);
        assert forall|j: int| 0 <= j < t.len() implies is_digit(#[trigger] t[j], radix) by {
            if j > 0 {
                assert(t[j] == s.subrange(i + 1, i + k)[j - 1]);
            }
        }
    }
}

/// Counts the digits of base `radix` that start at `i`.
pub fn digit_run_exec(s: &str, n: usize, i: usize, radix: u32) -> (r: usize)
    requires
        n == s@.len(),
        i <= n,
    ensures
        r as int == digit_run(s@, i as int, radix as int),
        i + r <= n,
{
    let mut j: usize = i;
    while j < n && digit_value_exec(s.get_char(j)) < radix
        invariant
            n == s@.len(),
            i <= j <= n,
            digit_run(s@, i as int, radix as int) == (j - i) + digit_run(s@, j as int, radix as int),
        decreases n - j,
    {
        j = j + 1;
    }
    j - i
}

/// Whether the text of `s` from `from` on is exactly `w`.
pub fn equals_from(s: &str, from: usize, w: &str) -> (r: bool)
    requires
        from <= s@.len(),
    ensures
        r == (s@.subrange(from as int, s@.len() as int) == w@),
{
    let n = s.unicode_len();
    let m = w.unicode_len();
    if n - from != m {
        return false;
    }
    let mut i: usize = 0;
    while i < m
        invariant
            n == s@.len(),
            m == w@.len(),
            from + m == n,
            i <= m,
            forall|k: int| 0 <= k < i ==> s@[from + k] == w@[k],
        decreases m - i,
    {
        if s.get_char(from + i) != w.get_char(i) {
            assert(s@.subrange(from as int, n as int)[i as int] != w@[i as int]);
            return false;
        }
        i = i + 1;
    }
    assert(s@.subrange(from as int, n as int) =~= w@);
    true
}

/// Magnitudes above this bound do not fit an `i64` whatever the sign.
pub const MAGNITUDE_CAP: u64 = 0x8000_0000_0000_0000;

/// Decodes the digits `s[from..to]`; `None` exactly when their value exceeds
/// `MAGNITUDE_CAP`.
pub fn decode_digits(s: &str, from: usize, to: usize, radix: u32) -> (r: Option<u64>)
    requires
        2 <= radix <= 16,
        from <= to <= s@.len(),
        all_digits(s@.subrange(from as int, to as int), radix as int),
    ensures
        digits_value(s@.subrange(from as int, to as int), radix as int) <= MAGNITUDE_CAP
            ==> r == Some(digits_value(s@.subrange(from as int, to as int), radix as int) as u64),
        digits_value(s@.subrange(from as int, to as int), radix as int) > MAGNITUDE_CAP ==> r is None,
{
    let ghost t = s@.subrange(from as int, to as int);
    let mut acc: u64 = 0;
    let mut i: usize = from;
    proof {
        assert(t.subrange(0, 0) =~= Seq::<char>::empty());
    }
    while i < to
        invariant
            2 <= radix <= 16,
            from <= i <= to <= s@.len(),
            t == s@.subrange(from as int, to as int),
            all_digits(t, radix as int),
            acc <= MAGNITUDE_CAP,
            acc as int == digits_value(t.subrange(0, i - from), radix as int),
        decreases to - i,
    {
        let c = s.get_char(i);
        let d = digit_value_exec(c);
        proof {
            assert(t[i - from] == c);
            assert(is_digit(t[i - from], radix as int));
            assert(t.subrange(0, i + 1 - from).drop_last() =~= t.subrange(0, i - from));
        }
        proof {
            assert((acc as u128) * (radix as u128) <= MAGNITUDE_CAP as u128 * 16) by (nonlinear_arith)
                requires acc <= MAGNITUDE_CAP, radix <= 16;
        }
        let next: u128 = (acc as u128) * (radix as u128) + (d as u128);
        if next > MAGNITUDE_CAP as u128 {
            proof {
                lemma_digits_value_grows(t, radix as int, i + 1 - from, t.len() as int);
                assert(t.subrange(0, t.len() as int) =~= t);
            }
            return None;
        }
        acc = next as u64;
        i = i + 1;
    }
    proof {
        assert(t.subrange(0, i - from) =~= t);
    }
    Some(acc)
}

/// Whether two texts are equal.
pub fn same_text(s: &str, w: &str) -> (r: bool)
    ensures
        r == (s@ == w@),
{
    assert(s@.subrange(0, s@.len() as int) =~= s@);
    equals_from(s, 0, w)
}

/// Appending digits never makes the value smaller.
pub proof fn lemma_digits_value_grows(s: Seq<char>, radix: int, i: int, j: int)
    requires
        radix >= 1,
        0 <= i <= j <= s.len(),
        all_digits(s, radix),
    ensures
        digits_value(s.subrange(0, i), radix) <= digits_value(s.subrange(0, j), radix),
        0 <= digits_value(s.subrange(0, i), radix),
    decreases j,
{
    if j > 0 {
        let p = s.subrange(0, j);
        assert(p.drop_last() =~= s.subrange(0, j - 1));
        if i < j {
            lemma_digits_value_grows(s, radix, i, j - 1);
        }
        lemma_digits_value_grows(s, radix, j - 1, j - 1);
        let v = digits_value(s.subrange(0, j - 1), radix);
        assert(is_digit(s[j - 1], radix));
        assert(0 <= digit_value(s[j - 1]));
        assert(v * radix >= v) by (nonlinear_arith)
            requires v >= 0, radix >= 1;
    } else {
        assert(s.subrange(0, i) =~= Seq::<char>::empty());
    }
}

} // verus!

verus! {

/// Characters with the Unicode `White_Space` property, which `str::trim`
/// removes.
pub open spec fn is_ws(c: char) -> bool {
    let u = c as u32;
    u == 0x20 || (0x09 <= u && u <= 0x0d) || u == 0x85 || u == 0xa0 || u == 0x1680 || (0x2000 <= u
        && u <= 0x200a) || u == 0x2028 || u == 0x2029 || u == 0x202f || u == 0x205f || u == 0x3000
}

pub fn is_ws_exec(c: char) -> (r: bool)
    ensures
        r == is_ws(c),
{
    let u = c as u32;
    u == 0x20 || (0x09 <= u && u <= 0x0d) || u == 0x85 || u == 0xa0 || u == 0x1680 || (0x2000 <= u
        && u <= 0x200a) || u == 0x2028 || u == 0x2029 || u == 0x202f || u == 0x205f || u == 0x3000
}

/// `t` without its leading and trailing whitespace.
pub open spec fn trim(t: Seq<char>) -> Seq<char>
    decreases t.len(),
{
    if t.len() > 0 && is_ws(t[0]) {
        trim(t.drop_first())
    } else if t.len() > 0 && is_ws(t.last()) {
        trim(t.drop_last())
    } else {
        t
    }
}

/// The bounds of `s[from..to]` once trimmed.
pub fn trim_bounds(s: &str, from: usize, to: usize) -> (r: (usize, usize))
    requires
        from <= to <= s@.len(),
    ensures
        from <= r.0 <= r.1 <= to,
        s@.subrange(r.0 as int, r.1 as int) == trim(s@.subrange(from as int, to as int)),
{
    let mut lo = from;
    while lo < to && is_ws_exec(s.get_char(lo))
        invariant
            from <= lo <= to <= s@.len(),
            trim(s@.subrange(from as int, to as int)) == trim(s@.subrange(lo as int, to as int)),
        decreases to - lo,
    {
        assert(s@.subrange(lo as int, to as int).drop_first() =~= s@.subrange(lo + 1, to as int));
        lo = lo + 1;
    }
    let mut hi = to;
    while hi > lo && is_ws_exec(s.get_char(hi - 1))
        invariant
            from <= lo <= hi <= to <= s@.len(),
            lo < hi ==> !is_ws(s@[lo as int]),
            trim(s@.subrange(from as int, to as int)) == trim(s@.subrange(lo as int, hi as int)),
        decreases hi - lo,
    {
        assert(s@.subrange(lo as int, hi as int).drop_last() =~= s@.subrange(lo as int, hi - 1));
        hi = hi - 1;
    }
    (lo, hi)
}

} // verus!
