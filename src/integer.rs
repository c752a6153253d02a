//! Integer detector: decimal, `0x` hexadecimal, `0o` octal and `0b` binary
//! literals, decoded into a signed 64-bit integer.
use vstd::prelude::*;
use crate::text::{all_digits, decode_digits, digit_value_exec, digits_value, is_digit, lemma_digits_value_grows, MAGNITUDE_CAP};

verus! {

/// `v` when it lies in the range of `i64`.
pub open spec fn fit_i64(v: Option<int>) -> Option<i64> {
    match v {
        Some(x) => if i64::MIN <= x && x <= i64::MAX {
            Some(x as i64)
        } else {
            None
        },
        None => None,
    }
}

/// A decimal literal: an optional `+` or `-`, then one to nineteen digits.
pub open spec fn decimal_of(s: Seq<char>) -> Option<int> {
    let signed = s.len() > 0 && (s[0] == '+' || s[0] == '-');
    let body = if signed { s.subrange(1, s.len() as int) } else { s };
    if 1 <= body.len() <= 19 && all_digits(body, 10) {
        if signed && s[0] == '-' {
            Some(-digits_value(body, 10))
        } else {
            Some(digits_value(body, 10))
        }
    } else {
        None
    }
}

/// A literal made of `0`, the letter `marker`, then one to `max_len` digits of
/// base `radix`.
pub open spec fn prefixed_of(s: Seq<char>, marker: char, radix: int, max_len: int) -> Option<int> {
    let body = s.subrange(2, s.len() as int);
    if s.len() >= 3 && s[0] == '0' && s[1] == marker && body.len() <= max_len && all_digits(body, radix) {
        Some(digits_value(body, radix))
    } else {
        None
    }
}

pub open spec fn base_10_of(s: Seq<char>) -> Option<i64> {
    fit_i64(decimal_of(s))
}

pub open spec fn base_16_of(s: Seq<char>) -> Option<i64> {
    fit_i64(prefixed_of(s, 'x', 16, 16))
}

pub open spec fn base_8_of(s: Seq<char>) -> Option<i64> {
    fit_i64(prefixed_of(s, 'o', 8, 32))
}

pub open spec fn base_2_of(s: Seq<char>) -> Option<i64> {
    fit_i64(prefixed_of(s, 'b', 2, 64))
}

/// The integer that `s` spells: the first of the four forms that both
/// matches and fits in an `i64`.
pub open spec fn int_of(s: Seq<char>) -> Option<i64> {
    if base_10_of(s) is Some {
        base_10_of(s)
    } else if base_16_of(s) is Some {
        base_16_of(s)
    } else if base_8_of(s) is Some {
        base_8_of(s)
    } else {
        base_2_of(s)
    }
}

/// `magnitude`, negated when `negative`, when the result fits in an `i64`.
fn apply_sign(magnitude: Option<u64>, negative: bool) -> (r: Option<i64>)
    ensures
        magnitude is None ==> r is None,
        magnitude matches Some(m) ==> r == fit_i64(Some(if negative { -(m as int) } else { m as int })),
{
    match magnitude {
        None => None,
        Some(m) => {
            if negative {
                if m == MAGNITUDE_CAP {
                    Some(i64::MIN)
                } else if m < MAGNITUDE_CAP {
                    Some(-(m as i64))
                } else {
                    None
                }
            } else if m < MAGNITUDE_CAP {
                Some(m as i64)
            } else {
                None
            }
        },
    }
}

/// Whether `s[from..to]` holds only digits of base `radix`.
fn scan_digits(s: &str, from: usize, to: usize, radix: u32) -> (r: bool)
    requires
        from <= to <= s@.len(),
    ensures
        r == all_digits(s@.subrange(from as int, to as int), radix as int),
{
    let mut i: usize = from;
    while i < to
        invariant
            from <= i <= to <= s@.len(),
            forall|k: int| from <= k < i ==> is_digit(s@[k], radix as int),
        decreases to - i,
    {
        if digit_value_exec(s.get_char(i)) >= radix {
            proof {
                assert(!is_digit(s@.subrange(from as int, to as int)[i - from], radix as int));
            }
            return false;
        }
        i = i + 1;
    }
    proof {
        let t = s@.subrange(from as int, to as int);
        assert forall|k: int| 0 <= k < t.len() implies is_digit(#[trigger] t[k], radix as int) by {
            assert(t[k] == s@[k + from]);
        }
    }
    true
}

/// Decimal form: `[+-]?[0-9]{1,19}`.
pub fn parse_base_10(arg: &str) -> (r: Option<i64>)
    ensures
        r == base_10_of(arg@),
{
    let n = arg.unicode_len();
    let signed = n > 0 && (arg.get_char(0) == '+' || arg.get_char(0) == '-');
    let negative = signed && arg.get_char(0) == '-';
    let from: usize = if signed { 1 } else { 0 };
    proof {
        if !signed {
            assert(arg@.subrange(0, n as int) =~= arg@);
        }
    }
    if n - from < 1 || n - from > 19 || !scan_digits(arg, from, n, 10) {
        return None;
    }
    let magnitude = decode_digits(arg, from, n, 10);
    proof {
        let body = arg@.subrange(from as int, n as int);
        lemma_digits_value_grows(body, 10, body.len() as int, body.len() as int);
        assert(body.subrange(0, body.len() as int) =~= body);
    }
    apply_sign(magnitude, negative)
}

/// The prefixed forms: `0`, `marker`, then one to `max_len` digits of `radix`.
fn parse_prefixed(arg: &str, marker: char, radix: u32, max_len: usize) -> (r: Option<i64>)
    requires
        2 <= radix <= 16,
    ensures
        r == fit_i64(prefixed_of(arg@, marker, radix as int, max_len as int)),
{
    let n = arg.unicode_len();
    if n < 3 || arg.get_char(0) != '0' || arg.get_char(1) != marker || n - 2 > max_len
        || !scan_digits(arg, 2, n, radix) {
        return None;
    }
    let magnitude = decode_digits(arg, 2, n, radix);
    proof {
        let body = arg@.subrange(2, n as int);
        lemma_digits_value_grows(body, radix as int, body.len() as int, body.len() as int);
        assert(body.subrange(0, body.len() as int) =~= body);
    }
    apply_sign(magnitude, false)
}

/// Hexadecimal form: `0x` then one to sixteen hex digits.
pub fn parse_base_16(arg: &str) -> (r: Option<i64>)
    ensures
        r == base_16_of(arg@),
{
    parse_prefixed(arg, 'x', 16, 16)
}

/// Octal form: `0o` then one to thirty-two octal digits.
pub fn parse_base_8(arg: &str) -> (r: Option<i64>)
    ensures
        r == base_8_of(arg@),
{
    parse_prefixed(arg, 'o', 8, 32)
}

/// Binary form: `0b` then one to sixty-four binary digits.
pub fn parse_base_2(arg: &str) -> (r: Option<i64>)
    ensures
        r == base_2_of(arg@),
{
    parse_prefixed(arg, 'b', 2, 64)
}

/// Integer detector: the four forms in order, the first that decodes wins.
pub fn parse_int(arg: &str) -> (r: Option<i64>)
    ensures
        r == int_of(arg@),
{
    let d = parse_base_10(arg);
    if d.is_some() {
        return d;
    }
    let h = parse_base_16(arg);
    if h.is_some() {
        return h;
    }
    let o = parse_base_8(arg);
    if o.is_some() {
        return o;
    }
    parse_base_2(arg)
}

} // verus!
