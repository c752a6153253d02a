//! Float detector: which strings are decimal or scientific floating-point
//! literals, or the tokens for infinity and not-a-number.
//!
//! The shape is an optional sign, then `inf`, `Nan`, or a numeral whose
//! integer part, fractional part and exponent are each at most seventeen
//! digits long (a run of digits may spill over into the neighbouring part,
//! which is how the longer runs below arise), and the text must also be
//! accepted by the standard `f64` grammar. The sets below are exactly the
//! strings of both kinds.
use vstd::prelude::*;
use crate::text::{digit_run, digit_run_exec, equals_from};

verus! {

pub open spec fn is_exponent_marker(c: char) -> bool {
    c == 'e' || c == 'E'
}

pub open spec fn is_sign(c: char) -> bool {
    c == '+' || c == '-'
}

/// From `k` to the end: an optional sign, then one to seventeen digits.
pub open spec fn signed_exponent(s: Seq<char>, k: int) -> bool {
    let k2 = if k < s.len() && is_sign(s[k]) { k + 1 } else { k };
    let x = digit_run(s, k2, 10);
    1 <= x <= 17 && k2 + x == s.len()
}

/// From `k` to the end: one to thirty-four digits and nothing else.
pub open spec fn long_exponent(s: Seq<char>, k: int) -> bool {
    let x = digit_run(s, k, 10);
    1 <= x <= 34 && k + x == s.len()
}

/// The text of `s` from `p` on is `inf`, `Nan` or an accepted numeral.
pub open spec fn float_body(s: Seq<char>, p: int) -> bool {
    let n = s.len() as int;
    let a = digit_run(s, p, 10);
    let q = p + a;
    if s.subrange(p, n) == seq!['i', 'n', 'f'] || s.subrange(p, n) == seq!['N', 'a', 'n'] {
        true
    } else if q == n {
        1 <= a <= 52
    } else if s[q] == '.' {
        let b = digit_run(s, q + 1, 10);
        let r = q + 1 + b;
        a <= 17 && 1 <= b && ((r == n && b <= 34) || (r < n && b <= 17 && is_exponent_marker(s[r])
            && signed_exponent(s, r + 1)))
    } else if is_exponent_marker(s[q]) {
        1 <= a && ((a <= 35 && signed_exponent(s, q + 1)) || (a <= 17 && long_exponent(s, q + 1)))
    } else {
        false
    }
}

/// Whether `s` is a floating-point literal: an optional sign, then a body.
pub open spec fn float_of(s: Seq<char>) -> bool {
    let p = if s.len() > 0 && is_sign(s[0]) { 1int } else { 0int };
    float_body(s, p)
}

fn signed_exponent_exec(s: &str, n: usize, k: usize) -> (r: bool)
    requires
        n == s@.len(),
        k <= n,
    ensures
        r == signed_exponent(s@, k as int),
{
    let k2 = if k < n && (s.get_char(k) == '+' || s.get_char(k) == '-') { k + 1 } else { k };
    let x = digit_run_exec(s, n, k2, 10);
    1 <= x && x <= 17 && k2 + x == n
}

fn long_exponent_exec(s: &str, n: usize, k: usize) -> (r: bool)
    requires
        n == s@.len(),
        k <= n,
    ensures
        r == long_exponent(s@, k as int),
{
    let x = digit_run_exec(s, n, k, 10);
    1 <= x && x <= 34 && k + x == n
}

/// Float detector: whether `arg` is a floating-point literal.
pub fn is_float_literal(arg: &str) -> (r: bool)
    ensures
        r == float_of(arg@),
{
    proof {
        reveal_strlit("inf");
        reveal_strlit("Nan");
        assert("inf"@ =~= seq!['i', 'n', 'f']);
        assert("Nan"@ =~= seq!['N', 'a', 'n']);
    }
    let n = arg.unicode_len();
    let p: usize = if n > 0 && (arg.get_char(0) == '+' || arg.get_char(0) == '-') { 1 } else { 0 };
    if equals_from(arg, p, "inf") || equals_from(arg, p, "Nan") {
        return true;
    }
    let a = digit_run_exec(arg, n, p, 10);
    let q = p + a;
    if q == n {
        1 <= a && a <= 52
    } else if arg.get_char(q) == '.' {
        let b = digit_run_exec(arg, n, q + 1, 10);
        let r = q + 1 + b;
        a <= 17 && 1 <= b && ((r == n && b <= 34) || (r < n && b <= 17 && (arg.get_char(r) == 'e'
            || arg.get_char(r) == 'E') && signed_exponent_exec(arg, n, r + 1)))
    } else if arg.get_char(q) == 'e' || arg.get_char(q) == 'E' {
        1 <= a && ((a <= 35 && signed_exponent_exec(arg, n, q + 1)) || (a <= 17
            && long_exponent_exec(arg, n, q + 1)))
    } else {
        false
    }
}

} // verus!
