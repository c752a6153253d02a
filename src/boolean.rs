//! Boolean detector: a fixed, case-exact lexicon.
use vstd::prelude::*;
use crate::text::same_text;

verus! {

/// The booleans that `s` spells: `t`, `T`, `true`, `TRUE` are true,
/// `f`, `F`, `false`, `FALSE` are false; nothing else is a boolean.
pub open spec fn bool_of(s: Seq<char>) -> Option<bool> {
    if s == seq!['t'] || s == seq!['T'] || s == seq!['t', 'r', 'u', 'e'] || s == seq!['T', 'R', 'U', 'E'] {
        Some(true)
    } else if s == seq!['f'] || s == seq!['F'] || s == seq!['f', 'a', 'l', 's', 'e'] || s == seq!['F', 'A', 'L', 'S', 'E'] {
        Some(false)
    } else {
        None
    }
}

/// Recognises a boolean literal.
pub fn parse_bool(arg: &str) -> (r: Option<bool>)
    ensures
        r == bool_of(arg@),
{
    proof {
        reveal_strlit("t");
        reveal_strlit("T");
        reveal_strlit("true");
        reveal_strlit("TRUE");
        reveal_strlit("f");
        reveal_strlit("F");
        reveal_strlit("false");
        reveal_strlit("FALSE");
        assert("t"@ =~= seq!['t']);
        assert("T"@ =~= seq!['T']);
        assert("true"@ =~= seq!['t', 'r', 'u', 'e']);
        assert("TRUE"@ =~= seq!['T', 'R', 'U', 'E']);
        assert("f"@ =~= seq!['f']);
        assert("F"@ =~= seq!['F']);
        assert("false"@ =~= seq!['f', 'a', 'l', 's', 'e']);
        assert("FALSE"@ =~= seq!['F', 'A', 'L', 'S', 'E']);
    }
    if same_text(arg, "t") || same_text(arg, "T") || same_text(arg, "true")
        || same_text(arg, "TRUE") {
        Some(true)
    } else if same_text(arg, "f") || same_text(arg, "F") || same_text(arg, "false")
        || same_text(arg, "FALSE") {
        Some(false)
    } else {
        None
    }
}

} // verus!
