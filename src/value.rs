//! The value type and the inference cascade that builds it.
use vstd::prelude::*;
use crate::boolean::{bool_of, parse_bool};
use crate::floats::{float_of, is_float_literal};
use crate::integer::{decimal_of, int_of, parse_int, prefixed_of};
use crate::socketaddr::{ip_of, parse_ip, parse_socket, socket_of, IpAddr, IpView, SocketAddr, SocketView};
use crate::text::{is_digit, is_ws, trim, trim_bounds};

verus! {

/// A typed value together with the raw text it came from.
///
/// A `Float` keeps only its text: it is a literal of the standard `f64`
/// grammar, and its number is what that grammar gives for the text.
#[derive(Debug, PartialEq)]
pub enum Value {
    String(String),
    Bool(bool, String),
    Int(i64, String),
    Float(String),
    SocketAddr(SocketAddr, String),
    IpAddr(IpAddr, String),
    Array(Vec<Value>, String),
}

/// The mathematical model of a `Value`.
pub enum Inferred {
    Str(Seq<char>),
    Bool(bool, Seq<char>),
    Int(i64, Seq<char>),
    Float(Seq<char>),
    SocketAddr(SocketView, Seq<char>),
    IpAddr(IpView, Seq<char>),
    Array(Seq<Inferred>, Seq<char>),
}

impl Inferred {
    /// The raw text that the value carries.
    pub open spec fn raw(self) -> Seq<char> {
        match self {
            Inferred::Str(r) => r,
            Inferred::Bool(_, r) => r,
            Inferred::Int(_, r) => r,
            Inferred::Float(r) => r,
            Inferred::SocketAddr(_, r) => r,
            Inferred::IpAddr(_, r) => r,
            Inferred::Array(_, r) => r,
        }
    }
}

/// The model of a value that is not an array (arrays have no nested arrays).
pub open spec fn leaf_view(v: Value) -> Inferred {
    match v {
        Value::String(r) => Inferred::Str(r@),
        Value::Bool(b, r) => Inferred::Bool(b, r@),
        Value::Int(i, r) => Inferred::Int(i, r@),
        Value::Float(r) => Inferred::Float(r@),
        Value::SocketAddr(a, r) => Inferred::SocketAddr(a@, r@),
        Value::IpAddr(a, r) => Inferred::IpAddr(a@, r@),
        Value::Array(_, r) => Inferred::Str(r@),
    }
}

impl View for Value {
    type V = Inferred;

    open spec fn view(&self) -> Inferred {
        match self {
            Value::Array(items, r) => Inferred::Array(items@.map_values(|v: Value| leaf_view(v)), r@),
            _ => leaf_view(*self),
        }
    }
}

/// The typed detectors in priority order: integer, float, boolean, socket
/// address, IP address.
pub open spec fn detect(s: Seq<char>) -> Option<Inferred> {
    if int_of(s) is Some {
        Some(Inferred::Int(int_of(s)->0, s))
    } else if float_of(s) {
        Some(Inferred::Float(s))
    } else if bool_of(s) is Some {
        Some(Inferred::Bool(bool_of(s)->0, s))
    } else if socket_of(s) is Some {
        Some(Inferred::SocketAddr(socket_of(s)->0, s))
    } else if ip_of(s) is Some {
        Some(Inferred::IpAddr(ip_of(s)->0, s))
    } else {
        None
    }
}

/// The cascade on text without a delimiter: a detector's value, or the text.
pub open spec fn leaf_of(s: Seq<char>) -> Inferred {
    match detect(s) {
        Some(v) => v,
        None => Inferred::Str(s),
    }
}

/// `s` cut at every `:`.
pub open spec fn pieces(s: Seq<char>) -> Seq<Seq<char>>
    decreases s.len(),
{
    if s.len() == 0 {
        seq![Seq::empty()]
    } else {
        let p = pieces(s.drop_last());
        if s.last() == ':' {
            p.push(Seq::empty())
        } else {
            p.update(p.len() - 1, p.last().push(s.last()))
        }
    }
}

/// The pieces trimmed, without those left empty.
pub open spec fn kept(ps: Seq<Seq<char>>) -> Seq<Seq<char>>
    decreases ps.len(),
{
    if ps.len() == 0 {
        Seq::empty()
    } else {
        let k = kept(ps.drop_last());
        if trim(ps.last()).len() == 0 {
            k
        } else {
            k.push(trim(ps.last()))
        }
    }
}

/// The segments of `s`: its pieces between delimiters, trimmed, non-empty.
pub open spec fn segments(s: Seq<char>) -> Seq<Seq<char>> {
    kept(pieces(s))
}

/// The array splitter: nothing without a delimiter or without a non-empty
/// segment; a single segment's own value; else an array of the segments'
/// values that keeps the whole text.
pub open spec fn split_of(s: Seq<char>) -> Option<Inferred> {
    let segs = segments(s);
    if !s.contains(':') || segs.len() == 0 {
        None
    } else if segs.len() == 1 {
        Some(leaf_of(segs[0]))
    } else {
        Some(Inferred::Array(segs.map_values(|t: Seq<char>| leaf_of(t)), s))
    }
}

/// The value that the cascade infers for `s`.
pub open spec fn infer(s: Seq<char>) -> Inferred {
    match detect(s) {
        Some(v) => v,
        None => match split_of(s) {
            Some(v) => v,
            None => Inferred::Str(s),
        },
    }
}

/// Every piece is free of delimiters.
proof fn lemma_pieces_no_colon(s: Seq<char>)
    ensures
        pieces(s).len() >= 1,
        forall|j: int| 0 <= j < pieces(s).len() ==> !(#[trigger] pieces(s)[j]).contains(':'),
    decreases s.len(),
{
    if s.len() > 0 {
        lemma_pieces_no_colon(s.drop_last());
        let p = pieces(s.drop_last());
        if s.last() != ':' {
            let q = p.last().push(s.last());
            assert forall|k: int| 0 <= k < q.len() implies q[k] != ':' by {
                if k < q.len() - 1 {
                    assert(p[p.len() - 1][k] == q[k]);
                    assert(!p[p.len() - 1].contains(':'));
                }
            }
        }
        assert forall|j: int| 0 <= j < pieces(s).len() implies !(#[trigger] pieces(s)[j]).contains(':') by {
            if s.last() == ':' && j == p.len() {
                assert(pieces(s)[j] =~= Seq::<char>::empty());
            }
        }
    } else {
        assert(pieces(s)[0] =~= Seq::<char>::empty());
    }
}

/// Trimming keeps a contiguous part of the text.
proof fn lemma_trim_within(t: Seq<char>)
    ensures
        forall|c: char| (#[trigger] trim(t).contains(c)) ==> t.contains(c),
    decreases t.len(),
{
    if t.len() > 0 && is_ws(t[0]) {
        lemma_trim_within(t.drop_first());
        assert(trim(t) == trim(t.drop_first()));
        assert forall|c: char| (#[trigger] trim(t).contains(c)) implies t.contains(c) by {
            assert(t.drop_first().contains(c));
            let k = choose|k: int| 0 <= k < t.drop_first().len() && t.drop_first()[k] == c;
            assert(t[k + 1] == c);
        }
    } else if t.len() > 0 && is_ws(t.last()) {
        lemma_trim_within(t.drop_last());
        assert(trim(t) == trim(t.drop_last()));
        assert forall|c: char| (#[trigger] trim(t).contains(c)) implies t.contains(c) by {
            assert(t.drop_last().contains(c));
            let k = choose|k: int| 0 <= k < t.drop_last().len() && t.drop_last()[k] == c;
            assert(t[k] == c);
        }
    }
}

proof fn lemma_kept_no_colon(ps: Seq<Seq<char>>)
    requires
        forall|j: int| 0 <= j < ps.len() ==> !(#[trigger] ps[j]).contains(':'),
    ensures
        forall|j: int| 0 <= j < kept(ps).len() ==> !(#[trigger] kept(ps)[j]).contains(':'),
    decreases ps.len(),
{
    if ps.len() > 0 {
        assert forall|j: int| 0 <= j < ps.drop_last().len() implies !(#[trigger] ps.drop_last()[j]).contains(':') by {
            assert(ps.drop_last()[j] == ps[j]);
        }
        lemma_kept_no_colon(ps.drop_last());
        lemma_trim_within(ps.last());
        assert(!ps[ps.len() - 1].contains(':'));
        let k = kept(ps.drop_last());
        assert forall|j: int| 0 <= j < kept(ps).len() implies !(#[trigger] kept(ps)[j]).contains(':') by {
            if j < k.len() {
                assert(kept(ps)[j] == k[j]);
            } else {
                assert(kept(ps)[j] == trim(ps.last()));
            }
        }
    }
}

/// Segments hold no delimiter.
pub proof fn lemma_segments_no_colon(s: Seq<char>)
    ensures
        forall|j: int| 0 <= j < segments(s).len() ==> !(#[trigger] segments(s)[j]).contains(':'),
{
    lemma_pieces_no_colon(s);
    lemma_kept_no_colon(pieces(s));
}

/// On text without a delimiter the whole cascade is the leaf cascade.
pub proof fn lemma_no_colon_is_leaf(s: Seq<char>)
    requires
        !s.contains(':'),
    ensures
        infer(s) == leaf_of(s),
{
}

/// Each element of an inferred array is what the whole cascade infers for
/// its segment, and is no array itself.
pub proof fn lemma_array_elements(s: Seq<char>)
    ensures
        infer(s) matches Inferred::Array(items, raw) ==> raw == s && items.len() == segments(s).len()
            && items.len() >= 2 && forall|j: int| 0 <= j < items.len() ==> #[trigger] items[j] == infer(
            segments(s)[j]) && !(items[j] is Array),
{
    lemma_segments_no_colon(s);
    if infer(s) is Array {
        assert(detect(s) is None);
        let segs = segments(s);
        assert forall|j: int| 0 <= j < segs.len() implies leaf_of(#[trigger] segs[j]) == infer(segs[j]) by {
            lemma_no_colon_is_leaf(segs[j]);
        }
    }
}

/// Running the cascade again on a value's raw text gives the same value; the
/// raw text is the input itself unless the input collapses to its single
/// non-empty segment, in which case it is that segment.
pub proof fn lemma_round_trip(s: Seq<char>)
    ensures
        infer(infer(s).raw()) == infer(s),
        infer(s).raw() == s || (detect(s) is None && s.contains(':') && segments(s).len() == 1
            && infer(s).raw() == segments(s)[0]),
{
    lemma_segments_no_colon(s);
    let segs = segments(s);
    if detect(s) is None && s.contains(':') && segs.len() == 1 {
        lemma_no_colon_is_leaf(segs[0]);
        assert(leaf_of(segs[0]).raw() == segs[0]);
    }
}

/// The typed detectors, in priority order, on `s`.
fn detect_value(s: &str) -> (r: Option<Value>)
    ensures
        r matches Some(v) ==> detect(s@) == Some(leaf_view(v)) && !(v is Array),
        r is None ==> detect(s@) is None,
{
    if let Some(i) = parse_int(s) {
        return Some(Value::Int(i, s.to_owned()));
    }
    if is_float_literal(s) {
        return Some(Value::Float(s.to_owned()));
    }
    if let Some(b) = parse_bool(s) {
        return Some(Value::Bool(b, s.to_owned()));
    }
    if let Some(a) = parse_socket(s) {
        return Some(Value::SocketAddr(a, s.to_owned()));
    }
    if let Some(a) = parse_ip(s) {
        return Some(Value::IpAddr(a, s.to_owned()));
    }
    None
}

/// The cascade on a segment, which holds no delimiter.
fn leaf_value(s: &str) -> (r: Value)
    ensures
        leaf_view(r) == leaf_of(s@),
        !(r is Array),
{
    match detect_value(s) {
        Some(v) => v,
        None => Value::String(s.to_owned()),
    }
}

/// Text that is a decimal literal is none of the prefixed literals.
proof fn lemma_decimal_not_prefixed(s: Seq<char>, marker: char, radix: int, max_len: int)
    requires
        decimal_of(s) is Some,
        marker == 'x' || marker == 'o' || marker == 'b',
    ensures
        prefixed_of(s, marker, radix, max_len) is None,
{
    if s.len() >= 3 {
        let signed = s.len() > 0 && (s[0] == '+' || s[0] == '-');
        let body = if signed { s.subrange(1, s.len() as int) } else { s };
        if signed {
            assert(body[0] == s[1]);
            assert(is_digit(body[0], 10));
        } else {
            assert(is_digit(body[1], 10));
        }
    }
}

/// A literal that the integer detector takes denotes exactly the integer
/// it gives: one of the four forms with that very value, never truncated or
/// wrapped; a decimal literal outside the range of `i64` gives nothing.
pub proof fn lemma_int_of_exact(t: Seq<char>)
    ensures
        int_of(t) matches Some(i) ==> decimal_of(t) == Some(i as int) || prefixed_of(t, 'x', 16, 16)
            == Some(i as int) || prefixed_of(t, 'o', 8, 32) == Some(i as int) || prefixed_of(t, 'b', 2, 64)
            == Some(i as int),
        decimal_of(t) matches Some(v) && (v < i64::MIN || v > i64::MAX) ==> int_of(t) is None,
{
    if decimal_of(t) is Some {
        lemma_decimal_not_prefixed(t, 'x', 16, 16);
        lemma_decimal_not_prefixed(t, 'o', 8, 32);
        lemma_decimal_not_prefixed(t, 'b', 2, 64);
    }
}

/// Every integer value, in any position, carries as raw text a literal that
/// the integer detector takes, with that value; a decimal literal outside the
/// range of `i64` never becomes an integer.
pub proof fn lemma_integers_exact(s: Seq<char>)
    ensures
        infer(s) matches Inferred::Int(i, r) ==> int_of(r) == Some(i),
        decimal_of(s) matches Some(v) && (v < i64::MIN || v > i64::MAX) ==> !(infer(s) is Int),
{
    lemma_segments_no_colon(s);
    lemma_int_of_exact(s);
    if decimal_of(s) is Some {
        let signed = s.len() > 0 && (s[0] == '+' || s[0] == '-');
        let body = if signed { s.subrange(1, s.len() as int) } else { s };
        assert forall|k: int| 0 <= k < s.len() implies s[k] != ':' by {
            if signed && k > 0 {
                assert(is_digit(body[k - 1], 10));
            } else if !signed {
                assert(is_digit(body[k], 10));
            }
        }
        assert(!s.contains(':'));
    }
}

/// How the pieces change when one more character is read.
proof fn lemma_pieces_step(s: Seq<char>, i: int)
    requires
        0 <= i < s.len(),
    ensures
        pieces(s.subrange(0, i + 1)).len() >= 1,
        s[i] == ':' ==> pieces(s.subrange(0, i + 1)).drop_last() == pieces(s.subrange(0, i))
            && pieces(s.subrange(0, i + 1)).last() == Seq::<char>::empty(),
        s[i] != ':' ==> pieces(s.subrange(0, i + 1)).drop_last() == pieces(s.subrange(0, i)).drop_last()
            && pieces(s.subrange(0, i + 1)).last() == pieces(s.subrange(0, i)).last().push(s[i]),
{
    let t = s.subrange(0, i + 1);
    assert(t.drop_last() =~= s.subrange(0, i));
    assert(t.last() == s[i]);
    lemma_pieces_no_colon(s.subrange(0, i));
    let p = pieces(s.subrange(0, i));
    if s[i] == ':' {
        assert(pieces(t).drop_last() =~= p);
    } else {
        assert(pieces(t).drop_last() =~= p.drop_last());
    }
}

/// The array splitter on `s`.
fn split_value(s: &str) -> (r: Option<Value>)
    ensures
        r matches Some(v) ==> split_of(s@) == Some(v@),
        r is None ==> split_of(s@) is None,
{
    let n = s.unicode_len();
    let mut items: Vec<Value> = Vec::new();
    let ghost mut segs: Seq<Seq<char>> = Seq::empty();
    let mut start: usize = 0;
    let mut has_colon = false;
    let mut i: usize = 0;
    proof {
        assert(s@.subrange(0, 0) =~= Seq::<char>::empty());
    }
    while i < n
        invariant
            n == s@.len(),
            start <= i <= n,
            segs == kept(pieces(s@.subrange(0, i as int)).drop_last()),
            pieces(s@.subrange(0, i as int)).len() >= 1,
            pieces(s@.subrange(0, i as int)).last() == s@.subrange(start as int, i as int),
            items@.len() == segs.len(),
            forall|j: int| 0 <= j < items@.len() ==> leaf_view(#[trigger] items@[j]) == leaf_of(segs[j])
                && !(items@[j] is Array),
            has_colon == (exists|k: int| 0 <= k < i && s@[k] == ':'),
        decreases n - i,
    {
        let c = s.get_char(i);
        let ghost p = pieces(s@.subrange(0, i as int));
        proof {
            lemma_pieces_step(s@, i as int);
        }
        if c == ':' {
            let (lo, hi) = trim_bounds(s, start, i);
            if lo < hi {
                let seg = s.substring_char(lo, hi);
                let v = leaf_value(seg);
                items.push(v);
                proof {
                    segs = segs.push(trim(p.last()));
                }
            }
            start = i + 1;
            has_colon = true;
            proof {
                assert(s@.subrange(start as int, i + 1) =~= Seq::<char>::empty());
            }
        } else {
            proof {
                assert(s@.subrange(start as int, i + 1) =~= s@.subrange(start as int, i as int).push(c));
            }
        }
        i = i + 1;
    }
    let (lo, hi) = trim_bounds(s, start, n);
    proof {
        let p = pieces(s@.subrange(0, n as int));
        assert(s@.subrange(0, n as int) =~= s@);
        assert(p =~= p.drop_last().push(p.last()));
    }
    if lo < hi {
        let seg = s.substring_char(lo, hi);
        let v = leaf_value(seg);
        items.push(v);
        proof {
            segs = segs.push(trim(pieces(s@).last()));
        }
    }
    proof {
        assert(segs == segments(s@));
        assert(has_colon == s@.contains(':'));
    }
    if !has_colon || items.len() == 0 {
        return None;
    }
    if items.len() == 1 {
        let ghost before = items@;
        let v = items.pop().unwrap();
        proof {
            assert(v == before[0]);
        }
        return Some(v);
    }
    let ghost elems = items@;
    let r = Value::Array(items, s.to_owned());
    proof {
        assert(elems.map_values(|v: Value| leaf_view(v)) =~= segs.map_values(|t: Seq<char>| leaf_of(t)));
    }
    Some(r)
}

impl Value {
    /// Runs the cascade on `arg`: the first detector that recognises it, else
    /// the array splitter, else the text itself.
    pub fn new(arg: String) -> (r: Value)
        ensures
            r@ == infer(arg@),
    {
        match detect_value(arg.as_str()) {
            Some(v) => v,
            None => match split_value(arg.as_str()) {
                Some(v) => v,
                None => Value::String(arg),
            },
        }
    }

    /// The raw text; every value has one.
    pub fn as_str(&self) -> (r: Option<&str>)
        ensures
            r matches Some(t) && t@ == self@.raw(),
    {
        match self {
            Value::String(s) => Some(s.as_str()),
            Value::Bool(_, s) => Some(s.as_str()),
            Value::Int(_, s) => Some(s.as_str()),
            Value::Float(s) => Some(s.as_str()),
            Value::SocketAddr(_, s) => Some(s.as_str()),
            Value::IpAddr(_, s) => Some(s.as_str()),
            Value::Array(_, s) => Some(s.as_str()),
        }
    }

    pub fn as_bool(&self) -> (r: Option<&bool>)
        ensures
            r is Some <==> self@ is Bool,
            r matches Some(b) ==> self@->Bool_0 == *b,
    {
        match self {
            Value::Bool(b, _) => Some(b),
            _ => None,
        }
    }

    pub fn as_int(&self) -> (r: Option<&i64>)
        ensures
            r is Some <==> self@ is Int,
            r matches Some(i) ==> self@->Int_0 == *i,
    {
        match self {
            Value::Int(i, _) => Some(i),
            _ => None,
        }
    }

    /// The text of a floating-point literal.
    pub fn as_float_literal(&self) -> (r: Option<&str>)
        ensures
            r is Some <==> self@ is Float,
            r matches Some(t) ==> self@->Float_0 == t@,
    {
        match self {
            Value::Float(s) => Some(s.as_str()),
            _ => None,
        }
    }

    pub fn as_socket(&self) -> (r: Option<&SocketAddr>)
        ensures
            r is Some <==> self@ is SocketAddr,
            r matches Some(a) ==> self@->SocketAddr_0 == a@,
    {
        match self {
            Value::SocketAddr(a, _) => Some(a),
            _ => None,
        }
    }

    /// The four octets of an IPv4 address.
    pub fn as_ipv4(&self) -> (r: Option<&Vec<u8>>)
        ensures
            r is Some <==> (self@ matches Inferred::IpAddr(IpView::V4(_), _)),
            r matches Some(o) ==> self@->IpAddr_0 == IpView::V4(o@),
    {
        match self {
            Value::IpAddr(IpAddr::V4(o), _) => Some(o),
            _ => None,
        }
    }

    /// The eight groups of an IPv6 address.
    pub fn as_ipv6(&self) -> (r: Option<&Vec<u16>>)
        ensures
            r is Some <==> (self@ matches Inferred::IpAddr(IpView::V6(_), _)),
            r matches Some(g) ==> self@->IpAddr_0 == IpView::V6(g@),
    {
        match self {
            Value::IpAddr(IpAddr::V6(g), _) => Some(g),
            _ => None,
        }
    }
}

} // verus!
