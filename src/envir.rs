//! The snapshot: an immutable table from names to inferred values.
use vstd::prelude::*;
use std::sync::Arc;
use crate::socketaddr::IpView;
use crate::text::same_text;
use crate::value::{infer, Inferred, Value};

verus! {

/// The table that a list of entries gives: for each name, the value of its
/// last entry.
pub open spec fn table(es: Seq<(Seq<char>, Inferred)>) -> Map<Seq<char>, Inferred>
    decreases es.len(),
{
    if es.len() == 0 {
        Map::empty()
    } else {
        table(es.drop_last()).insert(es.last().0, es.last().1)
    }
}

/// What building a snapshot from `(name, text)` pairs gives: each text run
/// through the cascade, a later pair winning over an earlier one.
pub open spec fn snapshot_of(pairs: Seq<(String, String)>) -> Map<Seq<char>, Inferred> {
    table(pairs.map_values(|p: (String, String)| (p.0@, infer(p.1@))))
}

/// A point-in-time table of named values. It is never changed after it is
/// built, so clones share it and any number of readers may use it at once.
#[derive(Clone)]
pub struct Envir {
    data: Arc<Vec<(String, Value)>>,
}

pub open spec fn entries_view(es: Seq<(String, Value)>) -> Seq<(Seq<char>, Inferred)> {
    es.map_values(|e: (String, Value)| (e.0@, e.1@))
}

impl View for Envir {
    type V = Map<Seq<char>, Inferred>;

    closed spec fn view(&self) -> Map<Seq<char>, Inferred> {
        table(entries_view((*self.data)@))
    }
}

/// Entries past `i` that do not name `k` do not change what `k` maps to.
proof fn lemma_table_prefix(es: Seq<(Seq<char>, Inferred)>, i: int, k: Seq<char>)
    requires
        0 <= i <= es.len(),
        forall|j: int| i <= j < es.len() ==> (#[trigger] es[j]).0 != k,
    ensures
        table(es).contains_key(k) == table(es.subrange(0, i)).contains_key(k),
        table(es).contains_key(k) ==> table(es)[k] == table(es.subrange(0, i))[k],
    decreases es.len() - i,
{
    if i < es.len() {
        let t = es.subrange(0, i + 1);
        assert(t.drop_last() =~= es.subrange(0, i));
        assert(t.last() == es[i]);
        lemma_table_prefix(es, i + 1, k);
    } else {
        assert(es.subrange(0, i) =~= es);
    }
}

/// A name that no pair carries is absent from the snapshot: looking it up
/// gives nothing, not a default.
pub proof fn lemma_absent_name(pairs: Seq<(String, String)>, k: Seq<char>)
    requires
        forall|j: int| 0 <= j < pairs.len() ==> (#[trigger] pairs[j]).0@ != k,
    ensures
        !snapshot_of(pairs).contains_key(k),
{
    let es = pairs.map_values(|p: (String, String)| (p.0@, infer(p.1@)));
    assert forall|j: int| 0 <= j < es.len() implies (#[trigger] es[j]).0 != k by {
        assert(es[j].0 == pairs[j].0@);
    }
    lemma_table_prefix(es, 0, k);
    assert(es.subrange(0, 0) =~= Seq::<(Seq<char>, Inferred)>::empty());
}

impl Envir {
    /// Builds the snapshot from `(name, text)` pairs, running the cascade once
    /// on each text.
    pub fn from_pairs(pairs: &Vec<(String, String)>) -> (r: Envir)
        ensures
            r@ == snapshot_of(pairs@),
    {
        let mut data: Vec<(String, Value)> = Vec::new();
        let mut i: usize = 0;
        while i < pairs.len()
            invariant
                i <= pairs@.len(),
                data@.len() == i,
                entries_view(data@) == pairs@.subrange(0, i as int).map_values(
                    |p: (String, String)| (p.0@, infer(p.1@)),
                ),
            decreases pairs@.len() - i,
        {
            let name = pairs[i].0.clone();
            let v = Value::new(pairs[i].1.clone());
            let ghost before = data@;
            data.push((name, v));
            proof {
                assert(name@ == pairs@[i as int].0@);
                assert(data@ == before.push((name, v)));
                assert(before.len() == i);
                assert(data@.len() == i + 1);
                assert(data@[i as int] == (name, v));
                assert(entries_view(data@)[i as int] == (name@, v@));
                let goal = pairs@.subrange(0, i + 1).map_values(|p: (String, String)| (p.0@, infer(p.1@)));
                let prev = pairs@.subrange(0, i as int).map_values(|p: (String, String)| (p.0@, infer(p.1@)));
                assert forall|j: int| 0 <= j < i implies #[trigger] entries_view(data@)[j] == goal[j] by {
                    assert(data@[j] == before[j]);
                    assert(entries_view(before)[j] == prev[j]);
                    assert(pairs@.subrange(0, i + 1)[j] == pairs@.subrange(0, i as int)[j]);
                }
                assert(entries_view(data@) =~= pairs@.subrange(0, i + 1).map_values(
                    |p: (String, String)| (p.0@, infer(p.1@)),
                ));
            }
            i = i + 1;
        }
        proof {
            assert(pairs@.subrange(0, i as int) =~= pairs@);
        }
        Envir { data: Arc::new(data) }
    }

    /// The value named `k`, if there is one.
    pub fn get(&self, k: &str) -> (r: Option<&Value>)
        ensures
            r is Some <==> self@.contains_key(k@),
            r matches Some(v) ==> self@[k@] == v@,
    {
        let data: &Vec<(String, Value)> = &*self.data;
        let ghost es = entries_view(data@);
        assert(self@ == table(es));
        let mut i: usize = data.len();
        while i > 0
            invariant
                i <= data@.len(),
                es == entries_view(data@),
                self@ == table(es),
                forall|j: int| i <= j < es.len() ==> (#[trigger] es[j]).0 != k@,
            decreases i,
        {
            if same_text(data[i - 1].0.as_str(), k) {
                proof {
                    assert(es[i - 1] == (data@[i - 1].0@, data@[i - 1].1@));
                    assert(es[i - 1].0 == k@);
                    lemma_table_prefix(es, i as int, k@);
                    let t = es.subrange(0, i as int);
                    assert(t.drop_last() =~= es.subrange(0, i - 1));
                    assert(t.last() == es[i - 1]);
                    assert(table(t) == table(t.drop_last()).insert(t.last().0, t.last().1));
                    assert(table(t).contains_key(k@));
                    assert(self@ == table(es));
                }
                return Some(&data[i - 1].1);
            }
            assert(es[i - 1] == (data@[i - 1].0@, data@[i - 1].1@));
            i = i - 1;
        }
        proof {
            lemma_table_prefix(es, 0, k@);
            assert(es.subrange(0, 0) =~= Seq::<(Seq<char>, Inferred)>::empty());
        }
        None
    }

    pub fn get_bool(&self, k: &str) -> (r: Option<&bool>)
        ensures
            r is Some <==> self@.contains_key(k@) && self@[k@] is Bool,
            r matches Some(b) ==> self@[k@]->Bool_0 == *b,
    {
        match self.get(k) {
            Some(v) => v.as_bool(),
            None => None,
        }
    }

    pub fn get_int(&self, k: &str) -> (r: Option<&i64>)
        ensures
            r is Some <==> self@.contains_key(k@) && self@[k@] is Int,
            r matches Some(i) ==> self@[k@]->Int_0 == *i,
    {
        match self.get(k) {
            Some(v) => v.as_int(),
            None => None,
        }
    }

    /// The text of a floating-point literal named `k`.
    pub fn get_float_literal(&self, k: &str) -> (r: Option<&str>)
        ensures
            r is Some <==> self@.contains_key(k@) && self@[k@] is Float,
            r matches Some(t) ==> self@[k@]->Float_0 == t@,
    {
        match self.get(k) {
            Some(v) => v.as_float_literal(),
            None => None,
        }
    }

    pub fn get_ipv4(&self, k: &str) -> (r: Option<&Vec<u8>>)
        ensures
            r is Some <==> self@.contains_key(k@) && (self@[k@] matches Inferred::IpAddr(IpView::V4(_), _)),
            r matches Some(o) ==> self@[k@]->IpAddr_0 == IpView::V4(o@),
    {
        match self.get(k) {
            Some(v) => v.as_ipv4(),
            None => None,
        }
    }

    pub fn get_ipv6(&self, k: &str) -> (r: Option<&Vec<u16>>)
        ensures
            r is Some <==> self@.contains_key(k@) && (self@[k@] matches Inferred::IpAddr(IpView::V6(_), _)),
            r matches Some(g) ==> self@[k@]->IpAddr_0 == IpView::V6(g@),
    {
        match self.get(k) {
            Some(v) => v.as_ipv6(),
            None => None,
        }
    }

    /// The raw text named `k`.
    pub fn get_str(&self, k: &str) -> (r: Option<&str>)
        ensures
            r is Some <==> self@.contains_key(k@),
            r matches Some(t) ==> self@[k@].raw() == t@,
    {
        match self.get(k) {
            Some(v) => v.as_str(),
            None => None,
        }
    }
}

} // verus!
