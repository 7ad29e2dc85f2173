//! The value model: a loosely typed representation of any JSON value that
//! keeps numbers as their source text and objects in insertion order.

use vstd::prelude::*;

verus! {

broadcast use vstd::std_specs::vec::group_vec_axioms, vstd::seq::group_seq_axioms;

/// The mathematical model of a [`Value`].
pub ghost enum Json {
    Null,
    Bool(bool),
    Number(Seq<char>),
    Str(Seq<char>),
    Array(Seq<Json>),
    Object(Seq<(Seq<char>, Json)>),
}

/// Represents any valid JSON value.
#[derive(Debug, PartialEq, Eq)]
pub enum Value {
    /// A JSON null value.
    Null,
    /// A JSON boolean.
    Bool(bool),
    /// A JSON number, kept as the text it was written with.
    Number(String),
    /// A JSON string.
    String(String),
    /// A JSON array.
    Array(Vec<Value>),
    /// A JSON object, its entries in insertion order.
    Object(Vec<(String, Value)>),
}

impl View for Value {
    type V = Json;

    open spec fn view(&self) -> Json
        decreases self,
    {
        match self {
            Value::Null => Json::Null,
            Value::Bool(b) => Json::Bool(*b),
            Value::Number(n) => Json::Number(n@),
            Value::String(s) => Json::Str(s@),
            Value::Array(xs) => Json::Array(views(xs@)),
            Value::Object(es) => Json::Object(entry_views(es@)),
        }
    }
}

/// The models of a sequence of values, in order.
pub open spec fn views(xs: Seq<Value>) -> Seq<Json>
    decreases xs,
{
    if xs.len() == 0 {
        Seq::empty()
    } else {
        seq![xs[0].view()] + views(xs.subrange(1, xs.len() as int))
    }
}

/// The models of a sequence of object entries, in order.
pub open spec fn entry_views(es: Seq<(String, Value)>) -> Seq<(Seq<char>, Json)>
    decreases es,
{
    if es.len() == 0 {
        Seq::empty()
    } else {
        seq![(es[0].0@, es[0].1.view())] + entry_views(es.subrange(1, es.len() as int))
    }
}

/// The model of a sequence of values has one entry per value, in order.
pub proof fn lemma_views(xs: Seq<Value>)
    ensures
        #[trigger] views(xs).len() == xs.len(),
        forall|i: int| 0 <= i < xs.len() ==> #[trigger] views(xs)[i] == xs[i]@,
    decreases xs.len(),
{
    if xs.len() > 0 {
        let rest = xs.subrange(1, xs.len() as int);
        lemma_views(rest);
        assert(views(xs) == seq![xs[0]@] + views(rest));
        assert forall|i: int| 0 <= i < xs.len() implies #[trigger] views(xs)[i] == xs[i]@ by {
            if i > 0 {
                assert(rest[i - 1] == xs[i]);
                assert(views(xs)[i] == views(rest)[i - 1]);
            }
        }
    }
}

/// The model of a sequence of entries has one entry per entry, in order.
pub proof fn lemma_entry_views(es: Seq<(String, Value)>)
    ensures
        #[trigger] entry_views(es).len() == es.len(),
        forall|i: int|
            0 <= i < es.len() ==> #[trigger] entry_views(es)[i] == (es[i].0@, es[i].1@),
    decreases es.len(),
{
    if es.len() > 0 {
        let rest = es.subrange(1, es.len() as int);
        lemma_entry_views(rest);
        assert(entry_views(es) == seq![(es[0].0@, es[0].1@)] + entry_views(rest));
        assert forall|i: int| 0 <= i < es.len() implies #[trigger] entry_views(es)[i] == (
        es[i].0@, es[i].1@) by {
            if i > 0 {
                assert(rest[i - 1] == es[i]);
                assert(entry_views(es)[i] == entry_views(rest)[i - 1]);
            }
        }
    }
}

/// Appending a value appends its model.
pub proof fn lemma_views_push(xs: Seq<Value>, v: Value)
    ensures
        views(xs.push(v)) == views(xs).push(v@),
{
    lemma_views(xs);
    lemma_views(xs.push(v));
    assert(views(xs.push(v)) =~= views(xs).push(v@));
}

/// Appending an entry appends its model.
pub proof fn lemma_entry_views_push(es: Seq<(String, Value)>, e: (String, Value))
    ensures
        entry_views(es.push(e)) == entry_views(es).push((e.0@, e.1@)),
{
    lemma_entry_views(es);
    lemma_entry_views(es.push(e));
    assert(entry_views(es.push(e)) =~= entry_views(es).push((e.0@, e.1@)));
}

impl Value {
    /// Returns this value with every part owned: the same value.
    pub fn into_owned(self) -> (r: Value)
        ensures
            r@ == self@,
    {
        copy_value(&self)
    }
}

impl Default for Value {
    fn default() -> (r: Value)
        ensures
            r@ == Json::Null,
    {
        Value::Null
    }
}

/// Builds a value with the same model as `v`.
pub fn copy_value(v: &Value) -> (r: Value)
    ensures
        r@ == v@,
    decreases v,
{
    match v {
        Value::Null => Value::Null,
        Value::Bool(b) => Value::Bool(*b),
        Value::Number(n) => Value::Number(n.clone()),
        Value::String(s) => Value::String(s.clone()),
        Value::Array(xs) => {
            let mut out: Vec<Value> = Vec::new();
            let mut i: usize = 0;
            while i < xs.len()
                invariant
                    *v == Value::Array(*xs),
                    i <= xs.len(),
                    out@.len() == i,
                    forall|j: int| 0 <= j < i ==> #[trigger] out@[j]@ == xs@[j]@,
                decreases xs.len() - i,
            {
                proof {
                    assert(decreases_to!(*v => (*v)->Array_0));
                    assert(decreases_to!(*xs => xs[i as int]));
                }
                let c = copy_value(&xs[i]);
                out.push(c);
                i = i + 1;
            }
            proof {
                lemma_views(out@);
                lemma_views(xs@);
            }
            assert(views(out@) =~= views(xs@));
            Value::Array(out)
        },
        Value::Object(es) => {
            let mut out: Vec<(String, Value)> = Vec::new();
            let mut i: usize = 0;
            while i < es.len()
                invariant
                    *v == Value::Object(*es),
                    i <= es.len(),
                    out@.len() == i,
                    forall|j: int|
                        0 <= j < i ==> #[trigger] out@[j].0@ == es@[j].0@ && out@[j].1@
                            == es@[j].1@,
                decreases es.len() - i,
            {
                let k = es[i].0.clone();
                proof {
                    assert(decreases_to!(*v => (*v)->Object_0));
                    assert(decreases_to!(*es => es[i as int]));
                    assert(decreases_to!(es[i as int] => es[i as int].1));
                }
                let c = copy_value(&es[i].1);
                out.push((k, c));
                i = i + 1;
            }
            proof {
                lemma_entry_views(out@);
                lemma_entry_views(es@);
            }
            assert(entry_views(out@) =~= entry_views(es@));
            Value::Object(out)
        },
    }
}

/// Tells whether two values have the same model: structural equality,
/// numbers compared by their text and objects by their entries in order.
pub fn same_value(a: &Value, b: &Value) -> (r: bool)
    ensures
        r == (a@ == b@),
    decreases a,
{
    match (a, b) {
        (Value::Null, Value::Null) => true,
        (Value::Bool(x), Value::Bool(y)) => *x == *y,
        (Value::Number(x), Value::Number(y)) => x.eq(y),
        (Value::String(x), Value::String(y)) => x.eq(y),
        (Value::Array(xs), Value::Array(ys)) => {
            proof {
                lemma_views(xs@);
                lemma_views(ys@);
            }
            if xs.len() != ys.len() {
                assert(views(xs@).len() != views(ys@).len());
                return false;
            }
            let mut i: usize = 0;
            while i < xs.len()
                invariant
                    *a == Value::Array(*xs),
                    *b == Value::Array(*ys),
                    i <= xs.len(),
                    xs.len() == ys.len(),
                    forall|j: int| 0 <= j < i ==> #[trigger] xs@[j]@ == ys@[j]@,
                decreases xs.len() - i,
            {
                proof {
                    assert(decreases_to!(*a => (*a)->Array_0));
                    assert(decreases_to!(*xs => xs[i as int]));
                }
                if !same_value(&xs[i], &ys[i]) {
                    proof {
                        lemma_views(xs@);
                        lemma_views(ys@);
                    }
                    assert(views(xs@)[i as int] != views(ys@)[i as int]);
                    return false;
                }
                i = i + 1;
            }
            proof {
                lemma_views(xs@);
                lemma_views(ys@);
            }
            assert(views(xs@) =~= views(ys@));
            true
        },
        (Value::Object(xs), Value::Object(ys)) => {
            proof {
                lemma_entry_views(xs@);
                lemma_entry_views(ys@);
            }
            if xs.len() != ys.len() {
                assert(entry_views(xs@).len() != entry_views(ys@).len());
                return false;
            }
            let mut i: usize = 0;
            while i < xs.len()
                invariant
                    *a == Value::Object(*xs),
                    *b == Value::Object(*ys),
                    i <= xs.len(),
                    xs.len() == ys.len(),
                    forall|j: int|
                        #![trigger xs@[j]]
                        0 <= j < i ==> xs@[j].0@ == ys@[j].0@ && xs@[j].1@ == ys@[j].1@,
                decreases xs.len() - i,
            {
                proof {
                    assert(decreases_to!(*a => (*a)->Object_0));
                    assert(decreases_to!(*xs => xs[i as int]));
                    assert(decreases_to!(xs[i as int] => xs[i as int].1));
                }
                let same_key = xs[i].0.eq(&ys[i].0);
                if !same_key || !same_value(&xs[i].1, &ys[i].1) {
                    proof {
                        lemma_entry_views(xs@);
                        lemma_entry_views(ys@);
                    }
                    assert(entry_views(xs@)[i as int] != entry_views(ys@)[i as int]);
                    return false;
                }
                i = i + 1;
            }
            proof {
                lemma_entry_views(xs@);
                lemma_entry_views(ys@);
            }
            assert(entry_views(xs@) =~= entry_views(ys@));
            true
        },
        _ => false,
    }
}

} // verus!
