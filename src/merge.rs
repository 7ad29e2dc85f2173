//! The merge operator: combines an older and a newer value into one, under
//! settings that say how arrays and nulls are merged.

use vstd::prelude::*;
use vstd::string::StringExecFns;

use crate::value::{
    copy_value, entry_views, lemma_entry_views, lemma_entry_views_push, lemma_views,
    lemma_views_push, same_value, views, Json, Value,
};

verus! {

broadcast use vstd::std_specs::vec::group_vec_axioms, vstd::seq::group_seq_axioms;

/// How two arrays are merged.
#[derive(Debug, Clone, Copy, PartialEq, Eq, Structural)]
pub enum ArrayBehavior {
    /// The newer items follow the older ones.
    Concat,
    /// Items at the same position are merged; the longer array's tail is kept.
    Merge,
    /// The items of both, in first-seen order, each distinct value once.
    Union,
    /// The newer array replaces the older one.
    Replace,
}

/// How a newer `null` is merged.
#[derive(Debug, Clone, Copy, PartialEq, Eq, Structural)]
pub enum NullBehavior {
    /// A newer `null` replaces the older value.
    Merge,
    /// A newer `null` leaves the older value as it was.
    Ignore,
}

/// How values are merged.
#[derive(Debug, Clone, Copy, PartialEq, Eq, Structural)]
pub struct MergeSettings {
    /// How arrays are merged.
    pub array_behavior: ArrayBehavior,
    /// How a newer `null` is merged.
    pub null_behavior: NullBehavior,
}

impl Default for ArrayBehavior {
    fn default() -> (r: ArrayBehavior)
        ensures
            r == ArrayBehavior::Concat,
    {
        ArrayBehavior::Concat
    }
}

impl Default for NullBehavior {
    fn default() -> (r: NullBehavior)
        ensures
            r == NullBehavior::Merge,
    {
        NullBehavior::Merge
    }
}

impl Default for MergeSettings {
    fn default() -> (r: MergeSettings)
        ensures
            r == default_settings(),
    {
        MergeSettings { array_behavior: ArrayBehavior::Concat, null_behavior: NullBehavior::Merge }
    }
}

/// The default settings: arrays are concatenated and a newer `null` wins.
pub open spec fn default_settings() -> MergeSettings {
    MergeSettings { array_behavior: ArrayBehavior::Concat, null_behavior: NullBehavior::Merge }
}

/// `i` is the first position of `es` whose key is `k`.
pub open spec fn is_first_key(es: Seq<(Seq<char>, Json)>, k: Seq<char>, i: int) -> bool {
    &&& 0 <= i < es.len()
    &&& es[i].0 == k
    &&& forall|j: int| 0 <= j < i ==> es[j].0 != k
}

/// The first position of `es` whose key is `k`, or -1 if there is none.
pub open spec fn first_key(es: Seq<(Seq<char>, Json)>, k: Seq<char>) -> int {
    if exists|i: int| is_first_key(es, k, i) {
        choose|i: int| is_first_key(es, k, i)
    } else {
        -1
    }
}

/// The entries of the newer object whose keys the older one lacks, in the
/// newer object's order.
pub open spec fn newer_only(x: Seq<(Seq<char>, Json)>, y: Seq<(Seq<char>, Json)>) -> Seq<
    (Seq<char>, Json),
> {
    y.filter(absent_from(x))
}

/// Holds of an entry whose key `x` lacks.
pub open spec fn absent_from(x: Seq<(Seq<char>, Json)>) -> spec_fn((Seq<char>, Json)) -> bool {
    |e: (Seq<char>, Json)| first_key(x, e.0) < 0
}

/// The items of `xs`, each distinct item once, at its first position.
pub open spec fn dedup(xs: Seq<Json>) -> Seq<Json>
    decreases xs.len(),
{
    if xs.len() == 0 {
        Seq::empty()
    } else {
        let d = dedup(xs.subrange(0, xs.len() - 1));
        if d.contains(xs[xs.len() - 1]) {
            d
        } else {
            d.push(xs[xs.len() - 1])
        }
    }
}

/// The older object's entries, in order: an entry whose key the newer
/// object also has holds the merge of both values.
pub open spec fn merge_entries(
    s: MergeSettings,
    x: Seq<(Seq<char>, Json)>,
    y: Seq<(Seq<char>, Json)>,
) -> Seq<(Seq<char>, Json)>
    decreases x, 0nat, 0nat,
{
    if x.len() == 0 {
        Seq::empty()
    } else {
        let k = x[x.len() - 1].0;
        let j = first_key(y, k);
        let v = if 0 <= j < y.len() {
            merge_spec(s, x[x.len() - 1].1, y[j].1)
        } else {
            x[x.len() - 1].1
        };
        merge_entries(s, x.subrange(0, x.len() - 1), y).push((k, v))
    }
}

/// The item at position `i` of two arrays merged position by position.
pub open spec fn zip_item(s: MergeSettings, x: Seq<Json>, y: Seq<Json>, i: int) -> Json
    decreases x, 0nat, 0nat,
{
    if 0 <= i < x.len() && i < y.len() {
        merge_spec(s, x[i], y[i])
    } else if 0 <= i < x.len() {
        x[i]
    } else {
        y[i]
    }
}

/// The first `n` items of two arrays merged position by position.
pub open spec fn zip_prefix(s: MergeSettings, x: Seq<Json>, y: Seq<Json>, n: nat) -> Seq<Json>
    decreases x, 1nat, n,
{
    if n == 0 {
        Seq::empty()
    } else {
        zip_prefix(s, x, y, (n - 1) as nat).push(zip_item(s, x, y, n - 1))
    }
}

/// Two arrays merged position by position.
pub open spec fn zip_merge(s: MergeSettings, x: Seq<Json>, y: Seq<Json>) -> Seq<Json>
    decreases x, 2nat, 0nat,
{
    zip_prefix(s, x, y, if x.len() >= y.len() { x.len() } else { y.len() })
}

/// The merge of an older and a newer value.
pub open spec fn merge_spec(s: MergeSettings, older: Json, newer: Json) -> Json
    decreases older, 3nat, 0nat,
{
    if older is Object && newer is Object {
        let x = older->Object_0;
        let y = newer->Object_0;
        Json::Object(merge_entries(s, x, y) + newer_only(x, y))
    } else if older is Array && newer is Array {
        let x = older->Array_0;
        let y = newer->Array_0;
        match s.array_behavior {
            ArrayBehavior::Concat => Json::Array(x + y),
            ArrayBehavior::Merge => Json::Array(zip_merge(s, x, y)),
            ArrayBehavior::Union => Json::Array(dedup(x + y)),
            ArrayBehavior::Replace => Json::Array(y),
        }
    } else if newer is Null {
        match s.null_behavior {
            NullBehavior::Merge => Json::Null,
            NullBehavior::Ignore => older,
        }
    } else {
        newer
    }
}

/// Finds the first entry of `es` under the key `k`.
fn find_key(es: &Vec<(String, Value)>, k: &String) -> (r: Option<usize>)
    ensures
        match r {
            Some(i) => i < es@.len() && first_key(entry_views(es@), k@) == i,
            None => first_key(entry_views(es@), k@) == -1,
        },
{
    let ghost ev = entry_views(es@);
    proof {
        lemma_entry_views(es@);
    }
    let mut i: usize = 0;
    while i < es.len()
        invariant
            ev == entry_views(es@),
            ev.len() == es@.len(),
            i <= es@.len(),
            forall|j: int| 0 <= j < i ==> #[trigger] ev[j].0 != k@,
            forall|j: int| 0 <= j < es@.len() ==> #[trigger] ev[j] == (es@[j].0@, es@[j].1@),
        decreases es.len() - i,
    {
        if es[i].0.eq(k) {
            assert(is_first_key(ev, k@, i as int));
            assert forall|m: int| is_first_key(ev, k@, m) implies m == i by {
                if m < i {
                } else if m > i {
                    assert(ev[i as int].0 == k@);
                }
            }
            return Some(i);
        }
        assert(ev[i as int].0 != k@);
        i = i + 1;
    }
    assert(!exists|m: int| is_first_key(ev, k@, m));
    None
}

/// Appends copies of the values of `xs` to `out`.
fn copy_all(xs: &Vec<Value>, out: &mut Vec<Value>)
    ensures
        views(final(out)@) == views(old(out)@) + views(xs@),
{
    let ghost start = views(out@);
    proof {
        lemma_views(xs@);
    }
    let mut i: usize = 0;
    while i < xs.len()
        invariant
            i <= xs@.len(),
            views(xs@).len() == xs@.len(),
            forall|j: int| 0 <= j < xs@.len() ==> #[trigger] views(xs@)[j] == xs@[j]@,
            views(out@) == start + views(xs@).subrange(0, i as int),
        decreases xs.len() - i,
    {
        let c = copy_value(&xs[i]);
        proof {
            lemma_views_push(out@, c);
            assert(views(xs@).subrange(0, i + 1) =~= views(xs@).subrange(0, i as int).push(
                c@,
            ));
        }
        out.push(c);
        i = i + 1;
    }
    assert(views(xs@).subrange(0, i as int) =~= views(xs@));
}

/// Tells whether a value with the model of `v` is among `out`.
fn contains_value(out: &Vec<Value>, v: &Value) -> (r: bool)
    ensures
        r == views(out@).contains(v@),
{
    proof {
        lemma_views(out@);
    }
    let mut i: usize = 0;
    while i < out.len()
        invariant
            i <= out@.len(),
            views(out@).len() == out@.len(),
            forall|j: int| 0 <= j < out@.len() ==> #[trigger] views(out@)[j] == out@[j]@,
            forall|j: int| 0 <= j < i ==> #[trigger] views(out@)[j] != v@,
        decreases out.len() - i,
    {
        if same_value(&out[i], v) {
            assert(views(out@)[i as int] == v@);
            return true;
        }
        i = i + 1;
    }
    false
}

/// The items of `x` followed by those of `y`, each distinct one once.
fn union_values(x: &Vec<Value>, y: &Vec<Value>) -> (r: Vec<Value>)
    ensures
        views(r@) == dedup(views(x@) + views(y@)),
{
    let ghost all = views(x@) + views(y@);
    proof {
        lemma_views(x@);
        lemma_views(y@);
    }
    let mut out: Vec<Value> = Vec::new();
    let n = x.len();
    let m = y.len();
    let mut i: usize = 0;
    proof {
        assert(all.subrange(0, 0) =~= Seq::<Json>::empty());
        assert(views(out@) =~= Seq::<Json>::empty());
    }
    while i < n
        invariant
            n == x@.len(),
            m == y@.len(),
            i <= n,
            all == views(x@) + views(y@),
            views(x@).len() == n,
            views(y@).len() == m,
            forall|j: int| 0 <= j < n ==> #[trigger] views(x@)[j] == x@[j]@,
            views(out@) == dedup(all.subrange(0, i as int)),
        decreases n - i,
    {
        let item = &x[i];
        assert(item@ == all[i as int]);
        union_step(&mut out, item, Ghost(all), Ghost(i as int));
        i = i + 1;
    }
    let mut j: usize = 0;
    while j < m
        invariant
            n == x@.len(),
            m == y@.len(),
            j <= m,
            all == views(x@) + views(y@),
            views(x@).len() == n,
            views(y@).len() == m,
            forall|k: int| 0 <= k < m ==> #[trigger] views(y@)[k] == y@[k]@,
            views(out@) == dedup(all.subrange(0, n + j)),
        decreases m - j,
    {
        let item = &y[j];
        assert(item@ == all[n + j]);
        union_step(&mut out, item, Ghost(all), Ghost(n + j));
        j = j + 1;
    }
    assert(all.subrange(0, n + m) =~= all);
    out
}

/// Extends the distinct items of the first `i` items of `all` by item `i`.
fn union_step(out: &mut Vec<Value>, item: &Value, all: Ghost<Seq<Json>>, i: Ghost<int>)
    requires
        0 <= i@ < all@.len(),
        item@ == all@[i@],
        views(old(out)@) == dedup(all@.subrange(0, i@)),
    ensures
        views(final(out)@) == dedup(all@.subrange(0, i@ + 1)),
{
    let seen = contains_value(out, item);
    let ghost p = all@.subrange(0, i@ + 1);
    assert(p.subrange(0, p.len() - 1) =~= all@.subrange(0, i@));
    assert(p[p.len() - 1] == all@[i@]);
    if !seen {
        let c = copy_value(item);
        proof {
            lemma_views_push(out@, c);
        }
        out.push(c);
    }
}

/// The merge of an older and a newer value, built from copies of their parts.
fn merge_values(s: MergeSettings, older: &Value, newer: &Value) -> (r: Value)
    ensures
        r@ == merge_spec(s, older@, newer@),
    decreases older,
{
    match (older, newer) {
        (Value::Object(x), Value::Object(y)) => {
            let ghost xv = entry_views(x@);
            let ghost yv = entry_views(y@);
            proof {
                lemma_entry_views(x@);
                lemma_entry_views(y@);
            }
            let mut out: Vec<(String, Value)> = Vec::new();
            let mut i: usize = 0;
            proof {
                assert(xv.subrange(0, 0) =~= Seq::<(Seq<char>, Json)>::empty());
                assert(entry_views(out@) =~= Seq::<(Seq<char>, Json)>::empty());
            }
            while i < x.len()
                invariant
                    *older == Value::Object(*x),
                    xv == entry_views(x@),
                    yv == entry_views(y@),
                    xv.len() == x@.len(),
                    yv.len() == y@.len(),
                    forall|j: int| 0 <= j < x@.len() ==> #[trigger] xv[j] == (x@[j].0@, x@[j].1@),
                    forall|j: int| 0 <= j < y@.len() ==> #[trigger] yv[j] == (y@[j].0@, y@[j].1@),
                    i <= x@.len(),
                    entry_views(out@) == merge_entries(s, xv.subrange(0, i as int), yv),
                decreases x.len() - i,
            {
                let k = x[i].0.clone();
                let v = match find_key(y, &k) {
                    Some(j) => {
                        proof {
                            assert(decreases_to!(*older => (*older)->Object_0));
                            assert(decreases_to!(*x => x[i as int]));
                            assert(decreases_to!(x[i as int] => x[i as int].1));
                        }
                        merge_values(s, &x[i].1, &y[j].1)
                    },
                    None => copy_value(&x[i].1),
                };
                let ghost p = xv.subrange(0, i + 1);
                assert(p.subrange(0, p.len() - 1) =~= xv.subrange(0, i as int));
                assert(p[p.len() - 1] == xv[i as int]);
                proof {
                    lemma_entry_views_push(out@, (k, v));
                }
                out.push((k, v));
                i = i + 1;
            }
            assert(xv.subrange(0, x@.len() as int) =~= xv);
            let ghost base = entry_views(out@);
            let mut j: usize = 0;
            proof {
                reveal(Seq::filter);
                assert(yv.subrange(0, 0).filter(absent_from(xv)) =~= Seq::<(Seq<char>, Json)>::empty());
                assert(entry_views(out@) =~= base + Seq::<(Seq<char>, Json)>::empty());
            }
            while j < y.len()
                invariant
                    xv == entry_views(x@),
                    yv == entry_views(y@),
                    yv.len() == y@.len(),
                    forall|m: int| 0 <= m < y@.len() ==> #[trigger] yv[m] == (y@[m].0@, y@[m].1@),
                    j <= y@.len(),
                    entry_views(out@) == base + yv.subrange(0, j as int).filter(absent_from(xv)),
                decreases y.len() - j,
            {
                proof {
                    assert(yv.subrange(0, j + 1) =~= yv.subrange(0, j as int).push(yv[j as int]));
                    yv.subrange(0, j as int).lemma_filter_push(yv[j as int], absent_from(xv));
                }
                if find_key(x, &y[j].0).is_none() {
                    let k = y[j].0.clone();
                    let v = copy_value(&y[j].1);
                    proof {
                        lemma_entry_views_push(out@, (k, v));
                    }
                    out.push((k, v));
                }
                j = j + 1;
            }
            assert(yv.subrange(0, y@.len() as int) =~= yv);
            Value::Object(out)
        },
        (Value::Array(x), Value::Array(y)) => {
            match s.array_behavior {
                ArrayBehavior::Concat => {
                    let mut out: Vec<Value> = Vec::new();
                    assert(views(out@) =~= Seq::<Json>::empty());
                    copy_all(x, &mut out);
                    copy_all(y, &mut out);
                    assert(views(out@) =~= views(x@) + views(y@));
                    Value::Array(out)
                },
                ArrayBehavior::Merge => {
                    let ghost xv = views(x@);
                    let ghost yv = views(y@);
                    proof {
                        lemma_views(x@);
                        lemma_views(y@);
                    }
                    let n = x.len();
                    let m = y.len();
                    let len = if n >= m {
                        n
                    } else {
                        m
                    };
                    let mut out: Vec<Value> = Vec::new();
                    let mut i: usize = 0;
                    assert(views(out@) =~= zip_prefix(s, xv, yv, 0));
                    while i < len
                        invariant
                            *older == Value::Array(*x),
                            n == x@.len(),
                            m == y@.len(),
                            len == (if n >= m { n } else { m }),
                            xv == views(x@),
                            yv == views(y@),
                            xv.len() == n,
                            yv.len() == m,
                            forall|j: int| 0 <= j < n ==> #[trigger] xv[j] == x@[j]@,
                            forall|j: int| 0 <= j < m ==> #[trigger] yv[j] == y@[j]@,
                            i <= len,
                            views(out@) == zip_prefix(s, xv, yv, i as nat),
                        decreases len - i,
                    {
                        let v = if i < n && i < m {
                            proof {
                                assert(decreases_to!(*older => (*older)->Array_0));
                                assert(decreases_to!(*x => x[i as int]));
                            }
                            merge_values(s, &x[i], &y[i])
                        } else if i < n {
                            copy_value(&x[i])
                        } else {
                            copy_value(&y[i])
                        };
                        assert(v@ == zip_item(s, xv, yv, i as int));
                        proof {
                            lemma_views_push(out@, v);
                        }
                        out.push(v);
                        i = i + 1;
                    }
                    Value::Array(out)
                },
                ArrayBehavior::Union => Value::Array(union_values(x, y)),
                ArrayBehavior::Replace => copy_value(newer),
            }
        },
        (_, Value::Null) => match s.null_behavior {
            NullBehavior::Merge => Value::Null,
            NullBehavior::Ignore => copy_value(older),
        },
        _ => copy_value(newer),
    }
}

/// With newer nulls ignored, merging `null` onto a value leaves the value,
/// and merging a value onto `null` gives the value.
pub proof fn lemma_null_ignore_identity(s: MergeSettings, v: Json)
    requires
        s.null_behavior == NullBehavior::Ignore,
    ensures
        merge_spec(s, v, Json::Null) == v,
        merge_spec(s, Json::Null, v) == v,
{
}

/// With arrays replaced, merging the same newer array again changes
/// nothing.
pub proof fn lemma_replace_idempotent(s: MergeSettings, a: Json, b: Json)
    requires
        s.array_behavior == ArrayBehavior::Replace,
        a is Array,
        b is Array,
    ensures
        merge_spec(s, merge_spec(s, a, b), b) == merge_spec(s, a, b),
{
}

/// Merging the same newer scalar (null, boolean, number or string) again
/// changes nothing.
pub proof fn lemma_scalar_idempotent(s: MergeSettings, a: Json, b: Json)
    requires
        !(b is Array),
        !(b is Object),
    ensures
        merge_spec(s, merge_spec(s, a, b), b) == merge_spec(s, a, b),
{
}

impl ArrayBehavior {
    /// The behavior named `name`: `concat`, `merge`, `union` or `replace`.
    pub fn from_name(name: &str) -> (r: Option<ArrayBehavior>)
        ensures
            name@ == "concat"@ ==> r == Some(ArrayBehavior::Concat),
            name@ == "merge"@ ==> r == Some(ArrayBehavior::Merge),
            name@ == "union"@ ==> r == Some(ArrayBehavior::Union),
            name@ == "replace"@ ==> r == Some(ArrayBehavior::Replace),
            r is None <==> (name@ != "concat"@ && name@ != "merge"@ && name@ != "union"@ && name@
                != "replace"@),
    {
        proof {
            reveal_strlit("concat");
            reveal_strlit("merge");
            reveal_strlit("union");
            reveal_strlit("replace");
            assert("merge"@.len() != "concat"@.len());
            assert("union"@.len() != "concat"@.len());
            assert("replace"@.len() != "concat"@.len());
            assert("replace"@.len() != "merge"@.len());
            assert("replace"@.len() != "union"@.len());
            assert("union"@[0] != "merge"@[0]);
        }
        let n = String::from_str(name);
        if n == String::from_str("concat") {
            Some(ArrayBehavior::Concat)
        } else if n == String::from_str("merge") {
            Some(ArrayBehavior::Merge)
        } else if n == String::from_str("union") {
            Some(ArrayBehavior::Union)
        } else if n == String::from_str("replace") {
            Some(ArrayBehavior::Replace)
        } else {
            None
        }
    }
}

impl NullBehavior {
    /// The behavior named `name`: `merge` or `ignore`.
    pub fn from_name(name: &str) -> (r: Option<NullBehavior>)
        ensures
            name@ == "merge"@ ==> r == Some(NullBehavior::Merge),
            name@ == "ignore"@ ==> r == Some(NullBehavior::Ignore),
            r is None <==> (name@ != "merge"@ && name@ != "ignore"@),
    {
        proof {
            reveal_strlit("merge");
            reveal_strlit("ignore");
            assert("ignore"@.len() != "merge"@.len());
        }
        let n = String::from_str(name);
        if n == String::from_str("merge") {
            Some(NullBehavior::Merge)
        } else if n == String::from_str("ignore") {
            Some(NullBehavior::Ignore)
        } else {
            None
        }
    }
}

impl MergeSettings {
    /// Merges two values, the second being the more recent.
    ///
    /// Two objects give the ordered union of their keys: the older object's
    /// keys first, in its order, each shared key holding the merge of both
    /// values, then the newer object's own keys in its order. Two arrays are
    /// merged as `array_behavior` says. A newer `null` is merged as
    /// `null_behavior` says. Otherwise the newer value wins.
    pub fn merge(self, accum: Value, value: Value) -> (r: Value)
        ensures
            r@ == merge_spec(self, accum@, value@),
    {
        merge_values(self, &accum, &value)
    }
}

} // verus!
