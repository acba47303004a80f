//! The document tree: the representation for templates and variable values,
//! with its mathematical model.

use vstd::prelude::*;

verus! {

broadcast use {
    vstd::seq::axiom_seq_index_decreases,
    vstd::seq::axiom_seq_subrange_decreases,
    vstd::std_specs::vec::group_vec_axioms,
};

/// A document node: `Null`, a scalar, an ordered sequence, or a mapping of
/// string keys to nodes (insertion order preserved).
#[derive(Debug, PartialEq, Eq)]
pub enum Value {
    Null,
    Bool(bool),
    Number(i64),
    Str(String),
    Sequence(Vec<Value>),
    Mapping(Vec<(String, Value)>),
}

/// The mathematical model of a document node.
pub ghost enum ValueModel {
    Null,
    Bool(bool),
    Number(int),
    Str(Seq<char>),
    Sequence(Seq<ValueModel>),
    Mapping(Seq<(Seq<char>, ValueModel)>),
}

/// The models of a sequence of items, in order.
pub open spec fn items_model(es: Seq<Value>) -> Seq<ValueModel>
    decreases es,
{
    if es.len() == 0 {
        Seq::empty()
    } else {
        seq![es[0].model()] + items_model(es.drop_first())
    }
}

/// The models of a sequence of mapping entries, in order.
pub open spec fn entries_model(es: Seq<(String, Value)>) -> Seq<(Seq<char>, ValueModel)>
    decreases es,
{
    if es.len() == 0 {
        Seq::empty()
    } else {
        seq![(es[0].0@, es[0].1.model())] + entries_model(es.drop_first())
    }
}

impl Value {
    /// The model of this node.
    pub open spec fn model(self) -> ValueModel
        decreases self,
    {
        match self {
            Value::Null => ValueModel::Null,
            Value::Bool(b) => ValueModel::Bool(b),
            Value::Number(n) => ValueModel::Number(n as int),
            Value::Str(s) => ValueModel::Str(s@),
            Value::Sequence(items) => ValueModel::Sequence(items_model(items@)),
            Value::Mapping(entries) => ValueModel::Mapping(entries_model(entries@)),
        }
    }
}

/// `items_model` keeps the length.
pub broadcast proof fn lemma_items_model_len(es: Seq<Value>)
    ensures
        (#[trigger] items_model(es)).len() == es.len(),
    decreases es,
{
    if es.len() > 0 {
        lemma_items_model_len(es.drop_first());
    }
}

/// `items_model` maps each item to its model.
pub broadcast proof fn lemma_items_model_index(es: Seq<Value>, i: int)
    requires
        0 <= i < es.len(),
    ensures
        #[trigger] items_model(es)[i] == es[i].model(),
    decreases es,
{
    lemma_items_model_len(es);
    if i > 0 {
        lemma_items_model_index(es.drop_first(), i - 1);
    }
}

/// `entries_model` keeps the length.
pub broadcast proof fn lemma_entries_model_len(es: Seq<(String, Value)>)
    ensures
        (#[trigger] entries_model(es)).len() == es.len(),
    decreases es,
{
    if es.len() > 0 {
        lemma_entries_model_len(es.drop_first());
    }
}

/// `entries_model` maps each entry to its key's and value's models.
pub broadcast proof fn lemma_entries_model_index(es: Seq<(String, Value)>, i: int)
    requires
        0 <= i < es.len(),
    ensures
        #[trigger] entries_model(es)[i] == (es[i].0@, es[i].1.model()),
    decreases es,
{
    lemma_entries_model_len(es);
    if i > 0 {
        lemma_entries_model_index(es.drop_first(), i - 1);
    }
}

/// The four `items_model` / `entries_model` shape lemmas.
pub broadcast group group_model_lemmas {
    lemma_items_model_len,
    lemma_items_model_index,
    lemma_entries_model_len,
    lemma_entries_model_index,
}

impl Value {
    /// Returns a copy of this node with the same model.
    pub fn duplicate(&self) -> (r: Value)
        ensures
            r.model() == self.model(),
        decreases self,
    {
        match self {
            Value::Null => Value::Null,
            Value::Bool(b) => Value::Bool(*b),
            Value::Number(n) => Value::Number(*n),
            Value::Str(s) => Value::Str(s.clone()),
            Value::Sequence(items) => {
                let mut out: Vec<Value> = Vec::new();
                let mut i: usize = 0;
                while i < items.len()
                    invariant
                        *self == Value::Sequence(*items),
                        i <= items@.len(),
                        out@.len() == i,
                        forall|j: int| 0 <= j < i ==> out@[j].model() == items@[j].model(),
                    decreases items@.len() - i,
                {
                    proof {
                        assert(decreases_to!(*self => self->Sequence_0));
                    }
                    let d = items[i].duplicate();
                    out.push(d);
                    i += 1;
                }
                proof {
                    lemma_items_model_len(out@);
                    lemma_items_model_len(items@);
                    assert forall|j: int| 0 <= j < items@.len() implies items_model(out@)[j]
                        == items_model(items@)[j] by {
                        lemma_items_model_index(out@, j);
                        lemma_items_model_index(items@, j);
                    }
                    assert(items_model(out@) =~= items_model(items@));
                }
                Value::Sequence(out)
            },
            Value::Mapping(entries) => {
                let mut out: Vec<(String, Value)> = Vec::new();
                let mut i: usize = 0;
                while i < entries.len()
                    invariant
                        *self == Value::Mapping(*entries),
                        i <= entries@.len(),
                        out@.len() == i,
                        forall|j: int| 0 <= j < i ==> out@[j].0@ == entries@[j].0@ && out@[
                            j
                        ].1.model() == entries@[j].1.model(),
                    decreases entries@.len() - i,
                {
                    let k = entries[i].0.clone();
                    proof {
                        assert(decreases_to!(*self => self->Mapping_0));
                    }
                    let d = entries[i].1.duplicate();
                    out.push((k, d));
                    i += 1;
                }
                proof {
                    lemma_entries_model_len(out@);
                    lemma_entries_model_len(entries@);
                    assert forall|j: int| 0 <= j < entries@.len() implies entries_model(out@)[j]
                        == entries_model(entries@)[j] by {
                        lemma_entries_model_index(out@, j);
                        lemma_entries_model_index(entries@, j);
                    }
                    assert(entries_model(out@) =~= entries_model(entries@));
                }
                Value::Mapping(out)
            },
        }
    }
}

/// The string payload of a `Str` node, or `None` for any other node.
pub open spec fn string_value_spec(v: ValueModel) -> Option<Seq<char>> {
    match v {
        ValueModel::Str(s) => Some(s),
        _ => None,
    }
}

/// Returns the string payload of a `Str` node.
pub fn string_value(input: &Value) -> (r: Option<String>)
    ensures
        match r {
            Option::Some(s) => string_value_spec(input.model()) == Some(s@),
            Option::None => string_value_spec(input.model()) is None,
        },
{
    if let Value::Str(s) = input {
        Some(s.clone())
    } else {
        None
    }
}

/// The index of the first entry whose key is `k`, or `es.len()` when no
/// entry has that key.
pub open spec fn key_index(es: Seq<(Seq<char>, ValueModel)>, k: Seq<char>) -> int
    decreases es.len(),
{
    if es.len() == 0 {
        0
    } else if es[0].0 == k {
        0
    } else {
        1 + key_index(es.drop_first(), k)
    }
}

/// What `key_index` returns: the position of the first entry keyed `k`.
pub proof fn lemma_key_index(es: Seq<(Seq<char>, ValueModel)>, k: Seq<char>)
    ensures
        0 <= key_index(es, k) <= es.len(),
        key_index(es, k) < es.len() ==> es[key_index(es, k)].0 == k,
        forall|j: int| 0 <= j < key_index(es, k) ==> (#[trigger] es[j]).0 != k,
    decreases es.len(),
{
    if es.len() > 0 && es[0].0 != k {
        let t = es.drop_first();
        lemma_key_index(t, k);
        assert forall|j: int| 0 <= j < key_index(es, k) implies (#[trigger] es[j]).0 != k by {
            if j > 0 {
                assert(t[j - 1] == es[j]);
            }
        }
    }
}

/// Whether some entry has key `k`.
pub open spec fn entries_has_key(es: Seq<(Seq<char>, ValueModel)>, k: Seq<char>) -> bool {
    key_index(es, k) < es.len()
}

/// The value of the first entry keyed `k`.
pub open spec fn entries_get(es: Seq<(Seq<char>, ValueModel)>, k: Seq<char>) -> Option<ValueModel> {
    if entries_has_key(es, k) {
        Some(es[key_index(es, k)].1)
    } else {
        None
    }
}

/// `es` with the value of the first entry keyed `k` replaced in place.
pub open spec fn entries_set(
    es: Seq<(Seq<char>, ValueModel)>,
    k: Seq<char>,
    v: ValueModel,
) -> Seq<(Seq<char>, ValueModel)> {
    es.update(key_index(es, k), (k, v))
}

/// `es` with the first entry keyed `k` removed.
pub open spec fn entries_remove(
    es: Seq<(Seq<char>, ValueModel)>,
    k: Seq<char>,
) -> Seq<(Seq<char>, ValueModel)> {
    es.remove(key_index(es, k))
}

/// The finite map holding, for each key, the value of its first entry.
pub open spec fn map_of(es: Seq<(Seq<char>, ValueModel)>) -> Map<Seq<char>, ValueModel> {
    Map::new(|k: Seq<char>| entries_has_key(es, k), |k: Seq<char>| es[key_index(es, k)].1)
}

/// `key_index` looks only at the keys, not the values.
proof fn lemma_key_index_same_keys(
    a: Seq<(Seq<char>, ValueModel)>,
    b: Seq<(Seq<char>, ValueModel)>,
    q: Seq<char>,
)
    requires
        a.len() == b.len(),
        forall|j: int| 0 <= j < a.len() ==> (#[trigger] a[j]).0 == b[j].0,
    ensures
        key_index(a, q) == key_index(b, q),
    decreases a.len(),
{
    if a.len() > 0 && a[0].0 != q {
        let ta = a.drop_first();
        let tb = b.drop_first();
        assert(forall|j: int| 0 <= j < ta.len() ==> (#[trigger] ta[j]).0 == tb[j].0) by {
            assert(forall|j: int|
                0 <= j < ta.len() ==> #[trigger] ta[j] == a[j + 1] && tb[j] == b[j + 1]);
        }
        lemma_key_index_same_keys(ta, tb, q);
    }
}

/// Replacing the first entry keyed `k` in place is `Map::insert`.
pub proof fn lemma_map_of_set(es: Seq<(Seq<char>, ValueModel)>, k: Seq<char>, v: ValueModel)
    requires
        entries_has_key(es, k),
    ensures
        map_of(entries_set(es, k, v)) == map_of(es).insert(k, v),
{
    let ki = key_index(es, k);
    lemma_key_index(es, k);
    let es2 = entries_set(es, k, v);
    assert(forall|j: int| 0 <= j < es.len() ==> (#[trigger] es[j]).0 == es2[j].0);
    assert forall|q: Seq<char>| true implies key_index(es2, q) == key_index(es, q) by {
        lemma_key_index_same_keys(es, es2, q);
    }
    assert forall|q: Seq<char>| entries_has_key(es2, q) && q != k implies es2[key_index(es2, q)].1
        == es[key_index(es, q)].1 by {
        lemma_key_index(es, q);
    }
    assert(map_of(es2) =~= map_of(es).insert(k, v));
}

/// What `entries_get` is after an in-place replacement.
pub proof fn lemma_entries_set_get(
    es: Seq<(Seq<char>, ValueModel)>,
    k: Seq<char>,
    v: ValueModel,
    q: Seq<char>,
)
    requires
        entries_has_key(es, k),
    ensures
        entries_get(entries_set(es, k, v), q) == (if q == k {
            Some(v)
        } else {
            entries_get(es, q)
        }),
{
    let ki = key_index(es, k);
    lemma_key_index(es, k);
    let es2 = entries_set(es, k, v);
    assert(forall|j: int| 0 <= j < es.len() ==> (#[trigger] es[j]).0 == es2[j].0);
    lemma_key_index_same_keys(es, es2, q);
    lemma_key_index(es, q);
}

/// What `key_index` is on a sequence extended by one entry.
proof fn lemma_key_index_push(es: Seq<(Seq<char>, ValueModel)>, e: (Seq<char>, ValueModel), q: Seq<char>)
    ensures
        key_index(es.push(e), q) == (if entries_has_key(es, q) {
            key_index(es, q)
        } else if e.0 == q {
            es.len() as int
        } else {
            es.len() as int + 1
        }),
    decreases es.len(),
{
    lemma_key_index(es, q);
    if es.len() == 0 {
        assert(es.push(e)[0] == e);
        if e.0 != q {
            assert(es.push(e).drop_first() =~= es);
        }
    } else {
        assert(es.push(e)[0] == es[0]);
        if es[0].0 != q {
            assert(es.push(e).drop_first() =~= es.drop_first().push(e));
            lemma_key_index_push(es.drop_first(), e, q);
        }
    }
}

/// Which keys a sequence extended by one entry has.
pub proof fn lemma_entries_push_has_key(
    es: Seq<(Seq<char>, ValueModel)>,
    e: (Seq<char>, ValueModel),
    q: Seq<char>,
)
    ensures
        entries_has_key(es.push(e), q) == (entries_has_key(es, q) || e.0 == q),
{
    lemma_key_index_push(es, e, q);
    lemma_key_index(es, q);
}

/// Appending an entry with a fresh key is `Map::insert`.
pub proof fn lemma_map_of_push(es: Seq<(Seq<char>, ValueModel)>, k: Seq<char>, v: ValueModel)
    requires
        !entries_has_key(es, k),
    ensures
        map_of(es.push((k, v))) == map_of(es).insert(k, v),
{
    let es2 = es.push((k, v));
    assert forall|q: Seq<char>| true implies (entries_has_key(es2, q) == (entries_has_key(es, q)
        || q == k)) && (entries_has_key(es2, q) ==> es2[key_index(es2, q)].1 == (if q == k {
        v
    } else {
        es[key_index(es, q)].1
    })) by {
        lemma_key_index_push(es, (k, v), q);
        lemma_key_index(es, q);
    }
    assert(map_of(es2) =~= map_of(es).insert(k, v));
}

/// The head entry of a list shadows the rest: `map_of` unfolds by `insert`.
pub proof fn lemma_map_of_unfold(es: Seq<(Seq<char>, ValueModel)>)
    requires
        es.len() > 0,
    ensures
        map_of(es) == map_of(es.drop_first()).insert(es[0].0, es[0].1),
{
    let t = es.drop_first();
    assert forall|q: Seq<char>| q != es[0].0 implies key_index(es, q) == 1 + key_index(t, q)
        && (entries_has_key(es, q) ==> es[key_index(es, q)] == t[key_index(t, q)]) by {
        lemma_key_index(t, q);
    }
    assert(map_of(es) =~= map_of(t).insert(es[0].0, es[0].1));
}

/// Finds the position of the first entry whose key is `k`.
pub fn entries_find(es: &Vec<(String, Value)>, k: &str) -> (r: Option<usize>)
    ensures
        match r {
            Option::Some(i) => i == key_index(entries_model(es@), k@) && i < es@.len(),
            Option::None => !entries_has_key(entries_model(es@), k@),
        },
{
    let ghost em = entries_model(es@);
    proof {
        lemma_entries_model_len(es@);
    }
    let mut i: usize = 0;
    while i < es.len()
        invariant
            i <= es@.len(),
            em == entries_model(es@),
            em.len() == es@.len(),
            forall|j: int| 0 <= j < i ==> (#[trigger] em[j]).0 != k@,
        decreases es@.len() - i,
    {
        proof {
            lemma_entries_model_index(es@, i as int);
        }
        if crate::strings::str_eq(es[i].0.as_str(), k) {
            proof {
                lemma_key_index(em, k@);
                assert(em[i as int].0 == k@);
                let ki = key_index(em, k@);
                if ki < i {
                    assert(em[ki].0 != k@);
                } else if ki > i {
                    assert(em[i as int].0 != k@);
                }
            }
            return Some(i);
        }
        i += 1;
    }
    proof {
        lemma_key_index(em, k@);
        let ki = key_index(em, k@);
        if ki < em.len() {
            assert(em[ki].0 != k@);
        }
    }
    None
}

} // verus!
