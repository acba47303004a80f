//! The reference resolver and the expansion engine: hierarchical wildcard
//! fallback, runtime deferral, `(( name ))` interpolation, and deterministic
//! mapping-key ordering.

use vstd::prelude::*;
use vstd::string::StrSliceExecFns;
use vstd::string::StringExecFns;
use crate::canon::canon_json;
use crate::errors::Error;
use crate::source::{muts_model, path_model, VariableSource};
use crate::strings::{
    dec_int, find_double, lex_le, lemma_lex_le_total, lemma_lex_le_trans, str_le, str_starts_with,
    str_ends_with, str_trim, str_find_double, trim_spec,
};
use crate::value::{
    entries_model, items_model, lemma_entries_model_index, lemma_entries_model_len,
    lemma_items_model_index, Value, ValueModel,
};

verus! {

broadcast use {
    vstd::seq::axiom_seq_index_decreases,
    vstd::seq::axiom_seq_subrange_decreases,
    vstd::std_specs::vec::group_vec_axioms,
    crate::value::group_model_lemmas,
};

/// One deployment target: its combined definitions and the namespace
/// prefixes whose values are intentionally absent until runtime.
#[derive(Debug)]
pub struct Environment {
    pub definitions: VariableSource,
    pub expected_runtime_lookup_prefixes: Vec<String>,
}

/// The model of an environment.
pub ghost struct EnvModel {
    pub defs: Map<Seq<char>, ValueModel>,
    pub muts: Seq<crate::source::MutationModel>,
    pub prefixes: Seq<Seq<char>>,
}

impl Environment {
    /// The model of this environment.
    pub open spec fn model(self) -> EnvModel {
        EnvModel {
            defs: self.definitions.definitions.model(),
            muts: muts_model(self.definitions.mutations@),
            prefixes: path_model(self.expected_runtime_lookup_prefixes@),
        }
    }
}

/// The position of the last `/` in a name, if any.
pub open spec fn last_slash(s: Seq<char>) -> Option<int>
    decreases s.len(),
{
    if s.len() == 0 {
        None
    } else if s.last() == '/' {
        Some(s.len() - 1)
    } else {
        last_slash(s.drop_last())
    }
}

/// What `last_slash` returns.
pub proof fn lemma_last_slash(s: Seq<char>)
    ensures
        match last_slash(s) {
            Option::Some(i) => 0 <= i < s.len() && s[i] == '/' && (forall|j: int|
                i < j < s.len() ==> s[j] != '/'),
            Option::None => forall|j: int| 0 <= j < s.len() ==> s[j] != '/',
        },
    decreases s.len(),
{
    if s.len() > 0 && s.last() != '/' {
        let t = s.drop_last();
        lemma_last_slash(t);
        match last_slash(t) {
            Option::Some(k) => {
                assert(s[k] == t[k]);
                assert forall|j: int| k < j < s.len() implies s[j] != '/' by {
                    if j < s.len() - 1 {
                        assert(t[j] == s[j]);
                    }
                }
            },
            Option::None => {
                assert forall|j: int| 0 <= j < s.len() implies s[j] != '/' by {
                    if j < s.len() - 1 {
                        assert(t[j] == s[j]);
                    }
                }
            },
        }
    }
}

/// Tries ancestor wildcards, longest namespace first: `ns/*`, then the same
/// for each shorter ancestor of `ns`.
pub open spec fn fallback_spec(defs: Map<Seq<char>, ValueModel>, ns: Seq<char>) -> Option<
    ValueModel,
>
    decreases ns.len(),
{
    let wc = ns + seq!['/', '*'];
    if defs.contains_key(wc) {
        Some(defs[wc])
    } else {
        match last_slash(ns) {
            Option::Some(i) => if 0 <= i < ns.len() {
                fallback_spec(defs, ns.take(i))
            } else {
                None
            },
            Option::None => None,
        }
    }
}

/// Hierarchical lookup: the exact name, else ancestor wildcards from the
/// nearest namespace outward.
pub open spec fn lookup_spec(defs: Map<Seq<char>, ValueModel>, name: Seq<char>) -> Option<
    ValueModel,
> {
    if defs.contains_key(name) {
        Some(defs[name])
    } else {
        match last_slash(name) {
            Option::Some(i) => if 0 <= i < name.len() {
                fallback_spec(defs, name.take(i))
            } else {
                None
            },
            Option::None => None,
        }
    }
}

/// Finds the position of the last `/` in a string.
fn str_last_slash(s: &str) -> (r: Option<usize>)
    ensures
        match r {
            Option::Some(i) => last_slash(s@) == Some(i as int),
            Option::None => last_slash(s@) is None,
        },
{
    let slen = s.unicode_len();
    let mut i: usize = slen;
    while i > 0
        invariant
            i <= slen,
            slen == s@.len(),
            forall|j: int| i <= j < slen ==> s@[j] != '/',
        decreases i,
    {
        i -= 1;
        if s.get_char(i) == '/' {
            proof {
                lemma_last_slash(s@);
                match last_slash(s@) {
                    Option::Some(k) => {
                        if k < i {
                            assert(s@[i as int] != '/');
                        } else if k > i {
                            assert(s@[k] != '/');
                        }
                    },
                    Option::None => {
                        assert(s@[i as int] != '/');
                    },
                }
            }
            return Some(i);
        }
    }
    proof {
        lemma_last_slash(s@);
        match last_slash(s@) {
            Option::Some(k) => {
                assert(s@[k] != '/');
            },
            Option::None => {},
        }
    }
    None
}

/// Looks a reference name up, with hierarchical wildcard fallback.
#[verifier::loop_isolation(false)]
pub fn lookup_value(defs: &crate::source::Definitions, name: &str) -> (r: Option<Value>)
    ensures
        match r {
            Option::Some(v) => lookup_spec(defs.model(), name@) == Some(v.model()),
            Option::None => lookup_spec(defs.model(), name@) is None,
        },
{
    match defs.get(name) {
        Option::Some(v) => {
            return Some(v.duplicate());
        },
        Option::None => {},
    }
    let mut ns: String;
    match str_last_slash(name) {
        Option::Some(i) => {
            proof {
                lemma_last_slash(name@);
            }
            ns = name.substring_char(0, i).to_owned();
            proof {
                assert(ns@ =~= name@.take(i as int));
            }
        },
        Option::None => {
            return None;
        },
    }
    loop
        invariant
            lookup_spec(defs.model(), name@) == fallback_spec(defs.model(), ns@),
        decreases ns@.len(),
    {
        let wc = ns.clone().concat("/*");
        proof {
            reveal_strlit("/*");
            assert(wc@ =~= ns@ + seq!['/', '*']);
        }
        match defs.get(wc.as_str()) {
            Option::Some(v) => {
                return Some(v.duplicate());
            },
            Option::None => {},
        }
        match str_last_slash(ns.as_str()) {
            Option::Some(i) => {
                proof {
                    lemma_last_slash(ns@);
                }
                ns = ns.as_str().substring_char(0, i).to_owned();
            },
            Option::None => {
                return None;
            },
        }
    }
}

/// Whether the name falls under a namespace expected to resolve only at
/// runtime.
pub open spec fn is_runtime_name(prefixes: Seq<Seq<char>>, name: Seq<char>) -> bool {
    exists|i: int| 0 <= i < prefixes.len() && (#[trigger] prefixes[i]).is_prefix_of(name)
}

/// Decides `is_runtime_name`.
fn runtime_name(prefixes: &Vec<String>, name: &str) -> (r: bool)
    ensures
        r == is_runtime_name(path_model(prefixes@), name@),
{
    let ghost pm = path_model(prefixes@);
    let mut i: usize = 0;
    while i < prefixes.len()
        invariant
            i <= prefixes@.len(),
            pm == path_model(prefixes@),
            forall|j: int| 0 <= j < i ==> !(#[trigger] pm[j]).is_prefix_of(name@),
        decreases prefixes@.len() - i,
    {
        if str_starts_with(name, prefixes[i].as_str()) {
            proof {
                assert(pm[i as int].is_prefix_of(name@));
            }
            return true;
        }
        i += 1;
    }
    false
}

/// Keys are in lexicographic order.
pub open spec fn sorted_keys(es: Seq<(Seq<char>, ValueModel)>) -> bool {
    forall|i: int, j: int| 0 <= i < j < es.len() ==> lex_le((#[trigger] es[i]).0, (#[trigger] es[j]).0)
}

/// Inserts an entry into a key-sorted entry list, before the first entry
/// with an equal or later key.
pub open spec fn insert_sorted(
    e: (Seq<char>, ValueModel),
    s: Seq<(Seq<char>, ValueModel)>,
) -> Seq<(Seq<char>, ValueModel)>
    decreases s.len(),
{
    if s.len() == 0 {
        seq![e]
    } else if lex_le(e.0, s[0].0) {
        seq![e] + s
    } else {
        seq![s[0]] + insert_sorted(e, s.drop_first())
    }
}

/// Sorts an entry list by key: a stable insertion sort.
pub open spec fn sort_entries(s: Seq<(Seq<char>, ValueModel)>) -> Seq<(Seq<char>, ValueModel)>
    decreases s.len(),
{
    if s.len() == 0 {
        Seq::<(Seq<char>, ValueModel)>::empty()
    } else {
        insert_sorted(s[0], sort_entries(s.drop_first()))
    }
}

/// `insert_sorted` keeps a sorted list sorted.
pub proof fn lemma_insert_sorted_keeps_sorted(
    e: (Seq<char>, ValueModel),
    s: Seq<(Seq<char>, ValueModel)>,
)
    requires
        sorted_keys(s),
    ensures
        sorted_keys(insert_sorted(e, s)),
    decreases s.len(),
{
    if s.len() == 0 {
    } else if lex_le(e.0, s[0].0) {
        let r = seq![e] + s;
        assert forall|i: int, j: int| 0 <= i < j < r.len() implies lex_le(
            (#[trigger] r[i]).0,
            (#[trigger] r[j]).0,
        ) by {
            if i == 0 {
                if j > 1 {
                    lemma_lex_le_trans(e.0, s[0].0, s[j - 1].0);
                }
            }
        }
    } else {
        let t = s.drop_first();
        assert forall|i: int, j: int| 0 <= i < j < t.len() implies lex_le(
            (#[trigger] t[i]).0,
            (#[trigger] t[j]).0,
        ) by {
            assert(t[i] == s[i + 1] && t[j] == s[j + 1]);
        }
        lemma_insert_sorted_keeps_sorted(e, t);
        let rec = insert_sorted(e, t);
        lemma_lex_le_total(e.0, s[0].0);
        assert forall|q: int| 0 <= q < rec.len() implies lex_le(s[0].0, (#[trigger] rec[q]).0) by {
            lemma_insert_sorted_members(e, t, q);
            if rec[q] == e {
                assert(lex_le(s[0].0, e.0));
            } else {
                let w = choose|w: int| 0 <= w < t.len() && t[w] == rec[q];
                assert(lex_le(s[0].0, s[w + 1].0));
            }
        }
        let r = seq![s[0]] + rec;
        assert forall|i: int, j: int| 0 <= i < j < r.len() implies lex_le(
            (#[trigger] r[i]).0,
            (#[trigger] r[j]).0,
        ) by {
            if i > 0 {
                assert(r[i] == rec[i - 1] && r[j] == rec[j - 1]);
            } else {
                assert(r[j] == rec[j - 1]);
            }
        }
    }
}

/// Every element of `insert_sorted(e, s)` is `e` or an element of `s`.
proof fn lemma_insert_sorted_members(
    e: (Seq<char>, ValueModel),
    s: Seq<(Seq<char>, ValueModel)>,
    q: int,
)
    requires
        0 <= q < insert_sorted(e, s).len(),
    ensures
        insert_sorted(e, s).len() == s.len() + 1,
        insert_sorted(e, s)[q] == e || exists|w: int| 0 <= w < s.len() && s[w] == insert_sorted(
            e,
            s,
        )[q],
    decreases s.len(),
{
    if s.len() == 0 {
    } else if lex_le(e.0, s[0].0) {
        if q > 0 {
            assert(s[q - 1] == insert_sorted(e, s)[q]);
        }
    } else {
        lemma_insert_sorted_len(e, s.drop_first());
        if q == 0 {
            assert(s[0] == insert_sorted(e, s)[0]);
        } else {
            lemma_insert_sorted_members(e, s.drop_first(), q - 1);
            let r = insert_sorted(e, s.drop_first());
            if r[q - 1] == e {
            } else {
                let w = choose|w: int| 0 <= w < s.drop_first().len() && s.drop_first()[w] == r[q
                    - 1];
                assert(s[w + 1] == insert_sorted(e, s)[q]);
            }
        }
    }
}

/// `insert_sorted` grows the list by one.
proof fn lemma_insert_sorted_len(e: (Seq<char>, ValueModel), s: Seq<(Seq<char>, ValueModel)>)
    ensures
        insert_sorted(e, s).len() == s.len() + 1,
    decreases s.len(),
{
    if s.len() > 0 && !lex_le(e.0, s[0].0) {
        lemma_insert_sorted_len(e, s.drop_first());
    }
}

/// `sort_entries` returns a key-sorted list.
pub proof fn lemma_sort_entries_sorted(s: Seq<(Seq<char>, ValueModel)>)
    ensures
        sorted_keys(sort_entries(s)),
    decreases s.len(),
{
    if s.len() > 0 {
        lemma_sort_entries_sorted(s.drop_first());
        lemma_insert_sorted_keeps_sorted(s[0], sort_entries(s.drop_first()));
    }
}

/// Where `insert_sorted` puts the new entry: before the first entry whose
/// key is not earlier.
proof fn lemma_insert_sorted_at(
    e: (Seq<char>, ValueModel),
    s: Seq<(Seq<char>, ValueModel)>,
    pos: int,
)
    requires
        0 <= pos <= s.len(),
        forall|j: int| 0 <= j < pos ==> !lex_le(e.0, (#[trigger] s[j]).0),
        pos < s.len() ==> lex_le(e.0, s[pos].0),
    ensures
        insert_sorted(e, s) == s.take(pos) + seq![e] + s.skip(pos),
    decreases pos,
{
    if s.len() == 0 {
        assert(insert_sorted(e, s) =~= s.take(pos) + seq![e] + s.skip(pos));
    } else if pos == 0 {
        assert(s.take(0) =~= Seq::<(Seq<char>, ValueModel)>::empty());
        assert(s.skip(0) =~= s);
        assert(insert_sorted(e, s) =~= s.take(0) + seq![e] + s.skip(0));
    } else {
        let t = s.drop_first();
        assert(forall|j: int| 0 <= j < pos - 1 ==> !lex_le(e.0, (#[trigger] t[j]).0)) by {
            assert(forall|j: int| 0 <= j < t.len() ==> #[trigger] t[j] == s[j + 1]);
        }
        assert(pos - 1 < t.len() ==> lex_le(e.0, t[pos - 1].0));
        lemma_insert_sorted_at(e, t, pos - 1);
        assert(seq![s[0]] + (t.take(pos - 1) + seq![e] + t.skip(pos - 1)) =~= s.take(pos) + seq![e]
            + s.skip(pos));
    }
}

/// Inserts one entry into a key-sorted vector, keeping it sorted.
#[verifier::loop_isolation(false)]
fn insert_entry(e: (String, Value), mut sorted: Vec<(String, Value)>) -> (r: Vec<(String, Value)>)
    ensures
        entries_model(r@) == insert_sorted((e.0@, e.1.model()), entries_model(sorted@)),
{
    let ghost sm = entries_model(sorted@);
    let ghost em = (e.0@, e.1.model());
    let mut pos: usize = 0;
    while pos < sorted.len() && !str_le(e.0.as_str(), sorted[pos].0.as_str())
        invariant
            pos <= sorted@.len(),
            forall|j: int| 0 <= j < pos ==> !lex_le(em.0, (#[trigger] sm[j]).0),
        decreases sorted@.len() - pos,
    {
        proof {
            lemma_entries_model_index(sorted@, pos as int);
        }
        pos += 1;
    }
    proof {
        if pos < sorted@.len() {
            lemma_entries_model_index(sorted@, pos as int);
        }
        lemma_insert_sorted_at(em, sm, pos as int);
    }
    let ghost before = sorted@;
    sorted.insert(pos, e);
    proof {
        assert(entries_model(sorted@) =~= sm.take(pos as int) + seq![em] + sm.skip(pos as int))
            by {
            lemma_entries_model_len(sorted@);
            assert forall|j: int| 0 <= j < sorted@.len() implies entries_model(sorted@)[j] == (
            sm.take(pos as int) + seq![em] + sm.skip(pos as int))[j] by {
                lemma_entries_model_index(sorted@, j);
                if j < pos {
                    assert(sorted@[j] == before[j]);
                    lemma_entries_model_index(before, j);
                } else if j > pos {
                    assert(sorted@[j] == before[j - 1]);
                    lemma_entries_model_index(before, j - 1);
                }
            }
        }
    }
    sorted
}

/// Whether `c` occurs in `s`.
pub open spec fn contains_char(s: Seq<char>, c: char) -> bool {
    exists|j: int| 0 <= j < s.len() && s[j] == c
}

/// Decides `contains_char`.
fn str_contains_char(s: &str, c: char) -> (r: bool)
    ensures
        r == contains_char(s@, c),
{
    let slen = s.unicode_len();
    let mut i: usize = 0;
    while i < slen
        invariant
            i <= slen,
            slen == s@.len(),
            forall|j: int| 0 <= j < i ==> s@[j] != c,
        decreases slen - i,
    {
        if s.get_char(i) == c {
            return true;
        }
        i += 1;
    }
    false
}

/// The larger of two naturals.
pub open spec fn max_nat(a: nat, b: nat) -> nat {
    if a >= b {
        a
    } else {
        b
    }
}

/// The nesting height of a document node.
pub open spec fn vheight(v: ValueModel) -> nat
    decreases v,
{
    match v {
        ValueModel::Sequence(items) => 1 + sheight(items),
        ValueModel::Mapping(es) => 1 + eheight(es),
        _ => 0,
    }
}

/// The largest height among sequence items.
pub open spec fn sheight(items: Seq<ValueModel>) -> nat
    decreases items,
{
    if items.len() == 0 {
        0
    } else {
        max_nat(vheight(items[0]), sheight(items.drop_first()))
    }
}

/// The largest height among mapping entry values.
pub open spec fn eheight(es: Seq<(Seq<char>, ValueModel)>) -> nat
    decreases es,
{
    if es.len() == 0 {
        0
    } else {
        max_nat(vheight(es[0].1), eheight(es.drop_first()))
    }
}

/// Every item's height is bounded by the sequence's.
pub proof fn lemma_sheight_bound(items: Seq<ValueModel>, i: int)
    requires
        0 <= i < items.len(),
    ensures
        vheight(items[i]) <= sheight(items),
    decreases items.len(),
{
    if i > 0 {
        lemma_sheight_bound(items.drop_first(), i - 1);
    }
}

/// Every entry value's height is bounded by the list's.
pub proof fn lemma_eheight_bound(es: Seq<(Seq<char>, ValueModel)>, i: int)
    requires
        0 <= i < es.len(),
    ensures
        vheight(es[i].1) <= eheight(es),
    decreases es.len(),
{
    if i > 0 {
        lemma_eheight_bound(es.drop_first(), i - 1);
    }
}

/// What the resolver returns for a reference name: the defined (and then
/// recursively expanded) value, `Ok(None)` for a runtime-deferred miss, and
/// an error for a plain miss.  A name ending in `/json` must expand to a
/// mapping (rendered as its canonical JSON string) or a string.
pub open spec fn resolve_spec(name: Seq<char>, env: EnvModel, d: nat) -> Result<
    Option<ValueModel>,
    Error,
>
    decreases d, 0int, 0int, 0int, 0int,
{
    match lookup_spec(env.defs, name) {
        Option::None => if is_runtime_name(env.prefixes, name) {
            Ok(None)
        } else {
            Err(Error::UnresolvedReference)
        },
        Option::Some(val) => if d == 0 {
            Err(Error::DepthExceeded)
        } else {
            match expand_spec(val, env, (d - 1) as nat) {
                Result::Err(e) => Err(e),
                Result::Ok(ev) => if "/json"@.is_suffix_of(name) {
                    match ev {
                        ValueModel::Mapping(_) => Ok(Some(ValueModel::Str(canon_json(ev)))),
                        ValueModel::Str(t) => Ok(Some(ValueModel::Str(t))),
                        _ => Err(Error::TypeMismatch),
                    }
                } else {
                    Ok(Some(ev))
                },
            }
        },
    }
}

/// What expanding one string returns.  A whole-value placeholder takes the
/// resolved value with its native kind; an embedded placeholder splices the
/// text form of a string or number and rescans; a deferred miss leaves the
/// string unchanged, as does a string without a marker pair or with a `(`
/// inside the name.
pub open spec fn expand_string_spec(s: Seq<char>, env: EnvModel, d: nat) -> Result<
    ValueModel,
    Error,
>
    decreases d, 0int, 0int, 1int, 0int,
{
    match (find_double(s, '('), find_double(s, ')')) {
        (Option::Some(l), Option::Some(rp)) => if l + 2 <= rp {
            let name = trim_spec(s.subrange(l + 2, rp));
            if l == 0 && rp == s.len() - 2 {
                match resolve_spec(name, env, d) {
                    Result::Err(e) => Err(e),
                    Result::Ok(Option::None) => Ok(ValueModel::Str(s)),
                    Result::Ok(Option::Some(v)) => Ok(v),
                }
            } else if !contains_char(name, '(') {
                match resolve_spec(name, env, d) {
                    Result::Err(e) => Err(e),
                    Result::Ok(Option::None) => Ok(ValueModel::Str(s)),
                    Result::Ok(Option::Some(v)) => match v {
                        ValueModel::Number(n) => if d == 0 {
                            Err(Error::DepthExceeded)
                        } else {
                            expand_string_spec(
                                s.take(l) + dec_int(n) + s.skip(rp + 2),
                                env,
                                (d - 1) as nat,
                            )
                        },
                        ValueModel::Str(t) => if d == 0 {
                            Err(Error::DepthExceeded)
                        } else {
                            expand_string_spec(s.take(l) + t + s.skip(rp + 2), env, (d - 1) as nat)
                        },
                        _ => Err(Error::TypeMismatch),
                    },
                }
            } else {
                Ok(ValueModel::Str(s))
            }
        } else {
            Ok(ValueModel::Str(s))
        },
        _ => Ok(ValueModel::Str(s)),
    }
}

/// What expanding a document returns: scalars pass through, strings are
/// interpolated, sequences expand in order, mappings expand their values and
/// come out sorted by key.
pub open spec fn expand_spec(v: ValueModel, env: EnvModel, d: nat) -> Result<ValueModel, Error>
    decreases d, 1int, vheight(v), 0int, 0int,
{
    match v {
        ValueModel::Null => Ok(v),
        ValueModel::Bool(_) => Ok(v),
        ValueModel::Number(_) => Ok(v),
        ValueModel::Str(s) => expand_string_spec(s, env, d),
        ValueModel::Sequence(items) => match expand_items_spec(items, env, d) {
            Result::Ok(nis) => Ok(ValueModel::Sequence(nis)),
            Result::Err(e) => Err(e),
        },
        ValueModel::Mapping(es) => match expand_entries_spec(es, env, d) {
            Result::Ok(nes) => Ok(ValueModel::Mapping(sort_entries(nes))),
            Result::Err(e) => Err(e),
        },
    }
}

/// Expands each item of a sequence, in order; the first failure wins.
pub open spec fn expand_items_spec(items: Seq<ValueModel>, env: EnvModel, d: nat) -> Result<
    Seq<ValueModel>,
    Error,
>
    decreases d, 1int, sheight(items), 1int, items.len(),
{
    if items.len() == 0 {
        Ok(Seq::<ValueModel>::empty())
    } else {
        match expand_spec(items[0], env, d) {
            Result::Err(e) => Err(e),
            Result::Ok(h) => match expand_items_spec(items.drop_first(), env, d) {
                Result::Err(e) => Err(e),
                Result::Ok(t) => Ok(seq![h] + t),
            },
        }
    }
}

/// Expands each entry's value, in order, keys unchanged; the first failure
/// wins.
pub open spec fn expand_entries_spec(es: Seq<(Seq<char>, ValueModel)>, env: EnvModel, d: nat) -> Result<
    Seq<(Seq<char>, ValueModel)>,
    Error,
>
    decreases d, 1int, eheight(es), 1int, es.len(),
{
    if es.len() == 0 {
        Ok(Seq::<(Seq<char>, ValueModel)>::empty())
    } else {
        match expand_spec(es[0].1, env, d) {
            Result::Err(e) => Err(e),
            Result::Ok(h) => match expand_entries_spec(es.drop_first(), env, d) {
                Result::Err(e) => Err(e),
                Result::Ok(t) => Ok(seq![(es[0].0, h)] + t),
            },
        }
    }
}

/// Resolves a reference name against an environment, expanding what it
/// finds; `Ok(None)` is a runtime-deferred miss.
pub fn resolve(name: &str, env: &Environment, depth: u64) -> (r: Result<Option<Value>, Error>)
    ensures
        match r {
            Result::Ok(Option::Some(v)) => resolve_spec(name@, env.model(), depth as nat) == Ok::<
                Option<ValueModel>,
                Error,
            >(Some(v.model())),
            Result::Ok(Option::None) => resolve_spec(name@, env.model(), depth as nat) == Ok::<
                Option<ValueModel>,
                Error,
            >(None),
            Result::Err(e) => resolve_spec(name@, env.model(), depth as nat) == Err::<
                Option<ValueModel>,
                Error,
            >(e),
        },
    decreases depth, 0int, 0int, 0int, 0int,
{
    match lookup_value(&env.definitions.definitions, name) {
        Option::None => {
            if runtime_name(&env.expected_runtime_lookup_prefixes, name) {
                Ok(None)
            } else {
                Err(Error::UnresolvedReference)
            }
        },
        Option::Some(val) => {
            if depth == 0 {
                return Err(Error::DepthExceeded);
            }
            let ev = match expand(&val, env, depth - 1) {
                Result::Ok(ev) => ev,
                Result::Err(e) => {
                    return Err(e);
                },
            };
            if str_ends_with(name, "/json") {
                match ev {
                    Value::Mapping(entries) => {
                        let m = Value::Mapping(entries);
                        let s = crate::canon::to_canonical_json(&m);
                        Ok(Some(Value::Str(s)))
                    },
                    Value::Str(t) => Ok(Some(Value::Str(t))),
                    _ => Err(Error::TypeMismatch),
                }
            } else {
                Ok(Some(ev))
            }
        },
    }
}

/// Expands one string: interpolates `(( name ))` placeholders.
pub fn expand_string(s: &str, env: &Environment, depth: u64) -> (r: Result<Value, Error>)
    ensures
        match r {
            Result::Ok(v) => expand_string_spec(s@, env.model(), depth as nat) == Ok::<
                ValueModel,
                Error,
            >(v.model()),
            Result::Err(e) => expand_string_spec(s@, env.model(), depth as nat) == Err::<
                ValueModel,
                Error,
            >(e),
        },
    decreases depth, 0int, 0int, 1int, 0int,
{
    let lpos = str_find_double(s, '(');
    let rpos = str_find_double(s, ')');
    let slen = s.unicode_len();
    match (lpos, rpos) {
        (Option::Some(l), Option::Some(rp)) => {
            proof {
                crate::strings::lemma_find_double(s@, '(');
                crate::strings::lemma_find_double(s@, ')');
            }
            if l + 2 <= rp {
                let raw = s.substring_char(l + 2, rp);
                let name = str_trim(raw);
                if l == 0 && rp == slen - 2 {
                    match resolve(name.as_str(), env, depth) {
                        Result::Err(e) => Err(e),
                        Result::Ok(Option::None) => Ok(Value::Str(s.to_owned())),
                        Result::Ok(Option::Some(v)) => Ok(v),
                    }
                } else if !str_contains_char(name.as_str(), '(') {
                    match resolve(name.as_str(), env, depth) {
                        Result::Err(e) => Err(e),
                        Result::Ok(Option::None) => Ok(Value::Str(s.to_owned())),
                        Result::Ok(Option::Some(v)) => {
                            let ghost vm = v.model();
                            let txt: String = match v {
                                Value::Number(n) => crate::strings::i64_to_string(n),
                                Value::Str(t) => t,
                                _ => {
                                    return Err(Error::TypeMismatch);
                                },
                            };
                            if depth == 0 {
                                return Err(Error::DepthExceeded);
                            }
                            let spliced = s.substring_char(0, l).to_owned().concat(
                                txt.as_str(),
                            ).concat(s.substring_char(rp + 2, slen));
                            proof {
                                assert(spliced@ =~= s@.take(l as int) + txt@ + s@.skip(
                                    rp as int + 2,
                                ));
                            }
                            expand_string(spliced.as_str(), env, depth - 1)
                        },
                    }
                } else {
                    Ok(Value::Str(s.to_owned()))
                }
            } else {
                Ok(Value::Str(s.to_owned()))
            }
        },
        _ => Ok(Value::Str(s.to_owned())),
    }
}

/// Expands a whole document against an environment: scalars pass through,
/// strings are interpolated, sequences keep their order, and every mapping
/// comes out with its keys sorted.
#[verifier::loop_isolation(false)]
pub fn expand(content: &Value, env: &Environment, depth: u64) -> (r: Result<Value, Error>)
    ensures
        match r {
            Result::Ok(v) => expand_spec(content.model(), env.model(), depth as nat) == Ok::<
                ValueModel,
                Error,
            >(v.model()),
            Result::Err(e) => expand_spec(content.model(), env.model(), depth as nat) == Err::<
                ValueModel,
                Error,
            >(e),
        },
    decreases depth, 1int, vheight(content.model()), 0int, 0int,
{
    match content {
        Value::Null => Ok(Value::Null),
        Value::Bool(b) => Ok(Value::Bool(*b)),
        Value::Number(n) => Ok(Value::Number(*n)),
        Value::Str(s) => expand_string(s.as_str(), env, depth),
        Value::Sequence(items) => {
            let ghost im = items_model(items@);
            let mut out: Vec<Value> = Vec::new();
            let mut i: usize = 0;
            proof {
                assert(im.skip(0) =~= im);
            }
            while i < items.len()
                invariant
                    i <= items@.len(),
                    out@.len() == i,
                    expand_items_spec(im, env.model(), depth as nat) == (
                    match expand_items_spec(im.skip(i as int), env.model(), depth as nat) {
                        Result::Ok(t) => Ok::<Seq<ValueModel>, Error>(items_model(out@) + t),
                        Result::Err(e) => Err::<Seq<ValueModel>, Error>(e),
                    }),
                decreases items@.len() - i,
            {
                let ghost cur = im.skip(i as int);
                let ghost obefore = out@;
                proof {
                    lemma_items_model_index(items@, i as int);
                    assert(cur[0] == im[i as int]);
                    assert(cur.drop_first() =~= im.skip(i as int + 1));
                    lemma_sheight_bound(im, i as int);
                    assert(vheight(content.model()) == 1 + sheight(im));
                }
                match expand(&items[i], env, depth) {
                    Result::Ok(ev) => {
                        out.push(ev);
                        i += 1;
                        proof {
                            assert(items_model(out@) =~= items_model(obefore) + seq![
                                out@.last().model(),
                            ]);
                            match expand_items_spec(im.skip(i as int), env.model(), depth as nat) {
                                Result::Ok(t) => {
                                    assert(items_model(obefore) + (seq![out@.last().model()] + t)
                                        =~= items_model(out@) + t);
                                },
                                Result::Err(_) => {},
                            }
                        }
                    },
                    Result::Err(e) => {
                        return Err(e);
                    },
                }
            }
            proof {
                assert(im.skip(items@.len() as int) =~= Seq::<ValueModel>::empty());
                assert(items_model(out@) + Seq::<ValueModel>::empty() =~= items_model(out@));
            }
            Ok(Value::Sequence(out))
        },
        Value::Mapping(entries) => {
            let ghost em = entries_model(entries@);
            let mut out: Vec<(String, Value)> = Vec::new();
            let mut i: usize = 0;
            proof {
                assert(em.skip(0) =~= em);
            }
            while i < entries.len()
                invariant
                    i <= entries@.len(),
                    out@.len() == i,
                    expand_entries_spec(em, env.model(), depth as nat) == (
                    match expand_entries_spec(em.skip(i as int), env.model(), depth as nat) {
                        Result::Ok(t) => Ok::<Seq<(Seq<char>, ValueModel)>, Error>(
                            entries_model(out@) + t,
                        ),
                        Result::Err(e) => Err::<Seq<(Seq<char>, ValueModel)>, Error>(e),
                    }),
                decreases entries@.len() - i,
            {
                let ghost cur = em.skip(i as int);
                let ghost obefore = out@;
                proof {
                    lemma_entries_model_index(entries@, i as int);
                    assert(cur[0] == em[i as int]);
                    assert(cur.drop_first() =~= em.skip(i as int + 1));
                    lemma_eheight_bound(em, i as int);
                    assert(vheight(content.model()) == 1 + eheight(em));
                }
                let key = entries[i].0.clone();
                match expand(&entries[i].1, env, depth) {
                    Result::Ok(ev) => {
                        out.push((key, ev));
                        i += 1;
                        proof {
                            assert(entries_model(out@) =~= entries_model(obefore) + seq![
                                (out@.last().0@, out@.last().1.model()),
                            ]);
                            match expand_entries_spec(em.skip(i as int), env.model(), depth as nat) {
                                Result::Ok(t) => {
                                    assert(entries_model(obefore) + (seq![
                                        (out@.last().0@, out@.last().1.model()),
                                    ] + t) =~= entries_model(out@) + t);
                                },
                                Result::Err(_) => {},
                            }
                        }
                    },
                    Result::Err(e) => {
                        return Err(e);
                    },
                }
            }
            proof {
                assert(em.skip(entries@.len() as int) =~= Seq::<(Seq<char>, ValueModel)>::empty());
                assert(entries_model(out@) + Seq::<(Seq<char>, ValueModel)>::empty() =~= entries_model(
                    out@,
                ));
            }
            let sorted = sort_entry_vec(out);
            Ok(Value::Mapping(sorted))
        },
    }
}

/// Sorts a mapping's entries by key: a stable insertion sort.
#[verifier::loop_isolation(false)]
pub fn sort_entry_vec(mut es: Vec<(String, Value)>) -> (r: Vec<(String, Value)>)
    ensures
        entries_model(r@) == sort_entries(entries_model(es@)),
{
    let ghost em0 = entries_model(es@);
    let ghost orig = es@;
    let mut acc: Vec<(String, Value)> = Vec::new();
    proof {
        assert(em0.skip(em0.len() as int) =~= Seq::<(Seq<char>, ValueModel)>::empty());
        assert(entries_model(acc@) =~= sort_entries(em0.skip(em0.len() as int)));
    }
    while es.len() > 0
        invariant
            es@.len() <= orig.len(),
            es@ == orig.take(es@.len() as int),
            entries_model(acc@) == sort_entries(em0.skip(es@.len() as int)),
        decreases es@.len(),
    {
        let ghost n = es@.len() as int;
        let pair = match es.pop() {
            Option::Some(pair) => pair,
            Option::None => {
                proof {
                    assert(false);
                }
                unreached()
            },
        };
        proof {
            assert(orig.take(n)[n - 1] == orig[n - 1]);
            assert(es@ =~= orig.take(n - 1));
            assert(pair == orig[n - 1]);
            lemma_entries_model_index(orig, n - 1);
            assert(orig.take(em0.len() as int) =~= orig);
            let cur = em0.skip(n - 1);
            assert(cur[0] == em0[n - 1]);
            assert(cur.drop_first() =~= em0.skip(n));
            assert(em0[n - 1] == (pair.0@, pair.1.model()));
        }
        acc = insert_entry(pair, acc);
    }
    proof {
        assert(em0.skip(0) =~= em0);
    }
    acc
}


/// Every mapping node of the document has its keys in lexicographic order.
pub open spec fn mappings_sorted(v: ValueModel) -> bool
    decreases vheight(v), 1int, 0int,
{
    match v {
        ValueModel::Sequence(items) => items_sorted_all(items),
        ValueModel::Mapping(es) => sorted_keys(es) && entries_sorted_all(es),
        _ => true,
    }
}

/// `mappings_sorted` holds of every item.
pub open spec fn items_sorted_all(items: Seq<ValueModel>) -> bool
    decreases sheight(items), 2int, items.len(),
{
    items.len() == 0 || (mappings_sorted(items[0]) && items_sorted_all(items.drop_first()))
}

/// `mappings_sorted` holds of every entry value.
pub open spec fn entries_sorted_all(es: Seq<(Seq<char>, ValueModel)>) -> bool
    decreases eheight(es), 2int, es.len(),
{
    es.len() == 0 || (mappings_sorted(es[0].1) && entries_sorted_all(es.drop_first()))
}

/// One item of an all-sorted list is sorted.
proof fn lemma_items_sorted_all_index(items: Seq<ValueModel>, i: int)
    requires
        items_sorted_all(items),
        0 <= i < items.len(),
    ensures
        mappings_sorted(items[i]),
    decreases items.len(),
{
    if i > 0 {
        lemma_items_sorted_all_index(items.drop_first(), i - 1);
    }
}

/// One entry value of an all-sorted list is sorted.
proof fn lemma_entries_sorted_all_index(es: Seq<(Seq<char>, ValueModel)>, i: int)
    requires
        entries_sorted_all(es),
        0 <= i < es.len(),
    ensures
        mappings_sorted(es[i].1),
    decreases es.len(),
{
    if i > 0 {
        lemma_entries_sorted_all_index(es.drop_first(), i - 1);
    }
}

/// A list each of whose entry values is sorted is all-sorted.
proof fn lemma_entries_sorted_all_from(es: Seq<(Seq<char>, ValueModel)>)
    requires
        forall|i: int| 0 <= i < es.len() ==> mappings_sorted((#[trigger] es[i]).1),
    ensures
        entries_sorted_all(es),
    decreases es.len(),
{
    if es.len() > 0 {
        let t = es.drop_first();
        assert(forall|i: int| 0 <= i < t.len() ==> #[trigger] t[i] == es[i + 1]);
        lemma_entries_sorted_all_from(t);
    }
}

/// Every element of the sorted list is an element of the input.
proof fn lemma_sort_entries_members(s: Seq<(Seq<char>, ValueModel)>, q: int)
    requires
        0 <= q < sort_entries(s).len(),
    ensures
        sort_entries(s).len() == s.len(),
        exists|w: int| 0 <= w < s.len() && s[w] == sort_entries(s)[q],
    decreases s.len(),
{
    lemma_sort_entries_len(s);
    let t = s.drop_first();
    lemma_sort_entries_len(t);
    lemma_insert_sorted_members(s[0], sort_entries(t), q);
    let r = sort_entries(s);
    if r[q] == s[0] {
    } else {
        let w0 = choose|w0: int| 0 <= w0 < sort_entries(t).len() && sort_entries(t)[w0] == r[q];
        lemma_sort_entries_members(t, w0);
        let w = choose|w: int| 0 <= w < t.len() && t[w] == sort_entries(t)[w0];
        assert(s[w + 1] == r[q]);
    }
}

/// Sorting keeps the length.
proof fn lemma_sort_entries_len(s: Seq<(Seq<char>, ValueModel)>)
    ensures
        sort_entries(s).len() == s.len(),
    decreases s.len(),
{
    if s.len() > 0 {
        lemma_sort_entries_len(s.drop_first());
        lemma_insert_sorted_len(s[0], sort_entries(s.drop_first()));
    }
}

/// What the resolver hands back is fully key-sorted.
proof fn lemma_resolve_spec_sorted(name: Seq<char>, env: EnvModel, d: nat)
    ensures
        (resolve_spec(name, env, d) matches Ok(Some(v)) ==> mappings_sorted(v)),
    decreases d, 0int, 0int, 0int, 0int,
{
    match lookup_spec(env.defs, name) {
        Option::None => {},
        Option::Some(val) => {
            if d > 0 {
                lemma_expand_spec_sorted(val, env, (d - 1) as nat);
            }
        },
    }
}

/// What string expansion hands back is fully key-sorted.
proof fn lemma_expand_string_spec_sorted(s: Seq<char>, env: EnvModel, d: nat)
    ensures
        (expand_string_spec(s, env, d) matches Ok(v) ==> mappings_sorted(v)),
    decreases d, 0int, 0int, 1int, 0int,
{
    match (find_double(s, '('), find_double(s, ')')) {
        (Option::Some(l), Option::Some(rp)) => {
            if l + 2 <= rp {
                let name = trim_spec(s.subrange(l + 2, rp));
                if l == 0 && rp == s.len() - 2 {
                    lemma_resolve_spec_sorted(name, env, d);
                } else if !contains_char(name, '(') {
                    lemma_resolve_spec_sorted(name, env, d);
                    if d > 0 {
                        match resolve_spec(name, env, d) {
                            Result::Ok(Option::Some(ValueModel::Number(n))) => {
                                lemma_expand_string_spec_sorted(
                                    s.take(l) + dec_int(n) + s.skip(rp + 2),
                                    env,
                                    (d - 1) as nat,
                                );
                            },
                            Result::Ok(Option::Some(ValueModel::Str(t))) => {
                                lemma_expand_string_spec_sorted(
                                    s.take(l) + t + s.skip(rp + 2),
                                    env,
                                    (d - 1) as nat,
                                );
                            },
                            _ => {},
                        }
                    }
                }
            }
        },
        _ => {},
    }
}

/// Expanding any document sorts the keys of every mapping in the result, at
/// every nesting level.
pub proof fn lemma_expand_spec_sorted(v: ValueModel, env: EnvModel, d: nat)
    ensures
        (expand_spec(v, env, d) matches Ok(r) ==> mappings_sorted(r)),
    decreases d, 1int, vheight(v), 0int, 0int,
{
    match v {
        ValueModel::Str(s) => {
            lemma_expand_string_spec_sorted(s, env, d);
        },
        ValueModel::Sequence(items) => {
            lemma_expand_items_spec_sorted(items, env, d);
        },
        ValueModel::Mapping(es) => {
            lemma_expand_entries_spec_sorted(es, env, d);
            match expand_entries_spec(es, env, d) {
                Result::Ok(nes) => {
                    lemma_sort_entries_sorted(nes);
                    lemma_sort_entries_len(nes);
                    let sorted = sort_entries(nes);
                    assert forall|i: int| 0 <= i < sorted.len() implies mappings_sorted(
                        (#[trigger] sorted[i]).1,
                    ) by {
                        lemma_sort_entries_members(nes, i);
                        let w = choose|w: int| 0 <= w < nes.len() && nes[w] == sorted[i];
                        lemma_entries_sorted_all_index(nes, w);
                    }
                    lemma_entries_sorted_all_from(sorted);
                },
                Result::Err(_) => {},
            }
        },
        _ => {},
    }
}

/// Expanding a sequence's items sorts every mapping inside each of them.
proof fn lemma_expand_items_spec_sorted(items: Seq<ValueModel>, env: EnvModel, d: nat)
    ensures
        (expand_items_spec(items, env, d) matches Ok(nis) ==> items_sorted_all(nis)),
    decreases d, 1int, sheight(items), 1int, items.len(),
{
    if items.len() > 0 {
        lemma_sheight_bound(items, 0);
        lemma_expand_spec_sorted(items[0], env, d);
        lemma_expand_items_spec_sorted(items.drop_first(), env, d);
        match (expand_spec(items[0], env, d), expand_items_spec(items.drop_first(), env, d)) {
            (Result::Ok(h), Result::Ok(t)) => {
                let r = seq![h] + t;
                assert(r[0] == h);
                assert(r.drop_first() =~= t);
            },
            _ => {},
        }
    }
}

/// Expanding a mapping's entry values sorts every mapping inside each value.
proof fn lemma_expand_entries_spec_sorted(es: Seq<(Seq<char>, ValueModel)>, env: EnvModel, d: nat)
    ensures
        (expand_entries_spec(es, env, d) matches Ok(nes) ==> entries_sorted_all(nes)),
    decreases d, 1int, eheight(es), 1int, es.len(),
{
    if es.len() > 0 {
        lemma_eheight_bound(es, 0);
        lemma_expand_spec_sorted(es[0].1, env, d);
        lemma_expand_entries_spec_sorted(es.drop_first(), env, d);
        match (expand_spec(es[0].1, env, d), expand_entries_spec(es.drop_first(), env, d)) {
            (Result::Ok(h), Result::Ok(t)) => {
                let r = seq![(es[0].0, h)] + t;
                assert(r[0] == (es[0].0, h));
                assert(r.drop_first() =~= t);
            },
            _ => {},
        }
    }
}

} // verus!
