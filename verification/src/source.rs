//! Variable-definition sources: the definitions map, structural mutations,
//! the loader that decodes one source document, and the combiner that merges
//! an ordered list of sources.

use vstd::prelude::*;
use vstd::pervasive::VecAdditionalExecFns;
use crate::errors::Error;
use crate::value::{
    entries_get, entries_has_key, entries_model, entries_remove, entries_set,
    lemma_entries_model_index, lemma_entries_model_len, lemma_key_index, lemma_map_of_push,
    lemma_map_of_set, lemma_map_of_unfold, map_of, entries_find, Value, ValueModel,
};

verus! {

broadcast use {
    vstd::seq::axiom_seq_index_decreases,
    vstd::seq::axiom_seq_subrange_decreases,
    vstd::std_specs::vec::group_vec_axioms,
    crate::value::group_model_lemmas,
};

/// The definitions of a variable source: reference names mapped to values.
/// Entries are held in order; the first entry of a key is the one that
/// counts, and `insert` overwrites it in place.
#[derive(Debug)]
pub struct Definitions {
    pub entries: Vec<(String, Value)>,
}

impl Definitions {
    /// The finite map this table holds.
    pub open spec fn model(self) -> Map<Seq<char>, ValueModel> {
        map_of(entries_model(self.entries@))
    }

    /// Returns the empty table.
    pub fn new() -> (r: Definitions)
        ensures
            r.model() == Map::<Seq<char>, ValueModel>::empty(),
    {
        let r = Definitions { entries: Vec::new() };
        proof {
            assert(r.model() =~= Map::<Seq<char>, ValueModel>::empty());
        }
        r
    }

    /// Looks a reference name up.
    pub fn get(&self, key: &str) -> (r: Option<&Value>)
        ensures
            match r {
                Option::Some(v) => self.model().contains_key(key@) && v.model() == self.model()[
                    key@
                ],
                Option::None => !self.model().contains_key(key@),
            },
    {
        match entries_find(&self.entries, key) {
            Option::Some(i) => {
                proof {
                    lemma_entries_model_index(self.entries@, i as int);
                }
                Some(&self.entries[i].1)
            },
            Option::None => None,
        }
    }

    /// Binds `key` to `value`, overwriting any earlier binding.
    pub fn insert(&mut self, key: String, value: Value)
        ensures
            final(self).model() == old(self).model().insert(key@, value.model()),
    {
        let ghost em = entries_model(old(self).entries@);
        match entries_find(&self.entries, key.as_str()) {
            Option::Some(i) => {
                proof {
                    lemma_key_index(em, key@);
                }
                self.entries.set(i, (key, value));
                proof {
                    assert(entries_model(self.entries@) =~= entries_set(em, key@, value.model()));
                    lemma_map_of_set(em, key@, value.model());
                }
            },
            Option::None => {
                self.entries.push((key, value));
                proof {
                    assert(entries_model(self.entries@) =~= em.push((key@, value.model())));
                    lemma_map_of_push(em, key@, value.model());
                }
            },
        }
    }
}

/// A structural patch, applied to a template document before expansion.
/// The action's path addresses a location in nested mappings, root to leaf.
#[derive(Debug)]
pub enum MutationAction {
    /// Insert the payload's entries (a mapping) or append its items
    /// (a sequence) at the path.  Never overwrites an existing key.
    Add(Vec<String>, Value),
    /// Remove the key addressed by the path.  The key must exist.
    Remove(Vec<String>),
    /// Overwrite the key addressed by the path in place.  The key must
    /// already exist.
    Replace(Vec<String>, Value),
}

/// A mutation: an action bound to the template file name it applies to
/// (an exact match, no pattern language).
#[derive(Debug)]
pub struct Mutation {
    pub filename_pattern: String,
    pub action: MutationAction,
}

/// The model of a mutation path: its segments' character sequences.
pub open spec fn path_model(p: Seq<String>) -> Seq<Seq<char>> {
    Seq::new(p.len(), |i: int| p[i]@)
}

/// The model of a mutation action.
pub ghost enum ActionModel {
    Add(Seq<Seq<char>>, ValueModel),
    Remove(Seq<Seq<char>>),
    Replace(Seq<Seq<char>>, ValueModel),
}

/// The model of a mutation.
pub ghost struct MutationModel {
    pub filename_pattern: Seq<char>,
    pub action: ActionModel,
}

impl MutationAction {
    /// The model of this action.
    pub open spec fn model(self) -> ActionModel {
        match self {
            MutationAction::Add(p, v) => ActionModel::Add(path_model(p@), v.model()),
            MutationAction::Remove(p) => ActionModel::Remove(path_model(p@)),
            MutationAction::Replace(p, v) => ActionModel::Replace(path_model(p@), v.model()),
        }
    }
}

impl Mutation {
    /// The model of this mutation.
    pub open spec fn model(self) -> MutationModel {
        MutationModel { filename_pattern: self.filename_pattern@, action: self.action.model() }
    }

    /// Returns a copy of this mutation with the same model.
    pub fn duplicate(&self) -> (r: Mutation)
        ensures
            r.model() == self.model(),
    {
        let action = match &self.action {
            MutationAction::Add(p, v) => MutationAction::Add(clone_path(p), v.duplicate()),
            MutationAction::Remove(p) => MutationAction::Remove(clone_path(p)),
            MutationAction::Replace(p, v) => MutationAction::Replace(clone_path(p), v.duplicate()),
        };
        Mutation { filename_pattern: self.filename_pattern.clone(), action }
    }
}

/// Returns a copy of a mutation path with the same model.
fn clone_path(p: &Vec<String>) -> (r: Vec<String>)
    ensures
        path_model(r@) == path_model(p@),
{
    let mut out: Vec<String> = Vec::new();
    let mut i: usize = 0;
    while i < p.len()
        invariant
            i <= p@.len(),
            out@.len() == i,
            forall|j: int| 0 <= j < i ==> out@[j]@ == p@[j]@,
        decreases p@.len() - i,
    {
        out.push(p[i].clone());
        i += 1;
    }
    proof {
        assert(path_model(out@) =~= path_model(p@));
    }
    out
}

/// The models of a vector of mutations, in order.
pub open spec fn muts_model(ms: Seq<Mutation>) -> Seq<MutationModel> {
    Seq::new(ms.len(), |i: int| ms[i].model())
}

/// One loaded variable source: definitions plus the mutations it declares.
#[derive(Debug)]
pub struct VariableSource {
    pub definitions: Definitions,
    pub mutations: Vec<Mutation>,
}

/// The model of a variable source.
pub ghost struct SourceModel {
    pub definitions: Map<Seq<char>, ValueModel>,
    pub mutations: Seq<MutationModel>,
}

impl VariableSource {
    /// The model of this source.
    pub open spec fn model(self) -> SourceModel {
        SourceModel {
            definitions: self.definitions.model(),
            mutations: muts_model(self.mutations@),
        }
    }
}

/// Decodes a path spec: nested single-entry mappings ending in a null leaf,
/// `{a: {b: null}}` being the path `[a, b]`, root to leaf.
pub open spec fn value_path_spec(v: ValueModel) -> Option<Seq<Seq<char>>>
    decreases v,
{
    match v {
        ValueModel::Null => Some(Seq::<Seq<char>>::empty()),
        ValueModel::Mapping(es) => if es.len() == 1 {
            match value_path_spec(es[0].1) {
                Option::Some(rest) => Some(seq![es[0].0] + rest),
                Option::None => None,
            }
        } else {
            None
        },
        _ => None,
    }
}

/// Decodes a path spec into its segments.
pub fn parse_value_path(input: &Value) -> (r: Option<Vec<String>>)
    ensures
        match r {
            Option::Some(p) => value_path_spec(input.model()) == Some(path_model(p@)),
            Option::None => value_path_spec(input.model()) is None,
        },
    decreases input,
{
    match input {
        Value::Null => {
            let r: Vec<String> = Vec::new();
            proof {
                assert(path_model(r@) =~= Seq::<Seq<char>>::empty());
            }
            Some(r)
        },
        Value::Mapping(entries) => {
            proof {
                lemma_entries_model_len(entries@);
                assert(input.model() == ValueModel::Mapping(entries_model(entries@)));
            }
            if entries.len() != 1 {
                return None;
            }
            let key = entries[0].0.clone();
            proof {
                assert(decreases_to!(*input => input->Mapping_0));
                lemma_entries_model_index(entries@, 0);
            }
            match parse_value_path(&entries[0].1) {
                Option::Some(rest) => {
                    let ghost rest0 = rest@;
                    let mut p = rest;
                    p.insert(0, key);
                    proof {
                        assert(path_model(p@) =~= seq![entries@[0].0@] + path_model(rest0));
                    }
                    Some(p)
                },
                Option::None => None,
            }
        },
        _ => None,
    }
}

/// Decodes an action mapping: `{remove: <path>}`, `{add: <path>, values: v}`
/// or `{replace: <path>, value: v}`.  An earlier action key shadows a later
/// one, in that order.
pub open spec fn action_spec(es: Seq<(Seq<char>, ValueModel)>) -> Option<ActionModel> {
    match entries_get(es, "remove"@) {
        Option::Some(pv) => match value_path_spec(pv) {
            Option::Some(p) => Some(ActionModel::Remove(p)),
            Option::None => None,
        },
        Option::None => match entries_get(es, "add"@) {
            Option::Some(pv) => match (value_path_spec(pv), entries_get(es, "values"@)) {
                (Option::Some(p), Option::Some(v)) => Some(ActionModel::Add(p, v)),
                _ => None,
            },
            Option::None => match entries_get(es, "replace"@) {
                Option::Some(pv) => match (value_path_spec(pv), entries_get(es, "value"@)) {
                    (Option::Some(p), Option::Some(v)) => Some(ActionModel::Replace(p, v)),
                    _ => None,
                },
                Option::None => None,
            },
        },
    }
}

/// Decodes the action mapping of one mutation entry.
fn parse_action(aes: &Vec<(String, Value)>) -> (r: Option<MutationAction>)
    ensures
        match r {
            Option::Some(a) => action_spec(entries_model(aes@)) == Some(a.model()),
            Option::None => action_spec(entries_model(aes@)) is None,
        },
{
    let ghost em = entries_model(aes@);
    if let Option::Some(i) = entries_find(aes, "remove") {
        proof {
            lemma_entries_model_index(aes@, i as int);
        }
        match parse_value_path(&aes[i].1) {
            Option::Some(p) => Some(MutationAction::Remove(p)),
            Option::None => None,
        }
    } else if let Option::Some(i) = entries_find(aes, "add") {
        proof {
            lemma_entries_model_index(aes@, i as int);
        }
        match parse_value_path(&aes[i].1) {
            Option::Some(p) => {
                match entries_find(aes, "values") {
                    Option::Some(vi) => {
                        proof {
                            lemma_entries_model_index(aes@, vi as int);
                        }
                        Some(MutationAction::Add(p, aes[vi].1.duplicate()))
                    },
                    Option::None => None,
                }
            },
            Option::None => None,
        }
    } else if let Option::Some(i) = entries_find(aes, "replace") {
        proof {
            lemma_entries_model_index(aes@, i as int);
        }
        match parse_value_path(&aes[i].1) {
            Option::Some(p) => {
                match entries_find(aes, "value") {
                    Option::Some(vi) => {
                        proof {
                            lemma_entries_model_index(aes@, vi as int);
                        }
                        Some(MutationAction::Replace(p, aes[vi].1.duplicate()))
                    },
                    Option::None => None,
                }
            },
            Option::None => None,
        }
    } else {
        None
    }
}

/// Decodes one mutation entry: a single-key mapping from a file-name
/// pattern to an action mapping.
pub open spec fn mutation_spec(v: ValueModel) -> Option<MutationModel> {
    match v {
        ValueModel::Mapping(es) => if es.len() == 1 {
            match es[0].1 {
                ValueModel::Mapping(aes) => match action_spec(aes) {
                    Option::Some(a) => Some(
                        MutationModel { filename_pattern: es[0].0, action: a },
                    ),
                    Option::None => None,
                },
                _ => None,
            }
        } else {
            None
        },
        _ => None,
    }
}

/// Decodes one mutation entry.
pub fn parse_mutation(input: &Value) -> (r: Result<Mutation, Error>)
    ensures
        match r {
            Result::Ok(m) => mutation_spec(input.model()) == Some(m.model()),
            Result::Err(e) => mutation_spec(input.model()) is None && e == Error::Parse,
        },
{
    if let Value::Mapping(entries) = input {
        proof {
            lemma_entries_model_len(entries@);
            assert(input.model() == ValueModel::Mapping(entries_model(entries@)));
        }
        if entries.len() != 1 {
            return Err(Error::Parse);
        }
        proof {
            lemma_entries_model_index(entries@, 0);
        }
        let filename_pattern = entries[0].0.clone();
        if let Value::Mapping(aes) = &entries[0].1 {
            match parse_action(aes) {
                Option::Some(action) => Ok(Mutation { filename_pattern, action }),
                Option::None => Err(Error::Parse),
            }
        } else {
            Err(Error::Parse)
        }
    } else {
        Err(Error::Parse)
    }
}

/// Decodes the `mutations` list: every entry must decode.
pub open spec fn mutations_spec(items: Seq<ValueModel>) -> Option<Seq<MutationModel>>
    decreases items.len(),
{
    if items.len() == 0 {
        Some(Seq::<MutationModel>::empty())
    } else {
        match (mutation_spec(items[0]), mutations_spec(items.drop_first())) {
            (Option::Some(m), Option::Some(rest)) => Some(seq![m] + rest),
            _ => None,
        }
    }
}

/// Decodes the `mutations` list.
fn parse_mutations(items: &Vec<Value>) -> (r: Result<Vec<Mutation>, Error>)
    ensures
        match r {
            Result::Ok(ms) => mutations_spec(crate::value::items_model(items@)) == Some(
                muts_model(ms@),
            ),
            Result::Err(e) => mutations_spec(crate::value::items_model(items@)) is None && e
                == Error::Parse,
        },
{
    let ghost ms = crate::value::items_model(items@);
    let mut out: Vec<Mutation> = Vec::new();
    let mut i: usize = 0;
    proof {
        assert(ms.skip(0) =~= ms);
    }
    while i < items.len()
        invariant
            i <= items@.len(),
            ms == crate::value::items_model(items@),
            ms.len() == items@.len(),
            out@.len() == i,
            mutations_spec(ms) == (match mutations_spec(ms.skip(i as int)) {
                Option::Some(rest) => Some(muts_model(out@) + rest),
                Option::None => None::<Seq<MutationModel>>,
            }),
        decreases items@.len() - i,
    {
        let ghost cur = ms.skip(i as int);
        proof {
            crate::value::lemma_items_model_index(items@, i as int);
            assert(cur[0] == ms[i as int]);
            assert(cur.drop_first() =~= ms.skip(i as int + 1));
        }
        match parse_mutation(&items[i]) {
            Result::Ok(m) => {
                out.push(m);
                i += 1;
                proof {
                    assert(mutations_spec(ms) == (match mutations_spec(ms.skip(i as int)) {
                        Option::Some(rest) => Some(muts_model(out@) + rest),
                        Option::None => None::<Seq<MutationModel>>,
                    })) by {
                        match mutations_spec(ms.skip(i as int)) {
                            Option::Some(rest) => {
                                assert(muts_model(out@) =~= muts_model(out@.drop_last()) + seq![
                                    out@.last().model(),
                                ]);
                                assert(muts_model(out@) + rest =~= muts_model(out@.drop_last()) + (
                                seq![out@.last().model()] + rest));
                            },
                            Option::None => {},
                        }
                    }
                }
            },
            Result::Err(_) => {
                return Err(Error::Parse);
            },
        }
    }
    proof {
        assert(ms.skip(i as int) =~= Seq::<ValueModel>::empty());
        assert(muts_model(out@) + Seq::<MutationModel>::empty() =~= muts_model(out@));
    }
    Ok(out)
}

/// Decodes a whole variable-source document: the top level must be a
/// mapping; an optional `mutations` key holds the mutation list; every
/// remaining entry is a definition.
pub open spec fn load_spec(v: ValueModel) -> Result<SourceModel, Error> {
    match v {
        ValueModel::Mapping(es) => {
            let muts = match entries_get(es, "mutations"@) {
                Option::None => Some(Seq::<MutationModel>::empty()),
                Option::Some(mv) => match mv {
                    ValueModel::Sequence(items) => mutations_spec(items),
                    _ => None,
                },
            };
            let defs = if entries_has_key(es, "mutations"@) {
                entries_remove(es, "mutations"@)
            } else {
                es
            };
            match muts {
                Option::Some(ms) => Ok(SourceModel { definitions: map_of(defs), mutations: ms }),
                Option::None => Err(Error::Parse),
            }
        },
        _ => Err(Error::Parse),
    }
}

/// Decodes a source document into a `VariableSource`.
#[verifier::loop_isolation(false)]
pub fn load_source(doc: &Value) -> (r: Result<VariableSource, Error>)
    ensures
        match r {
            Result::Ok(src) => load_spec(doc.model()) == Ok::<SourceModel, Error>(src.model()),
            Result::Err(e) => load_spec(doc.model()) == Err::<SourceModel, Error>(e),
        },
{
    let entries = match doc {
        Value::Mapping(entries) => entries,
        _ => {
            return Err(Error::Parse);
        },
    };
    let ghost em = entries_model(entries@);
    match entries_find(entries, "mutations") {
        Option::Some(mi) => {
            proof {
                lemma_entries_model_index(entries@, mi as int);
            }
            let mutations = match &entries[mi].1 {
                Value::Sequence(items) => match parse_mutations(items) {
                    Result::Ok(ms) => ms,
                    Result::Err(e) => {
                        return Err(e);
                    },
                },
                _ => {
                    return Err(Error::Parse);
                },
            };
            let mut defs: Vec<(String, Value)> = Vec::new();
            let mut j: usize = 0;
            while j < entries.len()
                invariant
                    j <= entries@.len(),
                    em == entries_model(entries@),
                    em.len() == entries@.len(),
                    mi < entries@.len(),
                    defs@.len() == (if j <= mi {
                        j as int
                    } else {
                        j - 1
                    }),
                    forall|t: int|
                        0 <= t < defs@.len() ==> entries_model(defs@)[t] == em[if t < mi {
                            t
                        } else {
                            t + 1
                        }],
                decreases entries@.len() - j,
            {
                proof {
                    lemma_entries_model_index(entries@, j as int);
                }
                if j != mi {
                    let key = entries[j].0.clone();
                    let val = entries[j].1.duplicate();
                    let ghost before = defs@;
                    defs.push((key, val));
                    proof {
                        assert forall|t: int| 0 <= t < defs@.len() implies entries_model(defs@)[t]
                            == em[if t < mi {
                            t
                        } else {
                            t + 1
                        }] by {
                            lemma_entries_model_index(defs@, t);
                            if t < before.len() {
                                lemma_entries_model_index(before, t);
                                assert(defs@[t] == before[t]);
                            }
                        }
                    }
                }
                j += 1;
            }
            proof {
                assert(entries_model(defs@) =~= entries_remove(em, "mutations"@));
                assert(doc.model() == ValueModel::Mapping(em));
                assert(entries_has_key(em, "mutations"@));
                assert(entries_get(em, "mutations"@) == Some(em[mi as int].1));
            }
            Ok(VariableSource { definitions: Definitions { entries: defs }, mutations })
        },
        Option::None => {
            let mut defs: Vec<(String, Value)> = Vec::new();
            let mut j: usize = 0;
            while j < entries.len()
                invariant
                    j <= entries@.len(),
                    em == entries_model(entries@),
                    em.len() == entries@.len(),
                    defs@.len() == j,
                    forall|t: int| 0 <= t < j ==> entries_model(defs@)[t] == em[t],
                decreases entries@.len() - j,
            {
                proof {
                    lemma_entries_model_index(entries@, j as int);
                }
                let key = entries[j].0.clone();
                let val = entries[j].1.duplicate();
                let ghost before = defs@;
                defs.push((key, val));
                j += 1;
                proof {
                    assert forall|t: int| 0 <= t < j implies entries_model(defs@)[t] == em[t] by {
                        lemma_entries_model_index(defs@, t);
                        if t < before.len() {
                            lemma_entries_model_index(before, t);
                            assert(defs@[t] == before[t]);
                        }
                    }
                }
            }
            let mutations: Vec<Mutation> = Vec::new();
            proof {
                assert(entries_model(defs@) =~= em);
                assert(doc.model() == ValueModel::Mapping(em));
                assert(!entries_has_key(em, "mutations"@));
                assert(muts_model(mutations@) =~= Seq::<MutationModel>::empty());
            }
            Ok(VariableSource { definitions: Definitions { entries: defs }, mutations })
        },
    }
}

/// The right-biased overlay of the sources' definitions: a later source
/// overrides an earlier one key-for-key.
pub open spec fn combine_defs(ss: Seq<SourceModel>) -> Map<Seq<char>, ValueModel>
    decreases ss.len(),
{
    if ss.len() == 0 {
        Map::<Seq<char>, ValueModel>::empty()
    } else {
        combine_defs(ss.drop_last()).union_prefer_right(ss.last().definitions)
    }
}

/// The sources' mutation lists, concatenated in order.
pub open spec fn combine_muts(ss: Seq<SourceModel>) -> Seq<MutationModel>
    decreases ss.len(),
{
    if ss.len() == 0 {
        Seq::<MutationModel>::empty()
    } else {
        combine_muts(ss.drop_last()) + ss.last().mutations
    }
}

/// What `combine` returns.
pub open spec fn combine_spec(ss: Seq<SourceModel>) -> SourceModel {
    SourceModel { definitions: combine_defs(ss), mutations: combine_muts(ss) }
}

/// The models of a list of borrowed sources, in order.
pub open spec fn sources_model(ss: Seq<&VariableSource>) -> Seq<SourceModel> {
    Seq::new(ss.len(), |i: int| (*ss[i]).model())
}

/// Merges an ordered list of sources: definitions are overlaid right-biased
/// (a later source overrides an earlier one key-for-key) and mutation lists
/// are concatenated in source order, without deduplication.
#[verifier::loop_isolation(false)]
pub fn combine(sources: Vec<&VariableSource>) -> (r: VariableSource)
    ensures
        r.model() == combine_spec(sources_model(sources@)),
{
    let ghost sm = sources_model(sources@);
    let mut definitions = Definitions::new();
    let mut mutations: Vec<Mutation> = Vec::new();
    proof {
        assert(sm.take(0) =~= Seq::<SourceModel>::empty());
        assert(muts_model(mutations@) =~= Seq::<MutationModel>::empty());
    }
    let mut s: usize = 0;
    while s < sources.len()
        invariant
            s <= sources@.len(),
            definitions.model() == combine_defs(sm.take(s as int)),
            muts_model(mutations@) == combine_muts(sm.take(s as int)),
        decreases sources@.len() - s,
    {
        let src: &VariableSource = sources[s];
        let ghost prev = definitions.model();
        let ghost em = entries_model(src.definitions.entries@);
        let mut j: usize = src.definitions.entries.len();
        proof {
            assert(em.skip(j as int) =~= Seq::<(Seq<char>, ValueModel)>::empty());
            assert(prev.union_prefer_right(map_of(em.skip(j as int))) =~= prev);
        }
        while j > 0
            invariant
                j <= src.definitions.entries@.len(),
                definitions.model() == prev.union_prefer_right(map_of(em.skip(j as int))),
            decreases j,
        {
            j -= 1;
            let key = src.definitions.entries[j].0.clone();
            let val = src.definitions.entries[j].1.duplicate();
            let ghost before = definitions.model();
            definitions.insert(key, val);
            proof {
                lemma_entries_model_index(src.definitions.entries@, j as int);
                let cur = em.skip(j as int);
                let tail = em.skip(j as int + 1);
                assert(cur[0] == em[j as int]);
                assert(cur.drop_first() =~= tail);
                lemma_map_of_unfold(cur);
                assert(before.insert(em[j as int].0, em[j as int].1) =~= prev.union_prefer_right(
                    map_of(cur),
                ));
            }
        }
        proof {
            assert(em.skip(0) =~= em);
            assert(definitions.model() =~= prev.union_prefer_right(src.definitions.model()));
        }
        let ghost mprev = muts_model(mutations@);
        let mut t: usize = 0;
        while t < src.mutations.len()
            invariant
                t <= src.mutations@.len(),
                muts_model(mutations@) == mprev + muts_model(src.mutations@).take(t as int),
            decreases src.mutations@.len() - t,
        {
            let ghost old_muts = mutations@;
            let m = src.mutations[t].duplicate();
            mutations.push(m);
            t += 1;
            proof {
                let ghost sm2 = muts_model(src.mutations@);
                assert(mutations@.len() == mprev.len() + t);
                assert forall|i: int| 0 <= i < mutations@.len() implies #[trigger] muts_model(
                    mutations@,
                )[i] == (mprev + sm2.take(t as int))[i] by {
                    assert(muts_model(mutations@)[i] == mutations@[i].model());
                    if i < mprev.len() {
                        assert(mutations@[i] == old_muts[i]);
                        assert(muts_model(old_muts)[i] == old_muts[i].model());
                        assert((mprev + sm2.take(t as int - 1))[i] == mprev[i]);
                    } else {
                        assert(sm2.take(t as int)[i - mprev.len()] == sm2[i - mprev.len()]);
                    }
                }
                assert(muts_model(mutations@) =~= mprev + sm2.take(t as int));
            }
        }
        s += 1;
        proof {
            assert(muts_model(src.mutations@).take(src.mutations@.len() as int) =~= muts_model(
                src.mutations@,
            ));
            assert(sm.take(s as int).drop_last() =~= sm.take(s as int - 1));
            assert(sm.take(s as int).last() == (*sources@[s as int - 1]).model());
        }
    }
    proof {
        assert(muts_model(mutations@).take(0) =~= Seq::<MutationModel>::empty());
        assert(sm.take(sources@.len() as int) =~= sm);
    }
    VariableSource { definitions, mutations }
}

/// Combining two sources: the later source wins key-for-key, keys defined
/// only in the earlier source persist, no other keys appear, and the
/// mutation lists are concatenated in order.
pub proof fn lemma_combine_override(a: SourceModel, b: SourceModel, k: Seq<char>)
    ensures
        b.definitions.contains_key(k) ==> combine_spec(seq![a, b]).definitions[k]
            == b.definitions[k],
        a.definitions.contains_key(k) && !b.definitions.contains_key(k) ==> combine_spec(
            seq![a, b],
        ).definitions[k] == a.definitions[k],
        combine_spec(seq![a, b]).definitions.contains_key(k) == (a.definitions.contains_key(k)
            || b.definitions.contains_key(k)),
        combine_spec(seq![a, b]).mutations == a.mutations + b.mutations,
{
    let ss = seq![a, b];
    reveal_with_fuel(combine_defs, 3);
    reveal_with_fuel(combine_muts, 3);
    assert(ss.drop_last() =~= seq![a]);
    assert(seq![a].drop_last() =~= Seq::<SourceModel>::empty());
    assert(combine_defs(seq![a]) =~= a.definitions);
    assert(combine_muts(seq![a]) =~= a.mutations);
    assert(combine_muts(ss) =~= a.mutations + b.mutations);
}

} // verus!
