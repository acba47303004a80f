//! The mutation engine: applies one structural patch (`Add` / `Remove` /
//! `Replace`) to a document at a path of nested mapping keys.

use vstd::prelude::*;
use vstd::pervasive::VecAdditionalExecFns;
use crate::errors::Error;
use crate::source::{path_model, ActionModel, MutationAction};
use crate::value::{
    entries_find, entries_get, entries_has_key, entries_model, entries_remove, entries_set,
    items_model, lemma_entries_model_index, lemma_entries_set_get, lemma_items_model_index,
    lemma_key_index, Value, ValueModel,
};

verus! {

broadcast use {
    vstd::seq::axiom_seq_index_decreases,
    vstd::seq::axiom_seq_subrange_decreases,
    vstd::std_specs::vec::group_vec_axioms,
    crate::value::group_model_lemmas,
};

/// Pure navigation: the node addressed by a path of mapping keys, if every
/// step descends through a mapping that has the key.
pub open spec fn doc_get(v: ValueModel, path: Seq<Seq<char>>) -> Option<ValueModel>
    decreases path.len(),
{
    if path.len() == 0 {
        Some(v)
    } else {
        match v {
            ValueModel::Mapping(es) => match entries_get(es, path[0]) {
                Option::Some(c) => doc_get(c, path.drop_first()),
                Option::None => None,
            },
            _ => None,
        }
    }
}

/// The operation a mutation performs at its target node.
pub ghost enum OpModel {
    /// Insert the entries into the target mapping; every key must be new.
    AddEntries(Seq<(Seq<char>, ValueModel)>),
    /// Append the items to the target sequence.
    AddItems(Seq<ValueModel>),
    /// Remove the key from the target mapping; it must be present.
    RemoveKey(Seq<char>),
    /// Overwrite the key of the target mapping in place; it must be present.
    ReplaceKey(Seq<char>, ValueModel),
}

/// Inserts entries one by one into a mapping's entry list; an entry whose
/// key is already bound fails.
pub open spec fn add_entries_spec(
    es: Seq<(Seq<char>, ValueModel)>,
    nes: Seq<(Seq<char>, ValueModel)>,
) -> Result<Seq<(Seq<char>, ValueModel)>, Error>
    decreases nes.len(),
{
    if nes.len() == 0 {
        Ok(es)
    } else if entries_has_key(es, nes[0].0) {
        Err(Error::Navigation)
    } else {
        add_entries_spec(es.push(nes[0]), nes.drop_first())
    }
}

/// What a mutation does at its target node.
pub open spec fn apply_op_spec(v: ValueModel, op: OpModel) -> Result<ValueModel, Error> {
    match op {
        OpModel::AddEntries(nes) => match v {
            ValueModel::Mapping(es) => match add_entries_spec(es, nes) {
                Result::Ok(es2) => Ok(ValueModel::Mapping(es2)),
                Result::Err(e) => Err(e),
            },
            _ => Err(Error::TypeMismatch),
        },
        OpModel::AddItems(nis) => match v {
            ValueModel::Sequence(is) => Ok(ValueModel::Sequence(is + nis)),
            _ => Err(Error::TypeMismatch),
        },
        OpModel::RemoveKey(k) => match v {
            ValueModel::Mapping(es) => if entries_has_key(es, k) {
                Ok(ValueModel::Mapping(entries_remove(es, k)))
            } else {
                Err(Error::Navigation)
            },
            _ => Err(Error::Navigation),
        },
        OpModel::ReplaceKey(k, nv) => match v {
            ValueModel::Mapping(es) => if entries_has_key(es, k) {
                Ok(ValueModel::Mapping(entries_set(es, k, nv)))
            } else {
                Err(Error::Navigation)
            },
            _ => Err(Error::Navigation),
        },
    }
}

/// Descends along `path` through nested mappings and applies `op` at the
/// end; a missing key or a non-mapping node on the way is a navigation
/// failure.
pub open spec fn navigate_spec(v: ValueModel, path: Seq<Seq<char>>, op: OpModel) -> Result<
    ValueModel,
    Error,
>
    decreases path.len(),
{
    if path.len() == 0 {
        apply_op_spec(v, op)
    } else {
        match v {
            ValueModel::Mapping(es) => match entries_get(es, path[0]) {
                Option::Some(child) => match navigate_spec(child, path.drop_first(), op) {
                    Result::Ok(nc) => Ok(ValueModel::Mapping(entries_set(es, path[0], nc))),
                    Result::Err(e) => Err(e),
                },
                Option::None => Err(Error::Navigation),
            },
            _ => Err(Error::Navigation),
        }
    }
}

/// What `apply_mutation` returns: `Add` works at the path itself, `Remove`
/// and `Replace` at the last path segment inside its parent.  An `Add`
/// payload must be a mapping or a sequence.
pub open spec fn apply_mutation_spec(a: ActionModel, v: ValueModel) -> Result<ValueModel, Error> {
    match a {
        ActionModel::Add(path, payload) => match payload {
            ValueModel::Mapping(nes) => navigate_spec(v, path, OpModel::AddEntries(nes)),
            ValueModel::Sequence(nis) => navigate_spec(v, path, OpModel::AddItems(nis)),
            _ => Err(Error::TypeMismatch),
        },
        ActionModel::Remove(path) => if path.len() == 0 {
            Err(Error::Navigation)
        } else {
            navigate_spec(v, path.drop_last(), OpModel::RemoveKey(path.last()))
        },
        ActionModel::Replace(path, nv) => if path.len() == 0 {
            Err(Error::Navigation)
        } else {
            navigate_spec(v, path.drop_last(), OpModel::ReplaceKey(path.last(), nv))
        },
    }
}

/// Keys already present survive a successful entry insertion.
proof fn lemma_add_entries_mono(
    es: Seq<(Seq<char>, ValueModel)>,
    nes: Seq<(Seq<char>, ValueModel)>,
    q: Seq<char>,
)
    requires
        add_entries_spec(es, nes) is Ok,
        entries_has_key(es, q),
    ensures
        entries_has_key(add_entries_spec(es, nes)->Ok_0, q),
    decreases nes.len(),
{
    if nes.len() > 0 {
        crate::value::lemma_entries_push_has_key(es, nes[0], q);
        lemma_add_entries_mono(es.push(nes[0]), nes.drop_first(), q);
    }
}

/// After a successful entry insertion, the first inserted key is present.
proof fn lemma_add_entries_first_key(
    es: Seq<(Seq<char>, ValueModel)>,
    nes: Seq<(Seq<char>, ValueModel)>,
)
    requires
        nes.len() > 0,
        add_entries_spec(es, nes) is Ok,
    ensures
        entries_has_key(add_entries_spec(es, nes)->Ok_0, nes[0].0),
{
    crate::value::lemma_entries_push_has_key(es, nes[0], nes[0].0);
    lemma_add_entries_mono(es.push(nes[0]), nes.drop_first(), nes[0].0);
}

/// A mapping `Add` that succeeded cannot succeed again along the same path:
/// the first application made its first key present at the target.
proof fn lemma_navigate_add_twice(
    v: ValueModel,
    path: Seq<Seq<char>>,
    nes: Seq<(Seq<char>, ValueModel)>,
    v2: ValueModel,
)
    requires
        nes.len() > 0,
        navigate_spec(v, path, OpModel::AddEntries(nes)) == Ok::<ValueModel, Error>(v2),
    ensures
        navigate_spec(v2, path, OpModel::AddEntries(nes)) is Err,
    decreases path.len(),
{
    if path.len() == 0 {
        let es = v->Mapping_0;
        let es2 = add_entries_spec(es, nes)->Ok_0;
        lemma_add_entries_first_key(es, nes);
    } else {
        let es = v->Mapping_0;
        let child = entries_get(es, path[0])->0;
        let nc = navigate_spec(child, path.drop_first(), OpModel::AddEntries(nes))->Ok_0;
        lemma_entries_set_get(es, path[0], nc, path[0]);
        lemma_key_index(es, path[0]);
        assert(entries_has_key(entries_set(es, path[0], nc), path[0])) by {
            assert(forall|j: int|
                0 <= j < es.len() ==> (#[trigger] es[j]).0 == entries_set(es, path[0], nc)[j].0);
            crate::value::lemma_key_index(entries_set(es, path[0], nc), path[0]);
        }
        lemma_navigate_add_twice(child, path.drop_first(), nes, nc);
    }
}

/// Applying the same mapping `Add` twice to a document: where the first
/// application succeeds, the second fails, because the keys it would insert
/// are already present.
pub proof fn lemma_add_not_idempotent(
    v: ValueModel,
    path: Seq<Seq<char>>,
    nes: Seq<(Seq<char>, ValueModel)>,
    v2: ValueModel,
)
    requires
        nes.len() > 0,
        apply_mutation_spec(ActionModel::Add(path, ValueModel::Mapping(nes)), v) == Ok::<
            ValueModel,
            Error,
        >(v2),
    ensures
        apply_mutation_spec(ActionModel::Add(path, ValueModel::Mapping(nes)), v2) is Err,
{
    lemma_navigate_add_twice(v, path, nes, v2);
}

/// Where the key a `Remove` or `Replace` addresses is absent, navigation
/// with that operation fails.
proof fn lemma_navigate_target_missing(
    v: ValueModel,
    path: Seq<Seq<char>>,
    k: Seq<char>,
    nv: ValueModel,
)
    requires
        doc_get(v, path.push(k)) is None,
    ensures
        navigate_spec(v, path, OpModel::RemoveKey(k)) is Err,
        navigate_spec(v, path, OpModel::ReplaceKey(k, nv)) is Err,
    decreases path.len(),
{
    reveal_with_fuel(doc_get, 3);
    if path.len() == 0 {
        assert(path.push(k)[0] == k);
        assert(path.push(k).drop_first() =~= Seq::<Seq<char>>::empty());
    } else {
        assert(path.push(k)[0] == path[0]);
        assert(path.push(k).drop_first() =~= path.drop_first().push(k));
        match v {
            ValueModel::Mapping(es) => {
                match entries_get(es, path[0]) {
                    Option::Some(child) => {
                        lemma_navigate_target_missing(child, path.drop_first(), k, nv);
                    },
                    Option::None => {},
                }
            },
            _ => {},
        }
    }
}

/// A `Remove` whose addressed key is absent fails.
pub proof fn lemma_remove_requires_presence(v: ValueModel, path: Seq<Seq<char>>)
    requires
        path.len() > 0,
        doc_get(v, path) is None,
    ensures
        apply_mutation_spec(ActionModel::Remove(path), v) is Err,
{
    assert(path.drop_last().push(path.last()) =~= path);
    lemma_navigate_target_missing(v, path.drop_last(), path.last(), ValueModel::Null);
}

/// A `Replace` whose addressed key is absent fails.
pub proof fn lemma_replace_requires_presence(v: ValueModel, path: Seq<Seq<char>>, nv: ValueModel)
    requires
        path.len() > 0,
        doc_get(v, path) is None,
    ensures
        apply_mutation_spec(ActionModel::Replace(path, nv), v) is Err,
{
    assert(path.drop_last().push(path.last()) =~= path);
    lemma_navigate_target_missing(v, path.drop_last(), path.last(), nv);
}

/// The executable form of the operation at the target node, borrowing the
/// mutation's payload.
enum MutOp<'a> {
    AddEntries(&'a Vec<(String, Value)>),
    AddItems(&'a Vec<Value>),
    RemoveKey(&'a String),
    ReplaceKey(&'a String, &'a Value),
}

impl<'a> MutOp<'a> {
    /// The model of this operation.
    spec fn model(self) -> OpModel {
        match self {
            MutOp::AddEntries(nes) => OpModel::AddEntries(entries_model(nes@)),
            MutOp::AddItems(nis) => OpModel::AddItems(items_model(nis@)),
            MutOp::RemoveKey(k) => OpModel::RemoveKey(k@),
            MutOp::ReplaceKey(k, nv) => OpModel::ReplaceKey(k@, nv.model()),
        }
    }
}

/// Applies `op` to the node itself.
#[verifier::loop_isolation(false)]
fn apply_op(v: Value, op: &MutOp) -> (r: Result<Value, Error>)
    ensures
        match r {
            Result::Ok(nv) => apply_op_spec(v.model(), op.model()) == Ok::<ValueModel, Error>(
                nv.model(),
            ),
            Result::Err(e) => apply_op_spec(v.model(), op.model()) == Err::<ValueModel, Error>(e),
        },
{
    match op {
        MutOp::AddEntries(nes) => {
            let mut es = match v {
                Value::Mapping(es) => es,
                _ => {
                    return Err(Error::TypeMismatch);
                },
            };
            let ghost em0 = entries_model(es@);
            let ghost nem = entries_model(nes@);
            let mut t: usize = 0;
            proof {
                assert(nem.skip(0) =~= nem);
            }
            while t < nes.len()
                invariant
                    t <= nes@.len(),
                    add_entries_spec(em0, nem) == add_entries_spec(
                        entries_model(es@),
                        nem.skip(t as int),
                    ),
                decreases nes@.len() - t,
            {
                let ghost cur = nem.skip(t as int);
                let ghost em = entries_model(es@);
                proof {
                    lemma_entries_model_index(nes@, t as int);
                    assert(cur[0] == nem[t as int]);
                    assert(cur.drop_first() =~= nem.skip(t as int + 1));
                }
                let key = nes[t].0.clone();
                match entries_find(&es, key.as_str()) {
                    Option::Some(_) => {
                        return Err(Error::Navigation);
                    },
                    Option::None => {},
                }
                let val = nes[t].1.duplicate();
                es.push((key, val));
                t += 1;
                proof {
                    assert(entries_model(es@) =~= em.push(nem[t as int - 1]));
                }
            }
            proof {
                assert(nem.skip(nes@.len() as int) =~= Seq::<(Seq<char>, ValueModel)>::empty());
            }
            Ok(Value::Mapping(es))
        },
        MutOp::AddItems(nis) => {
            let mut items = match v {
                Value::Sequence(items) => items,
                _ => {
                    return Err(Error::TypeMismatch);
                },
            };
            let ghost im0 = items_model(items@);
            let ghost nim = items_model(nis@);
            let mut t: usize = 0;
            while t < nis.len()
                invariant
                    t <= nis@.len(),
                    items_model(items@) == im0 + nim.take(t as int),
                decreases nis@.len() - t,
            {
                let ghost im = items_model(items@);
                proof {
                    lemma_items_model_index(nis@, t as int);
                }
                let d = nis[t].duplicate();
                items.push(d);
                t += 1;
                proof {
                    assert(items_model(items@) =~= im + seq![nim[t as int - 1]]);
                    assert(im0 + nim.take(t as int) =~= im + seq![nim[t as int - 1]]);
                }
            }
            proof {
                assert(im0 + nim.take(nis@.len() as int) =~= im0 + nim);
            }
            Ok(Value::Sequence(items))
        },
        MutOp::RemoveKey(k) => {
            let mut es = match v {
                Value::Mapping(es) => es,
                _ => {
                    return Err(Error::Navigation);
                },
            };
            let ghost em = entries_model(es@);
            match entries_find(&es, k.as_str()) {
                Option::Some(i) => {
                    es.remove(i);
                    proof {
                        assert(entries_model(es@) =~= entries_remove(em, k@));
                    }
                    Ok(Value::Mapping(es))
                },
                Option::None => Err(Error::Navigation),
            }
        },
        MutOp::ReplaceKey(k, nv) => {
            let mut es = match v {
                Value::Mapping(es) => es,
                _ => {
                    return Err(Error::Navigation);
                },
            };
            let ghost em = entries_model(es@);
            match entries_find(&es, k.as_str()) {
                Option::Some(i) => {
                    let key = (*k).clone();
                    let val = nv.duplicate();
                    es.set(i, (key, val));
                    proof {
                        assert(entries_model(es@) =~= entries_set(em, k@, nv.model()));
                    }
                    Ok(Value::Mapping(es))
                },
                Option::None => Err(Error::Navigation),
            }
        },
    }
}

/// Descends `path` from segment `i` on and applies `op` at the end.
fn navigate_apply(v: Value, path: &Vec<String>, i: usize, op: &MutOp) -> (r: Result<Value, Error>)
    requires
        i <= path@.len(),
    ensures
        match r {
            Result::Ok(nv) => navigate_spec(v.model(), path_model(path@).skip(i as int), op.model())
                == Ok::<ValueModel, Error>(nv.model()),
            Result::Err(e) => navigate_spec(
                v.model(),
                path_model(path@).skip(i as int),
                op.model(),
            ) == Err::<ValueModel, Error>(e),
        },
    decreases path@.len() - i,
{
    let ghost sub = path_model(path@).skip(i as int);
    if i == path.len() {
        proof {
            assert(sub.len() == 0);
        }
        apply_op(v, op)
    } else {
        proof {
            assert(sub[0] == path@[i as int]@);
            assert(sub.drop_first() =~= path_model(path@).skip(i as int + 1));
        }
        let mut es = match v {
            Value::Mapping(es) => es,
            _ => {
                return Err(Error::Navigation);
            },
        };
        let ghost em = entries_model(es@);
        let ghost oes = es@;
        match entries_find(&es, path[i].as_str()) {
            Option::Some(idx) => {
                proof {
                    lemma_entries_model_index(es@, idx as int);
                    lemma_key_index(em, path@[i as int]@);
                }
                let pair = es.remove(idx);
                let key = pair.0;
                let child = pair.1;
                match navigate_apply(child, path, i + 1, op) {
                    Result::Ok(nc) => {
                        let ghost ncm = nc.model();
                        es.insert(idx, (key, nc));
                        proof {
                            let ghost target = entries_set(em, path@[i as int]@, ncm);
                            assert(es@.len() == oes.len());
                            assert forall|j: int| 0 <= j < es@.len() implies entries_model(es@)[j]
                                == target[j] by {
                                lemma_entries_model_index(es@, j);
                                if j != idx {
                                    assert(es@[j] == oes[j]);
                                    lemma_entries_model_index(oes, j);
                                } else {
                                    assert(es@[j] == (oes[idx as int].0, nc));
                                }
                            }
                            assert(entries_model(es@) =~= target);
                        }
                        Ok(Value::Mapping(es))
                    },
                    Result::Err(e) => Err(e),
                }
            },
            Option::None => Err(Error::Navigation),
        }
    }
}

/// Applies one structural patch to a document, returning the patched
/// document or the failure that stopped it.
pub fn apply_mutation(action: &MutationAction, content: Value) -> (r: Result<Value, Error>)
    ensures
        match r {
            Result::Ok(nv) => apply_mutation_spec(action.model(), content.model()) == Ok::<
                ValueModel,
                Error,
            >(nv.model()),
            Result::Err(e) => apply_mutation_spec(action.model(), content.model()) == Err::<
                ValueModel,
                Error,
            >(e),
        },
{
    match action {
        MutationAction::Add(path, payload) => match payload {
            Value::Mapping(nes) => {
                proof {
                    assert(path_model(path@).skip(0) =~= path_model(path@));
                }
                navigate_apply(content, path, 0, &MutOp::AddEntries(nes))
            },
            Value::Sequence(nis) => {
                proof {
                    assert(path_model(path@).skip(0) =~= path_model(path@));
                }
                navigate_apply(content, path, 0, &MutOp::AddItems(nis))
            },
            _ => Err(Error::TypeMismatch),
        },
        MutationAction::Remove(path) => {
            if path.len() == 0 {
                return Err(Error::Navigation);
            }
            let last = path.len() - 1;
            proof {
                assert(path_model(path@).take(last as int) =~= path_model(path@).drop_last());
                assert(path_model(path@).last() == path@[last as int]@);
            }
            navigate_apply_prefix(content, path, last, &MutOp::RemoveKey(&path[last]))
        },
        MutationAction::Replace(path, nv) => {
            if path.len() == 0 {
                return Err(Error::Navigation);
            }
            let last = path.len() - 1;
            proof {
                assert(path_model(path@).take(last as int) =~= path_model(path@).drop_last());
                assert(path_model(path@).last() == path@[last as int]@);
            }
            navigate_apply_prefix(content, path, last, &MutOp::ReplaceKey(&path[last], nv))
        },
    }
}

/// Descends the first `end` segments of `path` and applies `op` there.
fn navigate_apply_prefix(v: Value, path: &Vec<String>, end: usize, op: &MutOp) -> (r: Result<
    Value,
    Error,
>)
    requires
        end <= path@.len(),
    ensures
        match r {
            Result::Ok(nv) => navigate_spec(v.model(), path_model(path@).take(end as int), op.model())
                == Ok::<ValueModel, Error>(nv.model()),
            Result::Err(e) => navigate_spec(
                v.model(),
                path_model(path@).take(end as int),
                op.model(),
            ) == Err::<ValueModel, Error>(e),
        },
{
    let mut prefix: Vec<String> = Vec::new();
    let mut t: usize = 0;
    while t < end
        invariant
            t <= end <= path@.len(),
            prefix@.len() == t,
            forall|j: int| 0 <= j < t ==> prefix@[j]@ == path@[j]@,
        decreases end - t,
    {
        prefix.push(path[t].clone());
        t += 1;
    }
    proof {
        assert(path_model(prefix@) =~= path_model(path@).take(end as int));
        assert(path_model(prefix@).skip(0) =~= path_model(prefix@));
    }
    navigate_apply(v, &prefix, 0, op)
}

} // verus!
