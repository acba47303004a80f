//! The render pipeline for one template: apply the matching mutations in
//! declared order, expand, postprocess.  Also the small fixed pieces around
//! it: template format sniffing, environment building, and the recursive
//! key sorter.

use vstd::prelude::*;
use vstd::string::StrSliceExecFns;
use vstd::string::StringExecFns;
use crate::errors::Error;
use crate::expand::{
    eheight, expand, expand_spec, expand_string, expand_string_spec, sheight, sort_entries,
    vheight, EnvModel, Environment,
};
use crate::mutate::{apply_mutation, apply_mutation_spec};
use crate::source::{muts_model, path_model, MutationModel, VariableSource};
use crate::strings::{str_eq, str_ends_with};
use crate::value::{
    entries_get, entries_model, entries_set, items_model, lemma_entries_model_index,
    lemma_entries_model_len, lemma_items_model_index, lemma_key_index, string_value,
    string_value_spec, Value, ValueModel,
};

verus! {

broadcast use {
    vstd::seq::axiom_seq_index_decreases,
    vstd::seq::axiom_seq_subrange_decreases,
    vstd::std_specs::vec::group_vec_axioms,
    crate::value::group_model_lemmas,
};

/// The nesting budget for placeholder expansion: definitions that refer to
/// one another more deeply than this (a cycle, in practice) fail instead of
/// recursing forever.
pub const MAX_EXPANSION_DEPTH: u64 = 64;

/// How a template file is processed.
#[derive(Debug, Clone, Copy, PartialEq, Eq, Structural)]
pub enum TemplateFormat {
    Yaml,
    Text,
}

/// One template: its processing format and where it came from.
#[derive(Debug)]
pub struct Template {
    pub format: TemplateFormat,
    pub source_path: String,
}

/// What `determine_format` returns: `.yml` files are YAML documents;
/// `.conf`, `.env`, `.txt` and `.php` files are plain text.
pub open spec fn determine_format_spec(name: Seq<char>) -> Result<TemplateFormat, Error> {
    if ".yml"@.is_suffix_of(name) {
        Ok(TemplateFormat::Yaml)
    } else if ".conf"@.is_suffix_of(name) || ".env"@.is_suffix_of(name) || ".txt"@.is_suffix_of(
        name,
    ) || ".php"@.is_suffix_of(name) {
        Ok(TemplateFormat::Text)
    } else {
        Err(Error::Parse)
    }
}

/// Decides a template's processing format from its file name.
pub fn determine_format(filename: &str) -> (r: Result<TemplateFormat, Error>)
    ensures
        r == determine_format_spec(filename@),
{
    if str_ends_with(filename, ".yml") {
        Ok(TemplateFormat::Yaml)
    } else if str_ends_with(filename, ".conf") || str_ends_with(filename, ".env") || str_ends_with(
        filename,
        ".txt",
    ) || str_ends_with(filename, ".php") {
        Ok(TemplateFormat::Text)
    } else {
        Err(Error::Parse)
    }
}

/// The default directory templates are read from.
pub fn default_input_directory() -> (r: String)
    ensures
        r@ == "."@,
{
    ".".to_owned()
}

/// The default directory rendered configurations are written to.
pub fn default_output_directory() -> (r: String)
    ensures
        r@ == "./environments"@,
{
    "./environments".to_owned()
}

/// The default path of the environment registry file.
pub fn default_envs_file() -> (r: String)
    ensures
        r@ == "./environments.yml"@,
{
    "./environments.yml".to_owned()
}

/// What `build_environment` returns: the combined source with an injected
/// `environment/name` definition, and one runtime prefix per external
/// namespace, each with a trailing slash.
pub open spec fn build_environment_spec(
    name: Seq<char>,
    combined: crate::source::SourceModel,
    namespaces: Seq<Seq<char>>,
) -> EnvModel {
    EnvModel {
        defs: combined.definitions.insert("environment/name"@, ValueModel::Str(name)),
        muts: combined.mutations,
        prefixes: Seq::new(namespaces.len(), |i: int| namespaces[i] + seq!['/']),
    }
}

/// Builds the environment for one deployment target: injects the
/// `environment/name` definition and derives the runtime-lookup prefixes
/// from the external namespaces.
#[verifier::loop_isolation(false)]
pub fn build_environment(
    name: &str,
    combined: VariableSource,
    external_namespaces: &Vec<String>,
) -> (r: Environment)
    ensures
        r.model() == build_environment_spec(
            name@,
            combined.model(),
            path_model(external_namespaces@),
        ),
{
    let mut combined = combined;
    combined.definitions.insert("environment/name".to_owned(), Value::Str(name.to_owned()));
    let mut prefixes: Vec<String> = Vec::new();
    let mut i: usize = 0;
    while i < external_namespaces.len()
        invariant
            i <= external_namespaces@.len(),
            prefixes@.len() == i,
            forall|j: int|
                0 <= j < i ==> (#[trigger] prefixes@[j])@ == external_namespaces@[j]@ + seq!['/'],
        decreases external_namespaces@.len() - i,
    {
        let p = external_namespaces[i].clone().concat("/");
        proof {
            reveal_strlit("/");
            assert("/"@ =~= seq!['/']);
        }
        prefixes.push(p);
        i += 1;
    }
    let r = Environment { definitions: combined, expected_runtime_lookup_prefixes: prefixes };
    proof {
        assert(path_model(prefixes@) =~= Seq::new(
            path_model(external_namespaces@).len(),
            |j: int| path_model(external_namespaces@)[j] + seq!['/'],
        ));
    }
    r
}

/// Applies every mutation whose file-name pattern equals the template's file
/// name, in declared order; a later mutation sees the earlier ones' result.
pub open spec fn apply_mutations_spec(
    muts: Seq<MutationModel>,
    filename: Seq<char>,
    v: ValueModel,
) -> Result<ValueModel, Error>
    decreases muts.len(),
{
    if muts.len() == 0 {
        Ok(v)
    } else if muts[0].filename_pattern == filename {
        match apply_mutation_spec(muts[0].action, v) {
            Result::Ok(v2) => apply_mutations_spec(muts.drop_first(), filename, v2),
            Result::Err(e) => Err(e),
        }
    } else {
        apply_mutations_spec(muts.drop_first(), filename, v)
    }
}

/// Applies the mutations of the environment that match the file name, in
/// declared order.
#[verifier::loop_isolation(false)]
pub fn apply_mutations(muts: &Vec<crate::source::Mutation>, filename: &str, content: Value) -> (r:
    Result<Value, Error>)
    ensures
        match r {
            Result::Ok(v) => apply_mutations_spec(muts_model(muts@), filename@, content.model())
                == Ok::<ValueModel, Error>(v.model()),
            Result::Err(e) => apply_mutations_spec(muts_model(muts@), filename@, content.model())
                == Err::<ValueModel, Error>(e),
        },
{
    let ghost mm = muts_model(muts@);
    let ghost v0 = content.model();
    let mut cur = content;
    let mut i: usize = 0;
    proof {
        assert(mm.skip(0) =~= mm);
    }
    while i < muts.len()
        invariant
            i <= muts@.len(),
            apply_mutations_spec(mm, filename@, v0) == apply_mutations_spec(
                mm.skip(i as int),
                filename@,
                cur.model(),
            ),
        decreases muts@.len() - i,
    {
        let ghost csur = mm.skip(i as int);
        proof {
            assert(csur[0] == mm[i as int]);
            assert(csur.drop_first() =~= mm.skip(i as int + 1));
        }
        if str_eq(muts[i].filename_pattern.as_str(), filename) {
            match apply_mutation(&muts[i].action, cur) {
                Result::Ok(v2) => {
                    cur = v2;
                },
                Result::Err(e) => {
                    return Err(e);
                },
            }
        }
        i += 1;
    }
    proof {
        assert(mm.skip(muts@.len() as int) =~= Seq::<MutationModel>::empty());
    }
    Ok(cur)
}

/// Removing an entry and reinserting one with the same key view and value
/// model at the same position keeps the entry models unchanged.
proof fn lemma_entries_model_reinsert(oes: Seq<(String, Value)>, i: int, p: (String, Value))
    requires
        0 <= i < oes.len(),
        p.0@ == oes[i].0@,
        p.1.model() == oes[i].1.model(),
    ensures
        entries_model(oes.remove(i).insert(i, p)) == entries_model(oes),
{
    oes.remove_ensures(i);
    oes.remove(i).insert_ensures(i, p);
    let r = oes.remove(i).insert(i, p);
    lemma_entries_model_len(r);
    lemma_entries_model_len(oes);
    assert forall|j: int| 0 <= j < oes.len() implies entries_model(r)[j] == entries_model(
        oes,
    )[j] by {
        lemma_entries_model_index(r, j);
        lemma_entries_model_index(oes, j);
        if j < i {
            assert(r[j] == oes[j]);
        } else if j > i {
            assert(oes.remove(i).insert(i, p)[(j - 1) + 1] == oes.remove(i)[j - 1]);
            assert(oes.remove(i)[j - 1] == oes[j]);
        }
    }
    assert(entries_model(r) =~= entries_model(oes));
}

/// Whether every item is a string.
pub open spec fn all_str(items: Seq<ValueModel>) -> bool {
    forall|i: int| 0 <= i < items.len() ==> (#[trigger] items[i]) is Str
}

/// The items' strings joined with commas.
pub open spec fn join_strs(items: Seq<ValueModel>) -> Seq<char>
    decreases items.len(),
{
    if items.len() == 0 {
        Seq::<char>::empty()
    } else if items.len() == 1 {
        items[0]->Str_0
    } else {
        items[0]->Str_0 + seq![','] + join_strs(items.drop_first())
    }
}

/// `join_strs` grows at the end.
proof fn lemma_join_strs_snoc(items: Seq<ValueModel>, t: int)
    requires
        1 <= t < items.len(),
    ensures
        join_strs(items.take(t + 1)) == join_strs(items.take(t)) + seq![','] + items[t]->Str_0,
    decreases t,
{
    let a = items.take(t + 1);
    let b = items.take(t);
    if t == 1 {
        assert(a.len() == 2 && b.len() == 1);
        assert(a[0] == items[0] && b[0] == items[0] && a[1] == items[1]);
        assert(a.drop_first() =~= seq![items[1]]);
        assert(join_strs(a.drop_first()) == items[1]->Str_0);
    } else {
        lemma_join_strs_snoc(items.drop_first(), t - 1);
        assert(a.drop_first() =~= items.drop_first().take(t));
        assert(b.drop_first() =~= items.drop_first().take(t - 1));
        assert(a[0] == items[0] && b[0] == items[0]);
        assert(items.drop_first()[t - 1] == items[t]);
        assert(a.len() == t + 1 && b.len() == t);
        assert(items[0]->Str_0 + seq![','] + (join_strs(items.drop_first().take(t - 1)) + seq![',']
            + items[t]->Str_0) =~= (items[0]->Str_0 + seq![','] + join_strs(
            items.drop_first().take(t - 1),
        )) + seq![','] + items[t]->Str_0);
    }
}

/// Joins the items' strings with commas; a non-string item fails.
#[verifier::loop_isolation(false)]
fn join_profiles(items: &Vec<Value>) -> (r: Result<String, Error>)
    ensures
        match r {
            Result::Ok(s) => all_str(items_model(items@)) && s@ == join_strs(items_model(items@)),
            Result::Err(e) => !all_str(items_model(items@)) && e == Error::TypeMismatch,
        },
{
    let ghost im = items_model(items@);
    if items.len() == 0 {
        proof {
            assert(all_str(im));
        }
        return Ok(String::new());
    }
    proof {
        lemma_items_model_index(items@, 0);
    }
    let mut acc = match string_value(&items[0]) {
        Option::Some(s) => s,
        Option::None => {
            proof {
                assert(!(im[0] is Str));
            }
            return Err(Error::TypeMismatch);
        },
    };
    let mut t: usize = 1;
    proof {
        assert(im.take(1).len() == 1 && im.take(1)[0] == im[0]);
    }
    while t < items.len()
        invariant
            1 <= t <= items@.len(),
            forall|j: int| 0 <= j < t ==> (#[trigger] im[j]) is Str,
            acc@ == join_strs(im.take(t as int)),
        decreases items@.len() - t,
    {
        proof {
            lemma_items_model_index(items@, t as int);
        }
        match string_value(&items[t]) {
            Option::Some(s) => {
                acc.push(',');
                acc.append(s.as_str());
                proof {
                    lemma_join_strs_snoc(im, t as int);
                }
                t += 1;
            },
            Option::None => {
                proof {
                    assert(!(im[t as int] is Str));
                }
                return Err(Error::TypeMismatch);
            },
        }
    }
    proof {
        assert(im.take(items@.len() as int) =~= im);
    }
    Ok(acc)
}

/// What the postprocessor returns: where the document holds a list of active
/// profile names at `spring.profiles.active`, that list is collapsed into
/// one comma-joined string in place; a non-string entry in the list fails;
/// any other document passes through unchanged.
pub open spec fn postprocess_spec(v: ValueModel) -> Result<ValueModel, Error> {
    match v {
        ValueModel::Mapping(es) => match entries_get(es, "spring"@) {
            Option::Some(ValueModel::Mapping(ses)) => match entries_get(ses, "profiles"@) {
                Option::Some(ValueModel::Mapping(pes)) => match entries_get(pes, "active"@) {
                    Option::Some(ValueModel::Sequence(items)) => if all_str(items) {
                        Ok(
                            ValueModel::Mapping(
                                entries_set(
                                    es,
                                    "spring"@,
                                    ValueModel::Mapping(
                                        entries_set(
                                            ses,
                                            "profiles"@,
                                            ValueModel::Mapping(
                                                entries_set(
                                                    pes,
                                                    "active"@,
                                                    ValueModel::Str(join_strs(items)),
                                                ),
                                            ),
                                        ),
                                    ),
                                ),
                            ),
                        )
                    } else {
                        Err(Error::TypeMismatch)
                    },
                    _ => Ok(v),
                },
                _ => Ok(v),
            },
            _ => Ok(v),
        },
        _ => Ok(v),
    }
}

/// Collapses `spring.profiles.active` from a list of profile names to one
/// comma-joined string, where that path holds such a list.
pub fn postprocess_yaml(content: Value) -> (r: Result<Value, Error>)
    ensures
        match r {
            Result::Ok(v) => postprocess_spec(content.model()) == Ok::<ValueModel, Error>(
                v.model(),
            ),
            Result::Err(e) => postprocess_spec(content.model()) == Err::<ValueModel, Error>(e),
        },
{
    let mut es = match content {
        Value::Mapping(es) => es,
        other => {
            return Ok(other);
        },
    };
    let ghost em = entries_model(es@);
    let si = match crate::value::entries_find(&es, "spring") {
        Option::Some(si) => si,
        Option::None => {
            return Ok(Value::Mapping(es));
        },
    };
    proof {
        lemma_entries_model_index(es@, si as int);
    }
    let ghost oes = es@;
    let spair = es.remove(si);
    let mut ses = match spair.1 {
        Value::Mapping(ses) => ses,
        other => {
            let skey = spair.0;
            es.insert(si, (skey, other));
            proof {
                lemma_entries_model_reinsert(oes, si as int, es@[si as int]);
                assert(entries_model(es@) == em);
            }
            return Ok(Value::Mapping(es));
        },
    };
    let ghost sem = entries_model(ses@);
    let pi = match crate::value::entries_find(&ses, "profiles") {
        Option::Some(pi) => pi,
        Option::None => {
            let skey = spair.0;
            es.insert(si, (skey, Value::Mapping(ses)));
            proof {
                lemma_entries_model_reinsert(oes, si as int, es@[si as int]);
                assert(entries_model(es@) == em);
            }
            return Ok(Value::Mapping(es));
        },
    };
    proof {
        lemma_entries_model_index(ses@, pi as int);
    }
    let ghost oses = ses@;
    let ppair = ses.remove(pi);
    let mut pes = match ppair.1 {
        Value::Mapping(pes) => pes,
        other => {
            let pkey = ppair.0;
            ses.insert(pi, (pkey, other));
            let skey = spair.0;
            es.insert(si, (skey, Value::Mapping(ses)));
            proof {
                lemma_entries_model_reinsert(oses, pi as int, ses@[pi as int]);
                assert(entries_model(ses@) == sem);
                lemma_entries_model_reinsert(oes, si as int, es@[si as int]);
                assert(entries_model(es@) == em);
            }
            return Ok(Value::Mapping(es));
        },
    };
    let ghost pem = entries_model(pes@);
    let ai = match crate::value::entries_find(&pes, "active") {
        Option::Some(ai) => ai,
        Option::None => {
            let pkey = ppair.0;
            ses.insert(pi, (pkey, Value::Mapping(pes)));
            let skey = spair.0;
            es.insert(si, (skey, Value::Mapping(ses)));
            proof {
                lemma_entries_model_reinsert(oses, pi as int, ses@[pi as int]);
                assert(entries_model(ses@) == sem);
                lemma_entries_model_reinsert(oes, si as int, es@[si as int]);
                assert(entries_model(es@) == em);
            }
            return Ok(Value::Mapping(es));
        },
    };
    proof {
        lemma_entries_model_index(pes@, ai as int);
    }
    let is_seq = matches!(&pes[ai].1, Value::Sequence(_));
    if !is_seq {
        let pkey = ppair.0;
        ses.insert(pi, (pkey, Value::Mapping(pes)));
        let skey = spair.0;
        es.insert(si, (skey, Value::Mapping(ses)));
        proof {
            lemma_entries_model_reinsert(oses, pi as int, ses@[pi as int]);
            assert(entries_model(ses@) == sem);
            lemma_entries_model_reinsert(oes, si as int, es@[si as int]);
            assert(entries_model(es@) == em);
        }
        return Ok(Value::Mapping(es));
    }
    let ghost opes = pes@;
    let apair = pes.remove(ai);
    match apair.1 {
        Value::Sequence(items) => {
            let ghost items_m = items_model(items@);
            let joined = match join_profiles(&items) {
                Result::Ok(s) => s,
                Result::Err(e) => {
                    return Err(e);
                },
            };
            let akey = apair.0;
            pes.insert(ai, (akey, Value::Str(joined)));
            proof {
                lemma_key_index(pem, "active"@);
                assert(entries_model(pes@) =~= entries_set(
                    pem,
                    "active"@,
                    ValueModel::Str(join_strs(items_m)),
                )) by {
                    assert forall|j: int| 0 <= j < pes@.len() implies entries_model(pes@)[j]
                        == entries_set(pem, "active"@, ValueModel::Str(join_strs(items_m)))[j] by {
                        lemma_entries_model_index(pes@, j);
                        if j != ai {
                            assert(pes@[j] == opes[j]);
                            lemma_entries_model_index(opes, j);
                        }
                    }
                }
            }
            let pkey = ppair.0;
            let ghost nses_target = entries_set(
                sem,
                "profiles"@,
                ValueModel::Mapping(entries_model(pes@)),
            );
            ses.insert(pi, (pkey, Value::Mapping(pes)));
            proof {
                lemma_key_index(sem, "profiles"@);
                assert(entries_model(ses@) =~= nses_target) by {
                    assert forall|j: int| 0 <= j < ses@.len() implies entries_model(ses@)[j]
                        == nses_target[j] by {
                        lemma_entries_model_index(ses@, j);
                        if j != pi {
                            assert(ses@[j] == oses[j]);
                            lemma_entries_model_index(oses, j);
                        }
                    }
                }
            }
            let skey = spair.0;
            let ghost nes_target = entries_set(
                em,
                "spring"@,
                ValueModel::Mapping(entries_model(ses@)),
            );
            es.insert(si, (skey, Value::Mapping(ses)));
            proof {
                lemma_key_index(em, "spring"@);
                assert(entries_model(es@) =~= nes_target) by {
                    assert forall|j: int| 0 <= j < es@.len() implies entries_model(es@)[j]
                        == nes_target[j] by {
                        lemma_entries_model_index(es@, j);
                        if j != si {
                            assert(es@[j] == oes[j]);
                            lemma_entries_model_index(oes, j);
                        }
                    }
                }
            }
            Ok(Value::Mapping(es))
        },
        _ => {
            proof {
                assert(false);
            }
            unreached()
        },
    }
}

/// What rendering a YAML template returns: the matching mutations applied in
/// order, the document expanded, the result postprocessed.
pub open spec fn process_yaml_spec(v: ValueModel, filename: Seq<char>, env: EnvModel) -> Result<
    ValueModel,
    Error,
> {
    match apply_mutations_spec(env.muts, filename, v) {
        Result::Err(e) => Err(e),
        Result::Ok(v2) => match expand_spec(v2, env, MAX_EXPANSION_DEPTH as nat) {
            Result::Err(e) => Err(e),
            Result::Ok(v3) => postprocess_spec(v3),
        },
    }
}

/// Renders one YAML template document against an environment.
pub fn process_yaml(content: Value, filename: &str, env: &Environment) -> (r: Result<Value, Error>)
    ensures
        match r {
            Result::Ok(v) => process_yaml_spec(content.model(), filename@, env.model()) == Ok::<
                ValueModel,
                Error,
            >(v.model()),
            Result::Err(e) => process_yaml_spec(content.model(), filename@, env.model()) == Err::<
                ValueModel,
                Error,
            >(e),
        },
{
    let mutated = match apply_mutations(&env.definitions.mutations, filename, content) {
        Result::Ok(v) => v,
        Result::Err(e) => {
            return Err(e);
        },
    };
    let expanded = match expand(&mutated, env, MAX_EXPANSION_DEPTH) {
        Result::Ok(v) => v,
        Result::Err(e) => {
            return Err(e);
        },
    };
    postprocess_yaml(expanded)
}

/// What rendering a text template returns: the whole file content expanded
/// as one string; a placeholder that resolves to anything but a string is a
/// failure.
pub open spec fn process_text_spec(s: Seq<char>, env: EnvModel) -> Result<Seq<char>, Error> {
    match expand_string_spec(s, env, MAX_EXPANSION_DEPTH as nat) {
        Result::Err(e) => Err(e),
        Result::Ok(v) => match string_value_spec(v) {
            Option::Some(t) => Ok(t),
            Option::None => Err(Error::TypeMismatch),
        },
    }
}

/// Renders one text template against an environment.
pub fn process_text(content: &str, env: &Environment) -> (r: Result<String, Error>)
    ensures
        match r {
            Result::Ok(s) => process_text_spec(content@, env.model()) == Ok::<Seq<char>, Error>(s@),
            Result::Err(e) => process_text_spec(content@, env.model()) == Err::<Seq<char>, Error>(
                e,
            ),
        },
{
    match expand_string(content, env, MAX_EXPANSION_DEPTH) {
        Result::Err(e) => Err(e),
        Result::Ok(v) => match string_value(&v) {
            Option::Some(s) => Ok(s),
            Option::None => Err(Error::TypeMismatch),
        },
    }
}

/// What the key sorter returns: the same document with every mapping's
/// entries reordered by key, at every nesting level, values sorted
/// recursively.
pub open spec fn sort_keys_spec(v: ValueModel) -> ValueModel
    decreases vheight(v), 1int, 0int,
{
    match v {
        ValueModel::Sequence(items) => ValueModel::Sequence(sort_keys_items(items)),
        ValueModel::Mapping(es) => ValueModel::Mapping(sort_entries(sort_keys_entries(es))),
        _ => v,
    }
}

/// The key sorter over sequence items, in order.
pub open spec fn sort_keys_items(items: Seq<ValueModel>) -> Seq<ValueModel>
    decreases sheight(items), 2int, items.len(),
{
    if items.len() == 0 {
        Seq::<ValueModel>::empty()
    } else {
        seq![sort_keys_spec(items[0])] + sort_keys_items(items.drop_first())
    }
}

/// The key sorter over mapping entries: each value sorted, keys unchanged.
pub open spec fn sort_keys_entries(es: Seq<(Seq<char>, ValueModel)>) -> Seq<
    (Seq<char>, ValueModel),
>
    decreases eheight(es), 2int, es.len(),
{
    if es.len() == 0 {
        Seq::<(Seq<char>, ValueModel)>::empty()
    } else {
        seq![(es[0].0, sort_keys_spec(es[0].1))] + sort_keys_entries(es.drop_first())
    }
}

/// Reorders every mapping's entries by key, at every nesting level.
#[verifier::loop_isolation(false)]
pub fn sort_keys(v: &Value) -> (r: Value)
    ensures
        r.model() == sort_keys_spec(v.model()),
    decreases vheight(v.model()), 1int, 0int,
{
    match v {
        Value::Null => Value::Null,
        Value::Bool(b) => Value::Bool(*b),
        Value::Number(n) => Value::Number(*n),
        Value::Str(s) => Value::Str(s.clone()),
        Value::Sequence(items) => {
            let ghost im = items_model(items@);
            let mut out: Vec<Value> = Vec::new();
            let mut i: usize = 0;
            proof {
                assert(im.skip(0) =~= im);
            }
            while i < items.len()
                invariant
                    i <= items@.len(),
                    sort_keys_items(im) == items_model(out@) + sort_keys_items(im.skip(i as int)),
                decreases items@.len() - i,
            {
                let ghost obefore = out@;
                proof {
                    lemma_items_model_index(items@, i as int);
                    crate::expand::lemma_sheight_bound(im, i as int);
                    assert(vheight(v.model()) == 1 + sheight(im));
                    assert(im.skip(i as int)[0] == im[i as int]);
                    assert(im.skip(i as int).drop_first() =~= im.skip(i as int + 1));
                }
                let sv = sort_keys(&items[i]);
                out.push(sv);
                i += 1;
                proof {
                    assert(items_model(out@) =~= items_model(obefore) + seq![out@.last().model()]);
                    assert(items_model(obefore) + (seq![out@.last().model()] + sort_keys_items(
                        im.skip(i as int),
                    )) =~= items_model(out@) + sort_keys_items(im.skip(i as int)));
                }
            }
            proof {
                assert(im.skip(items@.len() as int) =~= Seq::<ValueModel>::empty());
                assert(items_model(out@) + sort_keys_items(im.skip(items@.len() as int))
                    =~= items_model(out@));
            }
            Value::Sequence(out)
        },
        Value::Mapping(entries) => {
            let ghost em = entries_model(entries@);
            let mut out: Vec<(String, Value)> = Vec::new();
            let mut i: usize = 0;
            proof {
                assert(em.skip(0) =~= em);
            }
            while i < entries.len()
                invariant
                    i <= entries@.len(),
                    sort_keys_entries(em) == entries_model(out@) + sort_keys_entries(
                        em.skip(i as int),
                    ),
                decreases entries@.len() - i,
            {
                let ghost obefore = out@;
                proof {
                    lemma_entries_model_index(entries@, i as int);
                    crate::expand::lemma_eheight_bound(em, i as int);
                    assert(vheight(v.model()) == 1 + eheight(em));
                    assert(em.skip(i as int)[0] == em[i as int]);
                    assert(em.skip(i as int).drop_first() =~= em.skip(i as int + 1));
                }
                let key = entries[i].0.clone();
                let sv = sort_keys(&entries[i].1);
                out.push((key, sv));
                i += 1;
                proof {
                    assert(entries_model(out@) =~= entries_model(obefore) + seq![
                        (out@.last().0@, out@.last().1.model()),
                    ]);
                    assert(entries_model(obefore) + (seq![(out@.last().0@, out@.last().1.model())]
                        + sort_keys_entries(em.skip(i as int))) =~= entries_model(out@)
                        + sort_keys_entries(em.skip(i as int)));
                }
            }
            proof {
                assert(em.skip(entries@.len() as int) =~= Seq::<(Seq<char>, ValueModel)>::empty());
                assert(entries_model(out@) + sort_keys_entries(em.skip(entries@.len() as int))
                    =~= entries_model(out@));
            }
            let sorted = crate::expand::sort_entry_vec(out);
            Value::Mapping(sorted)
        },
    }
}

} // verus!
