use config_compiler::errors::Error;
use config_compiler::expand::{expand, expand_string, lookup_value, Environment};
use config_compiler::canon::to_canonical_json;
use config_compiler::mutate::apply_mutation;
use config_compiler::render::{
    default_envs_file, default_input_directory, default_output_directory, determine_format,
    postprocess_yaml, process_text, process_yaml, sort_keys, TemplateFormat, MAX_EXPANSION_DEPTH,
};
use config_compiler::source::{
    combine, load_source, parse_mutation, parse_value_path, Definitions, Mutation, MutationAction,
    VariableSource,
};
use config_compiler::strings::{i64_to_string, str_eq, str_le};
use config_compiler::value::Value;

fn vstr(x: &str) -> Value {
    Value::Str(x.to_string())
}

fn vnum(n: i64) -> Value {
    Value::Number(n)
}

fn vmap(entries: Vec<(&str, Value)>) -> Value {
    Value::Mapping(entries.into_iter().map(|(k, v)| (k.to_string(), v)).collect())
}

fn defs(entries: Vec<(&str, Value)>) -> Definitions {
    Definitions { entries: entries.into_iter().map(|(k, v)| (k.to_string(), v)).collect() }
}

fn env_with(entries: Vec<(&str, Value)>, prefixes: Vec<&str>) -> Environment {
    Environment {
        definitions: VariableSource { definitions: defs(entries), mutations: Vec::new() },
        expected_runtime_lookup_prefixes: prefixes.into_iter().map(|p| p.to_string()).collect(),
    }
}

#[test]
fn tests_tester() {}

#[test]
fn combiner_override_later_source_wins() {
    let a = VariableSource {
        definitions: defs(vec![("k", vnum(1)), ("only_a", vnum(2))]),
        mutations: vec![Mutation {
            filename_pattern: "first.yml".to_string(),
            action: MutationAction::Remove(vec!["x".to_string()]),
        }],
    };
    let b = VariableSource {
        definitions: defs(vec![("k", vnum(9))]),
        mutations: vec![Mutation {
            filename_pattern: "second.yml".to_string(),
            action: MutationAction::Remove(vec!["y".to_string()]),
        }],
    };
    let c = combine(vec![&a, &b]);
    assert_eq!(c.definitions.get("k"), Some(&vnum(9)));
    assert_eq!(c.definitions.get("only_a"), Some(&vnum(2)));
    assert_eq!(c.definitions.get("absent"), None);
    let patterns: Vec<&str> =
        c.mutations.iter().map(|m| m.filename_pattern.as_str()).collect();
    assert_eq!(patterns, vec!["first.yml", "second.yml"]);
}

#[test]
fn add_is_not_idempotent() {
    let action = MutationAction::Add(
        vec!["cfg".to_string()],
        vmap(vec![("x", vnum(1))]),
    );
    let doc = vmap(vec![("cfg", vmap(vec![]))]);
    let once = apply_mutation(&action, doc).unwrap();
    assert_eq!(once, vmap(vec![("cfg", vmap(vec![("x", vnum(1))]))]));
    let twice = apply_mutation(&action, once);
    assert_eq!(twice, Err(Error::Navigation));
}

#[test]
fn replace_requires_existing_key() {
    let action = MutationAction::Replace(
        vec!["a".to_string(), "k".to_string()],
        vnum(5),
    );
    let doc = vmap(vec![("a", vmap(vec![]))]);
    assert_eq!(apply_mutation(&action, doc), Err(Error::Navigation));
    let present = vmap(vec![("a", vmap(vec![("k", vnum(1))]))]);
    let replaced = apply_mutation(&action, present).unwrap();
    assert_eq!(replaced, vmap(vec![("a", vmap(vec![("k", vnum(5))]))]));
}

#[test]
fn remove_requires_existing_key() {
    let action = MutationAction::Remove(vec!["a".to_string(), "k".to_string()]);
    let doc = vmap(vec![("a", vmap(vec![]))]);
    assert_eq!(apply_mutation(&action, doc), Err(Error::Navigation));
    let present = vmap(vec![("a", vmap(vec![("k", vnum(1)), ("other", vnum(2))]))]);
    let removed = apply_mutation(&action, present).unwrap();
    assert_eq!(removed, vmap(vec![("a", vmap(vec![("other", vnum(2))]))]));
}

#[test]
fn add_sequence_appends() {
    let action = MutationAction::Add(
        vec!["list".to_string()],
        Value::Sequence(vec![vnum(3), vnum(4)]),
    );
    let doc = vmap(vec![("list", Value::Sequence(vec![vnum(1), vnum(2)]))]);
    let out = apply_mutation(&action, doc).unwrap();
    assert_eq!(
        out,
        vmap(vec![("list", Value::Sequence(vec![vnum(1), vnum(2), vnum(3), vnum(4)]))])
    );
}

#[test]
fn add_scalar_payload_is_type_error() {
    let action = MutationAction::Add(vec![], vnum(1));
    let doc = vmap(vec![]);
    assert_eq!(apply_mutation(&action, doc), Err(Error::TypeMismatch));
}

#[test]
fn mutation_through_missing_path_is_navigation_error() {
    let action = MutationAction::Add(
        vec!["missing".to_string()],
        vmap(vec![("x", vnum(1))]),
    );
    let doc = vmap(vec![]);
    assert_eq!(apply_mutation(&action, doc), Err(Error::Navigation));
}

#[test]
fn hierarchical_fallback_lookup() {
    let d = defs(vec![("a/*", vnum(1)), ("a/b/c", vnum(2))]);
    assert_eq!(lookup_value(&d, "a/b/c"), Some(vnum(2)));
    assert_eq!(lookup_value(&d, "a/b/x"), Some(vnum(1)));
    assert_eq!(lookup_value(&d, "z/q"), None);
    let env = env_with(vec![("a/*", vnum(1)), ("a/b/c", vnum(2))], vec![]);
    assert_eq!(
        expand_string("(( z/q ))", &env, MAX_EXPANSION_DEPTH),
        Err(Error::UnresolvedReference)
    );
}

#[test]
fn nearest_wildcard_wins() {
    let d = defs(vec![("a/*", vnum(1)), ("a/b/*", vnum(7))]);
    assert_eq!(lookup_value(&d, "a/b/x"), Some(vnum(7)));
    assert_eq!(lookup_value(&d, "a/y"), Some(vnum(1)));
}

#[test]
fn runtime_deferral_keeps_placeholder() {
    let env = env_with(vec![], vec!["secrets/"]);
    let out = expand_string("(( secrets/db_password ))", &env, MAX_EXPANSION_DEPTH).unwrap();
    assert_eq!(out, vstr("(( secrets/db_password ))"));
    assert_eq!(
        expand_string("(( other/missing ))", &env, MAX_EXPANSION_DEPTH),
        Err(Error::UnresolvedReference)
    );
}

#[test]
fn whole_value_interpolation_keeps_type() {
    let env = env_with(vec![("num/x", vnum(42))], vec![]);
    let out = expand_string("(( num/x ))", &env, MAX_EXPANSION_DEPTH).unwrap();
    assert_eq!(out, vnum(42));
}

#[test]
fn embedded_interpolation_renders_text() {
    let env = env_with(vec![("num/x", vnum(42))], vec![]);
    let out = expand_string("prefix-(( num/x ))-suffix", &env, MAX_EXPANSION_DEPTH).unwrap();
    assert_eq!(out, vstr("prefix-42-suffix"));
}

#[test]
fn embedded_interpolation_of_non_scalar_is_type_error() {
    let env = env_with(vec![("obj", vmap(vec![("a", vnum(1))]))], vec![]);
    assert_eq!(
        expand_string("x-(( obj ))-y", &env, MAX_EXPANSION_DEPTH),
        Err(Error::TypeMismatch)
    );
}

#[test]
fn chained_embedded_interpolation() {
    let env = env_with(
        vec![("a", vstr("(( b ))-tail")), ("b", vnum(7))],
        vec![],
    );
    let out = expand_string("head-(( a ))", &env, MAX_EXPANSION_DEPTH).unwrap();
    assert_eq!(out, vstr("head-7-tail"));
}

#[test]
fn name_with_open_paren_is_left_alone() {
    let env = env_with(vec![], vec![]);
    let out = expand_string("x (( a(b )) y", &env, MAX_EXPANSION_DEPTH).unwrap();
    assert_eq!(out, vstr("x (( a(b )) y"));
}

#[test]
fn string_without_markers_is_unchanged() {
    let env = env_with(vec![], vec![]);
    let out = expand_string("plain text", &env, MAX_EXPANSION_DEPTH).unwrap();
    assert_eq!(out, vstr("plain text"));
}

#[test]
fn json_convention_renders_canonical_json() {
    let env = env_with(
        vec![("obj/json", vmap(vec![("b", vnum(2)), ("a", vnum(1))]))],
        vec![],
    );
    let out = expand_string("(( obj/json ))", &env, MAX_EXPANSION_DEPTH).unwrap();
    assert_eq!(out, vstr("{\"a\":1,\"b\":2}"));
}

#[test]
fn json_convention_passes_strings_through() {
    let env = env_with(vec![("s/json", vstr("already a string"))], vec![]);
    let out = expand_string("(( s/json ))", &env, MAX_EXPANSION_DEPTH).unwrap();
    assert_eq!(out, vstr("already a string"));
}

#[test]
fn json_convention_rejects_other_kinds() {
    let env = env_with(vec![("n/json", vnum(3))], vec![]);
    assert_eq!(
        expand_string("(( n/json ))", &env, MAX_EXPANSION_DEPTH),
        Err(Error::TypeMismatch)
    );
}

#[test]
fn cyclic_definitions_exceed_depth() {
    let env = env_with(
        vec![("a", vstr("(( b ))")), ("b", vstr("(( a ))"))],
        vec![],
    );
    assert_eq!(
        expand_string("(( a ))", &env, MAX_EXPANSION_DEPTH),
        Err(Error::DepthExceeded)
    );
}

#[test]
fn expansion_sorts_mapping_keys_at_every_level() {
    let env = env_with(vec![], vec![]);
    let doc = vmap(vec![
        ("b", vnum(1)),
        ("a", vmap(vec![("d", vnum(1)), ("c", vnum(2))])),
    ]);
    let out = expand(&doc, &env, MAX_EXPANSION_DEPTH).unwrap();
    assert_eq!(
        out,
        vmap(vec![
            ("a", vmap(vec![("c", vnum(2)), ("d", vnum(1))])),
            ("b", vnum(1)),
        ])
    );
}

#[test]
fn environment_name_is_injected() {
    let combined = VariableSource { definitions: defs(vec![]), mutations: Vec::new() };
    let env = config_compiler::render::build_environment(
        "staging",
        combined,
        &vec!["secrets".to_string()],
    );
    let out = expand_string("(( environment/name ))", &env, MAX_EXPANSION_DEPTH).unwrap();
    assert_eq!(out, vstr("staging"));
    assert_eq!(env.expected_runtime_lookup_prefixes, vec!["secrets/".to_string()]);
}

#[test]
fn postprocess_collapses_active_profiles() {
    let doc = vmap(vec![(
        "spring",
        vmap(vec![(
            "profiles",
            vmap(vec![("active", Value::Sequence(vec![vstr("a"), vstr("b")]))]),
        )]),
    )]);
    let out = postprocess_yaml(doc).unwrap();
    assert_eq!(
        out,
        vmap(vec![(
            "spring",
            vmap(vec![("profiles", vmap(vec![("active", vstr("a,b"))]))]),
        )])
    );
}

#[test]
fn postprocess_leaves_other_documents_alone() {
    let doc = vmap(vec![("spring", vnum(1))]);
    let out = postprocess_yaml(doc).unwrap();
    assert_eq!(out, vmap(vec![("spring", vnum(1))]));
}

#[test]
fn postprocess_rejects_non_string_profiles() {
    let doc = vmap(vec![(
        "spring",
        vmap(vec![(
            "profiles",
            vmap(vec![("active", Value::Sequence(vec![vstr("a"), vnum(3)]))]),
        )]),
    )]);
    assert_eq!(postprocess_yaml(doc), Err(Error::TypeMismatch));
}

#[test]
fn process_yaml_applies_matching_mutations_then_expands() {
    let mutations = vec![
        Mutation {
            filename_pattern: "app.yml".to_string(),
            action: MutationAction::Add(
                vec!["cfg".to_string()],
                vmap(vec![("added", vstr("(( num/x ))"))]),
            ),
        },
        Mutation {
            filename_pattern: "other.yml".to_string(),
            action: MutationAction::Remove(vec!["cfg".to_string()]),
        },
    ];
    let env = Environment {
        definitions: VariableSource {
            definitions: defs(vec![("num/x", vnum(42))]),
            mutations,
        },
        expected_runtime_lookup_prefixes: Vec::new(),
    };
    let doc = vmap(vec![("cfg", vmap(vec![("z", vnum(0))]))]);
    let out = process_yaml(doc, "app.yml", &env).unwrap();
    assert_eq!(
        out,
        vmap(vec![("cfg", vmap(vec![("added", vnum(42)), ("z", vnum(0))]))])
    );
}

#[test]
fn process_text_renders_whole_file() {
    let env = env_with(vec![("greeting", vstr("hello"))], vec![]);
    let out = process_text("say (( greeting )) twice", &env).unwrap();
    assert_eq!(out, "say hello twice".to_string());
}

#[test]
fn process_text_rejects_non_string_result() {
    let env = env_with(vec![("obj", vmap(vec![("a", vnum(1))]))], vec![]);
    assert_eq!(process_text("(( obj ))", &env), Err(Error::TypeMismatch));
}

#[test]
fn determine_format_by_extension() {
    assert_eq!(determine_format("app.yml"), Ok(TemplateFormat::Yaml));
    assert_eq!(determine_format("app.conf"), Ok(TemplateFormat::Text));
    assert_eq!(determine_format("app.env"), Ok(TemplateFormat::Text));
    assert_eq!(determine_format("app.txt"), Ok(TemplateFormat::Text));
    assert_eq!(determine_format("index.php"), Ok(TemplateFormat::Text));
    assert_eq!(determine_format("archive.tar"), Err(Error::Parse));
}

#[test]
fn default_paths() {
    assert_eq!(default_input_directory(), ".".to_string());
    assert_eq!(default_output_directory(), "./environments".to_string());
    assert_eq!(default_envs_file(), "./environments.yml".to_string());
}

#[test]
fn load_source_splits_mutations_from_definitions() {
    let doc = vmap(vec![
        ("plain", vnum(5)),
        (
            "mutations",
            Value::Sequence(vec![vmap(vec![(
                "app.yml",
                vmap(vec![
                    ("add", vmap(vec![("cfg", Value::Null)])),
                    ("values", vmap(vec![("k", vnum(1))])),
                ]),
            )])]),
        ),
    ]);
    let src = load_source(&doc).unwrap();
    assert_eq!(src.definitions.get("plain"), Some(&vnum(5)));
    assert_eq!(src.definitions.get("mutations"), None);
    assert_eq!(src.mutations.len(), 1);
    assert_eq!(src.mutations[0].filename_pattern, "app.yml".to_string());
    match &src.mutations[0].action {
        MutationAction::Add(path, payload) => {
            assert_eq!(path, &vec!["cfg".to_string()]);
            assert_eq!(payload, &vmap(vec![("k", vnum(1))]));
        },
        other => panic!("wrong action: {:?}", other),
    }
}

#[test]
fn load_source_without_mutations_key() {
    let doc = vmap(vec![("a", vnum(1))]);
    let src = load_source(&doc).unwrap();
    assert_eq!(src.definitions.get("a"), Some(&vnum(1)));
    assert!(src.mutations.is_empty());
}

#[test]
fn load_source_rejects_non_sequence_mutations() {
    let doc = vmap(vec![("mutations", vnum(3))]);
    assert_eq!(load_source(&doc).err(), Some(Error::Parse));
}

#[test]
fn load_source_rejects_non_mapping_document() {
    assert_eq!(load_source(&vnum(1)).err(), Some(Error::Parse));
}

#[test]
fn parse_value_path_decodes_nested_mappings() {
    let spec = vmap(vec![("a", vmap(vec![("b", Value::Null)]))]);
    assert_eq!(
        parse_value_path(&spec),
        Some(vec!["a".to_string(), "b".to_string()])
    );
    assert_eq!(parse_value_path(&Value::Null), Some(Vec::new()));
    assert_eq!(parse_value_path(&vnum(1)), None);
    let two_keys = vmap(vec![("a", Value::Null), ("b", Value::Null)]);
    assert_eq!(parse_value_path(&two_keys), None);
}

#[test]
fn parse_mutation_decodes_each_action() {
    let remove = vmap(vec![(
        "app.yml",
        vmap(vec![("remove", vmap(vec![("k", Value::Null)]))]),
    )]);
    match parse_mutation(&remove).unwrap().action {
        MutationAction::Remove(path) => assert_eq!(path, vec!["k".to_string()]),
        other => panic!("wrong action: {:?}", other),
    }
    let replace = vmap(vec![(
        "app.yml",
        vmap(vec![
            ("replace", vmap(vec![("k", Value::Null)])),
            ("value", vnum(9)),
        ]),
    )]);
    match parse_mutation(&replace).unwrap().action {
        MutationAction::Replace(path, v) => {
            assert_eq!(path, vec!["k".to_string()]);
            assert_eq!(v, vnum(9));
        },
        other => panic!("wrong action: {:?}", other),
    }
    let dodgy = vmap(vec![("app.yml", vmap(vec![("frobnicate", Value::Null)]))]);
    assert_eq!(parse_mutation(&dodgy).err(), Some(Error::Parse));
    let add_without_values = vmap(vec![(
        "app.yml",
        vmap(vec![("add", vmap(vec![("k", Value::Null)]))]),
    )]);
    assert_eq!(parse_mutation(&add_without_values).err(), Some(Error::Parse));
}

#[test]
fn canonical_json_of_scalars_and_trees() {
    assert_eq!(to_canonical_json(&Value::Null), "null".to_string());
    assert_eq!(to_canonical_json(&Value::Bool(true)), "true".to_string());
    assert_eq!(to_canonical_json(&Value::Bool(false)), "false".to_string());
    assert_eq!(to_canonical_json(&vnum(0)), "0".to_string());
    assert_eq!(to_canonical_json(&vnum(-57)), "-57".to_string());
    assert_eq!(to_canonical_json(&vstr("hi")), "\"hi\"".to_string());
    assert_eq!(
        to_canonical_json(&Value::Sequence(vec![vnum(1), vstr("two")])),
        "[1,\"two\"]".to_string()
    );
    assert_eq!(to_canonical_json(&Value::Sequence(vec![])), "[]".to_string());
    assert_eq!(to_canonical_json(&vmap(vec![])), "{}".to_string());
    assert_eq!(
        to_canonical_json(&vmap(vec![("a", vmap(vec![("b", Value::Null)]))])),
        "{\"a\":{\"b\":null}}".to_string()
    );
}

#[test]
fn canonical_json_escapes_strings() {
    assert_eq!(
        to_canonical_json(&vstr("a\"b\\c\nd\te\rf")),
        "\"a\\\"b\\\\c\\nd\\te\\rf\"".to_string()
    );
    assert_eq!(
        to_canonical_json(&vstr("\u{8}\u{c}\u{1}\u{1f}")),
        "\"\\b\\f\\u0001\\u001f\"".to_string()
    );
}

#[test]
fn decimal_formatting_of_integers() {
    assert_eq!(i64_to_string(0), "0".to_string());
    assert_eq!(i64_to_string(7), "7".to_string());
    assert_eq!(i64_to_string(-1), "-1".to_string());
    assert_eq!(i64_to_string(1234567890), "1234567890".to_string());
    assert_eq!(i64_to_string(i64::MAX), "9223372036854775807".to_string());
    assert_eq!(i64_to_string(i64::MIN), "-9223372036854775808".to_string());
}

#[test]
fn sort_keys_orders_every_level() {
    let doc = vmap(vec![
        ("b", vnum(1)),
        (
            "a",
            Value::Sequence(vec![vmap(vec![("d", vnum(1)), ("c", vnum(2))])]),
        ),
    ]);
    let out = sort_keys(&doc);
    assert_eq!(
        out,
        vmap(vec![
            (
                "a",
                Value::Sequence(vec![vmap(vec![("c", vnum(2)), ("d", vnum(1))])]),
            ),
            ("b", vnum(1)),
        ])
    );
}

#[test]
fn string_utilities_compare_correctly() {
    assert!(str_eq("abc", "abc"));
    assert!(!str_eq("abc", "abd"));
    assert!(str_le("abc", "abd"));
    assert!(str_le("ab", "abc"));
    assert!(!str_le("b", "abc"));
    assert!(str_le("same", "same"));
}

#[test]
fn error_descriptions_are_stable() {
    assert_eq!(Error::Parse.describe(), "parse error");
    assert_eq!(Error::Navigation.describe(), "navigation error");
    assert_eq!(Error::TypeMismatch.describe(), "type error");
    assert_eq!(Error::UnresolvedReference.describe(), "unresolved reference");
    assert_eq!(Error::DepthExceeded.describe(), "expansion depth exceeded");
}

#[test]
fn remove_at_empty_path_fails() {
    let action = MutationAction::Remove(vec![]);
    assert_eq!(apply_mutation(&action, vmap(vec![])), Err(Error::Navigation));
}

#[test]
fn add_mapping_at_document_root() {
    let action = MutationAction::Add(vec![], vmap(vec![("x", vnum(1))]));
    let out = apply_mutation(&action, vmap(vec![("y", vnum(0))])).unwrap();
    assert_eq!(out, vmap(vec![("y", vnum(0)), ("x", vnum(1))]));
}

#[test]
fn sequential_mutations_see_earlier_results() {
    let first = MutationAction::Add(vec![], vmap(vec![("box", vmap(vec![]))]));
    let second = MutationAction::Add(
        vec!["box".to_string()],
        vmap(vec![("inner", vnum(1))]),
    );
    let doc = vmap(vec![]);
    let after_first = apply_mutation(&first, doc).unwrap();
    let after_second = apply_mutation(&second, after_first).unwrap();
    assert_eq!(
        after_second,
        vmap(vec![("box", vmap(vec![("inner", vnum(1))]))])
    );
}

#[test]
fn inverted_markers_are_left_alone() {
    let env = env_with(vec![("a", vnum(1))], vec![]);
    let out = expand_string(")) misleading ((", &env, MAX_EXPANSION_DEPTH).unwrap();
    assert_eq!(out, vstr(")) misleading (("));
}

#[test]
fn expansion_of_empty_containers() {
    let env = env_with(vec![], vec![]);
    assert_eq!(expand(&vmap(vec![]), &env, MAX_EXPANSION_DEPTH).unwrap(), vmap(vec![]));
    assert_eq!(
        expand(&Value::Sequence(vec![]), &env, MAX_EXPANSION_DEPTH).unwrap(),
        Value::Sequence(vec![])
    );
    assert_eq!(expand(&Value::Null, &env, MAX_EXPANSION_DEPTH).unwrap(), Value::Null);
}

#[test]
fn combine_of_no_sources_is_empty() {
    let c = combine(vec![]);
    assert_eq!(c.definitions.get("anything"), None);
    assert!(c.mutations.is_empty());
}

#[test]
fn lookup_without_namespace_has_no_fallback() {
    let d = defs(vec![("name", vnum(1))]);
    assert_eq!(lookup_value(&d, "name"), Some(vnum(1)));
    assert_eq!(lookup_value(&d, "other"), None);
}

#[test]
fn runtime_prefix_must_match_from_the_start() {
    let env = env_with(vec![], vec!["secrets/"]);
    assert_eq!(
        expand_string("(( secrets ))", &env, MAX_EXPANSION_DEPTH),
        Err(Error::UnresolvedReference)
    );
    assert_eq!(
        expand_string("(( not/secrets/x ))", &env, MAX_EXPANSION_DEPTH),
        Err(Error::UnresolvedReference)
    );
}

#[test]
fn whole_value_interpolation_of_a_mapping() {
    let env = env_with(vec![("obj", vmap(vec![("b", vnum(2)), ("a", vnum(1))]))], vec![]);
    let out = expand_string("(( obj ))", &env, MAX_EXPANSION_DEPTH).unwrap();
    assert_eq!(out, vmap(vec![("a", vnum(1)), ("b", vnum(2))]));
}
