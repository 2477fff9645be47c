use bazel_execlog_cmp::compare::find_mismatched;
use bazel_execlog_cmp::decode::{
    decode_action, decode_bool, decode_digest, decode_env_var, decode_hash, decode_item,
    decode_size, decode_text, decode_texts,
};
use bazel_execlog_cmp::json::{get_field, Json};
use bazel_execlog_cmp::names::{hash_name, NameTable};
use bazel_execlog_cmp::query::all_same;
use bazel_execlog_cmp::record::{
    find_item, find_var, ActionContext, Digest, EnvVar, Item, Sha256,
};
use bazel_execlog_cmp::shell::{begins_with, is_word, parse_command, Command, CommandKind};

fn text(s: &str) -> Json {
    Json::Text(s.to_string())
}

fn object(members: Vec<(&str, Json)>) -> Json {
    Json::Object(members.into_iter().map(|(k, v)| (k.to_string(), v)).collect())
}

fn file(path: &str, byte: u8) -> Item {
    Item {
        path: path.to_string(),
        digest: Digest {
            hash: Sha256([byte; 32]),
            size_bytes: 3,
            hash_function_name: "SHA-256".to_string(),
        },
    }
}

fn var(name: &str, value: &str) -> EnvVar {
    EnvVar { name: name.to_string(), value: value.to_string() }
}

fn action(env: Vec<EnvVar>, inputs: Vec<Item>, outputs: Vec<Item>) -> ActionContext {
    ActionContext {
        environment_variables: env,
        inputs,
        listed_outputs: outputs.iter().map(|o| o.path.clone()).collect(),
        remotable: false,
        cacheable: false,
        actual_outputs: outputs,
    }
}

fn read(line: &str) -> (CommandKind, &str) {
    let Command { kind, argument_at } = parse_command(line);
    (kind, &line[argument_at..])
}

#[test]
fn commands_are_told_apart() {
    assert_eq!(read("quit"), (CommandKind::Quit, ""));
    assert_eq!(read("q"), (CommandKind::Quit, ""));
    assert_eq!(read("help"), (CommandKind::Help, ""));
    assert_eq!(read("cmp out/a.o"), (CommandKind::Compare, "out/a.o"));
    assert_eq!(read("transitive-cmp out/a.o"), (CommandKind::TransitiveCompare, "out/a.o"));
    assert_eq!(read("tcmp out/a.o"), (CommandKind::TransitiveCompare, "out/a.o"));
    assert_eq!(read("edges x"), (CommandKind::Edges, "x"));
    assert_eq!(read("view x y"), (CommandKind::View, "x y"));
    assert_eq!(read("diff \u{e9}t\u{e9}"), (CommandKind::Diff, "\u{e9}t\u{e9}"));
    assert_eq!(read("cmp "), (CommandKind::Compare, ""));
}

#[test]
fn other_lines_are_unrecognized() {
    for line in ["", "cmp", "quit ", " q", "Help", "helpme", "tcmp", "cmpx a", "json a", "view\ta"] {
        assert_eq!(parse_command(line).kind, CommandKind::Unrecognized, "line {:?}", line);
        assert_eq!(parse_command(line).argument_at, line.len());
    }
}

#[test]
fn prefixes_are_compared_byte_for_byte() {
    assert!(begins_with("cmp x", "cmp "));
    assert!(begins_with("cmp ", "cmp "));
    assert!(begins_with("anything", ""));
    assert!(!begins_with("cm", "cmp "));
    assert!(!begins_with("cmq x", "cmp "));
    assert!(is_word("help", "help"));
    assert!(!is_word("help ", "help"));
    assert!(!is_word("hel", "help"));
    assert!(is_word("", ""));
}

#[test]
fn table_keeps_names_in_order() {
    let mut table = NameTable::new();
    assert_eq!(table.len(), 0);
    assert_eq!(table.find(&"a".to_string()), None);
    for i in 0..500 {
        let name = format!("name-{}", i);
        assert_eq!(table.find(&name), None);
        table.push(name);
    }
    assert_eq!(table.len(), 500);
    for i in (0..500).rev() {
        let name = format!("name-{}", i);
        assert_eq!(table.find(&name), Some(i));
        assert_eq!(table.name(i), &name);
    }
    assert_eq!(table.find(&"name-500".to_string()), None);
    assert_eq!(table.find(&"".to_string()), None);
}

#[test]
fn hash_goes_by_the_bytes_of_the_name() {
    assert_eq!(hash_name(&"".to_string()), 14695981039346656037);
    let expected =
        ((14695981039346656037u128 * 1099511628211 + 97 + 1) % 18446744073709551557) as u64;
    assert_eq!(hash_name(&"a".to_string()), expected);
    assert_eq!(hash_name(&"ab".to_string()), hash_name(&"ab".to_string()));
    assert_ne!(hash_name(&"ab".to_string()), hash_name(&"ba".to_string()));
}

#[test]
fn first_binding_is_found() {
    let a = action(
        vec![var("A", "1"), var("B", "2"), var("A", "3")],
        vec![file("x", 1), file("y", 2), file("x", 3)],
        vec![file("o", 4), file("o", 5)],
    );
    assert_eq!(a.env_var("A").unwrap().value, "1");
    assert_eq!(a.env_var("B").unwrap().value, "2");
    assert!(a.env_var("C").is_none());
    assert_eq!(a.input("x").unwrap().digest.hash, Sha256([1; 32]));
    assert_eq!(a.input("y").unwrap().digest.hash, Sha256([2; 32]));
    assert!(a.input("o").is_none());
    assert_eq!(a.output("o").unwrap().digest.hash, Sha256([4; 32]));
    assert!(a.output("x").is_none());
    assert!(find_item(&vec![], "x").is_none());
    assert!(find_var(&vec![], "A").is_none());
}

#[test]
fn sameness_of_actions_is_told() {
    let a = action(vec![var("A", "1")], vec![file("x", 1)], vec![file("o", 2)]);
    let b = a.clone();
    let c = action(vec![var("A", "2")], vec![file("x", 1)], vec![file("o", 2)]);
    assert!(all_same(&vec![]));
    assert!(all_same(&vec![&a]));
    assert!(all_same(&vec![&a, &b, &a]));
    assert!(!all_same(&vec![&a, &b, &c]));
    assert!(!all_same(&vec![&c, &a]));
}

#[test]
fn order_of_the_logs_does_not_matter() {
    let a = action(
        vec![var("A", "1"), var("B", "1"), var("A", "2"), var("B", "1")],
        vec![file("x", 1), file("y", 1), file("x", 1), file("y", 2)],
        vec![file("o", 1), file("o", 2), file("o", 1)],
    );
    let b = action(vec![var("B", "1"), var("A", "2")], vec![file("y", 1)], vec![file("o", 2)]);
    let c = action(
        vec![var("A", "1"), var("B", "1"), var("C", "1")],
        vec![file("y", 2), file("x", 1)],
        vec![file("o", 1), file("p", 1)],
    );
    let sets = |order: Vec<&ActionContext>| {
        let found = find_mismatched("o", &order);
        let sorted = |list: &Vec<bazel_execlog_cmp::compare::Mismatch>| {
            let mut keys: Vec<String> = list.iter().map(|m| m.key.clone()).collect();
            keys.sort();
            keys
        };
        (sorted(&found.env_vars), sorted(&found.inputs), sorted(&found.outputs))
    };
    let expected = (
        vec!["A".to_string(), "C".to_string()],
        vec!["x".to_string(), "y".to_string()],
        vec!["o".to_string(), "p".to_string()],
    );
    for order in [
        vec![&a, &b, &c],
        vec![&a, &c, &b],
        vec![&b, &a, &c],
        vec![&b, &c, &a],
        vec![&c, &a, &b],
        vec![&c, &b, &a],
    ] {
        assert_eq!(sets(order), expected);
    }
}

#[test]
fn first_member_of_a_name_is_taken() {
    let json = object(vec![("a", text("1")), ("b", Json::Bool(true)), ("a", text("2"))]);
    assert!(matches!(get_field(&json, "a"), Some(Json::Text(s)) if s == "1"));
    assert!(matches!(get_field(&json, "b"), Some(Json::Bool(true))));
    assert!(get_field(&json, "c").is_none());
    assert!(get_field(&Json::Array(vec![]), "a").is_none());
    assert!(get_field(&Json::Null, "a").is_none());
}

#[test]
fn plain_values_are_decoded() {
    assert_eq!(decode_text(&text("abc")), Some("abc".to_string()));
    assert_eq!(decode_text(&Json::Null), None);
    assert_eq!(decode_bool(&Json::Bool(false)), Some(false));
    assert_eq!(decode_bool(&text("true")), None);
    assert_eq!(decode_size(&Json::Number(Some(5))), Some(5));
    assert_eq!(decode_size(&Json::Number(None)), None);
    assert_eq!(decode_size(&text("12")), Some(12));
    assert_eq!(decode_size(&text("+12")), Some(12));
    assert_eq!(decode_size(&text("twelve")), None);
    assert_eq!(decode_size(&Json::Bool(true)), None);
    assert_eq!(decode_hash(&text(&"ab".repeat(32))), Some(Sha256([0xab; 32])));
    assert_eq!(decode_hash(&text(&"AB".repeat(32))), Some(Sha256([0xab; 32])));
    assert_eq!(decode_hash(&text(&"ab".repeat(31))), None);
    assert_eq!(decode_hash(&Json::Number(Some(1))), None);
    assert_eq!(
        decode_texts(&Json::Array(vec![text("a"), text("b")])),
        Some(vec!["a".to_string(), "b".to_string()])
    );
    assert_eq!(decode_texts(&Json::Array(vec![text("a"), Json::Null])), None);
    assert_eq!(decode_texts(&text("a")), None);
}

#[test]
fn records_are_decoded_from_their_members() {
    let digest = object(vec![
        ("hashFunctionName", text("SHA-256")),
        ("hash", text(&"01".repeat(32))),
        ("sizeBytes", text("77")),
    ]);
    let expected = Digest {
        hash: Sha256([1; 32]),
        size_bytes: 77,
        hash_function_name: "SHA-256".to_string(),
    };
    assert_eq!(decode_digest(&digest), Some(expected.clone()));
    assert_eq!(decode_digest(&object(vec![("hash", text(&"01".repeat(32)))])), None);
    assert_eq!(decode_digest(&Json::Array(vec![])), None);
    let item = object(vec![("digest", digest), ("path", text("a/b"))]);
    assert_eq!(decode_item(&item), Some(Item { path: "a/b".to_string(), digest: expected }));
    assert_eq!(decode_item(&object(vec![("path", text("a/b"))])), None);
    let var = object(vec![("name", text("N")), ("value", text("V"))]);
    assert_eq!(decode_env_var(&var), Some(EnvVar { name: "N".to_string(), value: "V".to_string() }));
    assert_eq!(decode_env_var(&object(vec![("name", text("N")), ("value", Json::Null)])), None);
    let whole = object(vec![
        ("environmentVariables", Json::Array(vec![var])),
        ("inputs", Json::Array(vec![item])),
        ("listedOutputs", Json::Array(vec![text("o")])),
        ("remotable", Json::Bool(true)),
        ("cacheable", Json::Bool(false)),
        ("actualOutputs", Json::Array(vec![])),
    ]);
    let action = decode_action(&whole).unwrap();
    assert_eq!(action.environment_variables.len(), 1);
    assert_eq!(action.inputs[0].path, "a/b");
    assert_eq!(action.listed_outputs, vec!["o".to_string()]);
    assert!(action.remotable && !action.cacheable);
    assert!(action.actual_outputs.is_empty());
    for missing in [
        "environmentVariables",
        "inputs",
        "listedOutputs",
        "remotable",
        "cacheable",
        "actualOutputs",
    ] {
        let members: Vec<(&str, Json)> = [
            ("environmentVariables", Json::Array(vec![])),
            ("inputs", Json::Array(vec![])),
            ("listedOutputs", Json::Array(vec![])),
            ("remotable", Json::Bool(true)),
            ("cacheable", Json::Bool(false)),
            ("actualOutputs", Json::Array(vec![])),
        ]
        .into_iter()
        .filter(|(name, _)| *name != missing)
        .collect();
        assert!(decode_action(&object(members)).is_none(), "without {}", missing);
    }
}
