use bazel_execlog_cmp::compare::{Mismatch, MismatchSets};
use bazel_execlog_cmp::index::LogIndex;
use bazel_execlog_cmp::record::{ActionContext, Digest, EnvVar, Item, Sha256};
use bazel_execlog_cmp::walk::{edges, edges_of, transitive_cmp};

fn file(path: &str, byte: u8) -> Item {
    Item {
        path: path.to_string(),
        digest: Digest {
            hash: Sha256([byte; 32]),
            size_bytes: 1,
            hash_function_name: "SHA-256".to_string(),
        },
    }
}

fn step(env: &[(&str, &str)], inputs: &[(&str, u8)], outputs: &[(&str, u8)]) -> ActionContext {
    ActionContext {
        environment_variables: env
            .iter()
            .map(|(n, v)| EnvVar { name: n.to_string(), value: v.to_string() })
            .collect(),
        inputs: inputs.iter().map(|(p, b)| file(p, *b)).collect(),
        listed_outputs: outputs.iter().map(|(p, _)| p.to_string()).collect(),
        remotable: false,
        cacheable: true,
        actual_outputs: outputs.iter().map(|(p, b)| file(p, *b)).collect(),
    }
}

fn log(actions: Vec<ActionContext>) -> LogIndex {
    LogIndex::build(actions).0
}

fn sorted(found: &[Mismatch]) -> Vec<&str> {
    let mut keys: Vec<&str> = found.iter().map(|m| m.key.as_str()).collect();
    keys.sort();
    keys
}

fn finding(artifact: &str, key: &str) -> Mismatch {
    Mismatch { artifact: artifact.to_string(), key: key.to_string() }
}

/// `d` is made from `src`; `b` and `c` are made from `d`; `a` from `b` and `c`.
fn diamond(v: u8) -> LogIndex {
    log(vec![
        step(&[("SEED", "1")], &[("src", v), ("same", 7)], &[("d", v)]),
        step(&[], &[("d", v)], &[("b", v)]),
        step(&[("TMP", if v == 1 { "/tmp/1" } else { "/tmp/2" })], &[("d", v)], &[("c", v)]),
        step(&[], &[("b", v), ("c", v)], &[("a", v)]),
    ])
}

#[test]
fn chain_is_followed_to_its_end() {
    let make = |v: u8| {
        log(vec![
            step(&[], &[("x.c", v)], &[("x.o", v)]),
            step(&[("K", if v == 1 { "a" } else { "b" })], &[("x.o", v), ("y.o", 5)], &[("x", v)]),
        ])
    };
    let maps = vec![make(1), make(2)];
    let found = transitive_cmp("x", &maps);
    assert_eq!(sorted(&found.env_vars), vec!["K"]);
    assert_eq!(sorted(&found.inputs), vec!["x.c", "x.o"]);
    assert_eq!(sorted(&found.outputs), vec!["x", "x.o"]);
    let of = |key: &str, list: &[Mismatch]| {
        list.iter().find(|m| m.key == key).unwrap().artifact.clone()
    };
    assert_eq!(of("K", &found.env_vars), "x");
    assert_eq!(of("x.o", &found.inputs), "x");
    assert_eq!(of("x.c", &found.inputs), "x.o");
    assert_eq!(of("x.o", &found.outputs), "x.o");
}

#[test]
fn diamond_is_reported_once() {
    let maps = vec![diamond(1), diamond(2)];
    let found = transitive_cmp("a", &maps);
    assert_eq!(sorted(&found.env_vars), vec!["TMP"]);
    assert_eq!(sorted(&found.inputs), vec!["b", "c", "d", "src"]);
    assert_eq!(sorted(&found.outputs), vec!["a", "b", "c", "d"]);
    assert_eq!(found.inputs.iter().filter(|m| m.key == "d").count(), 1);
    assert_eq!(found.outputs.iter().filter(|m| m.key == "d").count(), 1);
}

#[test]
fn walk_gives_the_same_sets_every_time() {
    let maps = vec![diamond(1), diamond(2), diamond(1)];
    let first = transitive_cmp("a", &maps);
    for _ in 0..5 {
        let again = transitive_cmp("a", &maps);
        assert_eq!(sorted(&again.env_vars), sorted(&first.env_vars));
        assert_eq!(sorted(&again.inputs), sorted(&first.inputs));
        assert_eq!(sorted(&again.outputs), sorted(&first.outputs));
    }
    assert_eq!(sorted(&first.inputs), vec!["b", "c", "d", "src"]);
}

#[test]
fn walk_from_the_middle_sees_only_what_lies_below() {
    let maps = vec![diamond(1), diamond(2)];
    let found = transitive_cmp("b", &maps);
    assert!(found.env_vars.is_empty());
    assert_eq!(sorted(&found.inputs), vec!["d", "src"]);
    assert_eq!(sorted(&found.outputs), vec!["b", "d"]);
}

#[test]
fn matching_artifact_ends_the_walk() {
    let maps = vec![diamond(1), diamond(1)];
    let found = transitive_cmp("a", &maps);
    assert!(found.env_vars.is_empty());
    assert!(found.inputs.is_empty());
    assert!(found.outputs.is_empty());
}

#[test]
fn missing_root_gives_nothing() {
    let mut one = vec![step(&[("K", "1")], &[("in", 1)], &[("only", 1)])];
    one.push(step(&[], &[], &[("both", 1)]));
    let two = vec![step(&[], &[], &[("both", 2)])];
    let maps = vec![log(one), log(two)];
    for root in ["only", "nowhere"] {
        let found = transitive_cmp(root, &maps);
        assert!(found.env_vars.is_empty());
        assert!(found.inputs.is_empty());
        assert!(found.outputs.is_empty());
        let found = edges(root, &maps);
        assert!(found.env_vars.is_empty() && found.inputs.is_empty() && found.outputs.is_empty());
    }
}

#[test]
fn branch_missing_from_a_log_is_passed_over() {
    let one = log(vec![
        step(&[("DEEP", "1")], &[("far", 1)], &[("gen", 1)]),
        step(&[], &[("gen", 1)], &[("top", 1)]),
    ]);
    let two = log(vec![step(&[], &[("gen", 2)], &[("top", 2)])]);
    let found = transitive_cmp("top", &vec![one, two]);
    assert!(found.env_vars.is_empty());
    assert_eq!(sorted(&found.inputs), vec!["gen"]);
    assert_eq!(sorted(&found.outputs), vec!["top"]);
}

#[test]
fn cycle_does_not_trap_the_walk() {
    let make = |v: u8| {
        log(vec![
            step(&[], &[("q", v)], &[("p", v)]),
            step(&[], &[("p", v), ("q", v)], &[("q", v)]),
        ])
    };
    let found = transitive_cmp("p", &vec![make(1), make(2)]);
    assert_eq!(sorted(&found.inputs), vec!["p", "q"]);
    assert_eq!(sorted(&found.outputs), vec!["p", "q"]);
}

#[test]
fn walk_over_no_logs_reports_nothing() {
    let maps: Vec<LogIndex> = vec![];
    let found = transitive_cmp("a", &maps);
    assert!(found.env_vars.is_empty() && found.inputs.is_empty() && found.outputs.is_empty());
}

#[test]
fn walk_over_one_log_reports_nothing() {
    let found = transitive_cmp("a", &vec![diamond(1)]);
    assert!(found.env_vars.is_empty() && found.inputs.is_empty() && found.outputs.is_empty());
}

#[test]
fn long_chain_is_walked_through() {
    let make = |v: u8| {
        let mut actions = Vec::new();
        for i in 0..3000 {
            let input = format!("n{}", i + 1);
            let output = format!("n{}", i);
            actions.push(step(&[], &[(input.as_str(), v)], &[(output.as_str(), v)]));
        }
        log(actions)
    };
    let found = transitive_cmp("n0", &vec![make(1), make(2)]);
    assert_eq!(found.inputs.len(), 3000);
    assert_eq!(found.outputs.len(), 3000);
    let ends = edges_of(found);
    assert_eq!(sorted(&ends.inputs), vec!["n3000"]);
    assert_eq!(sorted(&ends.outputs), vec!["n0"]);
}

#[test]
fn edges_are_the_ends_of_the_way() {
    let maps = vec![diamond(1), diamond(2)];
    let found = edges("a", &maps);
    assert_eq!(sorted(&found.env_vars), vec!["TMP"]);
    assert_eq!(sorted(&found.inputs), vec!["src"]);
    assert_eq!(sorted(&found.outputs), vec!["a"]);
}

#[test]
fn edges_of_takes_out_what_is_on_both_sides() {
    let sets = MismatchSets {
        env_vars: vec![finding("a", "E")],
        inputs: vec![finding("a", "x"), finding("a", "y"), finding("b", "z"), finding("b", "w")],
        outputs: vec![finding("c", "z"), finding("d", "u"), finding("a", "x")],
    };
    let ends = edges_of(sets);
    assert_eq!(ends.env_vars.len(), 1);
    assert_eq!(ends.env_vars[0].key, "E");
    let inputs: Vec<(&str, &str)> =
        ends.inputs.iter().map(|m| (m.artifact.as_str(), m.key.as_str())).collect();
    assert_eq!(inputs, vec![("a", "y"), ("b", "w")]);
    let outputs: Vec<(&str, &str)> =
        ends.outputs.iter().map(|m| (m.artifact.as_str(), m.key.as_str())).collect();
    assert_eq!(outputs, vec![("d", "u")]);
}
