use bazel_execlog_cmp::compare::{find_mismatched, mismatched_in, Field, Mismatch, MismatchSets};
use bazel_execlog_cmp::index::LogIndex;
use bazel_execlog_cmp::query::{compare, get};
use bazel_execlog_cmp::record::{ActionContext, Digest, EnvVar, Item, Sha256};

fn digest(byte: u8, size: u64) -> Digest {
    Digest { hash: Sha256([byte; 32]), size_bytes: size, hash_function_name: "SHA-256".to_string() }
}

fn file(path: &str, byte: u8) -> Item {
    Item { path: path.to_string(), digest: digest(byte, 10) }
}

fn var(name: &str, value: &str) -> EnvVar {
    EnvVar { name: name.to_string(), value: value.to_string() }
}

fn action(env: Vec<EnvVar>, inputs: Vec<Item>, outputs: Vec<Item>) -> ActionContext {
    ActionContext {
        environment_variables: env,
        inputs,
        listed_outputs: outputs.iter().map(|o| o.path.clone()).collect(),
        remotable: true,
        cacheable: true,
        actual_outputs: outputs,
    }
}

fn keys(found: &[Mismatch]) -> Vec<&str> {
    found.iter().map(|m| m.key.as_str()).collect()
}

fn is_empty(sets: &MismatchSets) -> bool {
    sets.env_vars.is_empty() && sets.inputs.is_empty() && sets.outputs.is_empty()
}

#[test]
fn identical_actions_have_no_mismatch() {
    let a = action(
        vec![var("PATH", "/bin"), var("LANG", "C")],
        vec![file("a.c", 1), file("b.h", 2)],
        vec![file("a.o", 3)],
    );
    let b = a.clone();
    let c = a.clone();
    assert!(is_empty(&find_mismatched("a.o", &vec![&a, &b])));
    assert!(is_empty(&find_mismatched("a.o", &vec![&a, &b, &c])));
    assert!(is_empty(&find_mismatched("a.o", &vec![&a])));
}

#[test]
fn no_actions_have_no_mismatch() {
    assert!(is_empty(&find_mismatched("a.o", &vec![])));
}

#[test]
fn differing_variable_is_the_only_one_reported() {
    let a = action(vec![var("BAR", "x"), var("FOO", "1")], vec![], vec![]);
    let b = action(vec![var("BAR", "x"), var("FOO", "2")], vec![], vec![]);
    let found = find_mismatched("out", &vec![&a, &b]);
    assert_eq!(keys(&found.env_vars), vec!["FOO"]);
    assert_eq!(found.env_vars[0].artifact, "out");
    assert!(found.inputs.is_empty());
    assert!(found.outputs.is_empty());
}

#[test]
fn order_of_the_variables_does_not_matter() {
    let a = action(vec![var("BAR", "x"), var("FOO", "1")], vec![], vec![]);
    let b = action(vec![var("FOO", "1"), var("BAR", "x")], vec![], vec![]);
    assert!(is_empty(&find_mismatched("out", &vec![&a, &b])));
}

#[test]
fn variable_missing_from_one_log_is_reported() {
    let a = action(vec![var("FOO", "1"), var("BAR", "x")], vec![], vec![]);
    let b = action(vec![var("BAR", "x")], vec![], vec![]);
    assert_eq!(keys(&find_mismatched("out", &vec![&a, &b]).env_vars), vec!["FOO"]);
    assert_eq!(keys(&find_mismatched("out", &vec![&b, &a]).env_vars), vec!["FOO"]);
}

#[test]
fn repeated_input_counts_once() {
    let a = action(vec![], vec![file("a.c", 1), file("b.h", 2), file("a.c", 1)], vec![]);
    let b = action(vec![], vec![file("a.c", 1), file("b.h", 2)], vec![]);
    assert!(is_empty(&find_mismatched("out", &vec![&a, &b])));
    assert!(is_empty(&find_mismatched("out", &vec![&b, &a])));
    assert!(is_empty(&find_mismatched("out", &vec![&a, &a])));
}

#[test]
fn repeated_input_counts_with_its_first_digest() {
    let a = action(vec![], vec![file("a.c", 1), file("a.c", 9)], vec![]);
    let b = action(vec![], vec![file("a.c", 1)], vec![]);
    let c = action(vec![], vec![file("a.c", 9)], vec![]);
    assert!(is_empty(&find_mismatched("out", &vec![&a, &b])));
    assert_eq!(keys(&find_mismatched("out", &vec![&a, &c]).inputs), vec!["a.c"]);
}

#[test]
fn variable_bound_twice_counts_once() {
    let a = action(vec![var("FOO", "1"), var("FOO", "1")], vec![], vec![]);
    assert!(is_empty(&find_mismatched("out", &vec![&a, &a])));
    assert!(is_empty(&find_mismatched("out", &vec![&a])));
    let b = action(vec![var("FOO", "1"), var("FOO", "2")], vec![], vec![]);
    assert!(is_empty(&find_mismatched("out", &vec![&b, &b])));
    let c = action(vec![var("FOO", "1")], vec![], vec![]);
    assert!(is_empty(&find_mismatched("out", &vec![&a, &c, &b])));
}

#[test]
fn output_written_twice_counts_once() {
    let a = action(vec![], vec![], vec![file("o", 1), file("o", 1)]);
    assert!(is_empty(&find_mismatched("o", &vec![&a, &a])));
    let b = action(vec![], vec![], vec![file("o", 1)]);
    assert!(is_empty(&find_mismatched("o", &vec![&a, &b])));
    let c = action(vec![], vec![], vec![file("o", 1), file("o", 2)]);
    assert!(is_empty(&find_mismatched("o", &vec![&c, &b, &a])));
}

#[test]
fn variable_bound_twice_does_not_stand_for_an_action_without_it() {
    let a = action(vec![var("FOO", "1"), var("FOO", "1")], vec![], vec![]);
    let b = action(vec![], vec![], vec![]);
    assert_eq!(keys(&find_mismatched("out", &vec![&a, &b]).env_vars), vec!["FOO"]);
    assert_eq!(keys(&find_mismatched("out", &vec![&b, &a]).env_vars), vec!["FOO"]);
}

#[test]
fn second_binding_of_a_variable_does_not_count() {
    let a = action(vec![var("FOO", "1"), var("FOO", "2")], vec![], vec![]);
    let b = action(vec![var("FOO", "2")], vec![], vec![]);
    assert_eq!(keys(&find_mismatched("out", &vec![&a, &b]).env_vars), vec!["FOO"]);
    assert_eq!(keys(&find_mismatched("out", &vec![&b, &a]).env_vars), vec!["FOO"]);
    let outs_a = action(vec![], vec![], vec![file("o", 1), file("o", 2)]);
    let outs_b = action(vec![], vec![], vec![file("o", 2)]);
    assert_eq!(keys(&find_mismatched("o", &vec![&outs_a, &outs_b]).outputs), vec!["o"]);
    assert_eq!(keys(&find_mismatched("o", &vec![&outs_b, &outs_a]).outputs), vec!["o"]);
}

#[test]
fn every_part_of_a_digest_counts() {
    let base = action(vec![], vec![file("in", 1)], vec![file("out", 2)]);
    let mut size = base.clone();
    size.inputs[0].digest.size_bytes = 11;
    let mut name = base.clone();
    name.actual_outputs[0].digest.hash_function_name = "SHA-1".to_string();
    let mut hash = base.clone();
    hash.actual_outputs[0].digest.hash.0[31] = 0;
    let found = find_mismatched("out", &vec![&base, &size]);
    assert_eq!(keys(&found.inputs), vec!["in"]);
    assert!(found.outputs.is_empty());
    let found = find_mismatched("out", &vec![&base, &name]);
    assert_eq!(keys(&found.outputs), vec!["out"]);
    assert!(found.inputs.is_empty());
    let found = find_mismatched("out", &vec![&base, &hash]);
    assert_eq!(keys(&found.outputs), vec!["out"]);
}

#[test]
fn mismatches_come_in_the_order_of_first_occurrence() {
    let a = action(
        vec![var("A", "1"), var("B", "1"), var("C", "1")],
        vec![file("x", 1), file("y", 1), file("z", 1)],
        vec![],
    );
    let b = action(
        vec![var("D", "1"), var("C", "2"), var("B", "1"), var("A", "2")],
        vec![file("z", 2), file("w", 1), file("x", 2), file("y", 1)],
        vec![],
    );
    let found = find_mismatched("out", &vec![&a, &b]);
    assert_eq!(keys(&found.env_vars), vec!["A", "C", "D"]);
    assert_eq!(keys(&found.inputs), vec!["x", "z", "w"]);
    let found = find_mismatched("out", &vec![&b, &a]);
    assert_eq!(keys(&found.env_vars), vec!["D", "C", "A"]);
    assert_eq!(keys(&found.inputs), vec!["z", "w", "x"]);
}

#[test]
fn one_log_out_of_three_differing_is_enough() {
    let a = action(vec![var("FOO", "1")], vec![file("in", 1)], vec![file("out", 1)]);
    let b = action(vec![var("FOO", "1")], vec![file("in", 1)], vec![file("out", 2)]);
    for order in [vec![&a, &a, &b], vec![&a, &b, &a], vec![&b, &a, &a]] {
        let found = find_mismatched("out", &order);
        assert!(found.env_vars.is_empty());
        assert!(found.inputs.is_empty());
        assert_eq!(keys(&found.outputs), vec!["out"]);
    }
}

#[test]
fn parts_are_compared_one_by_one() {
    let a = action(vec![var("k", "1")], vec![file("k", 1)], vec![file("k", 1)]);
    let b = action(vec![var("k", "1")], vec![file("k", 2)], vec![file("k", 1)]);
    let name = "k".to_string();
    assert!(mismatched_in(Field::Environment, &name, &vec![&a, &b]).is_empty());
    assert_eq!(keys(&mismatched_in(Field::Inputs, &name, &vec![&a, &b])), vec!["k"]);
    assert!(mismatched_in(Field::Outputs, &name, &vec![&a, &b]).is_empty());
}

#[test]
fn many_keys_are_all_found() {
    let inputs_a: Vec<Item> = (0..2000).map(|i| file(&format!("src/{}.c", i), 1)).collect();
    let mut inputs_b = inputs_a.clone();
    inputs_b.reverse();
    for i in [3usize, 700, 1999] {
        inputs_b[i].digest.size_bytes = 99;
    }
    let expected: Vec<String> =
        [3usize, 700, 1999].iter().map(|i| inputs_b[*i].path.clone()).collect();
    let a = action(vec![], inputs_a, vec![]);
    let b = action(vec![], inputs_b, vec![]);
    let found = find_mismatched("out", &vec![&a, &b]);
    let mut got: Vec<String> = found.inputs.iter().map(|m| m.key.clone()).collect();
    let mut want = expected;
    got.sort();
    want.sort();
    assert_eq!(got, want);
}

#[test]
fn lookup_needs_the_artifact_in_every_log() {
    let (one, _) = LogIndex::build(vec![
        action(vec![], vec![], vec![file("a.o", 1)]),
        action(vec![], vec![], vec![file("b.o", 2)]),
    ]);
    let (two, _) = LogIndex::build(vec![action(vec![], vec![], vec![file("a.o", 1)])]);
    let maps = vec![one, two];
    let found = get(&maps, "a.o").unwrap();
    assert_eq!(found.len(), 2);
    assert_eq!(found[0].actual_outputs[0].path, "a.o");
    assert!(get(&maps, "b.o").is_none());
    assert!(get(&maps, "c.o").is_none());
    assert!(compare(&maps, "b.o").is_none());
    assert!(is_empty(&compare(&maps, "a.o").unwrap()));
}

#[test]
fn lookup_in_no_logs_finds_nothing_to_compare() {
    let maps: Vec<LogIndex> = vec![];
    assert_eq!(get(&maps, "a.o").unwrap().len(), 0);
    assert!(is_empty(&compare(&maps, "a.o").unwrap()));
}

#[test]
fn compare_reports_for_the_artifact() {
    let (one, _) = LogIndex::build(vec![action(vec![var("FOO", "1")], vec![], vec![file("a.o", 1)])]);
    let (two, _) = LogIndex::build(vec![action(vec![var("FOO", "2")], vec![], vec![file("a.o", 2)])]);
    let found = compare(&vec![one, two], "a.o").unwrap();
    assert_eq!(keys(&found.env_vars), vec!["FOO"]);
    assert_eq!(keys(&found.outputs), vec!["a.o"]);
    assert_eq!(found.outputs[0].artifact, "a.o");
    assert!(found.inputs.is_empty());
}

#[test]
fn index_leads_to_the_last_action_that_declares_a_path() {
    let first = action(vec![var("N", "1")], vec![], vec![file("x", 1), file("y", 1)]);
    let second = action(vec![var("N", "2")], vec![], vec![file("y", 2), file("z", 2)]);
    let mut third = action(vec![var("N", "3")], vec![], vec![file("w", 3)]);
    third.listed_outputs = vec!["w".to_string(), "w".to_string(), "x".to_string()];
    let (index, ambiguous) = LogIndex::build(vec![first, second, third]);
    assert_eq!(ambiguous, vec!["y".to_string(), "w".to_string(), "x".to_string()]);
    assert_eq!(index.path_count(), 4);
    let paths: Vec<&str> = (0..4).map(|i| index.path(i).as_str()).collect();
    assert_eq!(paths, vec!["x", "y", "z", "w"]);
    let value = |p: &str| index.get(&p.to_string()).unwrap().environment_variables[0].value.clone();
    assert_eq!(value("x"), "3");
    assert_eq!(value("y"), "2");
    assert_eq!(value("z"), "2");
    assert_eq!(value("w"), "3");
    assert!(index.get(&"v".to_string()).is_none());
}

#[test]
fn index_of_no_actions_is_empty() {
    let (index, ambiguous) = LogIndex::build(vec![]);
    assert!(ambiguous.is_empty());
    assert_eq!(index.path_count(), 0);
    assert!(index.get(&"x".to_string()).is_none());
}

#[test]
fn index_goes_by_declared_outputs() {
    let mut a = action(vec![], vec![], vec![file("written", 1)]);
    a.listed_outputs = vec!["declared".to_string()];
    let (index, _) = LogIndex::build(vec![a]);
    assert!(index.get(&"declared".to_string()).is_some());
    assert!(index.get(&"written".to_string()).is_none());
}

#[test]
fn actions_are_equal_by_value() {
    let a = action(vec![var("A", "1")], vec![file("x", 1)], vec![file("o", 2)]);
    let mut b = a.clone();
    assert!(a == b);
    b.cacheable = false;
    assert!(a != b);
    let mut c = a.clone();
    c.inputs.push(file("y", 1));
    assert!(a != c);
    let mut d = a.clone();
    d.listed_outputs[0] = "p".to_string();
    assert!(a != d);
    assert!(file("x", 1) == file("x", 1));
    assert!(file("x", 1) != file("x", 2));
    assert!(var("A", "1") != var("A", "2"));
    assert!(digest(1, 2) != digest(1, 3));
}
