use bazel_execlog_cmp::shell::{command_name, commands_beginning_with, file_names_serve};

#[test]
fn commands_are_completed_from_what_was_typed() {
    assert_eq!(
        commands_beginning_with(""),
        vec!["quit", "help", "cmp", "transitive-cmp", "tcmp", "edges", "view", "diff"]
    );
    assert_eq!(commands_beginning_with("t"), vec!["transitive-cmp", "tcmp"]);
    assert_eq!(commands_beginning_with("tc"), vec!["tcmp"]);
    assert_eq!(commands_beginning_with("cmp"), vec!["cmp"]);
    assert_eq!(commands_beginning_with("q"), vec!["quit"]);
    assert!(commands_beginning_with("cmpx").is_empty());
    assert!(commands_beginning_with("x").is_empty());
    assert!(commands_beginning_with("Quit").is_empty());
}

#[test]
fn command_names_are_numbered() {
    let names: Vec<&str> = (0..8).map(command_name).collect();
    assert_eq!(names, commands_beginning_with(""));
}

#[test]
fn file_names_replace_long_paths_that_they_tell_apart() {
    let strings = |v: &[&str]| v.iter().map(|s| s.to_string()).collect::<Vec<String>>();
    let long = "some/where/far/away/one.json";
    assert!(file_names_serve(&strings(&[long, "two.json"]), &strings(&["one.json", "two.json"])));
    assert!(!file_names_serve(&strings(&["a/one.json", "two.json"]), &strings(&["one.json", "two.json"])));
    assert!(!file_names_serve(
        &strings(&[long, "else/where/far/away/one.json"]),
        &strings(&["one.json", "one.json"])
    ));
    assert!(!file_names_serve(&strings(&["12345678901234567890"]), &strings(&["x"])));
    assert!(file_names_serve(&strings(&["123456789012345678901"]), &strings(&["x"])));
    assert!(!file_names_serve(&strings(&[]), &strings(&[])));
}
