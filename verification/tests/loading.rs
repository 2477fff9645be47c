use bazel_execlog_cmp::hex::{from_hex, to_hex};
use bazel_execlog_cmp::load::{
    exec_log_to_hashmap, parse_document, parse_log, Fault, Loading, ParseError,
};
use bazel_execlog_cmp::record::Sha256;
use bazel_execlog_cmp::split::split_documents;

fn hash_of(byte: u8) -> String {
    format!("{:02x}", byte).repeat(32)
}

fn item(path: &str, byte: u8, size: &str) -> String {
    format!(
        "{{\"path\":\"{}\",\"digest\":{{\"hash\":\"{}\",\"sizeBytes\":{},\"hashFunctionName\":\"SHA-256\"}}}}",
        path,
        hash_of(byte),
        size
    )
}

fn action(env: &[(&str, &str)], inputs: &[String], listed: &[&str], outputs: &[String]) -> String {
    let env: Vec<String> = env
        .iter()
        .map(|(n, v)| format!("{{\"name\":\"{}\",\"value\":\"{}\"}}", n, v))
        .collect();
    let listed: Vec<String> = listed.iter().map(|p| format!("\"{}\"", p)).collect();
    format!(
        "{{\"environmentVariables\":[{}],\"inputs\":[{}],\"listedOutputs\":[{}],\"remotable\":true,\"cacheable\":false,\"actualOutputs\":[{}]}}",
        env.join(","),
        inputs.join(","),
        listed.join(","),
        outputs.join(",")
    )
}

#[test]
fn splits_at_brace_pairs() {
    let log = b"{\"a\":1}{\"b\":2}";
    assert_eq!(split_documents(log), vec![(0, 7), (7, 14)]);
}

#[test]
fn empty_log_is_one_empty_document() {
    assert_eq!(split_documents(b""), vec![(0, 0)]);
}

#[test]
fn single_byte_log_is_one_document() {
    assert_eq!(split_documents(b"}"), vec![(0, 1)]);
}

#[test]
fn splits_inside_strings_too() {
    let log = b"{\"p\":\"a}{b\"}";
    assert_eq!(split_documents(log), vec![(0, 8), (8, 12)]);
}

#[test]
fn adjacent_boundaries_give_short_documents() {
    assert_eq!(split_documents(b"}{}{"), vec![(0, 1), (1, 3), (3, 4)]);
}

#[test]
fn empty_log_fails_to_parse() {
    assert_eq!(parse_log(b"").unwrap_err(), ParseError { document: 0, fault: Fault::Syntax });
    assert!(exec_log_to_hashmap(b"").is_err());
}

#[test]
fn document_without_the_members_is_no_action() {
    assert_eq!(parse_document(b"{\"a\":1}").unwrap_err(), Fault::Shape);
    let log = b"{\"a\":1}{\"b\":2}";
    assert_eq!(parse_log(log).unwrap_err(), ParseError { document: 0, fault: Fault::Shape });
}

#[test]
fn broken_json_is_a_syntax_fault() {
    assert_eq!(parse_document(b"{\"a\":").unwrap_err(), Fault::Syntax);
    assert_eq!(parse_document(b"{} x").unwrap_err(), Fault::Syntax);
}

#[test]
fn second_document_failing_is_reported_as_such() {
    let good = action(&[], &[], &["out"], &[]);
    let log = format!("{}{{\"b\":2}}", good);
    assert_eq!(
        parse_log(log.as_bytes()).unwrap_err(),
        ParseError { document: 1, fault: Fault::Shape }
    );
}

#[test]
fn parses_an_action() {
    let text = action(
        &[("PATH", "/bin"), ("LANG", "C")],
        &[item("src/a.c", 1, "\"12\""), item("src/b.h", 2, "7")],
        &["out/a.o"],
        &[item("out/a.o", 3, "\"+900\"")],
    );
    let action = parse_document(text.as_bytes()).unwrap();
    assert_eq!(action.environment_variables.len(), 2);
    assert_eq!(action.environment_variables[0].name, "PATH");
    assert_eq!(action.environment_variables[0].value, "/bin");
    assert_eq!(action.environment_variables[1].name, "LANG");
    assert_eq!(action.inputs.len(), 2);
    assert_eq!(action.inputs[0].path, "src/a.c");
    assert_eq!(action.inputs[0].digest.size_bytes, 12);
    assert_eq!(action.inputs[0].digest.hash, Sha256([1u8; 32]));
    assert_eq!(action.inputs[0].digest.hash_function_name, "SHA-256");
    assert_eq!(action.inputs[1].digest.size_bytes, 7);
    assert_eq!(action.listed_outputs, vec!["out/a.o".to_string()]);
    assert!(action.remotable);
    assert!(!action.cacheable);
    assert_eq!(action.actual_outputs[0].digest.size_bytes, 900);
    assert_eq!(action.actual_outputs[0].digest.hash, Sha256([3u8; 32]));
}

#[test]
fn unknown_members_are_passed_over() {
    let text = "{\"commandArgs\":[\"cc\"],\"environmentVariables\":[],\"inputs\":[],\"listedOutputs\":[],\"remotable\":false,\"cacheable\":true,\"actualOutputs\":[],\"mnemonic\":\"CppCompile\"}";
    let action = parse_document(text.as_bytes()).unwrap();
    assert!(action.cacheable);
    assert!(!action.remotable);
}

#[test]
fn escapes_in_strings_are_read() {
    let text = action(&[("A", "x\\\"y\\n\\u00e9")], &[], &[], &[]);
    let action = parse_document(text.as_bytes()).unwrap();
    assert_eq!(action.environment_variables[0].value, "x\"y\n\u{e9}");
}

#[test]
fn sizes_that_are_no_numbers_are_refused() {
    for size in [
        "\"\"",
        "\"12a\"",
        "\" 12\"",
        "\"12 \"",
        "\"-1\"",
        "\"-0\"",
        "\"++5\"",
        "\"+-5\"",
        "\"5+\"",
        "\"0x10\"",
        "\"1e2\"",
        "\"1.0\"",
        "\"\u{ff15}\"",
        "-1",
        "-0",
        "1.5",
        "1e2",
        "18446744073709551616",
        "\"18446744073709551616\"",
        "\"99999999999999999999999999999999999999\"",
        "\"+\"",
        "\"1_0\"",
        "null",
        "true",
        "[1]",
        "{}",
    ] {
        let text = action(&[], &[item("a", 1, size)], &[], &[]);
        assert_eq!(parse_document(text.as_bytes()).unwrap_err(), Fault::Shape, "size {}", size);
    }
}

#[test]
fn sizes_are_read_from_strings_and_numbers() {
    for (size, value) in [
        ("\"0\"", 0u64),
        ("\"007\"", 7),
        ("\"+5\"", 5),
        ("\"18446744073709551615\"", u64::MAX),
        ("\"+18446744073709551615\"", u64::MAX),
        ("\"000000000000000000000000000018446744073709551615\"", u64::MAX),
        ("\"+0\"", 0),
        ("0", 0),
        ("18446744073709551615", u64::MAX),
        ("42", 42),
    ] {
        let text = action(&[], &[item("a", 1, size)], &[], &[]);
        let action = parse_document(text.as_bytes()).unwrap();
        assert_eq!(action.inputs[0].digest.size_bytes, value, "size {}", size);
    }
}

#[test]
fn hashes_must_be_sixty_four_hex_digits() {
    let short = "{\"path\":\"a\",\"digest\":{\"hash\":\"abcd\",\"sizeBytes\":\"1\",\"hashFunctionName\":\"SHA-256\"}}";
    let text = action(&[], &[short.to_string()], &[], &[]);
    assert_eq!(parse_document(text.as_bytes()).unwrap_err(), Fault::Shape);
    let bad = format!(
        "{{\"path\":\"a\",\"digest\":{{\"hash\":\"{}\",\"sizeBytes\":\"1\",\"hashFunctionName\":\"SHA-256\"}}}}",
        "g".repeat(64)
    );
    let text = action(&[], &[bad], &[], &[]);
    assert_eq!(parse_document(text.as_bytes()).unwrap_err(), Fault::Shape);
}

#[test]
fn hex_rendering_is_sixty_four_lower_case_digits() {
    let mut bytes = [0u8; 32];
    for (i, b) in bytes.iter_mut().enumerate() {
        *b = (i * 8 + 3) as u8;
    }
    let text = Sha256(bytes).to_hex();
    assert_eq!(text.len(), 64);
    assert!(text.chars().all(|c| c.is_ascii_digit() || ('a'..='f').contains(&c)));
    assert_eq!(&text[..8], "030b131b");
    assert_eq!(Sha256::from_hex(&text), Some(Sha256(bytes)));
}

#[test]
fn hex_round_trips() {
    assert_eq!(to_hex(&[0x00, 0x0f, 0xa5, 0xff]), "000fa5ff");
    assert_eq!(from_hex("000fa5ff"), Some(vec![0x00, 0x0f, 0xa5, 0xff]));
    assert_eq!(from_hex("000FA5Ff"), Some(vec![0x00, 0x0f, 0xa5, 0xff]));
    assert_eq!(from_hex(""), Some(vec![]));
    assert_eq!(from_hex("abc"), None);
    assert_eq!(from_hex("zz"), None);
    assert_eq!(from_hex("\u{e9}a"), None);
    let text = "00112233445566778899aabbccddeeff00112233445566778899aabbccddeeff";
    assert_eq!(Sha256::from_hex(text).unwrap().to_hex(), text);
    assert_eq!(Sha256::from_hex(&text[..62]), None);
}

#[test]
fn log_is_loaded_some_documents_at_a_time() {
    let docs: Vec<String> = (0..5)
        .map(|i| action(&[("N", &i.to_string())], &[], &[&format!("out{}", i), "shared"], &[]))
        .collect();
    let log = docs.concat();
    let mut ends = Vec::new();
    let mut at = 0;
    for d in &docs {
        at += d.len();
        ends.push(at);
    }
    let mut loading = Loading::begin(log.as_bytes());
    assert!(!loading.is_done());
    assert_eq!(loading.advance(0), Ok(0));
    assert_eq!(loading.advance(2), Ok(ends[1]));
    assert!(!loading.is_done());
    assert_eq!(loading.advance(1), Ok(ends[2]));
    assert_eq!(loading.advance(10), Ok(log.len()));
    assert!(loading.is_done());
    assert_eq!(loading.advance(3), Ok(log.len()));
    let (index, ambiguous) = loading.finish();
    let (whole, same) = exec_log_to_hashmap(log.as_bytes()).unwrap();
    assert_eq!(ambiguous, vec!["shared".to_string()]);
    assert_eq!(ambiguous, same);
    assert_eq!(index.path_count(), whole.path_count());
    for i in 0..index.path_count() {
        assert_eq!(index.path(i), whole.path(i));
        assert!(index.get(index.path(i)) == whole.get(whole.path(i)));
    }
    assert_eq!(
        index.get(&"shared".to_string()).unwrap().environment_variables[0].value,
        "4"
    );
}

#[test]
fn loading_stops_at_the_first_document_that_is_no_action() {
    let good = action(&[], &[], &["out"], &[]);
    let log = format!("{}{}{{\"b\":2}}{}", good, good, good);
    let mut loading = Loading::begin(log.as_bytes());
    assert_eq!(loading.advance(2), Ok(2 * good.len()));
    assert_eq!(loading.advance(1), Err(ParseError { document: 2, fault: Fault::Shape }));
    let mut all_at_once = Loading::begin(log.as_bytes());
    assert_eq!(all_at_once.advance(100), Err(ParseError { document: 2, fault: Fault::Shape }));
    let mut empty = Loading::begin(b"");
    assert!(!empty.is_done());
    assert_eq!(empty.advance(1), Err(ParseError { document: 0, fault: Fault::Syntax }));
}
