//! The command line's decisions, driven through the library as `jswp` drives
//! them: positionals and stdin in, configs or an error (with its exit code
//! and the message `jswp` prints after `jswp: `) out.

use json_sweep::cli::{prepare, run, AppError};
use json_sweep::io::{envelope, BaseSource};
use json_sweep::json::{parse_json, Json};
use json_sweep::sweep::SweepItem;

fn j(text: &str) -> Json {
    parse_json(text).unwrap()
}

/// Runs a command line: the positionals, what stdin holds, the text of the
/// base file if one is named, `--zip` and `--max`.
fn jswp(
    positionals: &[&str],
    stdin: Option<&str>,
    base_file: Option<&str>,
    zip: bool,
    max: usize,
) -> Result<Vec<SweepItem>, AppError> {
    let ps: Vec<String> = positionals.iter().map(|s| s.to_string()).collect();
    let (source, plans) = prepare(&ps, stdin.map(|s| s.as_bytes().to_vec()))?;
    let base = match source {
        BaseSource::StdinBuffer(bytes) => Ok(String::from_utf8(bytes).unwrap()),
        BaseSource::File(_) => Ok(base_file.expect("a base file").to_string()),
    };
    let stepped: Vec<Vec<Json>> = plans.iter().map(|_| Vec::new()).collect();
    run(&plans, &stepped, base, zip, max)
}

fn failure(r: Result<Vec<SweepItem>, AppError>) -> (u8, String) {
    match r {
        Err(e) => (e.exit_code(), e.message().to_string()),
        Ok(items) => panic!("expected a failure, got {} configs", items.len()),
    }
}

#[test]
fn two_axis_cross_to_stdout() {
    let base = r#"{"econ": {"seed": 0}}"#;
    let items = jswp(
        &["base.json", "econ.seed=1,2", "knobs.x=10,20"],
        None,
        Some(base),
        false,
        10_000,
    )
    .unwrap();
    assert_eq!(items.len(), 4, "expected 4 NDJSON lines");
    // rightmost (knobs.x) varies fastest
    assert_eq!(items[0].config, j(r#"{"econ": {"seed": 1}, "knobs": {"x": 10}}"#));
    assert_eq!(items[1].config, j(r#"{"econ": {"seed": 1}, "knobs": {"x": 20}}"#));
    assert_eq!(items[2].config, j(r#"{"econ": {"seed": 2}, "knobs": {"x": 10}}"#));
    assert_eq!(items[3].config, j(r#"{"econ": {"seed": 2}, "knobs": {"x": 20}}"#));
}

#[test]
fn stdin_auto_fill() {
    let items =
        jswp(&["econ.seed=1,2"], Some(r#"{"econ":{"seed":0}}"#), None, false, 10_000).unwrap();
    assert_eq!(items.len(), 2);
    assert_eq!(items[0].config, j(r#"{"econ": {"seed": 1}}"#));
}

#[test]
fn stdin_and_base_positional_conflict() {
    let (code, message) = failure(jswp(
        &["base.json", "econ.seed=1,2"],
        Some("{}"),
        Some(r#"{"econ": {"seed": 0}}"#),
        false,
        10_000,
    ));
    assert_eq!(code, 1);
    assert!(message.contains("stdin"), "{message}");
}

#[test]
fn with_axes_wraps_envelope() {
    let items = jswp(
        &["base.json", "econ.seed=1,2"],
        None,
        Some(r#"{"econ": {"seed": 0}}"#),
        false,
        10_000,
    )
    .unwrap();
    assert_eq!(items.len(), 2);
    let v = envelope(&items[0]);
    assert_eq!(v, j(r#"{"axes": {"econ.seed": 1}, "config": {"econ": {"seed": 1}}}"#));
}

#[test]
fn zip_mismatched_lengths() {
    let (code, message) =
        failure(jswp(&["base.json", "a=1,2,3", "b=10,20"], None, Some("{}"), true, 10_000));
    assert_eq!(code, 1);
    assert!(message.contains("\"b\""), "{message}");
}

#[test]
fn max_exceeded() {
    let (code, message) =
        failure(jswp(&["base.json", "a=1..=10", "b=1..=10"], None, Some("{}"), false, 50));
    assert_eq!(code, 1);
    assert!(message.contains("100"), "{message}");
    assert!(message.contains("50"), "{message}");
}

#[test]
fn malformed_base_json() {
    let (code, _) = failure(jswp(&["base.json", "a=1,2"], None, Some("{not json"), false, 10_000));
    assert_eq!(code, 2);
}

#[test]
fn malformed_generator() {
    let (code, message) = failure(jswp(&["base.json", "a="], None, Some("{}"), false, 10_000));
    assert_eq!(code, 1);
    assert!(message.contains("axis"), "{message}");
}

#[test]
fn dash_means_stdin() {
    assert!(jswp(&["-", "x=1,2"], Some(r#"{"x":0}"#), None, false, 10_000).is_ok());
}

#[test]
fn cli_no_axes_errors() {
    let (code, message) = failure(jswp(&["base.json"], None, Some("{}"), false, 10_000));
    assert_eq!(code, 1);
    assert!(message.contains("no axes"), "{message}");
}

#[test]
fn gen_error_includes_axis_number_and_column() {
    let (code, message) = failure(jswp(
        &["base.json", "knobs.x=ok,too", "econ.seed=foo..5"],
        None,
        Some("{}"),
        false,
        10_000,
    ));
    assert_eq!(code, 1);
    assert!(message.contains("axis 2"), "{message}");
    assert!(message.contains("econ.seed=foo..5"), "{message}");
    assert!(message.contains("col 11"), "{message}");
    assert!(message.contains("expected integer"), "{message}");
}

#[test]
fn bad_path_error_includes_axis_number() {
    let (code, message) = failure(jswp(&["base.json", "1bad=1,2"], None, Some("{}"), false, 10_000));
    assert_eq!(code, 1);
    assert!(message.contains("axis 1"), "{message}");
    assert!(message.contains("invalid PATH"), "{message}");
}

#[test]
fn path_traverses_non_object_error() {
    let (code, message) =
        failure(jswp(&["base.json", "a.b=1,2"], None, Some(r#"{"a": 5}"#), false, 10_000));
    assert_eq!(code, 1);
    assert!(message.contains("\"a\""), "{message}");
    assert!(message.contains("number"), "{message}");
}

#[test]
fn two_base_positionals_error() {
    let (code, message) =
        failure(jswp(&["b1.json", "b2.json", "a=1,2"], None, Some("{}"), false, 10_000));
    assert_eq!(code, 1);
    assert!(message.contains("BASE"), "{message}");
}
