use json_sweep::io::{envelope, file_name, file_width, manifest_line};
use json_sweep::json::{parse_json, Json};
use json_sweep::sweep::SweepItem;

fn j(text: &str) -> Json {
    parse_json(text).unwrap()
}

#[test]
fn width_clamps_to_four() {
    assert_eq!(file_width(1), 4);
    assert_eq!(file_width(9999), 4);
    assert_eq!(file_width(10_000), 5);
    assert_eq!(file_width(123_456), 6);
}

#[test]
fn width_of_zero_and_large_counts() {
    assert_eq!(file_width(0), 4);
    assert_eq!(file_width(usize::MAX), usize::MAX.to_string().len());
}

#[test]
fn file_names_are_zero_padded() {
    assert_eq!(file_name(1, 4), "0001.json");
    assert_eq!(file_name(42, 5), "00042.json");
    assert_eq!(file_name(12345, 4), "12345.json");
    assert_eq!(file_name(0, 0), "0.json");
}

#[test]
fn envelope_and_manifest_hold_axes() {
    let item = SweepItem {
        axes: vec![("a".into(), j("1")), ("b.c".into(), j(r#""x""#))],
        config: j(r#"{"a": 1, "b": {"c": "x"}}"#),
    };
    let env = envelope(&item);
    assert_eq!(
        env,
        j(r#"{"axes": {"a": 1, "b.c": "x"}, "config": {"a": 1, "b": {"c": "x"}}}"#)
    );
    assert_eq!(
        env.to_json_string(),
        r#"{"axes":{"a":1,"b.c":"x"},"config":{"a":1,"b":{"c":"x"}}}"#
    );
    let line = manifest_line("0001.json", &item);
    assert_eq!(line, j(r#"{"path": "0001.json", "axes": {"a": 1, "b.c": "x"}}"#));
    assert_eq!(line.to_json_string(), r#"{"axes":{"a":1,"b.c":"x"},"path":"0001.json"}"#);
}
