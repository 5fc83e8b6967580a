use json_sweep::generator::{
    json_token, number_token, parse_generator, split_top_level_commas, GenError, Generator,
};
use json_sweep::json::{parse_json, Json};

fn j(text: &str) -> Json {
    parse_json(text).unwrap()
}

fn build(input: &str) -> Generator {
    parse_generator(input)
        .unwrap_or_else(|e| panic!("parse failed: {} ({input:?})", e.describe()))
}

fn expand(input: &str) -> Vec<Json> {
    build(input).expand()
}

fn err(input: &str) {
    assert!(parse_generator(input).is_err(), "expected error for {input:?}");
}

fn gen_err(input: &str) -> GenError {
    match parse_generator(input) {
        Err(e) => e,
        Ok(g) => panic!("expected an error for {input:?}, got {g:?}"),
    }
}

// ---------- Lists ----------

#[test]
fn list_ints() {
    assert_eq!(expand("1,2,3"), vec![j("1"), j("2"), j("3")]);
}

#[test]
fn list_floats() {
    assert_eq!(expand("0.5,1.0,2.0"), vec![j("0.5"), j("1.0"), j("2.0")]);
}

#[test]
fn list_bools() {
    assert_eq!(expand("true,false"), vec![j("true"), j("false")]);
}

#[test]
fn list_bare_strings() {
    assert_eq!(
        expand("argmax,softmax"),
        vec![j(r#""argmax""#), j(r#""softmax""#)]
    );
}

#[test]
fn list_null() {
    assert_eq!(expand("null"), vec![Json::Null]);
}

#[test]
fn list_quoted_strings() {
    assert_eq!(
        expand(r#""with spaces","also quoted""#),
        vec![j(r#""with spaces""#), j(r#""also quoted""#)]
    );
}

#[test]
fn list_json_objects() {
    assert_eq!(
        expand(r#"{"a":1},{"b":2}"#),
        vec![j(r#"{"a": 1}"#), j(r#"{"b": 2}"#)]
    );
}

#[test]
fn list_json_objects_with_nested_commas() {
    assert_eq!(
        expand(r#"{"a":1,"b":2},{"c":[1,2,3]}"#),
        vec![j(r#"{"a": 1, "b": 2}"#), j(r#"{"c": [1, 2, 3]}"#)]
    );
}

#[test]
fn list_single_bare_string_with_slash() {
    assert_eq!(expand("./variant.json"), vec![j(r#""./variant.json""#)]);
}

#[test]
fn list_kebab_string() {
    assert_eq!(expand("kebab-case-thing"), vec![j(r#""kebab-case-thing""#)]);
}

// ---------- Ranges ----------

#[test]
fn range_half_open() {
    assert_eq!(expand("1..5"), vec![j("1"), j("2"), j("3"), j("4")]);
}

#[test]
fn range_inclusive() {
    assert_eq!(
        expand("1..=5"),
        vec![j("1"), j("2"), j("3"), j("4"), j("5")]
    );
}

#[test]
fn range_single_element_inclusive() {
    assert_eq!(expand("3..=3"), vec![j("3")]);
}

#[test]
fn range_empty_half_open() {
    assert_eq!(expand("5..5"), Vec::<Json>::new());
}

// ---------- Rejects ----------

#[test]
fn generator_rejects_empty() {
    err("");
}

#[test]
fn rejects_trailing_comma() {
    err("1,2,");
}

#[test]
fn rejects_leading_comma() {
    err(",1,2");
}

#[test]
fn rejects_unbalanced_braces() {
    err(r#"{"a":1"#);
    err(r#"{"a":1}}"#);
}

#[test]
fn generator_rejects_non_integer_in_range() {
    err("1..=true");
    err("1.0..5");
    err("1..=2.5");
}

#[test]
fn rejects_missing_range_endpoint() {
    err("..5");
    err("1..");
}

#[test]
fn rejects_missing_step() {
    err("0..=1:");
}

// ---------- More ----------

#[test]
fn stepped_range_keeps_its_literals() {
    match build("0..=1:0.25") {
        Generator::Stepped { start, end, step, inclusive } => {
            assert_eq!(start, "0");
            assert_eq!(end, "1");
            assert_eq!(step, "0.25");
            assert!(inclusive);
        }
        other => panic!("expected a stepped range, got {other:?}"),
    }
    match build(" -1.5 .. 2e1 : inf ") {
        Generator::Stepped { start, end, step, inclusive } => {
            assert_eq!(start, "-1.5");
            assert_eq!(end, "2e1");
            assert_eq!(step, "inf");
            assert!(!inclusive);
        }
        other => panic!("expected a stepped range, got {other:?}"),
    }
}

#[test]
fn stepped_range_rejects_non_numbers() {
    let e = gen_err("0..=x:0.1");
    assert_eq!(e.offset, 4);
    assert_eq!(e.message, r#"expected number, found "x""#);
    let e = gen_err("0..1:.");
    assert_eq!(e.offset, 5);
    assert_eq!(e.message, r#"expected number, found ".""#);
    let e = gen_err("0..=1:  ");
    assert_eq!(e.offset, 6);
    assert_eq!(e.message, "stepped range missing step");
}

#[test]
fn range_bounds_are_trimmed_and_signed() {
    assert_eq!(expand(" -2 ..= 1 "), vec![j("-2"), j("-1"), j("0"), j("1")]);
    assert_eq!(expand("+3..5"), vec![j("3"), j("4")]);
    assert_eq!(expand("5..1"), Vec::<Json>::new());
}

#[test]
fn range_errors_name_their_column() {
    let e = gen_err("foo..5");
    assert_eq!(e.offset, 0);
    assert_eq!(e.message, r#"expected integer, found "foo""#);
    let e = gen_err("1..=x");
    assert_eq!(e.offset, 4);
    assert_eq!(e.message, r#"expected integer, found "x""#);
    let e = gen_err(" ..5");
    assert_eq!(e.offset, 0);
    assert_eq!(e.message, "range missing start");
    let e = gen_err("1..= ");
    assert_eq!(e.offset, 4);
    assert_eq!(e.message, "range missing end");
    let e = gen_err("1..99999999999999999999");
    assert_eq!(e.message, r#"expected integer, found "99999999999999999999""#);
}

#[test]
fn list_errors_name_their_column() {
    let e = gen_err("1, ,2");
    assert_eq!(e.offset, 2);
    assert_eq!(e.message, "empty value (trailing comma?)");
    let e = gen_err("a,  @x");
    assert_eq!(e.offset, 4);
    assert_eq!(e.message, "unrecognized value start '@'");
    let e = gen_err("1,2x");
    assert_eq!(e.offset, 2);
    assert_eq!(e.message, r#"expected number, found "2x""#);
    let e = gen_err(r#""abc"#);
    assert_eq!(e.offset, 4);
    assert_eq!(e.message, "unterminated string");
    let e = gen_err("[1,2]]");
    assert_eq!(e.offset, 5);
    assert_eq!(e.message, "unbalanced closing brace");
    let e = gen_err("[1,2");
    assert_eq!(e.offset, 4);
    assert_eq!(e.message, "unbalanced braces");
    let e = gen_err("");
    assert_eq!(e.offset, 0);
    assert_eq!(e.message, "empty generator");
}

#[test]
fn list_json_errors_carry_the_parser_message() {
    let e = gen_err(r#"{"a":}"#);
    assert_eq!(e.offset, 0);
    assert!(e.message.starts_with("invalid JSON literal: "), "{}", e.message);
    let e = gen_err(r#""a\q""#);
    assert!(e.message.starts_with("invalid JSON string: "), "{}", e.message);
}

#[test]
fn dots_inside_strings_and_nesting_are_not_ranges() {
    assert_eq!(expand(r#""a..b""#), vec![j(r#""a..b""#)]);
    assert_eq!(expand("[1,[2]],{}"), vec![j("[1,[2]]"), j("{}")]);
    assert_eq!(expand(".hidden"), vec![j(r#"".hidden""#)]);
    assert_eq!(expand("-1,_x,/y"), vec![j("-1"), j(r#""_x""#), j(r#""/y""#)]);
}

#[test]
fn gen_error_describes_with_one_based_column() {
    let e = gen_err("1,2,");
    assert_eq!(e.describe(), "col 5: empty value (trailing comma?)");
}

#[test]
fn float_literals_match_std_parsing() {
    let cases = [
        "0", "1.", ".5", "+.5", "-1.5e-3", "1e5", "1E+5", "1.e5", "inf", "-INF", "Infinity",
        "+infinity", "NaN", "nan", ".", "e5", ".e5", "1e", "1e+", "--1", "1.2.3", "0x10", "1_0",
        "infin", "in", "1 2", "", "+", "-", "1f",
    ];
    for s in cases {
        let accepted = matches!(
            parse_generator(&format!("0..1:{s}")),
            Ok(Generator::Stepped { .. })
        );
        assert_eq!(accepted, s.trim().parse::<f64>().is_ok(), "literal {s:?}");
    }
}

#[test]
fn top_level_commas_split_outside_nesting_and_strings() {
    let input = r#"1,[2,3],"x,y",{"a":1,"b":2}"#;
    let parts = split_top_level_commas(input).unwrap();
    let offsets: Vec<usize> = parts.iter().map(|p| p.0).collect();
    let pieces: Vec<&str> = parts.iter().map(|p| p.1).collect();
    assert_eq!(offsets, vec![0, 2, 8, 14]);
    assert_eq!(pieces, vec!["1", "[2,3]", r#""x,y""#, r#"{"a":1,"b":2}"#]);
    assert_eq!(pieces.join(","), input);
    assert!(split_top_level_commas("1,]").is_err());
}

#[test]
fn tokens_from_a_json_reading() {
    assert_eq!(number_token(parse_json("-2"), "-2", 3).unwrap(), j("-2"));
    let e = number_token(Err("invalid number".into()), "1e", 3).unwrap_err();
    assert_eq!(e, GenError { message: r#"expected number, found "1e""#.into(), offset: 3 });
    assert_eq!(json_token(parse_json("[1,2]"), "invalid JSON literal: ", 0).unwrap(), j("[1,2]"));
    let e = json_token(Err("trailing comma".into()), "invalid JSON literal: ", 5).unwrap_err();
    assert_eq!(e, GenError { message: "invalid JSON literal: trailing comma".into(), offset: 5 });
}

#[test]
fn deep_nesting_is_read() {
    let depth = 300;
    let input = format!("{}1{}", "[".repeat(depth), "]".repeat(depth));
    let parts = split_top_level_commas(&input).unwrap();
    assert_eq!(parts.len(), 1);
    assert_eq!(parts[0].1, input.as_str());
}
