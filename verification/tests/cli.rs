use json_sweep::cli::{
    base_from_parse, load_base, partition_positionals, prepare, run, sweep_error_to_app, AppError, AxisPlan,
    BaseError,
};
use json_sweep::io::BaseSource;
use json_sweep::generator::Generator;
use json_sweep::json::{parse_json, Json};
use json_sweep::merge::ApplyError;
use json_sweep::sweep::SweepError;

fn j(text: &str) -> Json {
    parse_json(text).unwrap()
}

fn args(xs: &[&str]) -> Vec<String> {
    xs.iter().map(|s| s.to_string()).collect()
}

fn usage(e: AppError) -> String {
    match e {
        AppError::Usage(m) => m,
        other => panic!("expected a usage error, got {other:?}"),
    }
}

fn plans(xs: &[&str]) -> Vec<AxisPlan> {
    match prepare(&args(&[&["base.json"], xs].concat()), None) {
        Ok((_, p)) => p,
        Err(e) => panic!("prepare failed: {e:?}"),
    }
}

#[test]
fn exit_codes_and_messages() {
    assert_eq!(AppError::Usage("u".into()).exit_code(), 1);
    assert_eq!(AppError::Input("i".into()).exit_code(), 2);
    assert_eq!(AppError::Io("o".into()).exit_code(), 2);
    assert_eq!(AppError::Input("bad".into()).message(), "bad");
}

#[test]
fn positionals_split_into_base_and_axes() {
    let ps = args(&["base.json", "a=1,2", "b.c=x"]);
    let (src, axes) = partition_positionals(&ps, None).unwrap();
    assert_eq!(src, BaseSource::File("base.json".into()));
    assert_eq!(axes, vec![(1, "a=1,2"), (2, "b.c=x")]);

    let ps = args(&["a=1", "-"]);
    let (src, axes) = partition_positionals(&ps, Some(vec![b'{', b'}'])).unwrap();
    assert_eq!(src, BaseSource::StdinBuffer(vec![b'{', b'}']));
    assert_eq!(axes, vec![(0, "a=1")]);

    let ps = args(&["a=1"]);
    let (src, _) = partition_positionals(&ps, Some(vec![b'1'])).unwrap();
    assert_eq!(src, BaseSource::StdinBuffer(vec![b'1']));
}

#[test]
fn positional_errors() {
    let e = partition_positionals(&args(&["b1.json", "b2.json", "a=1"]), None).unwrap_err();
    assert_eq!(
        usage(e),
        r#"at most one BASE positional allowed; saw "b1.json" and "b2.json""#
    );
    let e = partition_positionals(&args(&["-", "a=1"]), None).unwrap_err();
    assert_eq!(usage(e), "`-` requested stdin as BASE, but stdin is empty or a TTY");
    let e = partition_positionals(&args(&["base.json", "a=1"]), Some(vec![b'{'])).unwrap_err();
    assert!(usage(e).starts_with("stdin is piped AND a BASE positional was given"));
    let e = partition_positionals(&args(&["a=1"]), None).unwrap_err();
    assert_eq!(
        usage(e),
        "no BASE provided: pass a JSON file path, `-` for stdin, or pipe into jswp"
    );
}

#[test]
fn no_axis_is_a_usage_error() {
    let e = prepare(&args(&["base.json"]), None).unwrap_err();
    assert_eq!(usage(e), "no axes given — pass at least one PATH=GEN positional");
}

#[test]
fn axis_errors_name_axis_and_column() {
    let e = prepare(&args(&["base.json", "knobs.x=ok,too", "econ.seed=foo..5"]), None)
        .unwrap_err();
    assert_eq!(
        usage(e),
        r#"axis 2 ("econ.seed=foo..5"), col 11: expected integer, found "foo""#
    );
    let e = prepare(&args(&["base.json", "1bad=1,2"]), None).unwrap_err();
    assert_eq!(usage(e), r#"axis 1 ("1bad=1,2"), col 1: invalid PATH "1bad""#);
    let e = prepare(&args(&["base.json", "a="]), None).unwrap_err();
    assert_eq!(usage(e), r#"axis 1 ("a="), col 3: empty generator"#);
}

#[test]
fn axes_read_into_plans() {
    let ps = plans(&["a[0..2]=1,2", "b=0..=1:0.5"]);
    assert_eq!(ps.len(), 2);
    assert_eq!(ps[0].templates.len(), 2);
    assert!(matches!(ps[0].generator, Generator::List(_)));
    assert!(matches!(ps[1].generator, Generator::Stepped { .. }));
}

#[test]
fn base_errors_are_input_or_io() {
    assert_eq!(load_base(Ok(r#"{"a": 1}"#.into())).unwrap(), j(r#"{"a": 1}"#));
    match load_base(Ok("{not json".into())).unwrap_err() {
        AppError::Input(m) => assert!(m.starts_with("base JSON: invalid JSON: "), "{m}"),
        other => panic!("unexpected {other:?}"),
    }
    let e = load_base(Err(BaseError { invalid_data: true, message: "not UTF-8".into() }));
    assert_eq!(e.unwrap_err(), AppError::Input("base JSON: not UTF-8".into()));
    let e = load_base(Err(BaseError { invalid_data: false, message: "gone".into() }));
    assert_eq!(e.unwrap_err(), AppError::Io("reading base: gone".into()));
}

#[test]
fn sweep_errors_become_usage_errors() {
    let m = usage(sweep_error_to_app(SweepError::ZipMismatch {
        axis_index: 1,
        axis_path: "b".into(),
        expected: 3,
        got: 2,
    }));
    assert_eq!(m, r#"--zip length mismatch: axis "b" (#2) has 2 values, expected 3"#);
    let m = usage(sweep_error_to_app(SweepError::TooLarge { cardinality: 100, max: 50 }));
    assert_eq!(m, "sweep would produce 100 configs, exceeds --max 50");
    assert_eq!(usage(sweep_error_to_app(SweepError::NoAxes)), "no axes given");
    let m = usage(sweep_error_to_app(SweepError::EmptyAxis { axis_path: "a".into() }));
    assert_eq!(m, r#"axis "a" produced zero values"#);
    let m = usage(sweep_error_to_app(SweepError::Apply {
        axis_path: "a.b".into(),
        inner: ApplyError::TraverseNonObject { segment: "a".into(), encountered: "number" },
    }));
    assert_eq!(m, r#"axis "a.b": path traverses number at segment "a" (expected object)"#);
}

#[test]
fn run_sweeps_cross_with_rightmost_fastest() {
    let ps = plans(&["econ.seed=1,2", "knobs.x=10,20"]);
    let stepped = vec![vec![], vec![]];
    let items = run(&ps, &stepped, Ok(r#"{"econ": {"seed": 0}}"#.into()), false, 10_000).unwrap();
    let configs: Vec<Json> = items.into_iter().map(|it| it.config).collect();
    assert_eq!(
        configs,
        vec![
            j(r#"{"econ": {"seed": 1}, "knobs": {"x": 10}}"#),
            j(r#"{"econ": {"seed": 1}, "knobs": {"x": 20}}"#),
            j(r#"{"econ": {"seed": 2}, "knobs": {"x": 10}}"#),
            j(r#"{"econ": {"seed": 2}, "knobs": {"x": 20}}"#),
        ]
    );
}

#[test]
fn run_expands_bracket_ranges_into_axes() {
    // xs[0..=2]=1,2 is three axes of two values each: 8 variants.
    let ps = plans(&["xs[0..=2]=1,2"]);
    let items = run(&ps, &[vec![]], Ok(r#"{"xs": [0, 0, 0]}"#.into()), false, 100).unwrap();
    assert_eq!(items.len(), 8);
    assert_eq!(items[0].config, j(r#"{"xs": [1, 1, 1]}"#));
    assert_eq!(items[7].config, j(r#"{"xs": [2, 2, 2]}"#));
    assert_eq!(items[1].axes.len(), 3);
}

#[test]
fn run_uses_walked_stepped_values() {
    let ps = plans(&["x=0..=1:0.5"]);
    let stepped = vec![vec![j("0.0"), j("0.5"), j("1.0")]];
    let items = run(&ps, &stepped, Ok("{}".into()), true, 100).unwrap();
    assert_eq!(items.len(), 3);
    assert_eq!(items[1].config, j(r#"{"x": 0.5}"#));
}

#[test]
fn run_reports_errors_in_order() {
    let ps = plans(&["a=1,2,3", "b=10,20"]);
    let e = run(&ps, &[vec![], vec![]], Ok("{}".into()), true, 100).unwrap_err();
    assert!(usage(e).contains("\"b\""));
    let e = run(&ps, &[vec![], vec![]], Ok("[".into()), true, 100).unwrap_err();
    assert!(matches!(e, AppError::Input(_)));
    let ps = plans(&["a=1..=10", "b=1..=10"]);
    let e = run(&ps, &[vec![], vec![]], Ok("{}".into()), false, 50).unwrap_err();
    assert_eq!(usage(e), "sweep would produce 100 configs, exceeds --max 50");
    let ps = plans(&["a.b=1,2"]);
    let e = run(&ps, &[vec![]], Ok(r#"{"a": 5}"#.into()), false, 50).unwrap_err();
    let m = usage(e);
    assert!(m.contains("\"a.b\"") && m.contains("number"), "{m}");
}

#[test]
fn axis_splits_at_first_eq_outside_brackets() {
    let ps = plans(&[
        "spec.classes[name=Treasury].ideal.equity_target=0..=0.5:0.1",
        r#"xs[k="a]=b"].v=1"#,
        "weights[0..=5]=0.1,0.2,0.3",
    ]);
    assert_eq!(ps[0].templates.len(), 5);
    assert!(matches!(ps[0].generator, Generator::Stepped { .. }));
    assert_eq!(ps[1].templates.len(), 3);
    assert!(matches!(ps[1].generator, Generator::List(_)));
    assert_eq!(ps[2].templates.len(), 2);
}

#[test]
fn base_from_a_json_reading() {
    assert_eq!(base_from_parse(parse_json(r#"{"a": 1}"#)).unwrap(), parse_json(r#"{"a":1}"#).unwrap());
    let e = base_from_parse(Err("expected value at line 1 column 1".into())).unwrap_err();
    assert_eq!(e.exit_code(), 2);
    assert_eq!(e.message(), "base JSON: invalid JSON: expected value at line 1 column 1");
}
