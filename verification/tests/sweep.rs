use json_sweep::json::{parse_json, Json};
use json_sweep::path::Segment;
use json_sweep::sweep::{cardinality, expand, Axis, Mode, SweepError, SweepItem};

fn j(text: &str) -> Json {
    parse_json(text).unwrap()
}

fn axis(path: &str, values: Vec<Json>) -> Axis {
    let segs: Vec<Segment> = path.split('.').map(|s| Segment::Key(s.to_string())).collect();
    Axis { paths: vec![segs], label: path.to_string(), values }
}

/// The value recorded for an axis label.
fn axis_value<'a>(item: &'a SweepItem, label: &str) -> Option<&'a Json> {
    item.axes.iter().find(|(k, _)| k == label).map(|(_, v)| v)
}

#[test]
fn cardinality_cross_product() {
    let axes = vec![
        axis("a", vec![j("1"), j("2"), j("3")]),
        axis("b", vec![j("10"), j("20")]),
        axis("c", vec![j("100"), j("200"), j("300"), j("400")]),
    ];
    assert_eq!(cardinality(&axes, Mode::Cross).unwrap(), 24);
}

#[test]
fn cross_ordering_rightmost_fastest() {
    let axes = vec![axis("a", vec![j("1"), j("2")]), axis("b", vec![j("10"), j("20")])];
    let items = expand(&j("{}"), &axes, Mode::Cross, 100).unwrap();
    assert_eq!(items.len(), 4);
    assert_eq!(items[0].config, j(r#"{"a": 1, "b": 10}"#));
    assert_eq!(items[1].config, j(r#"{"a": 1, "b": 20}"#));
    assert_eq!(items[2].config, j(r#"{"a": 2, "b": 10}"#));
    assert_eq!(items[3].config, j(r#"{"a": 2, "b": 20}"#));
}

#[test]
fn zip_equal_lengths() {
    let axes = vec![
        axis("a", vec![j("1"), j("2"), j("3")]),
        axis("b", vec![j("10"), j("20"), j("30")]),
    ];
    let items = expand(&j("{}"), &axes, Mode::Zip, 100).unwrap();
    assert_eq!(items.len(), 3);
    assert_eq!(items[0].config, j(r#"{"a": 1, "b": 10}"#));
    assert_eq!(items[1].config, j(r#"{"a": 2, "b": 20}"#));
    assert_eq!(items[2].config, j(r#"{"a": 3, "b": 30}"#));
}

#[test]
fn zip_mismatched_lengths_error() {
    let axes = vec![
        axis("a", vec![j("1"), j("2"), j("3")]),
        axis("b.c", vec![j("10"), j("20")]),
    ];
    let err = expand(&j("{}"), &axes, Mode::Zip, 100).unwrap_err();
    match err {
        SweepError::ZipMismatch { axis_index, axis_path, expected, got } => {
            assert_eq!(axis_index, 1);
            assert_eq!(axis_path, "b.c");
            assert_eq!(expected, 3);
            assert_eq!(got, 2);
        }
        other => panic!("expected ZipMismatch, got {other:?}"),
    }
}

#[test]
fn max_exceeded_errors_before_generating() {
    let axes = vec![
        axis("a", (0..10).map(|_| j("1")).collect()),
        axis("b", (0..10).map(|_| j("2")).collect()),
        axis("c", (0..10).map(|_| j("3")).collect()),
    ];
    let err = expand(&j("{}"), &axes, Mode::Cross, 100).unwrap_err();
    match err {
        SweepError::TooLarge { cardinality, max } => {
            assert_eq!(cardinality, 1000);
            assert_eq!(max, 100);
        }
        other => panic!("expected TooLarge, got {other:?}"),
    }
}

#[test]
fn axes_map_carries_source_values() {
    let axes = vec![
        axis("knobs.x", vec![j("0.5"), j("1.0")]),
        axis("knobs.policy", vec![j(r#""argmax""#), j(r#""softmax""#)]),
    ];
    let items = expand(&j("{}"), &axes, Mode::Cross, 100).unwrap();
    assert_eq!(axis_value(&items[0], "knobs.x"), Some(&j("0.5")));
    assert_eq!(axis_value(&items[0], "knobs.policy"), Some(&j(r#""argmax""#)));
    // Not stringified — values keep their JSON type.
    let text = axis_value(&items[0], "knobs.x").unwrap().to_json_string();
    assert!(serde_json::from_str::<serde_json::Value>(&text).unwrap().is_f64());
}

#[test]
fn nested_path_applied_to_base() {
    let axes = vec![axis("knobs.spawn.temp", vec![j("0.5"), j("1.0")])];
    let base = j(r#"{"econ": {"seed": 1}}"#);
    let items = expand(&base, &axes, Mode::Cross, 100).unwrap();
    assert_eq!(
        items[0].config,
        j(r#"{"econ": {"seed": 1}, "knobs": {"spawn": {"temp": 0.5}}}"#)
    );
}

#[test]
fn coupled_paths_share_one_value() {
    // Simulate `treasury.{food,wood}=10,20`: one axis, two paths.
    let axis = Axis {
        paths: vec![
            vec![Segment::Key("treasury".into()), Segment::Key("food".into())],
            vec![Segment::Key("treasury".into()), Segment::Key("wood".into())],
        ],
        label: "treasury.{food,wood}".into(),
        values: vec![j("10"), j("20")],
    };
    let items = expand(&j("{}"), &[axis], Mode::Cross, 100).unwrap();
    assert_eq!(items.len(), 2);
    assert_eq!(items[0].config, j(r#"{"treasury": {"food": 10, "wood": 10}}"#));
    assert_eq!(items[1].config, j(r#"{"treasury": {"food": 20, "wood": 20}}"#));
    assert_eq!(axis_value(&items[0], "treasury.{food,wood}"), Some(&j("10")));
}

#[test]
fn sweep_no_axes_errors() {
    let err = expand(&j("{}"), &[], Mode::Cross, 100).unwrap_err();
    assert!(matches!(err, SweepError::NoAxes));
}

// ---------- more ----------

#[test]
fn empty_axis_errors() {
    let axes = vec![axis("a", vec![j("1")]), axis("b", vec![])];
    match expand(&j("{}"), &axes, Mode::Cross, 100).unwrap_err() {
        SweepError::EmptyAxis { axis_path } => assert_eq!(axis_path, "b"),
        other => panic!("expected EmptyAxis, got {other:?}"),
    }
    assert!(matches!(cardinality(&axes, Mode::Zip), Err(SweepError::EmptyAxis { .. })));
}

#[test]
fn apply_error_names_the_axis() {
    let axes = vec![axis("a.b", vec![j("1"), j("2")])];
    match expand(&j(r#"{"a": 5}"#), &axes, Mode::Cross, 100).unwrap_err() {
        SweepError::Apply { axis_path, inner } => {
            assert_eq!(axis_path, "a.b");
            assert_eq!(
                inner.describe(),
                r#"path traverses number at segment "a" (expected object)"#
            );
        }
        other => panic!("expected Apply, got {other:?}"),
    }
}

#[test]
fn cross_visits_every_combination_once() {
    let axes = vec![
        axis("a", vec![j("1"), j("2"), j("3")]),
        axis("b", vec![j("1"), j("2")]),
    ];
    let items = expand(&j("{}"), &axes, Mode::Cross, 6).unwrap();
    let seen: Vec<(Json, Json)> = items
        .iter()
        .map(|it| {
            (axis_value(it, "a").unwrap().deep_clone(), axis_value(it, "b").unwrap().deep_clone())
        })
        .collect();
    let mut expected = Vec::new();
    for a in ["1", "2", "3"] {
        for b in ["1", "2"] {
            expected.push((j(a), j(b)));
        }
    }
    assert_eq!(seen, expected);
}

#[test]
fn max_equal_to_cardinality_is_allowed() {
    let axes = vec![axis("a", vec![j("1"), j("2")])];
    assert_eq!(expand(&j("{}"), &axes, Mode::Zip, 2).unwrap().len(), 2);
    assert!(matches!(
        expand(&j("{}"), &axes, Mode::Zip, 1),
        Err(SweepError::TooLarge { cardinality: 2, max: 1 })
    ));
}

#[test]
fn later_axis_overrides_earlier_at_same_path() {
    let axes = vec![axis("a", vec![j("1")]), axis("a", vec![j(r#"{"x": 1}"#)])];
    let items = expand(&j("{}"), &axes, Mode::Cross, 10).unwrap();
    assert_eq!(items[0].config, j(r#"{"a": {"x": 1}}"#));
}

#[test]
fn sweep_error_describes_itself() {
    let e = SweepError::ZipMismatch {
        axis_index: 1,
        axis_path: "b.c".into(),
        expected: 3,
        got: 2,
    };
    assert_eq!(
        e.describe(),
        r#"zip length mismatch: axis 1 ("b.c") has 2 values, expected 3"#
    );
    assert_eq!(
        SweepError::TooLarge { cardinality: 1000, max: 100 }.describe(),
        "sweep would produce 1000 configs, exceeds --max 100"
    );
    assert_eq!(SweepError::NoAxes.describe(), "at least one axis is required");
    assert_eq!(
        SweepError::EmptyAxis { axis_path: "x".into() }.describe(),
        r#"axis "x" produced zero values"#
    );
}
