use json_sweep::json::{parse_json, Json};
use json_sweep::merge::{apply_segments, check_segments, merge_into, ApplyError};
use json_sweep::path::Segment;

fn j(text: &str) -> Json {
    parse_json(text).unwrap()
}

fn key(k: &str) -> Segment {
    Segment::Key(k.into())
}

fn idx(i: usize) -> Segment {
    Segment::Index(i)
}

fn filt(k: &str, v: Json) -> Segment {
    Segment::Filter { key: k.into(), value: v }
}

/// The member `k` of an object.
fn get<'a>(v: &'a Json, k: &str) -> &'a Json {
    match v {
        Json::Object(es) => &es.iter().find(|(name, _)| name == k).expect("missing key").1,
        other => panic!("not an object: {other:?}"),
    }
}

/// The item `i` of an array.
fn at(v: &Json, i: usize) -> &Json {
    match v {
        Json::Array(items) => &items[i],
        other => panic!("not an array: {other:?}"),
    }
}

#[test]
fn scalar_overwrites_scalar() {
    let mut base = j("1");
    merge_into(&mut base, &j("2"));
    assert_eq!(base, j("2"));
}

#[test]
fn object_merges_recursively() {
    let mut base = j(r#"{"a": 1, "b": {"x": 1, "y": 2}}"#);
    merge_into(&mut base, &j(r#"{"b": {"y": 99, "z": 3}, "c": 7}"#));
    assert_eq!(base, j(r#"{"a": 1, "b": {"x": 1, "y": 99, "z": 3}, "c": 7}"#));
}

#[test]
fn array_replaces_does_not_concat() {
    let mut base = j(r#"{"xs": [1, 2, 3]}"#);
    merge_into(&mut base, &j(r#"{"xs": [9]}"#));
    assert_eq!(base, j(r#"{"xs": [9]}"#));
}

#[test]
fn apply_key_path_creates_missing_intermediates() {
    let mut base = j("{}");
    apply_segments(&mut base, &[key("a"), key("b"), key("c")], &j("42")).unwrap();
    assert_eq!(base, j(r#"{"a": {"b": {"c": 42}}}"#));
}

#[test]
fn apply_through_existing_array_index() {
    let mut base = j(r#"{"classes": [{"weight": 0.1}, {"weight": 0.2}]}"#);
    apply_segments(&mut base, &[key("classes"), idx(1), key("weight")], &j("0.9")).unwrap();
    assert_eq!(*get(at(get(&base, "classes"), 1), "weight"), j("0.9"));
    assert_eq!(*get(at(get(&base, "classes"), 0), "weight"), j("0.1"));
}

#[test]
fn apply_to_array_index_with_object_deep_merges() {
    let mut base = j(r#"{"classes": [{"weight": 0.1, "name": "A"}]}"#);
    apply_segments(
        &mut base,
        &[key("classes"), idx(0)],
        &j(r#"{"weight": 0.5, "extra": true}"#),
    )
    .unwrap();
    assert_eq!(
        *at(get(&base, "classes"), 0),
        j(r#"{"weight": 0.5, "name": "A", "extra": true}"#)
    );
}

#[test]
fn index_out_of_bounds_errors() {
    let mut base = j(r#"{"xs": [1, 2]}"#);
    let err = apply_segments(&mut base, &[key("xs"), idx(5)], &j("0")).unwrap_err();
    assert!(matches!(err, ApplyError::IndexOutOfBounds { index: 5, len: 2, .. }));
}

#[test]
fn index_on_non_array_errors() {
    let mut base = j(r#"{"a": {"b": 1}}"#);
    let err = apply_segments(&mut base, &[key("a"), idx(0)], &j("0")).unwrap_err();
    match err {
        ApplyError::TraverseNonArray { encountered, .. } => assert_eq!(encountered, "object"),
        other => panic!("unexpected {other:?}"),
    }
}

#[test]
fn filter_matches_first_array_element_by_key() {
    let mut base = j(r#"{
        "classes": [
            {"name": "A", "weight": 0.1},
            {"name": "Treasury", "ideal": {"equity": 0.5}}
        ]
    }"#);
    apply_segments(
        &mut base,
        &[
            key("classes"),
            filt("name", j(r#""Treasury""#)),
            key("ideal"),
            key("equity"),
        ],
        &j("0.9"),
    )
    .unwrap();
    assert_eq!(*get(get(at(get(&base, "classes"), 1), "ideal"), "equity"), j("0.9"));
    // Sibling preserved.
    assert_eq!(*get(at(get(&base, "classes"), 0), "weight"), j("0.1"));
}

#[test]
fn filter_no_match_errors() {
    let mut base = j(r#"{"classes": [{"name": "A"}]}"#);
    let err = apply_segments(
        &mut base,
        &[key("classes"), filt("name", j(r#""Missing""#)), key("x")],
        &j("1"),
    )
    .unwrap_err();
    assert!(matches!(err, ApplyError::FilterNoMatch { .. }));
}

#[test]
fn filter_on_non_array_errors() {
    let mut base = j(r#"{"classes": {"a": 1}}"#);
    let err = apply_segments(&mut base, &[key("classes"), filt("name", j(r#""A""#))], &j("1"))
        .unwrap_err();
    assert!(matches!(err, ApplyError::FilterOnNonArray { .. }));
}

#[test]
fn check_segments_ok_when_path_resolves() {
    let base = j(r#"{"econ": {"seed": 0}, "knobs": {"x": 1}}"#);
    check_segments(&base, &[key("econ"), key("seed")]).unwrap();
    check_segments(&base, &[key("knobs"), key("x")]).unwrap();
}

#[test]
fn check_segments_errors_on_missing_top_key() {
    let base = j(r#"{"econ": {"seed": 0}}"#);
    let err = check_segments(&base, &[key("knobs"), key("x")]).unwrap_err();
    match err {
        ApplyError::KeyMissing { segment } => assert_eq!(segment, "knobs"),
        other => panic!("unexpected {other:?}"),
    }
}

#[test]
fn check_segments_errors_on_missing_leaf_key() {
    let base = j(r#"{"econ": {"seed": 0}}"#);
    let err = check_segments(&base, &[key("econ"), key("see")]).unwrap_err();
    match err {
        ApplyError::KeyMissing { segment } => assert_eq!(segment, "see"),
        other => panic!("unexpected {other:?}"),
    }
}

#[test]
fn check_segments_resolves_through_index_and_filter() {
    let base = j(r#"{"classes": [{"name": "A", "w": 1}, {"name": "T", "w": 2}]}"#);
    check_segments(&base, &[key("classes"), idx(1), key("w")]).unwrap();
    check_segments(&base, &[key("classes"), filt("name", j(r#""T""#)), key("w")]).unwrap();
}

#[test]
fn check_segments_propagates_index_and_filter_errors() {
    let base = j(r#"{"xs": [1, 2]}"#);
    let err = check_segments(&base, &[key("xs"), idx(5)]).unwrap_err();
    assert!(matches!(err, ApplyError::IndexOutOfBounds { .. }));

    let base = j(r#"{"xs": [{"name": "A"}]}"#);
    let err = check_segments(&base, &[key("xs"), filt("name", j(r#""Z""#))]).unwrap_err();
    assert!(matches!(err, ApplyError::FilterNoMatch { .. }));
}

#[test]
fn key_traverse_non_object_errors() {
    let mut base = j(r#"{"a": 5}"#);
    let err = apply_segments(&mut base, &[key("a"), key("b")], &j("1")).unwrap_err();
    match err {
        ApplyError::TraverseNonObject { encountered, .. } => assert_eq!(encountered, "number"),
        other => panic!("unexpected {other:?}"),
    }
}

// ---------- more ----------

#[test]
fn read_after_write_gives_the_value() {
    let mut base = j(r#"{"a": {"b": [1, {"c": 2}]}}"#);
    let segs = [key("a"), key("b"), idx(1), key("d")];
    apply_segments(&mut base, &segs, &j("[7]")).unwrap();
    check_segments(&base, &segs).unwrap();
    assert_eq!(*get(at(get(get(&base, "a"), "b"), 1), "d"), j("[7]"));
    assert_eq!(*get(at(get(get(&base, "a"), "b"), 1), "c"), j("2"));
}

#[test]
fn filter_matches_by_json_value_equality() {
    let mut base = j(r#"{"xs": [{"id": 1.0}, {"id": 1}, {"id": "1"}]}"#);
    apply_segments(&mut base, &[key("xs"), filt("id", j("1")), key("hit")], &j("true")).unwrap();
    assert_eq!(*get(at(get(&base, "xs"), 1), "hit"), j("true"));
    assert_eq!(*at(get(&base, "xs"), 0), j(r#"{"id": 1.0}"#));
}

#[test]
fn failed_apply_leaves_earlier_steps_unchanged_at_the_target() {
    let mut base = j(r#"{"a": 5}"#);
    assert!(apply_segments(&mut base, &[key("a"), idx(0)], &j("1")).is_err());
    assert_eq!(get(&base, "a"), &j("5"));
}

#[test]
fn apply_error_describes_itself() {
    let mut base = j(r#"{"xs": [1, 2], "o": {"k": 1}, "n": null}"#);
    let e = apply_segments(&mut base, &[key("xs"), idx(5)], &j("0")).unwrap_err();
    assert_eq!(e.describe(), r#"index 5 out of bounds at segment "[5]" (array length 2)"#);
    let e = apply_segments(&mut base, &[key("n"), key("x")], &j("0")).unwrap_err();
    assert_eq!(e.describe(), r#"path traverses null at segment "n" (expected object)"#);
    let e = apply_segments(&mut base, &[key("o"), idx(0)], &j("0")).unwrap_err();
    assert_eq!(e.describe(), r#"path traverses object at segment "[0]" (expected array)"#);
    let e = apply_segments(&mut base, &[key("o"), filt("k", j("1"))], &j("0")).unwrap_err();
    assert_eq!(e.describe(), r#"filter "[k=1]" applied to object (expected array)"#);
    let e = check_segments(&base, &[key("zz")]).unwrap_err();
    assert_eq!(e.describe(), r#"key "zz" not present in base (typo?)"#);
    let e = check_segments(&base, &[key("xs"), filt("k", j(r#""v""#))]).unwrap_err();
    assert_eq!(e.describe(), r#"filter "[k=v]" matched zero elements"#);
}

#[test]
fn traverse_errors_name_the_right_segment() {
    let mut base = j(r#"{"xs": [5, {"k": 1}], "o": {"k": 1}}"#);
    // Writing through a non-object names the segment that led to it.
    let e = apply_segments(&mut base, &[key("xs"), idx(0), key("y")], &j("0")).unwrap_err();
    assert_eq!(e.describe(), r#"path traverses number at segment "[0]" (expected object)"#);
    let e = apply_segments(&mut base, &[key("o"), key("k"), key("z")], &j("0")).unwrap_err();
    assert_eq!(e.describe(), r#"path traverses number at segment "k" (expected object)"#);
    // An index meeting a non-array names itself.
    let mut empty = j("{}");
    let e = apply_segments(&mut empty, &[key("a"), idx(0)], &j("1")).unwrap_err();
    assert_eq!(e, ApplyError::TraverseNonArray { segment: "[0]".into(), encountered: "object" });
    assert_eq!(empty, j(r#"{"a": {}}"#));
    let e = apply_segments(&mut j("{}"), &[idx(3)], &j("0")).unwrap_err();
    assert_eq!(e.describe(), r#"path traverses object at segment "[3]" (expected array)"#);
    // Checking names the segment that met the slot.
    let e = check_segments(&base, &[key("xs"), filt("k", j("1")), idx(2)]).unwrap_err();
    assert_eq!(e.describe(), r#"path traverses object at segment "[2]" (expected array)"#);
    let e = check_segments(&base, &[key("o"), key("k"), key("z")]).unwrap_err();
    assert_eq!(e.describe(), r#"path traverses number at segment "z" (expected object)"#);
    let e = check_segments(&j("[1]"), &[key("a")]).unwrap_err();
    assert_eq!(e.describe(), r#"path traverses array at segment "a" (expected object)"#);
}

#[test]
fn merging_an_overlay_twice_equals_merging_it_once() {
    let overlay = j(r#"{"a": {"x": 5, "z": {"q": [1]}}, "d": null, "e": "s"}"#);
    let mut once = j(r#"{"a": {"x": 1, "y": [1, 2]}, "c": 2, "e": {"f": 1}}"#);
    let mut twice = once.deep_clone();
    merge_into(&mut once, &overlay);
    merge_into(&mut twice, &overlay);
    merge_into(&mut twice, &overlay);
    assert_eq!(once, twice);
    assert_eq!(
        once,
        j(r#"{"a": {"x": 5, "y": [1, 2], "z": {"q": [1]}}, "c": 2, "d": null, "e": "s"}"#)
    );
}

#[test]
fn a_path_the_check_accepts_applies() {
    let base = j(r#"{"xs": [{"id": 1, "w": {"v": 0}}], "k": 3}"#);
    let segs = [key("xs"), filt("id", j("1")), key("w"), key("v")];
    check_segments(&base, &segs).unwrap();
    let mut written = base.deep_clone();
    apply_segments(&mut written, &segs, &j(r#"{"deep": true}"#)).unwrap();
    assert_eq!(
        written,
        j(r#"{"xs": [{"id": 1, "w": {"v": {"deep": true}}}], "k": 3}"#)
    );
}

#[test]
fn merge_replaces_non_object_with_object() {
    let mut base = j(r#"{"a": [1]}"#);
    merge_into(&mut base, &j(r#"{"a": {"b": 1}}"#));
    assert_eq!(base, j(r#"{"a": {"b": 1}}"#));
    let mut base = j(r#"{"a": {"b": 1}}"#);
    merge_into(&mut base, &j(r#"{"a": null}"#));
    assert_eq!(base, j(r#"{"a": null}"#));
}
