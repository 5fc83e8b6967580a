use json_sweep::json::{parse_json, Json};
use json_sweep::path::{
    expand_template, number_filter_value, parse_path, quoted_filter_value, render_filter,
    segments_to_string, split_commas, Cursor, PathError, Segment, SegmentTemplate,
};

fn j(text: &str) -> Json {
    parse_json(text).unwrap()
}

fn parse(input: &str) -> Vec<SegmentTemplate> {
    parse_path(input).unwrap_or_else(|e| panic!("parse failed: {} ({input:?})", e.describe()))
}

fn err(input: &str) {
    assert!(parse_path(input).is_err(), "expected error for {input:?}");
}

fn path_err(input: &str) -> PathError {
    match parse_path(input) {
        Err(e) => e,
        Ok(t) => panic!("expected an error for {input:?}, got {t:?}"),
    }
}

#[test]
fn single_key() {
    assert_eq!(parse("a"), vec![SegmentTemplate::Key("a".into())]);
    assert_eq!(parse("kebab-case"), vec![SegmentTemplate::Key("kebab-case".into())]);
}

#[test]
fn dotted_keys() {
    assert_eq!(
        parse("a.b.c"),
        vec![
            SegmentTemplate::Key("a".into()),
            SegmentTemplate::Key("b".into()),
            SegmentTemplate::Key("c".into())
        ]
    );
}

#[test]
fn numeric_index() {
    assert_eq!(
        parse("classes[5]"),
        vec![SegmentTemplate::Key("classes".into()), SegmentTemplate::Index(5)]
    );
}

#[test]
fn index_then_key() {
    assert_eq!(
        parse("classes[5].weight"),
        vec![
            SegmentTemplate::Key("classes".into()),
            SegmentTemplate::Index(5),
            SegmentTemplate::Key("weight".into()),
        ]
    );
}

#[test]
fn chained_indices() {
    assert_eq!(
        parse("a[0][1][2]"),
        vec![
            SegmentTemplate::Key("a".into()),
            SegmentTemplate::Index(0),
            SegmentTemplate::Index(1),
            SegmentTemplate::Index(2),
        ]
    );
}

#[test]
fn head_can_be_bracket() {
    assert_eq!(
        parse("[3].name"),
        vec![SegmentTemplate::Index(3), SegmentTemplate::Key("name".into())]
    );
}

#[test]
fn filter_bare_string() {
    assert_eq!(
        parse("classes[name=Treasury].ideal"),
        vec![
            SegmentTemplate::Key("classes".into()),
            SegmentTemplate::Filter { key: "name".into(), value: j(r#""Treasury""#) },
            SegmentTemplate::Key("ideal".into()),
        ]
    );
}

#[test]
fn filter_kebab_value() {
    assert_eq!(
        parse("classes[id=t-1]"),
        vec![
            SegmentTemplate::Key("classes".into()),
            SegmentTemplate::Filter { key: "id".into(), value: j(r#""t-1""#) },
        ]
    );
}

#[test]
fn filter_int_value() {
    assert_eq!(
        parse("xs[id=42]"),
        vec![
            SegmentTemplate::Key("xs".into()),
            SegmentTemplate::Filter { key: "id".into(), value: j("42") },
        ]
    );
}

#[test]
fn filter_quoted_string() {
    assert_eq!(
        parse(r#"xs[name="with space"]"#),
        vec![
            SegmentTemplate::Key("xs".into()),
            SegmentTemplate::Filter { key: "name".into(), value: j(r#""with space""#) },
        ]
    );
}

#[test]
fn filter_bool_and_null() {
    assert_eq!(
        parse("xs[enabled=true]"),
        vec![
            SegmentTemplate::Key("xs".into()),
            SegmentTemplate::Filter { key: "enabled".into(), value: j("true") },
        ]
    );
    assert_eq!(
        parse("xs[parent=null]"),
        vec![
            SegmentTemplate::Key("xs".into()),
            SegmentTemplate::Filter { key: "parent".into(), value: j("null") },
        ]
    );
}

#[test]
fn range_inclusive_and_half_open() {
    assert_eq!(
        parse("classes[0..=2]"),
        vec![
            SegmentTemplate::Key("classes".into()),
            SegmentTemplate::IndexRange { start: 0, end: 2, inclusive: true },
        ]
    );
    assert_eq!(
        parse("classes[0..3]"),
        vec![
            SegmentTemplate::Key("classes".into()),
            SegmentTemplate::IndexRange { start: 0, end: 3, inclusive: false },
        ]
    );
}

#[test]
fn path_rejects_empty() {
    err("");
}

#[test]
fn rejects_leading_dot() {
    err(".foo");
}

#[test]
fn rejects_trailing_dot() {
    err("foo.");
}

#[test]
fn rejects_double_dot() {
    err("foo..bar");
}

#[test]
fn rejects_unterminated_bracket() {
    err("foo[5");
}

#[test]
fn rejects_empty_brackets() {
    err("foo[]");
}

#[test]
fn rejects_negative_index() {
    err("classes[-1]");
}

#[test]
fn path_rejects_non_integer_in_range() {
    err("classes[1..=foo]");
}

#[test]
fn rejects_filter_with_bad_key() {
    err("classes[1=foo]");
}

// ---------- key groups (brace expansion) ----------

#[test]
fn parse_key_group_two_keys() {
    assert_eq!(
        parse("treasury.ideal.{food,wood}"),
        vec![
            SegmentTemplate::Key("treasury".into()),
            SegmentTemplate::Key("ideal".into()),
            SegmentTemplate::KeyGroup(vec!["food".into(), "wood".into()]),
        ]
    );
}

#[test]
fn parse_key_group_single_key_is_allowed() {
    assert_eq!(
        parse("a.{x}"),
        vec![SegmentTemplate::Key("a".into()), SegmentTemplate::KeyGroup(vec!["x".into()])]
    );
}

#[test]
fn parse_key_group_trims_whitespace() {
    assert_eq!(
        parse("a.{ x , y ,z }"),
        vec![
            SegmentTemplate::Key("a".into()),
            SegmentTemplate::KeyGroup(vec!["x".into(), "y".into(), "z".into()]),
        ]
    );
}

#[test]
fn parse_key_group_followed_by_more_path() {
    assert_eq!(
        parse("a.{x,y}.z"),
        vec![
            SegmentTemplate::Key("a".into()),
            SegmentTemplate::KeyGroup(vec!["x".into(), "y".into()]),
            SegmentTemplate::Key("z".into()),
        ]
    );
}

#[test]
fn rejects_empty_key_group() {
    err("a.{}");
}

#[test]
fn rejects_key_group_with_blank_entry() {
    err("a.{x,,y}");
    err("a.{,x}");
    err("a.{x,}");
}

#[test]
fn rejects_key_group_with_non_ident() {
    err("a.{1foo}");
    err("a.{x.y}");
}

#[test]
fn rejects_unterminated_key_group() {
    err("a.{x,y");
}

// ---------- expand_template ----------

#[test]
fn expand_no_ranges_returns_one_axis_one_path() {
    let t = parse("a.b[5].c");
    let exp = expand_template(&t);
    assert_eq!(exp.len(), 1);
    assert_eq!(exp[0].paths.len(), 1);
    assert_eq!(
        exp[0].paths[0],
        vec![
            Segment::Key("a".into()),
            Segment::Key("b".into()),
            Segment::Index(5),
            Segment::Key("c".into()),
        ]
    );
    assert_eq!(exp[0].label, "a.b[5].c");
}

#[test]
fn expand_single_range() {
    let t = parse("classes[0..=2].weight");
    let exp = expand_template(&t);
    assert_eq!(exp.len(), 3);
    let last_idx_for_each: Vec<usize> = exp
        .iter()
        .map(|ax| match ax.paths[0][1] {
            Segment::Index(i) => i,
            _ => unreachable!(),
        })
        .collect();
    assert_eq!(last_idx_for_each, vec![0, 1, 2]);
    assert_eq!(exp[0].label, "classes[0].weight");
    assert_eq!(exp[2].label, "classes[2].weight");
}

#[test]
fn expand_two_ranges_cartesian() {
    let t = parse("a[0..=1].b[0..=1]");
    let exp = expand_template(&t);
    // 2 x 2 = 4 axes, leftmost varies slowest, each axis has 1 path.
    assert_eq!(exp.len(), 4);
    let idx_pairs: Vec<(usize, usize)> = exp
        .iter()
        .map(|ax| match (&ax.paths[0][1], &ax.paths[0][3]) {
            (Segment::Index(i), Segment::Index(j)) => (*i, *j),
            _ => unreachable!(),
        })
        .collect();
    assert_eq!(idx_pairs, vec![(0, 0), (0, 1), (1, 0), (1, 1)]);
}

#[test]
fn expand_key_group_couples_paths_in_one_axis() {
    let t = parse("treasury.{food,wood,ore}");
    let exp = expand_template(&t);
    assert_eq!(exp.len(), 1, "key-group does not split axes");
    assert_eq!(exp[0].paths.len(), 3);
    assert_eq!(
        exp[0].paths[0],
        vec![Segment::Key("treasury".into()), Segment::Key("food".into())]
    );
    assert_eq!(
        exp[0].paths[2],
        vec![Segment::Key("treasury".into()), Segment::Key("ore".into())]
    );
    assert_eq!(exp[0].label, "treasury.{food,wood,ore}");
}

#[test]
fn expand_range_and_key_group_combine() {
    let t = parse("a[0..=1].{x,y}");
    let exp = expand_template(&t);
    // 2 independent axes, each with 2 coupled paths.
    assert_eq!(exp.len(), 2);
    assert_eq!(exp[0].paths.len(), 2);
    assert_eq!(exp[1].paths.len(), 2);
    assert_eq!(exp[0].label, "a[0].{x,y}");
    assert_eq!(exp[1].label, "a[1].{x,y}");
}

#[test]
fn expand_two_key_groups_take_cartesian_product_of_paths() {
    let t = parse("a.{x,y}.{p,q}");
    let exp = expand_template(&t);
    assert_eq!(exp.len(), 1);
    assert_eq!(exp[0].paths.len(), 4);
    let leaf_pairs: Vec<(String, String)> = exp[0]
        .paths
        .iter()
        .map(|p| match (&p[1], &p[2]) {
            (Segment::Key(a), Segment::Key(b)) => (a.clone(), b.clone()),
            _ => unreachable!(),
        })
        .collect();
    assert_eq!(
        leaf_pairs,
        vec![
            ("x".into(), "p".into()),
            ("x".into(), "q".into()),
            ("y".into(), "p".into()),
            ("y".into(), "q".into()),
        ]
    );
}

#[test]
fn segments_to_string_roundtrips_for_simple_paths() {
    let segs = vec![
        Segment::Key("classes".into()),
        Segment::Index(5),
        Segment::Key("weight".into()),
    ];
    assert_eq!(segments_to_string(&segs), "classes[5].weight");

    let segs = vec![
        Segment::Key("classes".into()),
        Segment::Filter { key: "name".into(), value: j(r#""Treasury""#) },
        Segment::Key("ideal".into()),
    ];
    assert_eq!(segments_to_string(&segs), "classes[name=Treasury].ideal");
}

// ---------- more ----------

#[test]
fn errors_carry_offset_and_message() {
    let cases: Vec<(&str, usize, &str)> = vec![
        ("", 0, "empty path"),
        (".foo", 0, "path must start with a key or '[', found '.'"),
        ("foo.", 4, "expected key"),
        ("foo..bar", 4, "expected key"),
        ("foo[5", 3, "unterminated '['"),
        ("foo[ ]", 4, "empty brackets"),
        ("classes[-1]", 8, "array index must be non-negative, found -1"),
        ("classes[1..=foo]", 12, "expected integer, found \"foo\""),
        ("classes[1=foo]", 8, "filter key must be an identifier, found \"1\""),
        ("a[=1]", 2, "filter is missing key"),
        ("a[k= ]", 4, "filter is missing value"),
        ("a[..2]", 2, "range missing start"),
        ("a[1..]", 5, "range missing end"),
        ("a[x=1a]", 4, "expected number, found \"1a\""),
        ("a[x=b]c]", 6, "unexpected character 'c'"),
        ("a[x=b[]", 4, "unexpected bracket in filter value \"b[\""),
        ("a.{}", 3, "empty key in {...} group"),
        ("a.{x, 1y}", 6, "key-group entry must be an identifier, found \"1y\""),
        ("a.{x,y", 2, "unterminated '{'"),
        ("a b", 1, "unexpected character ' '"),
    ];
    for (input, offset, message) in cases {
        let e = path_err(input);
        assert_eq!(e.offset, offset, "offset for {input:?}");
        assert_eq!(e.message, message, "message for {input:?}");
    }
}

#[test]
fn filter_quoted_value_with_bracket_and_equals() {
    assert_eq!(
        parse(r#"xs[name="a]=b"].v"#),
        vec![
            SegmentTemplate::Key("xs".into()),
            SegmentTemplate::Filter { key: "name".into(), value: j(r#""a]=b""#) },
            SegmentTemplate::Key("v".into()),
        ]
    );
}

#[test]
fn filter_number_and_negative_value() {
    assert_eq!(
        parse("xs[ w = -2.5 ]"),
        vec![
            SegmentTemplate::Key("xs".into()),
            SegmentTemplate::Filter { key: "w".into(), value: j("-2.5") },
        ]
    );
}

#[test]
fn expand_label_is_rendered_path() {
    // Without key groups, each axis's label is its path rendered back.
    let t = parse("a[name=T].b[1..3].c");
    let exp = expand_template(&t);
    assert_eq!(exp.len(), 2);
    for ax in &exp {
        assert_eq!(ax.paths.len(), 1);
        assert_eq!(ax.label, segments_to_string(&ax.paths[0]));
    }
    assert_eq!(exp[1].label, "a[name=T].b[2].c");
    let t = parse("[0].x");
    let exp = expand_template(&t);
    assert_eq!(exp[0].label, "[0].x");
    assert_eq!(exp[0].label, segments_to_string(&exp[0].paths[0]));
}

#[test]
fn expand_counts_are_products() {
    // 3 indices x 2 indices = 6 axes; 2 keys x 3 keys = 6 paths each.
    let t = parse("a[0..3].{p,q}.b[1..=2].{x,y,z}");
    let exp = expand_template(&t);
    assert_eq!(exp.len(), 6);
    for ax in &exp {
        assert_eq!(ax.paths.len(), 6);
        for p in &ax.paths {
            assert_eq!(p.len(), 6);
        }
    }
    // An empty range leaves no axis at all.
    assert_eq!(expand_template(&parse("a[2..2].b")).len(), 0);
}

#[test]
fn path_error_describes_with_one_based_column() {
    assert_eq!(path_err("foo.").describe(), "col 5: expected key");
}

#[test]
fn rendered_simple_path_parses_back() {
    let segs = vec![
        Segment::Index(0),
        Segment::Key("classes".into()),
        Segment::Index(12),
        Segment::Key("ideal_2-b".into()),
    ];
    let text = segments_to_string(&segs);
    assert_eq!(text, "[0].classes[12].ideal_2-b");
    assert_eq!(
        parse(&text),
        vec![
            SegmentTemplate::Index(0),
            SegmentTemplate::Key("classes".into()),
            SegmentTemplate::Index(12),
            SegmentTemplate::Key("ideal_2-b".into()),
        ]
    );
}

#[test]
fn split_commas_cuts_at_every_comma() {
    let parts = split_commas("a,,b c,");
    assert_eq!(parts, vec![(0, "a"), (2, ""), (3, "b c"), (7, "")]);
    let joined: Vec<&str> = parts.iter().map(|p| p.1).collect();
    assert_eq!(joined.join(","), "a,,b c,");
    assert_eq!(split_commas(""), vec![(0, "")]);
}

#[test]
fn filter_labels_write_scalars_as_their_text() {
    assert_eq!(render_filter("k", &j("null")), "[k=null]");
    assert_eq!(render_filter("k", &j("true")), "[k=true]");
    assert_eq!(render_filter("k", &j("false")), "[k=false]");
    assert_eq!(render_filter("k", &j("1.5")), "[k=1.5]");
    assert_eq!(render_filter("k", &j("-7")), "[k=-7]");
    assert_eq!(render_filter("k", &j(r#""Treasury""#)), "[k=Treasury]");
    assert_eq!(render_filter("k", &j(r#"[1, {"a": null}]"#)), r#"[k=[1,{"a":null}]]"#);
}

#[test]
fn canonical_paths_parse_and_render_back() {
    for text in ["a", "a.b", "classes[5].weight", "x_1[0][12].y-z", "k.l[3]", "[0]", "[10].a"] {
        let axes = expand_template(&parse(text));
        assert_eq!(axes.len(), 1, "{text}");
        assert_eq!(axes[0].paths.len(), 1, "{text}");
        assert_eq!(segments_to_string(&axes[0].paths[0]), text);
        assert_eq!(axes[0].label, text);
    }
}

#[test]
fn parsed_templates_are_well_formed() {
    let t = parse("a.{b,c-d}[k=1][0..=2].e");
    assert_eq!(t.len(), 5);
    assert!(matches!(t[0], SegmentTemplate::Key(_)));
    match &t[1] {
        SegmentTemplate::KeyGroup(keys) => assert_eq!(keys, &vec!["b".to_string(), "c-d".to_string()]),
        other => panic!("expected a key group, got {other:?}"),
    }
    err("{a,b}.c");
    err("a.{}");
    err("a.{b,1c}");
    err("a[-1..2]");
    err("a[x y=1]");
}

#[test]
fn eat_while_may_cross_multibyte_characters() {
    let mut c = Cursor::new("héllo wörld");
    let word = c.eat_while(|b: u8| b >= 0x80 || b.is_ascii_alphabetic());
    assert_eq!(word, "héllo");
    assert_eq!(c.pos(), 6);
    assert_eq!(c.peek(), Some(b' '));
}

#[test]
fn non_canonical_paths_render_differently() {
    for (text, canon) in [("a[007]", "a[7]"), ("a[ 3 ]", "a[3]"), ("a[+3]", "a[3]")] {
        let axes = expand_template(&parse(text));
        assert_eq!(segments_to_string(&axes[0].paths[0]), canon);
    }
}

#[test]
fn filter_values_from_a_json_reading() {
    let v = number_filter_value(parse_json("1.5"), "1.5", 4).unwrap();
    assert_eq!(v, j("1.5"));
    let e = number_filter_value(parse_json(r#""x""#), "\"x\"", 4).unwrap_err();
    assert_eq!(e, PathError { message: r#"expected number, found "\"x\"""#.into(), offset: 4 });
    let e = number_filter_value(Err("bad".into()), "1x", 2).unwrap_err();
    assert_eq!(e, PathError { message: r#"expected number, found "1x""#.into(), offset: 2 });
    assert_eq!(quoted_filter_value(parse_json(r#""a b""#), 0).unwrap(), j(r#""a b""#));
    let e = quoted_filter_value(Err("EOF while parsing".into()), 7).unwrap_err();
    assert_eq!(e, PathError { message: "invalid JSON string: EOF while parsing".into(), offset: 7 });
}
