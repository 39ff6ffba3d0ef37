use yamlpath::{Component, Document, FeatureKind, QueryError, Route};

#[test]
fn test_location_spanned_by_comment() {
    let doc = Document::new(
        r#"
foo: bar
# comment
baz: quux
        "#,
    )
    .unwrap();

    // Before the comment.
    assert!(!doc.range_spanned_by_comment(1, 4));
    // Single point within the comment's span.
    assert!(doc.range_spanned_by_comment(13, 13));
    // Within the comment's span.
    assert!(doc.range_spanned_by_comment(13, 15));
    // Starts inside the comment, ends outside.
    assert!(!doc.range_spanned_by_comment(13, 21));
}

#[test]
fn test_offset_inside_comment() {
    let doc = Document::new("foo: bar # abc def").unwrap();

    let comment = doc.source().find('#').unwrap();
    for idx in 0..doc.source().len() {
        if idx < comment {
            assert!(!doc.offset_inside_comment(idx));
        } else {
            assert!(doc.offset_inside_comment(idx));
        }
    }
}

#[test]
fn test_basic() {
    let doc = r#"
foo: bar
baz:
  sub:
    keys:
      abc:
        - 123
        - 456
        - [a, b, c, {d: e}]
        "#;

    let doc = Document::new(doc).unwrap();
    let route = Route {
        route: vec![
            Component::Key("baz".into()),
            Component::Key("sub".into()),
            Component::Key("keys".into()),
            Component::Key("abc".into()),
            Component::Index(2),
            Component::Index(3),
        ],
    };

    assert_eq!(
        doc.extract_with_leading_whitespace(&doc.query_pretty(&route).unwrap()),
        "{d: e}"
    );
}

#[test]
fn test_top_feature() {
    let doc = r#"
foo: bar
baz:
  abc: def
"#;

    let doc = Document::new(doc).unwrap();
    let feature = doc.top_feature().unwrap();

    assert_eq!(doc.extract(&feature).trim(), doc.source().trim());
    assert_eq!(feature.kind(), FeatureKind::Mapping);
}

#[test]
fn test_feature_comments() {
    let doc = r#"
root: # rootlevel
  a: 1 # foo
  b: 2 # bar
  c: 3
  d: 4 # baz
  e: [1, 2, {nested: key}] # quux

bar: # outside
# outside too
        "#;

    let doc = Document::new(doc).unwrap();

    // Querying the root gives us all comments underneath it.
    let route = Route {
        route: vec![Component::Key("root".into())],
    };
    let feature = doc.query_pretty(&route).unwrap();
    assert_eq!(
        doc.feature_comments(&feature)
            .iter()
            .map(|f| doc.extract(f))
            .collect::<Vec<_>>(),
        &["# rootlevel", "# foo", "# bar", "# baz", "# quux"]
    );

    // Querying a nested key gives us its adjacent comment,
    // even though it's above it on the AST.
    let route = Route {
        route: vec![
            Component::Key("root".into()),
            Component::Key("e".into()),
            Component::Index(1),
        ],
    };
    let feature = doc.query_pretty(&route).unwrap();
    assert_eq!(
        doc.feature_comments(&feature)
            .iter()
            .map(|f| doc.extract(f))
            .collect::<Vec<_>>(),
        &["# quux"]
    );
}

#[test]
fn test_feature_kind() {
    let doc = r#"
block-mapping:
  foo: bar

"block-mapping-quoted":
  foo: bar

block-sequence:
  - foo
  - bar

"block-sequence-quoted":
  - foo
  - bar

flow-mapping: {foo: bar}

flow-sequence: [foo, bar]

scalars:
  - abc
  - 'abc'
  - "abc"
  - 123
  - -123
  - 123.456
  - true
  - false
  - null
  - |
    multiline
    text
  - >
    folded
    text

nested:
  foo:
    - bar
    - baz
    - { a: b }
    - { c: }
"#;
    let doc = Document::new(doc).unwrap();

    for (route, expected_kind) in &[
        (
            vec![Component::Key("block-mapping".into())],
            FeatureKind::Mapping,
        ),
        (
            vec![Component::Key("block-mapping-quoted".into())],
            FeatureKind::Mapping,
        ),
        (
            vec![Component::Key("block-sequence".into())],
            FeatureKind::Sequence,
        ),
        (
            vec![Component::Key("block-sequence-quoted".into())],
            FeatureKind::Sequence,
        ),
        (
            vec![Component::Key("flow-mapping".into())],
            FeatureKind::Mapping,
        ),
        (
            vec![Component::Key("flow-sequence".into())],
            FeatureKind::Sequence,
        ),
        (
            vec![Component::Key("scalars".into()), Component::Index(0)],
            FeatureKind::Scalar,
        ),
        (
            vec![Component::Key("scalars".into()), Component::Index(1)],
            FeatureKind::Scalar,
        ),
        (
            vec![Component::Key("scalars".into()), Component::Index(2)],
            FeatureKind::Scalar,
        ),
        (
            vec![Component::Key("scalars".into()), Component::Index(3)],
            FeatureKind::Scalar,
        ),
        (
            vec![Component::Key("scalars".into()), Component::Index(4)],
            FeatureKind::Scalar,
        ),
        (
            vec![Component::Key("scalars".into()), Component::Index(5)],
            FeatureKind::Scalar,
        ),
        (
            vec![Component::Key("scalars".into()), Component::Index(6)],
            FeatureKind::Scalar,
        ),
        (
            vec![Component::Key("scalars".into()), Component::Index(7)],
            FeatureKind::Scalar,
        ),
        (
            vec![Component::Key("scalars".into()), Component::Index(8)],
            FeatureKind::Scalar,
        ),
        (
            vec![Component::Key("scalars".into()), Component::Index(9)],
            FeatureKind::Scalar,
        ),
        (
            vec![Component::Key("scalars".into()), Component::Index(10)],
            FeatureKind::Scalar,
        ),
        (
            vec![
                Component::Key("nested".into()),
                Component::Key("foo".into()),
                Component::Index(2),
            ],
            FeatureKind::Mapping,
        ),
        (
            vec![
                Component::Key("nested".into()),
                Component::Key("foo".into()),
                Component::Index(3),
            ],
            FeatureKind::Mapping,
        ),
    ] {
        let route = Route::from(route.clone());
        let feature = doc.query_exact(&route).unwrap().unwrap();
        assert_eq!(feature.kind(), *expected_kind);
    }
}

#[test]
fn test_duplicate_anchors() {
    let test_cases: Vec<(&str, Vec<(Route, &str)>)> = vec![
        // Same anchor name defined twice, alias resolves based on document position
        (
            "first: &x value1\nsecond: &x value2\nref: *x",
            vec![(Route::from(vec![Component::from("ref")]), "value2")],
        ),
        // Alias before redefinition sees old value, alias after sees new value
        (
            "a1: &x old_x\nref_x: *x\na2: &x new_x\nref_x2: *x",
            vec![(Route::from(vec![Component::from("ref_x")]), "old_x"), (Route::from(vec![Component::from("ref_x2")]), "new_x")],
        ),
        // Inline flow sequence with duplicate anchor
        (
            "foo: [&x x, *x, &x y, *x]",
            vec![
                (Route::from(vec![Component::from("foo"), Component::from(0)]), "x"),
                (Route::from(vec![Component::from("foo"), Component::from(1)]), "x"),
                (Route::from(vec![Component::from("foo"), Component::from(2)]), "y"),
                (Route::from(vec![Component::from("foo"), Component::from(3)]), "y"),
            ],
        ),
    ];

    for (yaml, queries) in test_cases {
        let doc = Document::new(yaml).unwrap();
        for (route, expected) in queries {
            let feature = doc.query_exact(&route).unwrap().unwrap();
            assert_eq!(doc.extract(&feature), expected, "YAML: {}", yaml);
        }
    }
}

#[test]
fn test_anchor_map() {
    let anchors = r#"
foo: &foo-anchor
  bar: &bar-anchor
    baz: quux
        "#;

    let doc = Document::new(anchors).unwrap();
    let tree = doc.tree();
    let anchor_map = &tree.anchors;

    assert_eq!(anchor_map.len(), 2);
    // Each anchor name maps to a map of positions -> nodes
    assert_eq!(anchor_map.get("foo-anchor").unwrap().len(), 1);
    assert_eq!(anchor_map.get("bar-anchor").unwrap().len(), 1);
    assert_eq!(
        tree.syntax.nodes[anchor_map
            .get("foo-anchor")
            .unwrap()
            .last_before(usize::MAX)
            .unwrap()]
        .kind,
        "block_mapping"
    );
    assert_eq!(
        tree.syntax.nodes[anchor_map
            .get("bar-anchor")
            .unwrap()
            .last_before(usize::MAX)
            .unwrap()]
        .kind,
        "block_mapping"
    );
}

#[test]
fn test_sequence_alias_not_flattened() {
    let doc = r#"
defaults: &defaults
  - a
  - b
  - c
list:
  - *defaults
  - d
  - e
        "#;

    let doc = Document::new(doc).unwrap();

    for (route, expected_kind, expected_value) in [
        (
            Route::from(vec![Component::from("list"), Component::from(0)]),
            FeatureKind::Sequence,
            "- a\n  - b\n  - c",
        ),
        (Route::from(vec![Component::from("list"), Component::from(1)]), FeatureKind::Scalar, "d"),
        (Route::from(vec![Component::from("list"), Component::from(2)]), FeatureKind::Scalar, "e"),
    ] {
        let feature = doc.query_exact(&route).unwrap().unwrap();
        assert_eq!(feature.kind(), expected_kind);
        assert_eq!(doc.extract(&feature).trim(), expected_value);
    }

    assert!(matches!(
        doc.query_exact(&Route::from(vec![Component::from("list"), Component::from(3)])),
        Err(QueryError::ExhaustedList(3, 3))
    ));
}

#[test]
fn test_inline_anchor_alias_patterns() {
    let test_cases: Vec<(&str, Vec<(Route, &str)>)> = vec![
        // Basic flow sequence cases
        (
            "foo: [&x v, *x]",
            vec![(Route::from(vec![Component::from("foo"), Component::from(0)]), "v"), (Route::from(vec![Component::from("foo"), Component::from(1)]), "v")],
        ),
        (
            "foo: [a, &x v, *x]",
            vec![
                (Route::from(vec![Component::from("foo"), Component::from(0)]), "a"),
                (Route::from(vec![Component::from("foo"), Component::from(1)]), "v"),
                (Route::from(vec![Component::from("foo"), Component::from(2)]), "v"),
            ],
        ),
        (
            "foo: [&a 1, &b 2, *a, *b]",
            vec![
                (Route::from(vec![Component::from("foo"), Component::from(0)]), "1"),
                (Route::from(vec![Component::from("foo"), Component::from(1)]), "2"),
                (Route::from(vec![Component::from("foo"), Component::from(2)]), "1"),
                (Route::from(vec![Component::from("foo"), Component::from(3)]), "2"),
            ],
        ),
        // Flow mapping cases
        (
            "top: { &a foo: &b bar, nested: *a, other: *b }",
            vec![
                (Route::from(vec![Component::from("top"), Component::from("foo")]), "bar"),
                (Route::from(vec![Component::from("top"), Component::from("nested")]), "foo"),
                (Route::from(vec![Component::from("top"), Component::from("other")]), "bar"),
            ],
        ),
        (
            "top: { &a k1: v1, &b k2: v2, ref1: *a, ref2: *b }",
            vec![
                (Route::from(vec![Component::from("top"), Component::from("k1")]), "v1"),
                (Route::from(vec![Component::from("top"), Component::from("k2")]), "v2"),
                (Route::from(vec![Component::from("top"), Component::from("ref1")]), "k1"),
                (Route::from(vec![Component::from("top"), Component::from("ref2")]), "k2"),
            ],
        ),
        // Anchor on complex values
        (
            "top: { seq: &x [a, b], ref: *x }",
            vec![
                (Route::from(vec![Component::from("top"), Component::from("seq"), Component::from(0)]), "a"),
                (Route::from(vec![Component::from("top"), Component::from("ref"), Component::from(1)]), "b"),
            ],
        ),
        (
            "top: { map: &x {a: 1}, ref: *x }",
            vec![
                (Route::from(vec![Component::from("top"), Component::from("map"), Component::from("a")]), "1"),
                (Route::from(vec![Component::from("top"), Component::from("ref"), Component::from("a")]), "1"),
            ],
        ),
        // Quoted keys with anchors (alias returns the quoted form)
        (
            r#"top: { &x "foo": bar, nested: *x }"#,
            vec![
                (Route::from(vec![Component::from("top"), Component::from("foo")]), "bar"),
                (Route::from(vec![Component::from("top"), Component::from("nested")]), "\"foo\""),
            ],
        ),
        (
            "top: { &x 'foo': bar, nested: *x }",
            vec![
                (Route::from(vec![Component::from("top"), Component::from("foo")]), "bar"),
                (Route::from(vec![Component::from("top"), Component::from("nested")]), "'foo'"),
            ],
        ),
    ];

    for (yaml, queries) in test_cases {
        let doc = Document::new(yaml).unwrap();
        for (route, expected) in queries {
            let feature = doc.query_exact(&route).unwrap().unwrap();
            assert_eq!(doc.extract(&feature), expected, "YAML: {}", yaml);
        }
    }
}
