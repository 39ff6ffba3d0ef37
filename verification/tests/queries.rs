use yamlpath::{Component, Document, Feature, FeatureKind, QueryError, Route};

fn route(components: Vec<Component<'static>>) -> Route<'static> {
    Route::from(components)
}

fn keys(keys: &[&'static str]) -> Route<'static> {
    Route::from(keys.iter().map(|key| Component::from(*key)).collect::<Vec<_>>())
}

fn exact<'doc>(doc: &'doc Document, route: &Route) -> Feature<'doc> {
    doc.query_exact(route).unwrap().unwrap()
}

#[test]
fn modes_of_a_key() {
    let doc = Document::new("foo: bar\nbaz: quux\n").unwrap();
    let route = keys(&["foo"]);
    assert_eq!(doc.extract(&doc.query_pretty(&route).unwrap()), "foo: bar");
    assert_eq!(doc.extract(&exact(&doc, &route)), "bar");
    assert_eq!(doc.extract(&doc.query_key_only(&route).unwrap()), "foo");
    assert!(doc.query_exists(&route));
}

#[test]
fn modes_of_a_quoted_key() {
    let doc = Document::new("\"foo\": 'bar'\n'it''s': x").unwrap();
    assert_eq!(doc.extract(&doc.query_key_only(&keys(&["foo"])).unwrap()), "\"foo\"");
    assert_eq!(doc.extract(&exact(&doc, &keys(&["foo"]))), "'bar'");
    // Quotes are cut off, what is between them stays as it is written.
    assert_eq!(doc.extract(&exact(&doc, &keys(&["it''s"]))), "x");
}

#[test]
fn modes_of_an_index() {
    let doc = Document::new("- a\n- |\n  text\n  more\n").unwrap();
    let first = route(vec![Component::from(0)]);
    assert_eq!(doc.extract(&doc.query_pretty(&first).unwrap()), "a");
    assert_eq!(doc.extract(&exact(&doc, &first)), "a");
    let second = route(vec![Component::from(1)]);
    assert_eq!(doc.extract(&doc.query_pretty(&second).unwrap()).trim_end(), "|\n  text\n  more");
    assert_eq!(
        doc.query_pretty(&second).unwrap().location.byte_span,
        exact(&doc, &second).location.byte_span
    );
    assert!(matches!(
        doc.query_key_only(&first),
        Err(QueryError::Other(message)) if message == "key_only requires route to end with key"
    ));
}

#[test]
fn modes_are_nested() {
    let doc = Document::new("a:\n  b: {c: [1, 2]}\n").unwrap();
    for route in [keys(&["a"]), keys(&["a", "b"]), keys(&["a", "b", "c"])] {
        let pretty = doc.query_pretty(&route).unwrap();
        let exact = exact(&doc, &route);
        let key = doc.query_key_only(&route).unwrap();
        let context = pretty.context.unwrap();
        for inner in [exact.location, key.location] {
            assert!(pretty.location.byte_span.0 <= inner.byte_span.0);
            assert!(inner.byte_span.1 <= pretty.location.byte_span.1);
        }
        assert!(context.byte_span.0 <= pretty.location.byte_span.0);
        assert!(pretty.location.byte_span.1 <= context.byte_span.1);
    }
}

#[test]
fn context_is_the_location_of_the_parent_route() {
    let doc = Document::new("a:\n  b: &x {c: 1}\n  d: *x\n").unwrap();
    for route in [keys(&["a", "b"]), keys(&["a", "b", "c"]), keys(&["a", "d", "c"])] {
        let context = doc.query_pretty(&route).unwrap().context.unwrap();
        let around = exact(&doc, &route.parent().unwrap());
        assert_eq!(context.byte_span, around.location.byte_span);
        assert_eq!(context.point_span, around.location.point_span);
    }
}

#[test]
fn parents_are_what_parent_routes_lead_to() {
    let doc = Document::new("a:\n  - {b: c}\n  - - 1\n    - 2\n  -\nd: |\n  e\n").unwrap();
    assert!(!doc.has_anchors());
    for route in [
        keys(&["a"]),
        keys(&["d"]),
        keys(&["a"]).with_key(0),
        keys(&["a"]).with_key(0).with_key("b"),
        keys(&["a"]).with_key(1),
        keys(&["a"]).with_key(1).with_key(1),
    ] {
        let feature = exact(&doc, &route);
        let pretty = doc.query_pretty(&route).unwrap();
        let around = exact(&doc, &route.parent().unwrap());
        let parent = feature.parent().unwrap();
        assert_eq!(parent.node_id, around.node_id);
        assert_eq!(parent.location.byte_span, around.location.byte_span);
        for context in [feature.context.unwrap(), pretty.context.unwrap()] {
            assert_eq!(context.byte_span, around.location.byte_span);
        }
        assert!(pretty.location.byte_span.0 <= feature.location.byte_span.0);
        assert!(feature.location.byte_span.1 <= pretty.location.byte_span.1);
    }
    // An item that is an alias has the parent and the context of its content.
    let doc = Document::new("a: &x {b: c}\nd: [*x]\n").unwrap();
    let item = exact(&doc, &keys(&["d"]).with_key(0));
    assert_eq!(item.node_id, exact(&doc, &keys(&["a"])).node_id);
    assert_eq!(item.context.unwrap().byte_span, doc.top_feature().unwrap().location.byte_span);
}

#[test]
fn points_are_rows_and_columns() {
    let doc = Document::new("a: é\nb:\n  - x\n  - |\n    y\n# c\n").unwrap();
    let item = exact(&doc, &keys(&["b"]).with_key(0));
    assert_eq!(item.location.point_span, ((2, 4), (2, 5)));
    assert!(!item.is_multiline());
    let block = exact(&doc, &keys(&["b"]).with_key(1));
    assert_eq!(block.location.point_span.0, (3, 4));
    assert!(block.is_multiline() && doc.extract(&block).contains('\n'));
    assert_eq!(exact(&doc, &keys(&["a"])).location.point_span, ((0, 3), (0, 5)));
}

#[test]
fn absent_values() {
    let doc = Document::new("foo:\nbar: { baz }\n").unwrap();
    assert!(doc.query_exact(&keys(&["foo"])).unwrap().is_none());
    assert!(doc.query_exists(&keys(&["foo"])));
    let feature = doc.query_pretty(&keys(&["foo"])).unwrap();
    assert_eq!(doc.extract(&feature), "foo:");
    assert_eq!(feature.kind(), FeatureKind::Scalar);
    assert!(feature.parent().is_none());

    // A bare key has the span of its mapping.
    assert!(doc.query_exact(&keys(&["bar", "baz"])).unwrap().is_none());
    assert_eq!(doc.extract(&doc.query_pretty(&keys(&["bar", "baz"])).unwrap()), "{ baz }");
    assert_eq!(doc.extract(&doc.query_key_only(&keys(&["bar", "baz"])).unwrap()), "baz");

    assert!(matches!(
        doc.query_exact(&keys(&["foo", "bar"])),
        Err(QueryError::Other(message)) if message == "absent value for key: foo"
    ));
}

#[test]
fn routes_that_lead_nowhere() {
    let doc = Document::new("map: {a: 1}\nlist: [x, y]\nscalar: s\n").unwrap();
    assert!(matches!(
        doc.query_exact(&keys(&["nope"])),
        Err(QueryError::ExhaustedMapping(key)) if key == "nope"
    ));
    assert!(matches!(
        doc.query_pretty(&keys(&["list", "a"])),
        Err(QueryError::ExpectedMapping(key)) if key == "a"
    ));
    assert!(matches!(
        doc.query_pretty(&keys(&["scalar", "a"])),
        Err(QueryError::ExpectedMapping(key)) if key == "a"
    ));
    assert!(matches!(
        doc.query_key_only(&keys(&["map"]).with_key(4)),
        Err(QueryError::ExpectedList(4))
    ));
    assert!(matches!(
        doc.query_key_only(&keys(&["scalar"]).with_key(0)),
        Err(QueryError::ExpectedList(0))
    ));
    assert!(matches!(
        doc.query_exact(&keys(&["list"]).with_key(2)),
        Err(QueryError::ExhaustedList(2, 2))
    ));
    assert!(!doc.query_exists(&keys(&["nope"])));
    assert!(!doc.query_exists(&keys(&["list"]).with_key(2)));
}

#[test]
fn a_route_goes_on_from_where_its_first_part_leads() {
    let doc = Document::new("a: &x {b: [1, 2]}\nc: *x\nd:\n").unwrap();
    // An alias leads where its anchor leads.
    for last in [0, 1] {
        let direct = exact(&doc, &keys(&["a", "b"]).with_key(last));
        let aliased = exact(&doc, &keys(&["c", "b"]).with_key(last));
        assert_eq!(direct.location.byte_span, aliased.location.byte_span);
    }
    // Where the first part leads nowhere, the reason stays.
    assert!(matches!(
        doc.query_exact(&keys(&["nope", "b"]).with_key(0)),
        Err(QueryError::ExhaustedMapping(key)) if key == "nope"
    ));
    assert!(matches!(
        doc.query_exact(&keys(&["a"]).with_key(3).with_key("b")),
        Err(QueryError::ExpectedList(3))
    ));
    assert!(matches!(
        doc.query_exact(&keys(&["d"]).with_key(3)),
        Err(QueryError::Other(message)) if message == "absent value for key: d"
    ));
}

#[test]
fn where_a_route_leads_so_does_its_parent() {
    let doc = Document::new("a: [{b: 1}, &x {c: 2}, *x]\n").unwrap();
    for route in [
        keys(&["a"]).with_key(0).with_key("b"),
        keys(&["a"]).with_key(1).with_key("c"),
        keys(&["a"]).with_key(2).with_key("c"),
    ] {
        let mut current = route;
        assert!(doc.query_exists(&current));
        while let Some(parent) = current.parent() {
            assert!(doc.query_exists(&parent));
            current = parent;
        }
        assert!(current.is_empty());
    }
}

#[test]
fn the_empty_route_is_the_top_feature() {
    for source in ["foo: bar", "[a, b]", "scalar", "", "# only", "---\n- a\n"] {
        let doc = Document::new(source).unwrap();
        let top = doc.top_feature().unwrap();
        let empty = exact(&doc, &Route::default());
        assert_eq!(top.location.byte_span, empty.location.byte_span);
        assert_eq!(top.kind(), empty.kind());
        assert!(top.context.is_none() && empty.context.is_none());
        assert!(top.parent().is_none());
    }
}

#[test]
fn documents_behind_markers_and_directives() {
    let doc = Document::new("%YAML 1.2\n---\n# comment\nfoo: 1\n").unwrap();
    assert_eq!(doc.extract(&exact(&doc, &keys(&["foo"]))), "1");
    let doc = Document::new("a: 1\n---\nb: 2\n").unwrap();
    assert!(doc.query_exists(&keys(&["a"])));
    assert!(!doc.query_exists(&keys(&["b"])));
}

#[test]
fn a_later_key_replaces_an_earlier_one() {
    let doc = Document::new("a: 1\na: 2\n").unwrap();
    assert_eq!(doc.extract(&exact(&doc, &keys(&["a"]))), "2");
}

#[test]
fn pairs_that_stand_alone_are_mappings() {
    let doc = Document::new("[1, key: value]").unwrap();
    let item = exact(&doc, &Route::default().with_key(1));
    assert_eq!(item.kind(), FeatureKind::Mapping);
    assert_eq!(doc.extract(&item), "key: value");
    assert_eq!(doc.extract(&exact(&doc, &Route::default().with_key(1).with_key("key"))), "value");
}

#[test]
fn comments_are_no_items() {
    let doc = Document::new("# a\n- x\n# b\n-\n  # c\n  y\n").unwrap();
    assert_eq!(doc.extract(&exact(&doc, &Route::default().with_key(0))), "x");
    assert_eq!(doc.extract(&exact(&doc, &Route::default().with_key(1))), "y");
    assert!(matches!(
        doc.query_exact(&Route::default().with_key(2)),
        Err(QueryError::ExhaustedList(2, 2))
    ));
}

#[test]
fn parents_lead_to_the_top() {
    let doc = Document::new("a:\n  - {b: c}\n").unwrap();
    let feature = exact(&doc, &keys(&["a"]).with_key(0).with_key("b"));
    let mapping = feature.parent().unwrap();
    assert_eq!(doc.extract(&mapping), "{b: c}");
    assert_eq!(mapping.kind(), FeatureKind::Mapping);
    let sequence = mapping.parent().unwrap();
    assert_eq!(sequence.kind(), FeatureKind::Sequence);
    let top = sequence.parent().unwrap();
    assert_eq!(top.location.byte_span, doc.top_feature().unwrap().location.byte_span);
    assert!(top.parent().is_none());
    assert!(mapping.location.byte_span.0 <= feature.location.byte_span.0);
    assert!(feature.location.byte_span.1 <= mapping.location.byte_span.1);

    let key = doc.query_key_only(&keys(&["a"])).unwrap();
    assert_eq!(key.parent().unwrap().location.byte_span, top.location.byte_span);
}

#[test]
fn kinds_say_how_routes_go_on() {
    let doc = Document::new("m: {a: 1}\ns: [x]\nv: 3\n").unwrap();
    for (key, kind) in [
        ("m", FeatureKind::Mapping),
        ("s", FeatureKind::Sequence),
        ("v", FeatureKind::Scalar),
    ] {
        let route = keys(&[key]);
        assert_eq!(exact(&doc, &route).kind(), kind);
        let by_key = doc.query_exact(&route.with_key("zzz"));
        assert_eq!(
            matches!(by_key, Err(QueryError::ExpectedMapping(_))),
            kind != FeatureKind::Mapping
        );
        let by_index = doc.query_exact(&route.with_key(9));
        assert_eq!(
            matches!(by_index, Err(QueryError::ExpectedList(9))),
            kind != FeatureKind::Sequence
        );
    }
}

#[test]
fn aliases_keep_their_span_in_pretty_mode() {
    let doc = Document::new("a: &x [1, 2]\nb: *x\n").unwrap();
    let pretty = doc.query_pretty(&keys(&["b"])).unwrap();
    assert_eq!(doc.extract(&pretty), "b: *x");
    assert_eq!(pretty.kind(), FeatureKind::Sequence);
    assert_eq!(doc.extract(&exact(&doc, &keys(&["b"]))), "[1, 2]");
    assert_eq!(doc.extract(&exact(&doc, &keys(&["b"]).with_key(1))), "2");
}

#[test]
fn aliases_stand_for_the_content_of_their_anchor() {
    let doc = Document::new(
        "a: &x\n  # comment\n  k: v\nb: &y [1, &x 2, 3]\nc: [*x, *y]\nd: &x {k: w}\ne: *x\n",
    )
    .unwrap();
    let c = keys(&["c"]);
    assert_eq!(doc.extract(&exact(&doc, &c.with_key(0))), "2");
    assert_eq!(doc.extract(&exact(&doc, &c.with_key(1))), "[1, &x 2, 3]");
    assert_eq!(doc.extract(&exact(&doc, &keys(&["e"]))), "{k: w}");
    assert_eq!(doc.extract(&exact(&doc, &keys(&["e", "k"]))), "w");
}

#[test]
fn an_alias_of_a_tagged_value() {
    for source in ["a: &x !!str v\nb: *x\n", "a: !!str &x v\nb: *x\n"] {
        let doc = Document::new(source).unwrap();
        assert_eq!(doc.extract(&exact(&doc, &keys(&["b"]))), "v");
        assert_eq!(doc.extract(&exact(&doc, &keys(&["a"]))), "v");
    }
    // Nothing but the tag stands beside the anchor.
    let doc = Document::new("a: &x !!null\nb: *x\n").unwrap();
    assert_eq!(doc.extract(&exact(&doc, &keys(&["b"]))), "!!null");
}

#[test]
fn tags_are_no_values() {
    let doc = Document::new("foo: !!seq [a, b]").unwrap();
    let feature = exact(&doc, &keys(&["foo"]));
    assert_eq!(feature.kind(), FeatureKind::Sequence);
    assert_eq!(doc.extract(&feature), "[a, b]");
    assert_eq!(doc.extract(&exact(&doc, &keys(&["foo"]).with_key(1))), "b");
    let pretty = doc.query_pretty(&keys(&["foo"])).unwrap();
    assert_eq!(doc.extract(&pretty), "foo: !!seq [a, b]");

    let doc = Document::new("foo: !!map\n  a: !!str b\n  c: !!set {d: !!null}\n").unwrap();
    assert_eq!(exact(&doc, &keys(&["foo"])).kind(), FeatureKind::Mapping);
    assert_eq!(doc.extract(&exact(&doc, &keys(&["foo", "a"]))), "b");
    assert_eq!(exact(&doc, &keys(&["foo", "c"])).kind(), FeatureKind::Mapping);
    // A tag that stands alone is what there is.
    let tag = exact(&doc, &keys(&["foo", "c", "d"]));
    assert_eq!(tag.kind(), FeatureKind::Scalar);
    assert_eq!(doc.extract(&tag), "!!null");

    let doc = Document::new("- !!str x\n- !t # comment\n  k: v").unwrap();
    assert_eq!(doc.extract(&exact(&doc, &route(vec![Component::from(0)]))), "x");
    assert_eq!(doc.extract(&exact(&doc, &route(vec![Component::from(1)]))), "k: v");

    let doc = Document::new("!!map {a: b}").unwrap();
    assert_eq!(doc.top_feature().unwrap().kind(), FeatureKind::Mapping);
}

#[test]
fn keys_with_tags_and_anchors() {
    for source in ["!!str foo: bar", "&a foo: bar", "&a !!str foo: bar", "!!str &a 'foo': bar"] {
        let doc = Document::new(source).unwrap();
        assert_eq!(doc.extract(&exact(&doc, &keys(&["foo"]))), "bar", "{source}");
        assert!(!doc.query_exists(&keys(&["!!str"])));
    }
    let doc = Document::new("{!!str foo: bar, &a baz}").unwrap();
    assert_eq!(doc.extract(&doc.query_key_only(&keys(&["foo"])).unwrap()), "foo");
    assert!(doc.query_exact(&keys(&["baz"])).unwrap().is_none());
}

#[test]
fn an_alias_inside_its_own_anchor() {
    assert!(matches!(
        Document::new("&a [*a]"),
        Err(QueryError::Other(message)) if message == "anchor content not yet built for alias: a"
    ));
    assert!(matches!(
        Document::new("foo: &x\n  bar: *x"),
        Err(QueryError::Other(message)) if message == "anchor content not yet built for alias: x"
    ));
    // A key inside can be referenced, though it begins where the mapping begins.
    let doc = Document::new("foo: &x\n  &y bar: *y").unwrap();
    assert_eq!(doc.extract(&exact(&doc, &keys(&["foo", "bar"]))), "bar");
    // An empty node in front does not take the place of the content.
    let doc = Document::new("a: &x [{}, 1]\nb: *x").unwrap();
    assert_eq!(doc.extract(&exact(&doc, &keys(&["b"]))), "[{}, 1]");
}

#[test]
fn sources_that_are_refused() {
    assert!(matches!(Document::new("foo: [bar"), Err(QueryError::InvalidInput)));
    assert!(matches!(
        Document::new("foo: *x"),
        Err(QueryError::Other(message)) if message == "undefined alias: x"
    ));
    assert!(matches!(
        Document::new("x: *a\ny: &a 1"),
        Err(QueryError::Other(message)) if message == "undefined alias: a"
    ));
    assert!(matches!(
        Document::new("foo: &a # c\nbar: 1"),
        Err(QueryError::UnexpectedNode(node)) if node == "anchor has no non-comment sibling"
    ));
    assert!(matches!(
        Document::new(": foo"),
        Err(QueryError::MissingChildField(node, "key")) if node == "block_mapping_pair"
    ));
    assert!(matches!(
        Document::new("[: foo]"),
        Err(QueryError::MissingChildField(node, "key")) if node == "flow_pair"
    ));
}

#[test]
fn messages_of_errors() {
    let text = |text: &str| String::from(text);
    for (error, message) in [
        (QueryError::InvalidInput, "input is not valid YAML"),
        (
            QueryError::ExpectedMapping(text("foo")),
            "expected mapping containing key `foo`",
        ),
        (QueryError::ExpectedList(0), "expected list for index `[0]`"),
        (QueryError::ExpectedList(1905), "expected list for index `[1905]`"),
        (QueryError::ExhaustedMapping(text("é")), "mapping has no key `é`"),
        (
            QueryError::ExhaustedList(10, 9),
            "index `[10]` exceeds list size (9)",
        ),
        (QueryError::UnexpectedNode(text("x")), "unexpected node: `x`"),
        (
            QueryError::MissingChild(text("a"), text("b")),
            "syntax node `a` is missing named child `b`",
        ),
        (
            QueryError::MissingChildField(text("a"), "key"),
            "syntax node `a` is missing child field `key`",
        ),
        (QueryError::Other(text("oops")), "route error: oops"),
    ] {
        assert_eq!(error.message(), message);
    }
    assert_eq!(
        QueryError::ExpectedList(usize::MAX).message(),
        format!("expected list for index `[{}]`", usize::MAX)
    );
}

#[test]
fn leading_whitespace_is_spaces() {
    let doc = Document::new("a:\n  b:\n    - c\n  d: {e: f}\n").unwrap();
    let pretty = doc.query_pretty(&keys(&["a", "b"])).unwrap();
    assert_eq!(doc.extract_with_leading_whitespace(&pretty), "  b:\n    - c");
    let item = doc.query_pretty(&keys(&["a", "b"]).with_key(0)).unwrap();
    // Something else stands before the item on its line.
    assert_eq!(doc.extract_with_leading_whitespace(&item), "c");
    let inner = doc.query_pretty(&keys(&["a", "d", "e"])).unwrap();
    assert_eq!(doc.extract_with_leading_whitespace(&inner), "e: f");
    let top = doc.top_feature().unwrap();
    assert_eq!(doc.extract_with_leading_whitespace(&top), doc.extract(&top));

    // The first line is indented like any other.
    let doc = Document::new("  foo: bar").unwrap();
    let first = doc.query_pretty(&keys(&["foo"])).unwrap();
    assert_eq!(doc.extract_with_leading_whitespace(&first), "  foo: bar");
    let value = exact(&doc, &keys(&["foo"]));
    assert_eq!(doc.extract_with_leading_whitespace(&value), "bar");
    let doc = Document::new("foo: bar").unwrap();
    let first = doc.query_pretty(&keys(&["foo"])).unwrap();
    assert_eq!(doc.extract_with_leading_whitespace(&first), "foo: bar");
    // A newline directly before the feature leaves nothing to add.
    let doc = Document::new("\na: 1").unwrap();
    let first = doc.query_pretty(&keys(&["a"])).unwrap();
    assert_eq!(doc.extract_with_leading_whitespace(&first), "a: 1");
}

#[test]
fn text_beyond_ascii() {
    let doc = Document::new("é: ü # ñ\n\"ключ\":\n  - \"знач\"\n").unwrap();
    assert_eq!(doc.extract(&exact(&doc, &keys(&["é"]))), "ü");
    let item = exact(&doc, &keys(&["ключ"]).with_key(0));
    assert_eq!(doc.extract(&item), "\"знач\"");
    let comments = doc.feature_comments(&doc.query_pretty(&keys(&["é"])).unwrap());
    assert_eq!(comments.len(), 1);
    assert_eq!(doc.extract(&comments[0]), "# ñ");
}

#[test]
fn multiline_features() {
    let doc = Document::new("a: |\n  x\n  y\nb: 1\n").unwrap();
    assert!(doc.query_pretty(&keys(&["a"])).unwrap().is_multiline());
    assert!(!doc.query_pretty(&keys(&["b"])).unwrap().is_multiline());
    let location = doc.query_pretty(&keys(&["b"])).unwrap().location;
    assert_eq!(location.byte_span, (13, 17));
    assert_eq!(location.point_span, ((3, 0), (3, 4)));
}

#[test]
fn clones_give_the_same_answers() {
    let doc = Document::new("a: &x [1, 2] # one\nb: *x\n").unwrap();
    let copy = doc.clone();
    assert_eq!(copy.source(), doc.source());
    assert_eq!(copy.has_anchors(), doc.has_anchors());
    for route in [keys(&["a"]), keys(&["b"]), keys(&["b"]).with_key(1)] {
        assert_eq!(copy.extract(&exact(&copy, &route)), doc.extract(&exact(&doc, &route)));
    }
    assert!(copy.offset_inside_comment(15));
}

#[test]
fn sources_are_kept() {
    for source in ["foo: bar", "", "é: [1]\n\n"] {
        assert_eq!(Document::new(source).unwrap().source(), source);
        assert_eq!(Document::new(String::from(source)).unwrap().source(), source);
    }
}

#[test]
fn lines_are_indexed() {
    let doc = Document::new("a: 1\nb: 2\n").unwrap();
    let position = doc.line_index().line_col(6.into());
    assert_eq!((position.line, position.col), (1, 1));
}
