use yamlpath::document::is_comment_kind;
use yamlpath::{Component, Document, Route};

fn comments_of<'doc>(doc: &'doc Document, route: &Route) -> Vec<&'doc str> {
    let feature = doc.query_pretty(route).unwrap();
    doc.feature_comments(&feature).iter().map(|comment| doc.extract(comment)).collect()
}

#[test]
fn all_comments_in_the_rows_of_a_feature() {
    let doc = Document::new("# top\na: # one\n  - x # two\n  # three\n  - y\nb: 1 # four\n").unwrap();
    assert_eq!(
        comments_of(&doc, &Route::default()),
        // Those among the children of a node come before those further inside.
        ["# four", "# one", "# two", "# three"]
    );
    let a = Route::from(vec![Component::from("a")]);
    assert_eq!(comments_of(&doc, &a), ["# one", "# two", "# three"]);
    assert_eq!(comments_of(&doc, &a.with_key(0)), ["# two"]);
    assert!(comments_of(&doc, &a.with_key(1)).is_empty());
    let b = Route::from(vec![Component::from("b")]);
    assert_eq!(comments_of(&doc, &b), ["# four"]);
}

#[test]
fn every_comment_in_the_rows_is_found_once() {
    let source = "a: # 1\n  b: [ # 2\n    x, # 3\n    {y: z} # 4\n  ] # 5\n# 6\nc: |\n  # text\n  more # text\n# 7\n";
    let doc = Document::new(source).unwrap();
    for route in [
        Route::default(),
        Route::from(vec![Component::from("a")]),
        Route::from(vec![Component::from("a"), Component::from("b")]),
        Route::from(vec![Component::from("a"), Component::from("b"), Component::from(1)]),
        Route::from(vec![Component::from("c")]),
    ] {
        let feature = doc.query_pretty(&route).unwrap();
        let ((first, _), (last, _)) = feature.location.point_span;
        let mut expected: Vec<(usize, usize)> = doc
            .tree()
            .syntax
            .nodes
            .iter()
            .filter(|node| {
                node.kind == "comment"
                    && first <= node.span.start_point.row
                    && node.span.end_point.row <= last
            })
            .map(|node| (node.span.start_byte, node.span.end_byte))
            .collect();
        let mut found: Vec<(usize, usize)> = doc
            .feature_comments(&feature)
            .iter()
            .map(|comment| comment.location.byte_span)
            .collect();
        expected.sort();
        found.sort();
        assert_eq!(found, expected);
    }
}

#[test]
fn comments_have_no_node() {
    let doc = Document::new("a: 1 # one\n").unwrap();
    let comments = doc.feature_comments(&doc.top_feature().unwrap());
    assert_eq!(comments.len(), 1);
    assert!(comments[0].node_id.is_none());
    assert!(comments[0].context.is_none());
    assert!(comments[0].parent().is_none());
    assert_eq!(comments[0].location.byte_span, (5, 10));
}

#[test]
fn ranges_in_and_around_a_comment() {
    let doc = Document::new("a: 1 # one\nb: 2\n").unwrap();
    for start in 0..20 {
        for end in 0..20 {
            let inside = 5 <= start && start <= end && end <= 10 && start < 10;
            assert_eq!(doc.range_spanned_by_comment(start, end), inside, "{start}..{end}");
        }
        assert_eq!(
            doc.offset_inside_comment(start),
            doc.range_spanned_by_comment(start, start)
        );
    }
}

#[test]
fn ranges_beyond_the_source() {
    let doc = Document::new("a: 1 # one\n").unwrap();
    assert!(doc.range_spanned_by_comment(6, 7));
    assert!(!doc.range_spanned_by_comment(6, 1000));
    assert!(!doc.range_spanned_by_comment(usize::MAX, usize::MAX));
    if let Some(wrapped) = (u32::MAX as usize).checked_add(7) {
        assert!(!doc.range_spanned_by_comment(wrapped, wrapped));
        assert!(!doc.range_spanned_by_comment(6, wrapped + 1));
    }
}

#[test]
fn kinds_of_comments() {
    assert!(is_comment_kind(Some(3), 3));
    assert!(!is_comment_kind(Some(4), 3));
    assert!(!is_comment_kind(None, 3));
}

#[test]
fn anchors_are_there_or_not() {
    assert!(!Document::new("a: 1\n# &b\n").unwrap().has_anchors());
    assert!(!Document::new("a: '&b'").unwrap().has_anchors());
    assert!(Document::new("a: &b 1").unwrap().has_anchors());
}
