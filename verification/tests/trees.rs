use yamlpath::anchors::{AnchorMap, AnchoredTree, SourceTree};
use yamlpath::builder::{build_node, CstBuilder};
use yamlpath::comments::trawl;
use yamlpath::cst::{NodeId, YamlNodeKind};
use yamlpath::document::read_source;
use yamlpath::location::{Point, SpanInfo};
use yamlpath::maps::{PositionMap, TextMap};
use yamlpath::syntax::{Skip, SyntaxNode, SyntaxTree};
use yamlpath::text::{same_text, slice};
use yamlpath::treesitter::{resolve_nodes, RawNode};
use yamlpath::{Document, Location, QueryError};

const SOURCES: [&str; 15] = [
    "",
    "# only a comment\n",
    "foo: bar\nbaz: [1, {a: b}, 'q']\n",
    "- &a x # one\n- *a\n-\n  # two\n  y: |\n    text\n    more\n",
    "%YAML 1.2\n%TAG ! tag:example.com,2000:\n---\nfoo: !!str bar\n...\n---\nsecond\n",
    "\n\n  é: \"ключ\" # ñ\n",
    "? [a, b]\n: c\n",
    "top: { &x \"foo\": bar, nested: *x, bare }\n",
    "a:\n  - - 1\n    - 2\n  -\n    k: >-\n      folded\n      text\n",
    "\t# tab comment\nfoo: 1\t# end\n",
    "a: &a\n  k: !!int 1\nb:\n  <<: *a\n",
    "'single': \"double\"\n\"d\": 'it''s'\nplain text: more text\n",
    "x: 2024-01-01\ny: 0x1f\nz: ~\nw: !!binary |\n  R0lGODlh\n",
    "key:    # comment after key\n\n  value   # comment after value\n\n# end",
    "\u{feff}a: é # c\r\nb: |\r\n  x\r\n\r\n# d\rc: 1\r\n",
];

fn children(tree: &SyntaxTree, i: usize) -> Vec<usize> {
    let end = i + tree.nodes[i].size;
    let mut child = i + 1;
    let mut children = vec![];
    while child < end {
        children.push(child);
        child += tree.nodes[child].size;
    }
    children
}

#[test]
fn parsed_nodes_are_nested() {
    for source in SOURCES {
        let doc = Document::new(source).unwrap();
        let nodes = &doc.tree().syntax.nodes;
        assert!(!nodes.is_empty());
        assert_eq!(nodes[0].kind, "stream");
        assert_eq!(nodes[0].size, nodes.len());
        for (i, node) in nodes.iter().enumerate() {
            let end = i + node.size;
            assert!(node.size >= 1 && end <= nodes.len());
            for inner in &nodes[i + 1..end] {
                assert!(node.span.start_byte <= inner.span.start_byte);
                assert!(inner.span.end_byte <= node.span.end_byte);
                assert!(node.span.start_point.row <= inner.span.start_point.row);
                assert!(inner.span.end_point.row <= node.span.end_point.row);
            }
            for (j, inner) in nodes.iter().enumerate().take(end).skip(i + 1) {
                assert!(j + inner.size <= end);
            }
            for later in &nodes[end..] {
                assert!(node.span.end_byte <= later.span.start_byte);
            }
            let children = children(&doc.tree().syntax, i);
            for field in [node.key, node.value].into_iter().flatten() {
                assert!(children.contains(&field));
            }
        }
    }
}

#[test]
fn parsed_spans_are_slices() {
    for source in SOURCES {
        let doc = Document::new(source).unwrap();
        for node in &doc.tree().syntax.nodes {
            let span = node.span;
            for (byte, point) in
                [(span.start_byte, span.start_point), (span.end_byte, span.end_point)]
            {
                let before = &source[..byte];
                assert_eq!(point.row, before.matches('\n').count());
                assert_eq!(point.column, byte - before.rfind('\n').map_or(0, |i| i + 1));
            }
            let text = source.get(span.start_byte..span.end_byte).unwrap();
            match node.kind.as_str() {
                "anchor" => assert!(text.starts_with('&')),
                "alias" => assert!(text.starts_with('*')),
                "comment" => {
                    assert!(text.starts_with('#') && node.named && node.size == 1);
                    assert!(!text.contains(['\n', '\r']));
                }
                _ => {}
            }
        }
    }
}

#[test]
fn anchors_stand_for_the_values_beside_them() {
    let doc = Document::new(
        "- &a !!str x\n- !!map &b {k: v}\n- &c\n  # comment\n  k: v\n- &d !!null\n",
    )
    .unwrap();
    let tree = doc.tree();
    let end = doc.source().len();
    let text = |name: &str| {
        let node = &tree.syntax.nodes[tree.anchors.at(name, end).unwrap()];
        &doc.source()[node.span.start_byte..node.span.end_byte]
    };
    assert_eq!(text("a"), "x");
    assert_eq!(text("b"), "{k: v}");
    assert_eq!(text("c"), "k: v");
    assert_eq!(text("d"), "!!null");
    assert_eq!(tree.anchors.at("e", end), None);
}

#[test]
fn preferred_children() {
    let syntax = SyntaxTree {
        nodes: vec![
            node("flow_node", 4, 0, 8),
            node("tag", 1, 0, 2),
            node("comment", 1, 3, 5),
            node("plain_scalar", 1, 6, 8),
        ],
    };
    assert_eq!(syntax.preferred_child(0, Skip::NonValue, Skip::NonContent), Some(3));
    assert_eq!(syntax.first_named_child(0, Skip::NonContent), Some(1));
    assert_eq!(syntax.first_named_child(0, Skip::Properties), Some(3));
    let syntax = SyntaxTree {
        nodes: vec![node("flow_node", 2, 0, 2), node("tag", 1, 0, 2)],
    };
    assert_eq!(syntax.preferred_child(0, Skip::NonValue, Skip::NonContent), Some(1));
    assert_eq!(syntax.preferred_child(0, Skip::Properties, Skip::Properties), None);
}

#[test]
fn parsed_pairs_have_their_fields() {
    let doc = Document::new("foo: bar\nbaz:\n").unwrap();
    let nodes = &doc.tree().syntax.nodes;
    let pairs: Vec<&SyntaxNode> =
        nodes.iter().filter(|node| node.kind == "block_mapping_pair").collect();
    assert_eq!(pairs.len(), 2);
    let text = |i: usize| &doc.source()[nodes[i].span.start_byte..nodes[i].span.end_byte];
    assert_eq!(text(pairs[0].key.unwrap()), "foo");
    assert_eq!(text(pairs[0].value.unwrap()), "bar");
    assert_eq!(text(pairs[1].key.unwrap()), "baz");
    assert!(pairs[1].value.is_none());
}

#[test]
fn comments_share_the_number_of_their_kind() {
    let doc = Document::new("a: 1 # one\n# two\nb: 2\n").unwrap();
    let nodes = &doc.tree().syntax.nodes;
    let comment = nodes.iter().find(|node| node.kind == "comment").unwrap();
    for node in nodes {
        assert_eq!(node.kind_id == comment.kind_id, node.kind == "comment");
        if node.kind == "comment" {
            assert!(node.span.start_byte < node.span.end_byte);
        }
    }
}

fn span(start: usize, end: usize) -> SpanInfo {
    SpanInfo {
        start_byte: start,
        end_byte: end,
        start_point: Point { row: 0, column: start },
        end_point: Point { row: 0, column: end },
    }
}

fn node(kind: &str, size: usize, start: usize, end: usize) -> SyntaxNode {
    SyntaxNode {
        kind: String::from(kind),
        kind_id: if kind == "comment" { 7 } else { 1 },
        named: true,
        size,
        span: span(start, end),
        key: None,
        value: None,
    }
}

#[test]
fn ids_become_positions() {
    let raw = |id, size, key, value| RawNode {
        id,
        kind: format!("kind{id}"),
        kind_id: 5,
        named: id != 40,
        size,
        start_byte: 1,
        end_byte: 2,
        start_row: 3,
        start_column: 4,
        end_row: 5,
        end_column: 6,
        key,
        value,
    };
    let syntax = resolve_nodes(vec![
        raw(10, 4, Some(20), Some(30)),
        raw(20, 1, None, None),
        raw(40, 1, None, None),
        raw(30, 1, None, None),
    ]);
    assert_eq!(syntax.nodes.len(), 4);
    assert_eq!((syntax.nodes[0].key, syntax.nodes[0].value), (Some(1), Some(3)));
    assert_eq!((syntax.nodes[1].key, syntax.nodes[1].value), (None, None));
    assert_eq!(syntax.nodes[3].kind, "kind30");
    assert!(syntax.nodes[1].named && !syntax.nodes[2].named);
    assert_eq!(syntax.nodes[0].size, 4);
    assert_eq!(syntax.nodes[0].kind_id, 5);
    let span = syntax.nodes[0].span;
    assert_eq!((span.start_byte, span.end_byte), (1, 2));
    assert_eq!((span.start_point.row, span.start_point.column), (3, 4));
    assert_eq!((span.end_point.row, span.end_point.column), (5, 6));
}

#[test]
fn children_and_parents() {
    let tree = SyntaxTree {
        nodes: vec![
            node("block_node", 5, 0, 9),
            node("comment", 1, 0, 2),
            node("anchor", 1, 3, 5),
            node("block_mapping", 2, 6, 9),
            node("plain", 1, 6, 9),
        ],
    };
    assert_eq!(tree.first_named_child(0, Skip::Comments), Some(2));
    assert_eq!(tree.first_named_child(0, Skip::Anchors), Some(1));
    assert_eq!(tree.first_named_child(0, Skip::AnchorsAndComments), Some(3));
    assert_eq!(tree.first_named_child(0, Skip::NonContent), Some(2));
    assert_eq!(tree.first_named_child(4, Skip::Comments), None);
    assert_eq!(tree.parent(0), None);
    assert_eq!(tree.parent(3), Some(0));
    assert_eq!(tree.parent(4), Some(3));
    assert!(tree.is_kind(3, "block_mapping") && !tree.is_kind(3, "block_mappin"));
    assert!(Skip::NonContent.skips_kind("tag_directive") && !Skip::NonContent.skips_kind("tag"));
}

#[test]
fn a_source_with_an_error_is_refused() {
    assert!(matches!(
        read_source(String::from("foo: [bar"), None),
        Err(QueryError::InvalidInput)
    ));
}

#[test]
fn an_anchor_without_a_parent_is_refused() {
    let inner = SourceTree {
        source: String::from("&a"),
        syntax: SyntaxTree { nodes: vec![node("anchor", 1, 0, 2)] },
    };
    assert!(matches!(
        AnchoredTree::build(inner),
        Err(QueryError::UnexpectedNode(message)) if message == "anchor node has no parent"
    ));
}

#[test]
fn a_tree_of_plain_nodes_is_read() {
    // [x, *a] with an anchor on the first item.
    let syntax = SyntaxTree {
        nodes: vec![
            node("flow_sequence", 6, 0, 10),
            node("flow_node", 3, 1, 5),
            node("anchor", 1, 1, 3),
            node("plain_scalar", 1, 4, 5),
            node("flow_node", 2, 7, 9),
            node("alias", 1, 7, 9),
        ],
    };
    let (tree, cst) = read_source(String::from("[&a x, *a]"), Some(syntax)).unwrap();
    assert_eq!(tree.anchors.len(), 1);
    assert_eq!(tree.anchors.at("a", 7), Some(3));
    assert_eq!(tree.anchors.at("a", 1), None);
    assert_eq!(tree.anchors.at("b", 7), None);
    assert_eq!(cst.root_id, NodeId(0));
    assert_eq!(cst.nodes.len(), 3);
    match &cst.nodes[0].kind {
        YamlNodeKind::Sequence(sequence) => {
            assert_eq!(sequence.item_ids, [NodeId(1), NodeId(2)]);
            assert_eq!(sequence.exact_span.end_byte, 10);
        }
        other => panic!("{other:?}"),
    }
    match &cst.nodes[2].kind {
        YamlNodeKind::Alias(alias) => assert_eq!(alias.target_id, NodeId(1)),
        other => panic!("{other:?}"),
    }
    assert_eq!(cst.nodes[0].parent_id, None);
    assert_eq!(cst.nodes[1].parent_id, Some(NodeId(0)));
    assert_eq!(cst.nodes[2].parent_id, Some(NodeId(0)));
}

#[test]
fn builders_reserve_and_place_nodes() {
    let tree = AnchoredTree::build(SourceTree {
        source: String::from("ab"),
        syntax: SyntaxTree { nodes: vec![node("block_scalar", 1, 0, 2)] },
    })
    .unwrap();
    let mut builder = CstBuilder::new();
    assert_eq!(builder.built_from(0), None);
    assert_eq!(build_node(&mut builder, &tree, 0, None).unwrap(), NodeId(0));
    assert_eq!(builder.built_from(0), Some(NodeId(0)));
    assert_eq!(builder.alloc_id(), NodeId(1));
    let store = builder.finish(NodeId(0));
    assert_eq!(store.nodes.len(), 2);
    match &store.nodes[0].kind {
        YamlNodeKind::Scalar(scalar) => {
            assert_eq!(scalar.exact_span.end_byte, 2);
            assert_eq!(scalar.pretty_span.unwrap().end_byte, 2);
        }
        other => panic!("{other:?}"),
    }
}

#[test]
fn trawling_passes_over_other_rows() {
    let at = |mut node: SyntaxNode, first: usize, last: usize| {
        node.span.start_point.row = first;
        node.span.end_point.row = last;
        node
    };
    let tree = SyntaxTree {
        nodes: vec![
            at(node("stream", 5, 0, 9), 0, 3),
            at(node("block", 2, 0, 4), 0, 1),
            at(node("comment", 1, 2, 4), 1, 1),
            at(node("comment", 1, 5, 6), 2, 2),
            at(node("comment", 1, 7, 9), 3, 3),
        ],
    };
    assert_eq!(trawl(&tree, 0, 7, 0, 3), [3, 4, 2]);
    assert_eq!(trawl(&tree, 0, 7, 1, 2), [3, 2]);
    assert_eq!(trawl(&tree, 0, 7, 2, 2), [3]);
    assert!(trawl(&tree, 0, 7, 4, 9).is_empty());
    assert!(trawl(&tree, 0, 8, 0, 3).is_empty());
}

#[test]
fn maps_keep_the_last_value() {
    let mut map: TextMap<u32> = TextMap::new();
    assert!(map.is_empty());
    assert_eq!(map.insert(String::from("a"), 1), None);
    assert_eq!(map.insert(String::from("b"), 2), None);
    assert_eq!(map.insert(String::from("a"), 3), Some(1));
    assert_eq!((map.len(), map.get("a"), map.get("b"), map.get("c")), (2, Some(&3), Some(&2), None));

    // Keys with the same hash, and many keys.
    let mut map: TextMap<usize> = TextMap::new();
    for (i, key) in ["Aa", "BB", "AaAa", "BBBB", "AaBB", "BBAa"].into_iter().enumerate() {
        assert_eq!(map.insert(String::from(key), i), None);
    }
    for i in 0..20_000 {
        assert_eq!(map.insert(format!("key{i}"), i), None);
    }
    assert_eq!(map.insert(String::from("BBBB"), 7), Some(3));
    assert_eq!((map.get("Aa"), map.get("BB"), map.get("AaAa")), (Some(&0), Some(&1), Some(&2)));
    assert_eq!((map.get("BBBB"), map.get("AaBB"), map.get("BBAa")), (Some(&7), Some(&4), Some(&5)));
    assert_eq!((map.get("key19999"), map.get("key20000"), map.get("Bb")), (Some(&19_999), None, None));
    assert_eq!(map.len(), 20_006);

    let mut positions = PositionMap::new();
    for (position, node) in [(5, 50), (1, 10), (9, 90), (5, 55)] {
        positions.insert(position, node);
    }
    assert_eq!(positions.len(), 3);
    assert_eq!(positions.last_before(1), None);
    assert_eq!(positions.last_before(5), Some(10));
    assert_eq!(positions.last_before(6), Some(55));
    assert_eq!(positions.last_before(usize::MAX), Some(90));

    let mut anchors = AnchorMap::new();
    anchors.insert(String::from("x"), 4, 1);
    anchors.insert(String::from("x"), 8, 2);
    assert_eq!((anchors.len(), anchors.get("x").unwrap().len()), (1, 2));
    assert_eq!((anchors.at("x", 4), anchors.at("x", 8), anchors.at("x", 9)), (None, Some(1), Some(2)));
    assert!(!anchors.is_empty() && anchors.get("y").is_none());
}

#[test]
fn slices_and_equal_texts() {
    assert_eq!(slice("aéb", 1, 3), "é");
    assert_eq!(slice("aéb", 0, 4), "aéb");
    assert_eq!(slice("aéb", 4, 4), "");
    assert!(same_text("é", "é") && !same_text("é", "e") && !same_text("a", "ab"));
    let location = Location::from_span(&span(2, 5));
    assert_eq!(location.byte_span, (2, 5));
    assert_eq!(location.point_span, ((0, 2), (0, 5)));
}
