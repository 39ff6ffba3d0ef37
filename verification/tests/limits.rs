use yamlpath::limits::can_be_read;
use yamlpath::{Document, FeatureKind};

/// A mapping and a sequence that begin at every column before `columns`.
fn staircase(columns: usize) -> String {
    let mut source = String::new();
    for column in 0..columns {
        let indent = " ".repeat(column);
        source.push_str(&format!("{indent}k:\n{indent}-\n"));
    }
    source
}

#[test]
fn ordinary_sources_can_be_read() {
    for source in ["", "foo: bar\n", "\u{feff}- a\n- - b\n", "-----\n", "? a\n: b\n"] {
        assert!(can_be_read(source), "{source:?}");
    }
    // Only the columns at which something can begin count.
    assert!(can_be_read(&format!("{}a", " ".repeat(120))));
    assert!(can_be_read(&format!("{}a", " ".repeat(100_000))));
    assert!(can_be_read(&"\t".repeat(1000)));
    assert!(can_be_read(&"x - ".repeat(10_000)));
    assert!(can_be_read(&"-".repeat(10_000)));
    assert!(can_be_read(&"                    - a\n".repeat(10_000)));
}

#[test]
fn sources_with_too_many_levels() {
    assert!(can_be_read(&format!("{}a", "- ".repeat(125))));
    assert!(!can_be_read(&format!("{}a", "- ".repeat(126))));
    assert!(!can_be_read(&format!("{}a", "- ".repeat(254))));
    assert!(can_be_read(&staircase(126)));
    assert!(!can_be_read(&staircase(127)));
    for opener in ["- ", "? ", ": ", "-\t", " -\n", "-\0"] {
        let enough = opener.contains('\n') || opener.contains('\0');
        assert_eq!(can_be_read(&format!("a: b\r{}a", opener.repeat(126))), enough, "{opener:?}");
        let marked = format!("\u{feff}{}a", opener.repeat(126));
        assert_eq!(can_be_read(&marked), enough, "{opener:?}");
    }
    // Anything else ends the run of openers.
    assert!(can_be_read(&format!("{}a {}", "- ".repeat(120), "- ".repeat(60))));
}

#[test]
fn openers_far_apart() {
    assert!(can_be_read(&format!("-{}a", " ".repeat(32_766))));
    assert!(!can_be_read(&format!("-{}a", " ".repeat(32_767))));
    assert!(!can_be_read(&format!("{}- - a", " ".repeat(32_766))));
    assert!(can_be_read(&format!("{}- a", " ".repeat(32_765))));
}

#[test]
fn many_lines_may_begin_at_fewer_columns() {
    let lines = "a\n".repeat(40_000);
    assert!(can_be_read(&lines));
    assert!(can_be_read(&format!("{lines}{}a", "- ".repeat(61))));
    assert!(!can_be_read(&format!("{lines}{}a", "- ".repeat(62))));
    let lines = "\n".repeat(32_767);
    assert!(can_be_read(&format!("{lines}{}a", "- ".repeat(125))));
    assert!(!can_be_read(&format!("{lines}\n{}a", "- ".repeat(125))));
    let lines = "\n".repeat(65_535);
    assert!(can_be_read(&format!("{lines}{}a", "- ".repeat(40))));
    assert!(!can_be_read(&format!("{lines}{}a", "- ".repeat(41))));
}

#[test]
fn the_deepest_sources_are_read() {
    // A block scalar begins at a column of its own.
    let with_scalar = |column: usize| {
        let indent = " ".repeat(column);
        format!("{}{indent}k:\n{indent}- |\n{indent}  v", staircase(column))
    };
    assert!(!can_be_read(&with_scalar(125)));
    let source = with_scalar(124);
    assert!(can_be_read(&source));
    let doc = Document::new(source).unwrap();
    assert_eq!(doc.top_feature().unwrap().kind(), FeatureKind::Mapping);
    let mut route = yamlpath::Route::default();
    for _ in 0..125 {
        route = route.with_key("k").with_key(0);
    }
    let feature = doc.query_exact(&route).unwrap().unwrap();
    assert!(doc.extract(&feature).starts_with("|\n"));
    assert_eq!(feature.kind(), FeatureKind::Scalar);

    let source = format!("{}{}k: v", staircase(125), " ".repeat(125));
    assert!(can_be_read(&source));
    assert!(Document::new(source).is_ok());

    let doc = Document::new(format!("{}a", "- ".repeat(125))).unwrap();
    assert_eq!(doc.top_feature().unwrap().kind(), FeatureKind::Sequence);
    let doc = Document::new(format!("a: |\n{}b\n", " ".repeat(200))).unwrap();
    assert_eq!(doc.top_feature().unwrap().kind(), FeatureKind::Mapping);
}

#[test]
fn long_sources_are_read() {
    let doc = Document::new("- x\n".repeat(30_000)).unwrap();
    let route = yamlpath::Route::default().with_key(29_999);
    let feature = doc.query_exact(&route).unwrap().unwrap();
    assert_eq!(feature.location.point_span.0, (29_999, 2));
}
