//! What holds of routes, documents and features as a whole.

use vstd::prelude::*;
use vstd::std_specs::convert::FromSpec;
use vstd::utf8::encode_utf8;

use crate::anchors::{
    anchor_target, anchored_at, anchors_among, lemma_anchor_target, name_at, TreeView,
};
use crate::builder::{
    content, is_mapping, is_pair, is_sequence, key_text, lemma_pair_is_no_wrapper, pair_key,
    pair_value, pairs_of, sequence_items,
};
use crate::comments::{lemma_trawled, trawled};
use crate::cst::{KindView, NodeId, NodeView};
use crate::document::{
    comment_feature, document_of, indent_start, is_document, is_indent_start, lemma_document,
    lemma_document_written, lemma_indent_start, DocumentView,
};
use crate::error::ErrorView;
use crate::limits::{
    break_count, is_addressable, is_blank, is_level, is_line_start, is_opener, is_readable,
    lemma_break_count, lemma_column_count, level_columns, run_count,
};
use crate::links::{
    holds_child, holds_part, is_around, is_container, is_entry_of, is_last_pair,
    is_mapping_of, is_nested, is_sequence_of, kind_fits, kind_linked, kind_written, linked,
    pair_name,
};
use crate::location::{is_point_of, lemma_newline_count, span_fits, Location, SpanInfo};
use crate::query::{
    exact_feature, feature_kind, feature_of, key_feature, lemma_resolved_alias, located,
    location_of, parent_feature, pretty_feature, resolved_alias, FeatureKind, FeatureView,
    QueryMode, QueryResult,
};
use crate::route::{component_views, Component, ComponentView, Route};
use crate::syntax::{end_of, is_inside, lemma_rows_nested, well_nested, SyntaxNodeView};
use crate::text::{
    is_slice, lemma_ascii_first, lemma_ascii_in_text, lemma_slice_bytes, lemma_slice_splits,
    slice_of,
};

verus! {

/// The parent of a route with a component added to its end is the route.
pub proof fn law_parent_undoes_with_key(route: Seq<ComponentView>, component: ComponentView)
    ensures
        route.push(component).len() > 0,
        route.push(component).drop_last() == route,
{
    assert(route.push(component).drop_last() =~= route);
}

/// A route is its parent with its last component added to the end.
pub proof fn law_with_key_undoes_parent(route: Seq<ComponentView>)
    requires
        route.len() > 0,
    ensures
        route.drop_last().push(route.last()) == route,
{
    assert(route.drop_last().push(route.last()) =~= route);
}

/// Adding a list of one component to a route is adding that component.
pub proof fn law_with_keys_of_one_is_with_key(route: Seq<ComponentView>, component: ComponentView)
    ensures
        route + seq![component] == route.push(component),
{
    assert(route + seq![component] =~= route.push(component));
}

/// Adding components in two steps is adding them in one, and adding none leaves
/// the route as it is.
pub proof fn law_with_keys_concatenates(
    route: Seq<ComponentView>,
    first: Seq<ComponentView>,
    second: Seq<ComponentView>,
)
    ensures
        (route + first) + second == route + (first + second),
        route + Seq::<ComponentView>::empty() == route,
{
    assert((route + first) + second =~= route + (first + second));
    assert(route + Seq::<ComponentView>::empty() =~= route);
}

/// A text of fewer than 2^30 characters is within what 32 bits address, whatever
/// its characters are.
pub proof fn law_short_texts_are_addressable(text: Seq<char>)
    requires
        text.len() < 0x4000_0000,
    ensures
        is_addressable(text),
{
    lemma_encoded_len(text);
}

/// A text of fewer than 32 characters can be read, whatever its characters are, and
/// so can any text of at most 126 bytes.
pub proof fn law_short_texts_are_readable(text: Seq<char>)
    ensures
        encode_utf8(text).len() <= 126 ==> is_readable(text),
        text.len() < 32 ==> is_readable(text),
{
    lemma_encoded_len(text);
    let bytes = encode_utf8(text);
    if bytes.len() <= 126 {
        let breaks = break_count(bytes, bytes.len() as int);
        lemma_break_count(bytes, bytes.len() as int);
        lemma_column_count(bytes);
        assert(run_count(breaks) == 1);
        let levels = 2 * level_columns(bytes).len() + 1;
        assert(levels * 1 == levels);
    }
}

/// Whether a byte is a space, a tab or one of the indicators `-`, `?` and `:`.
pub open spec fn is_lead(byte: u8) -> bool {
    byte == 0x20 || byte == 0x09 || byte == 0x2d || byte == 0x3f || byte == 0x3a
}

/// How often the columns of open levels can begin anew in a text with this number of
/// line breaks: once more from the 32768th on, and once more from the 65535th on.
pub open spec fn runs_up_to(breaks: nat) -> int {
    1 + if breaks >= 32768 {
        1int
    } else {
        0int
    } + if breaks >= 65535 {
        1int
    } else {
        0int
    }
}

/// A text with fewer than 98304 line breaks can be read if every line that is so long
/// has something else than blanks and indicators among its first `n` bytes, so that
/// whatever begins in the line begins there, and `n` is small: 126 for a text with
/// fewer than 32768 line breaks.
pub proof fn law_texts_with_short_leads_are_readable(text: Seq<char>, n: nat)
    requires
        encode_utf8(text).len() < u32::MAX,
        break_count(encode_utf8(text), encode_utf8(text).len() as int) < 98304,
        n <= 126,
        (2 * n + 1) * runs_up_to(break_count(encode_utf8(text), encode_utf8(text).len() as int))
            <= 253,
        forall|i: int| #[trigger]
            is_line_start(encode_utf8(text), i) && 0 <= i && i + n <= encode_utf8(text).len()
                ==> exists|j: int| i <= j < i + n && !is_lead(#[trigger] encode_utf8(text)[j]),
    ensures
        is_readable(text),
{
    let bytes = encode_utf8(text);
    assert forall|i: int, j: int| #[trigger] is_level(bytes, i, j) implies j - i < n by {
        if i + n <= bytes.len() {
            assert(is_line_start(bytes, i));
            let k = choose|k: int| i <= k < i + n && !is_lead(#[trigger] bytes[k]);
            if k < j {
                assert(is_blank(bytes[k]) || is_opener(bytes, k));
            }
        }
    }
    let all = Seq::new(n, |i: int| i as usize);
    all.lemma_cardinality_of_set();
    vstd::seq_lib::seq_to_set_is_finite(all);
    assert forall|column: usize| level_columns(bytes).contains(
        column,
    ) implies all.to_set().contains(column) by {
        let i = choose|i: int| #[trigger] is_level(bytes, i, i + column);
        assert(all[column as int] == column);
    }
    vstd::set_lib::lemma_len_subset(level_columns(bytes), all.to_set());
    let runs = run_count(break_count(bytes, bytes.len() as int));
    let levels = 2 * level_columns(bytes).len() + 1;
    assert(levels * runs <= (2 * n + 1) * runs) by (nonlinear_arith)
        requires
            levels <= 2 * n + 1,
            runs >= 0,
    ;
}

/// Whether the byte at position `j` is an indicator `-`, `?` or `:` in front of a blank
/// or a zero byte.
pub open spec fn is_indicator(bytes: Seq<u8>, j: int) -> bool {
    &&& bytes[j] == 0x2d || bytes[j] == 0x3f || bytes[j] == 0x3a
    &&& bytes[j + 1] == 0x20 || bytes[j + 1] == 0x09 || bytes[j + 1] == 0
}

/// Whether something begins at position `begin` in the line that begins at position
/// `line`, with nothing but blanks and indicators in front of it.
pub open spec fn begins_at(bytes: Seq<u8>, line: int, begin: int) -> bool {
    &&& 0 <= line <= begin < bytes.len()
    &&& line == 0 || bytes[line - 1] == 0x0a || bytes[line - 1] == 0x0d || (line == 3 && bytes[0]
        == 0xef && bytes[1] == 0xbb && bytes[2] == 0xbf)
    &&& forall|j: int|
        line <= j < begin ==> (#[trigger] bytes[j]) == 0x20 || bytes[j] == 0x09 || is_indicator(
            bytes,
            j,
        )
    &&& bytes[begin] != 0x20 && bytes[begin] != 0x09
    &&& bytes[begin] != 0x0a && bytes[begin] != 0x0d
}

/// A text cannot be read if something begins behind an indicator at a column that 16
/// bits with a sign do not hold.
pub proof fn law_far_levels_are_not_readable(text: Seq<char>, line: int, k: int, begin: int)
    requires
        begins_at(encode_utf8(text), line, begin),
        line <= k < begin,
        is_indicator(encode_utf8(text), k),
        begin - line >= 32768,
    ensures
        !is_readable(text),
{
    let bytes = encode_utf8(text);
    assert(is_opener(bytes, k));
    assert(is_level(bytes, line, begin));
}

/// A text cannot be read if at too many columns something begins in its lines, with
/// nothing but blanks and indicators in front of it: more than 126 columns, and fewer
/// where there are 32768 line breaks or more.
pub proof fn law_deep_texts_are_not_readable(text: Seq<char>, lines: Seq<int>, columns: Seq<usize>)
    requires
        lines.len() == columns.len(),
        columns.no_duplicates(),
        (2 * columns.len() + 1) * runs_up_to(
            break_count(encode_utf8(text), encode_utf8(text).len() as int),
        ) > 253,
        forall|k: int| #![trigger lines[k]]
            0 <= k < lines.len() ==> begins_at(
                encode_utf8(text),
                lines[k],
                lines[k] + columns[k],
            ),
    ensures
        !is_readable(text),
{
    let bytes = encode_utf8(text);
    if is_readable(text) {
        lemma_column_count(bytes);
        columns.unique_seq_to_set();
        vstd::seq_lib::seq_to_set_is_finite(columns);
        assert forall|column: usize| columns.to_set().contains(column) implies level_columns(
            bytes,
        ).contains(column) by {
            let k = choose|k: int| 0 <= k < columns.len() && columns[k] == column;
            assert(is_level(bytes, lines[k], lines[k] + column));
        }
        vstd::set_lib::lemma_len_subset(columns.to_set(), level_columns(bytes));
        let breaks = break_count(bytes, bytes.len() as int);
        let levels = 2 * level_columns(bytes).len() + 1;
        let runs = run_count(breaks);
        let least = runs_up_to(breaks);
        assert((2 * columns.len() + 1) * least <= levels * runs) by (nonlinear_arith)
            requires
                0 <= least <= runs,
                2 * columns.len() + 1 <= levels,
        ;
    }
}

/// The line breaks of a text are its newlines and carriage returns: each one more
/// counts, and no other byte does. A line begins at the beginning of the text, behind
/// a byte order mark and behind each line break, and nowhere else.
pub proof fn law_breaks_are_counted(bytes: Seq<u8>, i: int)
    requires
        0 <= i < bytes.len(),
    ensures
        break_count(bytes, 0) == 0,
        break_count(bytes, i + 1) - break_count(bytes, i) == if bytes[i] == 0x0a || bytes[i]
            == 0x0d {
            1int
        } else {
            0int
        },
        is_line_start(bytes, 0),
        bytes[i] == 0x0a || bytes[i] == 0x0d ==> is_line_start(bytes, i + 1),
        is_line_start(bytes, i + 1) ==> bytes[i] == 0x0a || bytes[i] == 0x0d || (i == 2 && bytes[0]
            == 0xef && bytes[1] == 0xbb && bytes[2] == 0xbf),
{
}

/// A text of 2^32 - 1 bytes or more cannot be read.
pub proof fn law_readable_texts_are_addressable(text: Seq<char>)
    requires
        is_readable(text),
    ensures
        encode_utf8(text).len() < 0xffff_ffff,
{
}

/// A component is the key or the index that it is made from, and a route has the
/// components that it is made from, in their order.
pub proof fn law_components_are_what_they_are_made_from(
    index: usize,
    key: &str,
    owned: String,
    components: Vec<Component>,
    i: int,
)
    requires
        0 <= i < components@.len(),
    ensures
        <Component as FromSpec<usize>>::from_spec(index)@ == ComponentView::Index(index),
        <Component as FromSpec<&str>>::from_spec(key)@ == ComponentView::Key(key@),
        <Component as FromSpec<String>>::from_spec(owned)@ == ComponentView::Key(owned@),
        <Route as FromSpec<Vec<Component>>>::from_spec(components)@.len() == components@.len(),
        <Route as FromSpec<Vec<Component>>>::from_spec(components)@[i] == components@[i]@,
        component_views(components@).len() == components@.len(),
        component_views(components@)[i] == match components@[i] {
            Component::Key(key) => ComponentView::Key(key@),
            Component::Index(index) => ComponentView::Index(index),
        },
{
}

proof fn lemma_encoded_len(text: Seq<char>)
    ensures
        encode_utf8(text).len() <= 4 * text.len(),
    decreases text.len(),
{
    if text.len() > 0 {
        lemma_encoded_len(text.drop_first());
    }
}

/// The source of a document is the text that it was read off.
pub proof fn law_source_is_kept(text: Seq<char>)
    ensures
        document_of(text) matches Ok(document) ==> document.tree.text == text,
{
}

/// The empty route leads to the topmost feature of the document.
pub proof fn law_empty_route_is_top(document: DocumentView)
    requires
        is_document(document),
    ensures
        ({
            let nodes = document.cst.nodes;
            let root_id = document.cst.root_id;
            let found = located(nodes, root_id, Seq::empty());
            &&& found == Ok::<_, ErrorView>(QueryResult::Node(root_id))
            &&& exact_feature(nodes, found->Ok_0) == Some(
                feature_of(nodes, root_id, QueryMode::Exact),
            )
        }),
{
    lemma_document(document);
}

/// The node that a route goes on from, where it does not end.
pub open spec fn next_node(found: QueryResult) -> Option<NodeId> {
    match found {
        QueryResult::Node(id) => Some(id),
        QueryResult::MappingKey { entry, .. } => entry.value_id,
    }
}

/// A route goes on from where its first part leads. Where its first part leads
/// nowhere, neither does the route, for the same reason.
pub proof fn law_routes_compose(
    nodes: Seq<NodeView>,
    id: NodeId,
    first: Seq<ComponentView>,
    rest: Seq<ComponentView>,
)
    requires
        linked(nodes),
        id.0 < nodes.len(),
        rest.len() > 0,
    ensures
        located(nodes, id, first + rest) == match located(nodes, id, first) {
            Ok(found) => match next_node(found) {
                Some(next) => located(nodes, next, rest),
                None => Err(
                    ErrorView::Other("absent value for key: "@ + first.last()->Key_0),
                ),
            },
            Err(error) => Err(error),
        },
    decreases first.len(),
{
    let current = resolved_alias(nodes, id);
    lemma_resolved_alias(nodes, id);
    assert(kind_linked(nodes, current.0 as int, nodes[current.0 as int].kind));
    if first.len() == 0 {
        assert(first + rest =~= rest);
        assert(resolved_alias(nodes, current) == current);
    } else {
        let all = first + rest;
        assert(all[0] == first[0]);
        assert(all.drop_first() =~= first.drop_first() + rest);
        if first.len() > 1 {
            assert(first.drop_first().last() == first.last());
        }
        match first[0] {
            ComponentView::Key(key) => {
                if let KindView::Mapping(entries, _) = nodes[current.0 as int].kind {
                    if entries.contains_key(key) {
                        if let Some(value_id) = entries[key].value_id {
                            if first.len() == 1 {
                                assert(first.drop_first() + rest =~= rest);
                            } else {
                                law_routes_compose(nodes, value_id, first.drop_first(), rest);
                            }
                        }
                    }
                }
            },
            ComponentView::Index(index) => {
                if let KindView::Sequence(item_ids, _) = nodes[current.0 as int].kind {
                    if index < item_ids.len() {
                        law_routes_compose(
                            nodes,
                            item_ids[index as int],
                            first.drop_first(),
                            rest,
                        );
                    }
                }
            },
        }
    }
}

/// A route that leads nowhere leads nowhere for the same reason when it goes on,
/// and one that leads to an absent value leads nowhere when it goes on, since the
/// value is absent.
pub proof fn law_longer_routes_keep_errors(
    document: DocumentView,
    route: Seq<ComponentView>,
    component: ComponentView,
)
    requires
        is_document(document),
    ensures
        ({
            let nodes = document.cst.nodes;
            let root_id = document.cst.root_id;
            let longer = located(nodes, root_id, route.push(component));
            match located(nodes, root_id, route) {
                Ok(found) => exact_feature(nodes, found) is None ==> {
                    &&& route.len() > 0
                    &&& route.last() matches ComponentView::Key(key)
                    &&& longer == Err::<QueryResult, _>(
                        ErrorView::Other("absent value for key: "@ + key),
                    )
                },
                Err(error) => longer == Err::<QueryResult, _>(error),
            }
        }),
{
    lemma_document(document);
    let last = seq![component];
    assert(route + last =~= route.push(component));
    law_routes_compose(document.cst.nodes, document.cst.root_id, route, last);
    lemma_located(document.cst.nodes, document.cst.root_id, route);
}

/// Where a route goes on from another, the other leads to a value that is there.
pub proof fn law_longer_routes_need_values(
    document: DocumentView,
    route: Seq<ComponentView>,
    component: ComponentView,
)
    requires
        is_document(document),
        located(document.cst.nodes, document.cst.root_id, route.push(component)) is Ok,
    ensures
        located(document.cst.nodes, document.cst.root_id, route) matches Ok(found)
            && exact_feature(document.cst.nodes, found) is Some,
{
    law_longer_routes_keep_errors(document, route, component);
}

/// Where a route leads somewhere, so does its parent.
pub proof fn law_parent_route_exists(document: DocumentView, route: Seq<ComponentView>)
    requires
        is_document(document),
        route.len() > 0,
        located(document.cst.nodes, document.cst.root_id, route) is Ok,
    ensures
        located(document.cst.nodes, document.cst.root_id, route.drop_last()) is Ok,
{
    lemma_document(document);
    let last = seq![route.last()];
    assert(route.drop_last() + last =~= route);
    law_routes_compose(document.cst.nodes, document.cst.root_id, route.drop_last(), last);
}

/// Where a route leads: a node that is no alias or, if the route ends with a key,
/// the entry of that key in a mapping.
pub open spec fn leads_by(
    nodes: Seq<NodeView>,
    route: Seq<ComponentView>,
    found: QueryResult,
) -> bool {
    match found {
        QueryResult::Node(id) => {
            &&& id.0 < nodes.len()
            &&& nodes[id.0 as int].kind !is Alias
            &&& route.len() > 0 ==> route.last() is Index
        },
        QueryResult::MappingKey { parent_id, entry } => {
            &&& parent_id.0 < nodes.len()
            &&& route.len() > 0
            &&& route.last() matches ComponentView::Key(key)
            &&& nodes[parent_id.0 as int].kind matches KindView::Mapping(entries, _)
            &&& entries.contains_key(key)
            &&& entries[key] == entry
        },
    }
}

proof fn lemma_located(nodes: Seq<NodeView>, id: NodeId, route: Seq<ComponentView>)
    requires
        linked(nodes),
        id.0 < nodes.len(),
    ensures
        located(nodes, id, route) matches Ok(found) ==> leads_by(nodes, route, found),
    decreases route.len(),
{
    let current = resolved_alias(nodes, id);
    lemma_resolved_alias(nodes, id);
    assert(kind_linked(nodes, current.0 as int, nodes[current.0 as int].kind));
    if route.len() > 0 {
        match route[0] {
            ComponentView::Key(key) => {
                if let KindView::Mapping(entries, _) = nodes[current.0 as int].kind {
                    if entries.contains_key(key) && route.len() > 1 {
                        if let Some(value_id) = entries[key].value_id {
                            lemma_located(nodes, value_id, route.drop_first());
                        }
                    }
                }
            },
            ComponentView::Index(index) => {
                if let KindView::Sequence(item_ids, _) = nodes[current.0 as int].kind {
                    if index < item_ids.len() {
                        lemma_located(nodes, item_ids[index as int], route.drop_first());
                    }
                }
            },
        }
    }
}

/// A route that leads somewhere leads to a key exactly if it ends with one.
pub proof fn law_key_only_needs_a_key(document: DocumentView, route: Seq<ComponentView>)
    requires
        is_document(document),
    ensures
        located(document.cst.nodes, document.cst.root_id, route) matches Ok(found) ==> (
        key_feature(document.cst.nodes, found) is Ok <==> route.len() > 0 && route.last() is Key),
{
    lemma_document(document);
    lemma_located(document.cst.nodes, document.cst.root_id, route);
}

/// Whether a location is a slice of `text`, and its points are the rows and columns
/// of its bytes.
pub open spec fn location_fits(text: Seq<char>, location: Location) -> bool {
    let (start, end) = location.byte_span;
    let (first, last) = location.point_span;
    &&& is_slice(text, start as int, end as int)
    &&& is_point_of(encode_utf8(text), start as int, first.0, first.1)
    &&& is_point_of(encode_utf8(text), end as int, last.0, last.1)
}

/// Whether the locations of a feature fit `text`.
pub open spec fn feature_fits(text: Seq<char>, feature: FeatureView) -> bool {
    &&& location_fits(text, feature.location)
    &&& feature.context matches Some(context) ==> location_fits(text, context)
}

/// The location of every node is a slice of the source.
proof fn lemma_node_fits(document: DocumentView, id: NodeId, mode: QueryMode)
    requires
        is_document(document),
        id.0 < document.cst.nodes.len(),
    ensures
        feature_fits(document.tree.text, feature_of(document.cst.nodes, id, mode)),
        document.cst.nodes[id.0 as int].parent_id matches Some(parent) ==> parent.0 < id.0,
        location_of(document.cst.nodes, id, QueryMode::Pretty) == location_of(
            document.cst.nodes,
            id,
            QueryMode::Exact,
        ),
{
    lemma_document(document);
    let nodes = document.cst.nodes;
    assert(kind_fits(document.tree.text, nodes[id.0 as int].kind));
    if let Some(parent) = nodes[id.0 as int].parent_id {
        assert(kind_fits(document.tree.text, nodes[parent.0 as int].kind));
    }
}

/// Every feature that a query gives can be extracted, and so can what is around
/// it, and the points of both are the rows and columns of their bytes.
pub proof fn law_features_can_be_extracted(document: DocumentView, route: Seq<ComponentView>)
    requires
        is_document(document),
        located(document.cst.nodes, document.cst.root_id, route) is Ok,
    ensures
        ({
            let nodes = document.cst.nodes;
            let found = located(nodes, document.cst.root_id, route)->Ok_0;
            &&& feature_fits(document.tree.text, pretty_feature(nodes, found))
            &&& exact_feature(nodes, found) matches Some(feature) ==> feature_fits(
                document.tree.text,
                feature,
            )
            &&& key_feature(nodes, found) matches Ok(feature) ==> feature_fits(
                document.tree.text,
                feature,
            )
        }),
{
    lemma_document(document);
    let nodes = document.cst.nodes;
    lemma_located(nodes, document.cst.root_id, route);
    match located(nodes, document.cst.root_id, route)->Ok_0 {
        QueryResult::Node(id) => {
            lemma_node_fits(document, id, QueryMode::Pretty);
            lemma_node_fits(document, id, QueryMode::Exact);
        },
        QueryResult::MappingKey { parent_id, entry } => {
            let kind = nodes[parent_id.0 as int].kind;
            assert(kind_fits(document.tree.text, kind));
            assert(kind_linked(nodes, parent_id.0 as int, kind));
            assert(span_fits(document.tree.text, entry.pair_span));
            lemma_node_fits(document, parent_id, QueryMode::Exact);
            lemma_node_fits(document, entry.key_id, QueryMode::Exact);
            if let Some(value_id) = entry.value_id {
                lemma_resolved_alias(nodes, value_id);
                lemma_node_fits(document, resolved_alias(nodes, value_id), QueryMode::Exact);
            }
        },
    }
}

/// The topmost feature, the parent of a feature and the comments of a feature
/// can be extracted too, and their points are the rows and columns of their bytes.
pub proof fn law_other_features_can_be_extracted(
    document: DocumentView,
    node_id: Option<NodeId>,
    i: int,
)
    requires
        is_document(document),
        0 <= i < document.tree.nodes.len(),
    ensures
        feature_fits(
            document.tree.text,
            feature_of(document.cst.nodes, document.cst.root_id, QueryMode::Exact),
        ),
        parent_feature(document.cst.nodes, node_id) matches Some(parent) ==> feature_fits(
            document.tree.text,
            parent,
        ),
        feature_fits(document.tree.text, comment_feature(document.tree.nodes[i])),
{
    lemma_document(document);
    lemma_node_fits(document, document.cst.root_id, QueryMode::Exact);
    if parent_feature(document.cst.nodes, node_id) is Some {
        let id = node_id->Some_0;
        lemma_node_fits(document, id, QueryMode::Exact);
        lemma_node_fits(
            document,
            document.cst.nodes[id.0 as int].parent_id->Some_0,
            QueryMode::Exact,
        );
    }
}

/// A feature spans multiple rows exactly if its text holds a newline.
pub proof fn law_multiline_features_hold_newlines(text: Seq<char>, location: Location)
    requires
        location_fits(text, location),
    ensures
        location.point_span.0.0 != location.point_span.1.0 <==> slice_of(
            text,
            location.byte_span.0 as int,
            location.byte_span.1 as int,
        ).contains('\n'),
{
    let (start, end) = location.byte_span;
    let bytes = encode_utf8(text);
    let part = bytes.subrange(start as int, end as int);
    lemma_newline_count(bytes, start as int, end as int);
    lemma_slice_bytes(text, start as int, end as int);
    lemma_ascii_in_text(slice_of(text, start as int, end as int), '\n');
    if part.contains(0x0a) {
        let i = choose|i: int| 0 <= i < part.len() && part[i] == 0x0a;
        assert(bytes[start + i] == 0x0a);
    }
    if exists|i: int| start <= i < end && #[trigger] bytes[i] == 0x0a {
        let i = choose|i: int| start <= i < end && #[trigger] bytes[i] == 0x0a;
        assert(part[i - start] == 0x0a);
    }
}

/// A comment begins with `#`, and stands in one row.
pub proof fn law_comments_begin_with_a_mark(document: DocumentView, i: int)
    requires
        is_document(document),
        0 <= i < document.tree.nodes.len(),
        document.tree.nodes[i].kind == "comment"@,
    ensures
        ({
            let span = document.tree.nodes[i].span;
            let comment = slice_of(
                document.tree.text,
                span.start_byte as int,
                span.end_byte as int,
            );
            &&& comment.len() > 0
            &&& comment[0] == '#'
            &&& !comment.contains('\n')
            &&& span.start_point.row == span.end_point.row
        }),
{
    let text = document.tree.text;
    let span = document.tree.nodes[i].span;
    let comment = slice_of(text, span.start_byte as int, span.end_byte as int);
    lemma_slice_bytes(text, span.start_byte as int, span.end_byte as int);
    lemma_ascii_first(comment, '#');
    law_multiline_features_hold_newlines(text, span.location());
    lemma_newline_count(encode_utf8(text), span.start_byte as int, span.end_byte as int);
}

/// The context of a feature that a key leads to is the location of what the
/// route's parent leads to.
#[verifier::rlimit(40)]
pub proof fn law_context_is_parent_route(document: DocumentView, route: Seq<ComponentView>)
    requires
        is_document(document),
        located(document.cst.nodes, document.cst.root_id, route) is Ok,
        route.len() > 0,
        route.last() is Key,
    ensures
        ({
            let nodes = document.cst.nodes;
            let root_id = document.cst.root_id;
            let context = pretty_feature(nodes, located(nodes, root_id, route)->Ok_0).context;
            &&& located(nodes, root_id, route.drop_last()) is Ok
            &&& exact_feature(
                nodes,
                located(nodes, root_id, route.drop_last())->Ok_0,
            ) matches Some(around)
            &&& context == Some(around.location)
        }),
{
    lemma_document(document);
    let nodes = document.cst.nodes;
    let root_id = document.cst.root_id;
    let last = seq![route.last()];
    assert(route.drop_last() + last =~= route);
    law_routes_compose(nodes, root_id, route.drop_last(), last);
    lemma_located(nodes, root_id, route);
    lemma_located(nodes, root_id, route.drop_last());
    let before = located(nodes, root_id, route.drop_last())->Ok_0;
    let next = next_node(before)->Some_0;
    assert(located(nodes, next, last) == located(nodes, root_id, route));
    if let QueryResult::MappingKey { parent_id, .. } = before {
        assert(kind_linked(nodes, parent_id.0 as int, nodes[parent_id.0 as int].kind));
    }
    lemma_resolved_alias(nodes, next);
}

/// Where one key or index leads from a node.
pub open spec fn leads_in_one_step(
    nodes: Seq<NodeView>,
    id: NodeId,
    component: ComponentView,
    found: QueryResult,
) -> bool {
    match component {
        ComponentView::Key(key) => {
            &&& nodes[id.0 as int].kind matches KindView::Mapping(entries, _)
            &&& entries.contains_key(key)
            &&& found == (QueryResult::MappingKey { parent_id: id, entry: entries[key] })
        },
        ComponentView::Index(index) => {
            &&& nodes[id.0 as int].kind matches KindView::Sequence(item_ids, _)
            &&& index < item_ids.len()
            &&& found == QueryResult::Node(resolved_alias(nodes, item_ids[index as int]))
        },
    }
}

proof fn lemma_one_step(nodes: Seq<NodeView>, next: NodeId, last: Seq<ComponentView>)
    requires
        linked(nodes),
        next.0 < nodes.len(),
        last.len() == 1,
        located(nodes, next, last) is Ok,
    ensures
        leads_in_one_step(
            nodes,
            resolved_alias(nodes, next),
            last[0],
            located(nodes, next, last)->Ok_0,
        ),
{
    let current = resolved_alias(nodes, next);
    if let KindView::Sequence(item_ids, _) = nodes[current.0 as int].kind {
        if let ComponentView::Index(index) = last[0] {
            if index < item_ids.len() {
                assert(located(nodes, item_ids[index as int], last.drop_first()) == Ok::<
                    _,
                    ErrorView,
                >(QueryResult::Node(resolved_alias(nodes, item_ids[index as int]))));
            }
        }
    }
}

/// The node that an "exact" feature has is the one that routes go on from.
proof fn lemma_exact_node(document: DocumentView, route: Seq<ComponentView>)
    requires
        is_document(document),
        located(document.cst.nodes, document.cst.root_id, route) is Ok,
        next_node(located(document.cst.nodes, document.cst.root_id, route)->Ok_0) is Some,
    ensures
        ({
            let nodes = document.cst.nodes;
            let found = located(nodes, document.cst.root_id, route)->Ok_0;
            let next = next_node(found)->Some_0;
            let id = resolved_alias(nodes, next);
            &&& next.0 < nodes.len()
            &&& id.0 < nodes.len()
            &&& exact_feature(nodes, found) matches Some(around)
            &&& around.node_id == Some(id)
            &&& around.location == location_of(nodes, id, QueryMode::Exact)
        }),
{
    lemma_document(document);
    let nodes = document.cst.nodes;
    let found = located(nodes, document.cst.root_id, route)->Ok_0;
    lemma_located(nodes, document.cst.root_id, route);
    if let QueryResult::MappingKey { parent_id, .. } = found {
        assert(kind_linked(nodes, parent_id.0 as int, nodes[parent_id.0 as int].kind));
    }
    lemma_resolved_alias(nodes, next_node(found)->Some_0);
}

/// The last step of a route: from the node that the "exact" feature of the route's
/// parent has, by a key to an entry of a mapping, or by an index to an item of a
/// sequence.
#[verifier::rlimit(40)]
pub proof fn lemma_last_step(document: DocumentView, route: Seq<ComponentView>) -> (id: NodeId)
    requires
        is_document(document),
        located(document.cst.nodes, document.cst.root_id, route) is Ok,
        route.len() > 0,
    ensures
        ({
            let nodes = document.cst.nodes;
            let root_id = document.cst.root_id;
            let found = located(nodes, root_id, route)->Ok_0;
            &&& located(nodes, root_id, route.drop_last()) matches Ok(before)
            &&& exact_feature(nodes, before) matches Some(around)
            &&& around.node_id == Some(id)
            &&& around.location == location_of(nodes, id, QueryMode::Exact)
            &&& id.0 < nodes.len()
            &&& leads_in_one_step(nodes, id, route.last(), found)
        }),
{
    lemma_document(document);
    let nodes = document.cst.nodes;
    let root_id = document.cst.root_id;
    let last = seq![route.last()];
    assert(route.drop_last() + last =~= route);
    law_routes_compose(nodes, root_id, route.drop_last(), last);
    lemma_exact_node(document, route.drop_last());
    let next = next_node(located(nodes, root_id, route.drop_last())->Ok_0)->Some_0;
    lemma_one_step(nodes, next, last);
    resolved_alias(nodes, next)
}

/// Whether the bytes of a location lie within those of another.
pub open spec fn location_within(inner: Location, outer: Location) -> bool {
    outer.byte_span.0 <= inner.byte_span.0 && inner.byte_span.1 <= outer.byte_span.1
}

/// Of an entry of a mapping, the "key only" feature lies within the "pretty"
/// feature, and so does the "exact" feature unless the value is an alias. The
/// "pretty" feature lies within its context.
pub proof fn law_modes_are_nested(document: DocumentView, route: Seq<ComponentView>)
    requires
        is_document(document),
        located(document.cst.nodes, document.cst.root_id, route) is Ok,
        route.len() > 0,
        route.last() is Key,
    ensures
        ({
            let nodes = document.cst.nodes;
            let found = located(nodes, document.cst.root_id, route)->Ok_0;
            let pretty = pretty_feature(nodes, found);
            &&& key_feature(nodes, found) matches Ok(key)
            &&& location_within(key.location, pretty.location)
            &&& exact_feature(nodes, found) matches Some(exact) ==> exact.node_id == pretty.node_id
                ==> location_within(exact.location, pretty.location)
            &&& pretty.context matches Some(context)
            &&& location_within(pretty.location, context)
        }),
{
    lemma_document(document);
    let nodes = document.cst.nodes;
    lemma_located(nodes, document.cst.root_id, route);
    if let QueryResult::MappingKey { parent_id, entry } = located(
        nodes,
        document.cst.root_id,
        route,
    )->Ok_0 {
        let kind = nodes[parent_id.0 as int].kind;
        assert(kind_linked(nodes, parent_id.0 as int, kind));
        assert(kind_fits(document.tree.text, kind));
        assert(holds_part(nodes, parent_id.0 as int, entry.key_id, entry.pair_span));
        if let Some(value_id) = entry.value_id {
            assert(holds_part(nodes, parent_id.0 as int, value_id, entry.pair_span));
        }
    }
}

/// The span of the content of a syntax node.
pub open spec fn content_span(tree: TreeView, n: int) -> SpanInfo {
    tree.nodes[content(tree.nodes, n)].span
}

/// The kind of a feature whose content is a syntax node of the given kind.
pub open spec fn source_kind(kind: Seq<char>) -> FeatureKind {
    if is_mapping(kind) {
        FeatureKind::Mapping
    } else if is_sequence(kind) {
        FeatureKind::Sequence
    } else {
        FeatureKind::Scalar
    }
}

/// The topmost feature is the content of the source.
pub proof fn law_top_feature_is_the_content(document: DocumentView)
    requires
        is_document(document),
    ensures
        ({
            let nodes = document.cst.nodes;
            let top = feature_of(nodes, document.cst.root_id, QueryMode::Exact);
            let c = content(document.tree.nodes, 0);
            &&& 0 <= c < document.tree.nodes.len()
            &&& top.location == document.tree.nodes[c].span.location()
            &&& feature_kind(nodes, top.node_id) == source_kind(document.tree.nodes[c].kind)
        }),
{
    lemma_document(document);
    lemma_document_written(document);
    assert(resolved_alias(document.cst.nodes, document.cst.root_id) == document.cst.root_id);
}

/// An index leads from the sequence that the route's parent leads to. Unless the
/// item is an alias, the sequence is the parent of the feature that the index leads
/// to, its location is the context of that feature, and the feature lies within it,
/// with the same location in "exact" and in "pretty" mode.
pub proof fn law_indices_lead_to_items(document: DocumentView, route: Seq<ComponentView>)
    requires
        is_document(document),
        located(document.cst.nodes, document.cst.root_id, route) is Ok,
        route.len() > 0,
        route.last() is Index,
    ensures
        ({
            let nodes = document.cst.nodes;
            let root_id = document.cst.root_id;
            let index = route.last()->Index_0;
            let found = located(nodes, root_id, route)->Ok_0;
            let pretty = pretty_feature(nodes, found);
            &&& exact_feature(nodes, found) matches Some(exact)
            &&& located(nodes, root_id, route.drop_last()) matches Ok(before)
            &&& exact_feature(nodes, before) matches Some(around)
            &&& around.node_id matches Some(id)
            &&& id.0 < nodes.len()
            &&& nodes[id.0 as int].kind matches KindView::Sequence(item_ids, _)
            &&& index < item_ids.len()
            &&& exact.node_id == Some(resolved_alias(nodes, item_ids[index as int]))
            &&& nodes[item_ids[index as int].0 as int].kind !is Alias ==> {
                &&& exact.node_id == Some(item_ids[index as int])
                &&& parent_feature(nodes, exact.node_id) matches Some(parent)
                &&& parent.node_id == around.node_id
                &&& parent.location == around.location
                &&& exact.context == Some(around.location)
                &&& pretty.context == Some(around.location)
                &&& pretty.location == exact.location
                &&& location_within(pretty.location, around.location)
            }
        }),
{
    lemma_document(document);
    let nodes = document.cst.nodes;
    let index = route.last()->Index_0;
    let id = lemma_last_step(document, route);
    let kind = nodes[id.0 as int].kind;
    assert(kind_linked(nodes, id.0 as int, kind));
    let item_id = kind->Sequence_0[index as int];
    assert(holds_child(nodes, id.0 as int, item_id));
    if nodes[item_id.0 as int].kind !is Alias {
        assert(resolved_alias(nodes, item_id) == item_id);
        lemma_node_fits(document, item_id, QueryMode::Exact);
        assert(is_nested(nodes, 0, nodes[item_id.0 as int]));
    }
}

/// A document without anchors has no aliases.
pub proof fn law_no_anchors_no_aliases(document: DocumentView)
    requires
        is_document(document),
        document.tree.anchors == Map::<Seq<char>, Map<usize, usize>>::empty(),
    ensures
        forall|i: int|
            0 <= i < document.cst.nodes.len() ==> (#[trigger] document.cst.nodes[i]).kind !is Alias,
{
    lemma_document_written(document);
    assert forall|i: int| 0 <= i < document.cst.nodes.len() implies (
    #[trigger] document.cst.nodes[i]).kind !is Alias by {
        assert(kind_written(document.tree, document.cst.nodes, document.cst.nodes[i].kind));
    }
}

/// In a document without anchors, the parent of the feature that a route leads to
/// is what the route's parent leads to, its location is the context of the feature,
/// and the "exact" feature lies within the "pretty" one.
#[verifier::rlimit(40)]
pub proof fn law_parents_are_parent_routes(document: DocumentView, route: Seq<ComponentView>)
    requires
        is_document(document),
        document.tree.anchors == Map::<Seq<char>, Map<usize, usize>>::empty(),
        located(document.cst.nodes, document.cst.root_id, route) is Ok,
        route.len() > 0,
    ensures
        ({
            let nodes = document.cst.nodes;
            let root_id = document.cst.root_id;
            let found = located(nodes, root_id, route)->Ok_0;
            let pretty = pretty_feature(nodes, found);
            &&& located(nodes, root_id, route.drop_last()) matches Ok(before)
            &&& exact_feature(nodes, before) matches Some(around)
            &&& pretty.context == Some(around.location)
            &&& exact_feature(nodes, found) matches Some(exact) ==> {
                &&& parent_feature(nodes, exact.node_id) matches Some(parent)
                &&& parent.node_id == around.node_id
                &&& parent.location == around.location
                &&& exact.context == Some(parent.location)
                &&& location_within(exact.location, pretty.location)
            }
        }),
{
    lemma_document(document);
    law_no_anchors_no_aliases(document);
    let nodes = document.cst.nodes;
    let id = lemma_last_step(document, route);
    let kind = nodes[id.0 as int].kind;
    assert(kind_linked(nodes, id.0 as int, kind));
    match route.last() {
        ComponentView::Key(key) => {
            law_modes_are_nested(document, route);
            if let Some(value_id) = kind->Mapping_0[key].value_id {
                assert(holds_child(nodes, id.0 as int, value_id));
                assert(nodes[value_id.0 as int].kind !is Alias);
                assert(resolved_alias(nodes, value_id) == value_id);
            }
        },
        ComponentView::Index(index) => {
            let item_id = kind->Sequence_0[index as int];
            assert(holds_child(nodes, id.0 as int, item_id));
            assert(nodes[item_id.0 as int].kind !is Alias);
            assert(resolved_alias(nodes, item_id) == item_id);
            lemma_node_fits(document, item_id, QueryMode::Exact);
        },
    }
}

/// Where a key leads, a pair with that key stands in the source. The "key only"
/// feature is its key, and the "pretty" feature is the pair, unless it is a bare
/// key. The "exact" feature is its value and has the kind of its value, if that is
/// no alias, and there is none where the pair has no value.
pub proof fn law_keys_lead_to_pairs(document: DocumentView, route: Seq<ComponentView>) -> (p: int)
    requires
        is_document(document),
        located(document.cst.nodes, document.cst.root_id, route) is Ok,
        route.len() > 0,
        route.last() is Key,
    ensures
        ({
            let tree = document.tree;
            let nodes = document.cst.nodes;
            let found = located(nodes, document.cst.root_id, route)->Ok_0;
            let pretty = pretty_feature(nodes, found);
            &&& 0 <= p < tree.nodes.len()
            &&& is_pair(tree.nodes[p].kind) ==> pretty.location == tree.nodes[p].span.location()
            &&& match pair_value(tree.nodes, p) {
                Some(value) => exact_feature(nodes, found) matches Some(exact)
                    && (exact.node_id == pretty.node_id ==> exact.location == content_span(
                    tree,
                    value,
                ).location() && feature_kind(nodes, exact.node_id) == source_kind(
                    tree.nodes[content(tree.nodes, value)].kind,
                )),
                None => exact_feature(nodes, found) is None,
            }
            &&& key_feature(nodes, found) matches Ok(key)
            &&& pair_key(tree.nodes, p) matches Some(key_node)
            &&& key_text(tree.text, tree.nodes, key_node) == route.last()->Key_0
            &&& key.location == content_span(tree, key_node).location()
        }),
{
    lemma_document(document);
    lemma_document_written(document);
    let nodes = document.cst.nodes;
    let found = located(nodes, document.cst.root_id, route)->Ok_0;
    lemma_located(nodes, document.cst.root_id, route);
    let key = route.last()->Key_0;
    let parent = nodes[found->parent_id.0 as int];
    assert(kind_written(document.tree, nodes, parent.kind));
    let (entries, span) = (parent.kind->Mapping_0, parent.kind->Mapping_1);
    let c = choose|c: int| is_mapping_of(document.tree, nodes, c, entries, span);
    let pairs = pairs_of(document.tree.nodes, c);
    let j = choose|j: int| #[trigger]
        is_last_pair(document.tree, pairs, j, key) && is_entry_of(
            document.tree,
            nodes,
            c,
            pairs[j],
            key,
            entries[key],
        );
    if is_pair(document.tree.nodes[pairs[j]].kind) {
        lemma_pair_is_no_wrapper(document.tree.nodes[pairs[j]].kind);
    }
    if let Some(value_id) = entries[key].value_id {
        assert(kind_linked(nodes, found->parent_id.0 as int, parent.kind));
        lemma_resolved_alias(nodes, value_id);
        let resolved = resolved_alias(nodes, value_id);
        assert(resolved_alias(nodes, resolved) == resolved);
    }
    pairs[j]
}

/// A mapping has exactly the keys of its pairs, and of two pairs with the same
/// key it has the later.
pub proof fn law_mappings_have_the_keys_of_their_pairs(document: DocumentView, id: NodeId) -> (c:
    int)
    requires
        is_document(document),
        id.0 < document.cst.nodes.len(),
        document.cst.nodes[id.0 as int].kind is Mapping,
    ensures
        ({
            let tree = document.tree;
            let nodes = document.cst.nodes;
            let entries = nodes[id.0 as int].kind->Mapping_0;
            let pairs = pairs_of(tree.nodes, c);
            &&& 0 <= c < tree.nodes.len()
            &&& is_mapping(tree.nodes[c].kind)
            &&& nodes[id.0 as int].kind.exact_span() == tree.nodes[c].span
            &&& forall|j: int|
                0 <= j < pairs.len() ==> entries.contains_key(pair_name(tree, #[trigger] pairs[j]))
            &&& forall|key: Seq<char>| #[trigger]
                entries.contains_key(key) ==> exists|j: int| #[trigger]
                    is_last_pair(tree, pairs, j, key) && is_entry_of(
                        tree,
                        nodes,
                        c,
                        pairs[j],
                        key,
                        entries[key],
                    )
        }),
{
    lemma_document(document);
    lemma_document_written(document);
    let nodes = document.cst.nodes;
    let kind = nodes[id.0 as int].kind;
    assert(kind_written(document.tree, nodes, kind));
    choose|c: int| is_mapping_of(document.tree, nodes, c, kind->Mapping_0, kind->Mapping_1)
}

/// Whether node `id` has the location of the syntax node `c` and, unless that is an
/// alias, its kind.
pub open spec fn is_item_of(document: DocumentView, id: NodeId, c: int) -> bool {
    let nodes = document.cst.nodes;
    let written = document.tree.nodes[c];
    &&& 0 <= c < document.tree.nodes.len()
    &&& location_of(nodes, id, QueryMode::Exact) == written.span.location()
    &&& written.kind != "alias"@ ==> feature_kind(nodes, Some(id)) == source_kind(written.kind)
}

/// The items of a sequence are those that stand in the source, in their order,
/// without the comments. Each has the kind of what stands there, unless that is an
/// alias.
pub proof fn law_items_are_in_order(document: DocumentView, id: NodeId) -> (c: int)
    requires
        is_document(document),
        id.0 < document.cst.nodes.len(),
        document.cst.nodes[id.0 as int].kind is Sequence,
    ensures
        ({
            let tree = document.tree;
            let nodes = document.cst.nodes;
            let item_ids = nodes[id.0 as int].kind->Sequence_0;
            let items = sequence_items(tree.nodes, c + 1, end_of(tree.nodes, c));
            &&& 0 <= c < tree.nodes.len()
            &&& is_sequence(tree.nodes[c].kind)
            &&& nodes[id.0 as int].kind.exact_span() == tree.nodes[c].span
            &&& item_ids.len() == items.len()
            &&& forall|j: int|
                0 <= j < items.len() ==> is_item_of(
                    document,
                    #[trigger] item_ids[j],
                    content(tree.nodes, items[j]),
                )
        }),
{
    lemma_document(document);
    lemma_document_written(document);
    let nodes = document.cst.nodes;
    let kind = nodes[id.0 as int].kind;
    assert(kind_written(document.tree, nodes, kind));
    let c = choose|c: int|
        is_sequence_of(document.tree, nodes, c, kind->Sequence_0, kind->Sequence_1);
    let items = sequence_items(document.tree.nodes, c + 1, end_of(document.tree.nodes, c));
    assert forall|j: int| 0 <= j < items.len() implies is_item_of(
        document,
        #[trigger] kind->Sequence_0[j],
        content(document.tree.nodes, items[j]),
    ) by {
        assert(kind->Sequence_0[0 + j] == kind->Sequence_0[j]);
        assert(kind_linked(nodes, id.0 as int, kind));
        lemma_resolved_alias(nodes, kind->Sequence_0[j]);
    }
    c
}

/// Every node but the root lies within its parent.
pub proof fn law_features_lie_within_parents(document: DocumentView, id: NodeId)
    requires
        is_document(document),
        id.0 < document.cst.nodes.len(),
    ensures
        parent_feature(document.cst.nodes, Some(id)) matches Some(parent) ==> location_within(
            feature_of(document.cst.nodes, id, QueryMode::Exact).location,
            parent.location,
        ),
{
    lemma_document(document);
    if id.0 > 0 {
        assert(is_nested(document.cst.nodes, 0, document.cst.nodes[id.0 as int]));
    }
}

/// The parent of a feature is a mapping or a sequence.
pub proof fn law_parents_are_containers(document: DocumentView, id: NodeId)
    requires
        is_document(document),
        id.0 < document.cst.nodes.len(),
    ensures
        parent_feature(document.cst.nodes, Some(id)) matches Some(parent) ==> {
            &&& parent.node_id matches Some(parent_id)
            &&& parent_id.0 < document.cst.nodes.len()
            &&& is_container(document.cst.nodes[parent_id.0 as int].kind)
            &&& feature_kind(document.cst.nodes, parent.node_id) != FeatureKind::Scalar
        },
{
    lemma_document(document);
    if id.0 > 0 {
        assert(is_nested(document.cst.nodes, 0, document.cst.nodes[id.0 as int]));
    }
}

/// Only the root has no parent, and parents come before their children, so from
/// every node parents lead to the root.
pub proof fn law_parents_lead_to_the_root(document: DocumentView, id: NodeId)
    requires
        is_document(document),
        id.0 < document.cst.nodes.len(),
    ensures
        match parent_feature(document.cst.nodes, Some(id)) {
            Some(parent) => {
                &&& id != document.cst.root_id
                &&& parent.node_id matches Some(parent_id)
                &&& parent_id.0 < id.0
            },
            None => id == document.cst.root_id,
        },
{
    lemma_document(document);
    if id.0 > 0 {
        assert(is_nested(document.cst.nodes, 0, document.cst.nodes[id.0 as int]));
    }
    assert(document.cst.nodes[id.0 as int].parent_id matches Some(parent) ==> parent.0 < id.0);
}

/// The parent of an item of a sequence is the sequence.
pub proof fn law_parent_of_item(document: DocumentView, id: NodeId, index: int)
    requires
        is_document(document),
        id.0 < document.cst.nodes.len(),
        document.cst.nodes[id.0 as int].kind is Sequence,
        0 <= index < document.cst.nodes[id.0 as int].kind->Sequence_0.len(),
    ensures
        parent_feature(
            document.cst.nodes,
            Some(document.cst.nodes[id.0 as int].kind->Sequence_0[index]),
        ) matches Some(parent) && parent.node_id == Some(id),
{
    lemma_document(document);
    let kind = document.cst.nodes[id.0 as int].kind;
    assert(kind_linked(document.cst.nodes, id.0 as int, kind));
    assert(holds_child(document.cst.nodes, id.0 as int, kind->Sequence_0[index]));
}

/// The parent of a key and of a value of a mapping is the mapping.
pub proof fn law_parent_of_entry(document: DocumentView, id: NodeId, key: Seq<char>)
    requires
        is_document(document),
        id.0 < document.cst.nodes.len(),
        document.cst.nodes[id.0 as int].kind is Mapping,
        document.cst.nodes[id.0 as int].kind->Mapping_0.contains_key(key),
    ensures
        ({
            let nodes = document.cst.nodes;
            let entry = nodes[id.0 as int].kind->Mapping_0[key];
            &&& parent_feature(nodes, Some(entry.key_id)) matches Some(parent)
            &&& parent.node_id == Some(id)
            &&& entry.value_id is Some ==> (parent_feature(
                nodes,
                entry.value_id,
            ) matches Some(around) && around.node_id == Some(id))
        }),
{
    lemma_document(document);
    let kind = document.cst.nodes[id.0 as int].kind;
    assert(kind_linked(document.cst.nodes, id.0 as int, kind));
}

/// What an alias stands for is no alias, and an "exact" feature is never one.
pub proof fn law_exact_features_are_no_aliases(document: DocumentView, route: Seq<ComponentView>)
    requires
        is_document(document),
        located(document.cst.nodes, document.cst.root_id, route) is Ok,
    ensures
        exact_feature(
            document.cst.nodes,
            located(document.cst.nodes, document.cst.root_id, route)->Ok_0,
        ) matches Some(feature) ==> {
            &&& feature.node_id matches Some(id)
            &&& id.0 < document.cst.nodes.len()
            &&& document.cst.nodes[id.0 as int].kind !is Alias
        },
{
    lemma_document(document);
    let nodes = document.cst.nodes;
    lemma_located(nodes, document.cst.root_id, route);
    if let QueryResult::MappingKey { parent_id, entry } = located(
        nodes,
        document.cst.root_id,
        route,
    )->Ok_0 {
        assert(kind_linked(nodes, parent_id.0 as int, nodes[parent_id.0 as int].kind));
        if let Some(value_id) = entry.value_id {
            lemma_resolved_alias(nodes, value_id);
        }
    }
}

/// The kind of an "exact" feature says how routes go on from it. A key goes on from
/// a mapping that has it, to its entry, and an index goes on from a sequence that
/// has as many items, to the item. A key that a mapping does not have exhausts it,
/// and so does an index that is past the items of a sequence. From anything but a
/// mapping a key does not go on, and from anything but a sequence an index does
/// not.
pub proof fn law_kind_says_how_routes_go_on(
    document: DocumentView,
    route: Seq<ComponentView>,
    key: Seq<char>,
    index: usize,
)
    requires
        is_document(document),
        located(document.cst.nodes, document.cst.root_id, route) is Ok,
        exact_feature(
            document.cst.nodes,
            located(document.cst.nodes, document.cst.root_id, route)->Ok_0,
        ) is Some,
    ensures
        ({
            let nodes = document.cst.nodes;
            let root_id = document.cst.root_id;
            let feature = exact_feature(nodes, located(nodes, root_id, route)->Ok_0)->Some_0;
            let kind = feature_kind(nodes, feature.node_id);
            let by_key = located(nodes, root_id, route.push(ComponentView::Key(key)));
            let by_index = located(nodes, root_id, route.push(ComponentView::Index(index)));
            &&& feature.node_id matches Some(id)
            &&& id.0 < nodes.len()
            &&& match nodes[id.0 as int].kind {
                KindView::Mapping(entries, _) => {
                    &&& kind == FeatureKind::Mapping
                    &&& by_key == if entries.contains_key(key) {
                        Ok(QueryResult::MappingKey { parent_id: id, entry: entries[key] })
                    } else {
                        Err(ErrorView::ExhaustedMapping(key))
                    }
                },
                _ => {
                    &&& kind != FeatureKind::Mapping
                    &&& by_key == Err::<QueryResult, _>(ErrorView::ExpectedMapping(key))
                },
            }
            &&& match nodes[id.0 as int].kind {
                KindView::Sequence(item_ids, _) => {
                    &&& kind == FeatureKind::Sequence
                    &&& by_index == if index < item_ids.len() {
                        Ok(QueryResult::Node(resolved_alias(nodes, item_ids[index as int])))
                    } else {
                        Err(ErrorView::ExhaustedList(index, item_ids.len() as usize))
                    }
                },
                _ => {
                    &&& kind != FeatureKind::Sequence
                    &&& by_index == Err::<QueryResult, _>(ErrorView::ExpectedList(index))
                },
            }
        }),
{
    lemma_document(document);
    let nodes = document.cst.nodes;
    let root_id = document.cst.root_id;
    let found = located(nodes, root_id, route)->Ok_0;
    lemma_located(nodes, root_id, route);
    let next = next_node(found)->Some_0;
    let by_key = seq![ComponentView::Key(key)];
    let by_index = seq![ComponentView::Index(index)];
    assert(route + by_key =~= route.push(ComponentView::Key(key)));
    assert(route + by_index =~= route.push(ComponentView::Index(index)));
    law_routes_compose(nodes, root_id, route, by_key);
    law_routes_compose(nodes, root_id, route, by_index);
    if let QueryResult::MappingKey { parent_id, .. } = found {
        assert(kind_linked(nodes, parent_id.0 as int, nodes[parent_id.0 as int].kind));
    }
    lemma_resolved_alias(nodes, next);
    let current = resolved_alias(nodes, next);
    assert(resolved_alias(nodes, current) == current);
    assert(kind_linked(nodes, current.0 as int, nodes[current.0 as int].kind));
    assert(exact_feature(nodes, found)->Some_0.node_id == Some(current));
    if let KindView::Sequence(item_ids, _) = nodes[current.0 as int].kind {
        if index < item_ids.len() {
            assert(by_index.drop_first().len() == 0);
            assert(located(nodes, item_ids[index as int], by_index.drop_first()) is Ok);
        }
    }
}

/// The comments of a feature are all the comments in its rows, once each.
pub proof fn law_comments_are_complete(document: DocumentView, first: usize, last: usize)
    requires
        is_document(document),
    ensures
        ({
            let nodes = document.tree.nodes;
            let found = trawled(nodes, 0, document.comment_id, first, last);
            &&& found.no_duplicates()
            &&& forall|i: int| #[trigger]
                found.contains(i) <==> {
                    &&& 0 <= i < nodes.len()
                    &&& nodes[i].kind == "comment"@
                    &&& first <= nodes[i].span.start_point.row
                    &&& nodes[i].span.end_point.row <= last
                }
        }),
{
    let nodes = document.tree.nodes;
    lemma_rows_nested(nodes, document.tree.text);
    lemma_trawled(nodes, 0, document.comment_id, first, last);
    assert("stream"@ != "comment"@) by {
        reveal_strlit("stream");
        reveal_strlit("comment");
        assert("stream"@.len() != "comment"@.len());
    }
    assert forall|i: int| 0 <= i < nodes.len() && nodes[i].kind == "comment"@ implies is_inside(
        nodes,
        0,
        i,
    ) by {
        assert(i != 0);
    }
}

/// A document has anchors exactly if its syntax tree has one.
pub proof fn law_has_anchors(document: DocumentView)
    requires
        is_document(document),
    ensures
        document.tree.anchors != Map::<Seq<char>, Map<usize, usize>>::empty() <==> exists|i: int|
            0 <= i < document.tree.nodes.len() && (#[trigger] document.tree.nodes[i]).kind
                == "anchor"@,
{
    let text = document.tree.text;
    let nodes = document.tree.nodes;
    let anchors = document.tree.anchors;
    lemma_anchors(text, nodes, nodes.len() as int);
    if exists|i: int| 0 <= i < nodes.len() && (#[trigger] nodes[i]).kind == "anchor"@ {
        let i = choose|i: int| 0 <= i < nodes.len() && (#[trigger] nodes[i]).kind == "anchor"@;
        assert(is_anchor_at(
            text,
            nodes,
            nodes.len() as int,
            i,
            name_at(text, nodes, i),
            nodes[i].span.start_byte,
        ));
        assert(anchors.contains_key(name_at(text, nodes, i)));
    } else {
        assert forall|name: Seq<char>| !anchors.contains_key(name) by {}
        assert(anchors =~= Map::empty());
    }
}

/// Whether node `i` is one of the first `n` nodes and an anchor of the given
/// name at the given position.
pub open spec fn is_anchor_at(
    text: Seq<char>,
    nodes: Seq<SyntaxNodeView>,
    n: int,
    i: int,
    name: Seq<char>,
    position: usize,
) -> bool {
    &&& 0 <= i < n
    &&& nodes[i].kind == "anchor"@
    &&& name_at(text, nodes, i) == name
    &&& nodes[i].span.start_byte == position
}

/// Whether `node` is the target of an anchor of the given name at the given
/// position, among the first `n` nodes.
pub open spec fn is_target_at(
    text: Seq<char>,
    nodes: Seq<SyntaxNodeView>,
    n: int,
    name: Seq<char>,
    position: usize,
    node: usize,
) -> bool {
    exists|i: int| #[trigger]
        is_anchor_at(text, nodes, n, i, name, position) && (anchor_target(nodes, i) matches Ok(
            target,
        ) && target == node)
}

/// Every anchor among the first nodes is found, and nothing else is.
pub proof fn lemma_anchors(text: Seq<char>, nodes: Seq<SyntaxNodeView>, n: int)
    requires
        well_nested(nodes),
        0 <= n <= nodes.len(),
        anchors_among(text, nodes, n) is Ok,
    ensures
        ({
            let anchors = anchors_among(text, nodes, n)->Ok_0;
            &&& forall|name: Seq<char>, position: usize, i: int| #[trigger]
                is_anchor_at(text, nodes, n, i, name, position) ==> anchors.contains_key(name)
                    && anchors[name].contains_key(position)
            &&& forall|name: Seq<char>, position: usize|
                #![trigger anchors_among(text, nodes, n)->Ok_0[name].contains_key(position)]
                anchors.contains_key(name) && anchors[name].contains_key(position) ==> is_target_at(
                    text,
                    nodes,
                    n,
                    name,
                    position,
                    anchors[name][position],
                )
            &&& forall|name: Seq<char>|
                #![trigger anchors_among(text, nodes, n)->Ok_0.contains_key(name)]
                anchors.contains_key(name) ==> exists|i: int|
                    0 <= i < n && (#[trigger] nodes[i]).kind == "anchor"@
        }),
    decreases n,
{
    if n > 0 {
        lemma_anchors(text, nodes, n - 1);
        let before = anchors_among(text, nodes, n - 1)->Ok_0;
        let anchors = anchors_among(text, nodes, n)->Ok_0;
        let last_name = name_at(text, nodes, n - 1);
        let last_position = nodes[n - 1].span.start_byte;
        lemma_anchor_target(nodes, n - 1);
        assert forall|name: Seq<char>, position: usize, i: int| #[trigger]
            is_anchor_at(text, nodes, n, i, name, position) implies anchors.contains_key(name)
            && anchors[name].contains_key(position) by {
            if i < n - 1 {
                assert(is_anchor_at(text, nodes, n - 1, i, name, position));
            }
        }
        assert forall|name: Seq<char>, position: usize|
            #![trigger anchors_among(text, nodes, n)->Ok_0[name].contains_key(position)]
            anchors.contains_key(name) && anchors[name].contains_key(position) implies is_target_at(
            text,
            nodes,
            n,
            name,
            position,
            anchors[name][position],
        ) by {
            if nodes[n - 1].kind == "anchor"@ && name == last_name && position == last_position {
                assert(is_anchor_at(text, nodes, n, n - 1, name, position));
            } else {
                assert(before[name].contains_key(position));
                let node = before[name][position];
                let i = choose|i: int| #[trigger]
                    is_anchor_at(text, nodes, n - 1, i, name, position) && (anchor_target(
                        nodes,
                        i,
                    ) matches Ok(target) && target == node);
                assert(is_anchor_at(text, nodes, n, i, name, position));
            }
        }
        assert forall|name: Seq<char>|
            #![trigger anchors_among(text, nodes, n)->Ok_0.contains_key(name)]
            anchors.contains_key(name) implies exists|i: int|
            0 <= i < n && (#[trigger] nodes[i]).kind == "anchor"@ by {
            if nodes[n - 1].kind == "anchor"@ {
                assert(0 <= n - 1 < n && nodes[n - 1].kind == "anchor"@);
            } else {
                assert(before.contains_key(name));
                let i = choose|i: int| 0 <= i < n - 1 && (#[trigger] nodes[i]).kind == "anchor"@;
                assert(0 <= i < n && nodes[i].kind == "anchor"@);
            }
        }
    }
}

/// A name stands for something at a position exactly where there is an anchor of
/// that name, and there it stands for the target of such an anchor.
pub proof fn law_anchors_are_where_they_stand(
    document: DocumentView,
    name: Seq<char>,
    position: usize,
)
    requires
        is_document(document),
    ensures
        ({
            let text = document.tree.text;
            let nodes = document.tree.nodes;
            let anchors = document.tree.anchors;
            let n = nodes.len() as int;
            &&& (anchors.contains_key(name) && anchors[name].contains_key(position)) <==> exists|i: int|
                is_anchor_at(text, nodes, n, i, name, position)
            &&& anchors.contains_key(name) && anchors[name].contains_key(position) ==> is_target_at(
                text,
                nodes,
                n,
                name,
                position,
                anchors[name][position],
            )
        }),
{
    let nodes = document.tree.nodes;
    let n = nodes.len() as int;
    lemma_anchors(document.tree.text, nodes, n);
    let anchors = document.tree.anchors;
    assert(anchors == anchors_among(document.tree.text, nodes, n)->Ok_0);
    if anchors.contains_key(name) && anchors[name].contains_key(position) {
        assert(is_target_at(document.tree.text, nodes, n, name, position, anchors[name][position]));
        let i = choose|i: int| #[trigger]
            is_anchor_at(document.tree.text, nodes, n, i, name, position) && (anchor_target(
                nodes,
                i,
            ) matches Ok(target) && target == anchors[name][position]);
    }
}

/// An alias stands for the content of the last anchor of its name before it, and
/// has its kind.
pub proof fn law_alias_stands_for_anchored_content(document: DocumentView, id: NodeId)
    requires
        is_document(document),
        id.0 < document.cst.nodes.len(),
        document.cst.nodes[id.0 as int].kind is Alias,
    ensures
        ({
            let nodes = document.cst.nodes;
            let span = nodes[id.0 as int].kind.exact_span();
            let name = slice_of(document.tree.text, span.start_byte + 1, span.end_byte as int);
            let resolved = nodes[resolved_alias(nodes, id).0 as int];
            &&& anchored_at(document.tree.anchors, name, span.start_byte) matches Some(target)
            &&& target < document.tree.nodes.len()
            &&& resolved.kind.exact_span() == document.tree.nodes[target as int].span
            &&& feature_kind(nodes, Some(id)) == source_kind(
                document.tree.nodes[target as int].kind,
            )
        }),
{
    lemma_document(document);
    lemma_document_written(document);
    let nodes = document.cst.nodes;
    let kind = nodes[id.0 as int].kind;
    assert(kind_written(document.tree, nodes, kind));
    assert(kind_linked(nodes, id.0 as int, kind));
    let target_id = kind->Alias_0.target_id;
    assert(resolved_alias(nodes, id) == resolved_alias(nodes, target_id));
    assert(resolved_alias(nodes, target_id) == target_id);
}

/// No alias stands inside what it stands for.
pub proof fn law_aliases_stand_outside_their_content(document: DocumentView, id: NodeId)
    requires
        is_document(document),
        id.0 < document.cst.nodes.len(),
        document.cst.nodes[id.0 as int].kind is Alias,
    ensures
        ({
            let nodes = document.cst.nodes;
            let resolved = resolved_alias(nodes, id);
            &&& resolved.0 < id.0
            &&& !is_around(nodes, resolved.0 as int, id.0 as int)
        }),
{
    lemma_document(document);
    lemma_document_written(document);
    let nodes = document.cst.nodes;
    let kind = nodes[id.0 as int].kind;
    assert(kind_linked(nodes, id.0 as int, kind));
    let target_id = kind->Alias_0.target_id;
    assert(resolved_alias(nodes, id) == resolved_alias(nodes, target_id));
    assert(resolved_alias(nodes, target_id) == target_id);
}

/// A feature with leading whitespace is spaces and then the feature, so one is a
/// suffix of the other.
pub proof fn law_leading_whitespace_is_spaces(text: Seq<char>, start: int, end: int)
    requires
        is_slice(text, start, end),
    ensures
        ({
            let begin = indent_start(encode_utf8(text), start);
            &&& begin <= start
            &&& slice_of(text, begin, end) == Seq::new((start - begin) as nat, |i: int| ' ')
                + slice_of(text, start, end)
        }),
{
    let bytes = encode_utf8(text);
    let begin = indent_start(bytes, start);
    lemma_indent_start(text, start, end);
    vstd::utf8::encode_utf8_valid_utf8(text);
    lemma_slice_splits(text, begin, start, end);
    let spaces = Seq::new((start - begin) as nat, |i: int| ' ');
    vstd::utf8::is_ascii_chars_encode_utf8(spaces);
    assert(encode_utf8(spaces) =~= bytes.subrange(begin, start)) by {
        assert forall|i: int| 0 <= i < start - begin implies encode_utf8(spaces)[i]
            == bytes.subrange(begin, start)[i] by {
            assert(is_indent_start(bytes, start, begin));
            assert(bytes[begin + i] == 0x20);
            assert(spaces[i] as u8 == 0x20);
        }
    }
    vstd::utf8::encode_utf8_decode_utf8(spaces);
}

} // verus!
