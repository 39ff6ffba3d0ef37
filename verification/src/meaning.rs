//! What documents say, in terms of what is written in their source.

use vstd::prelude::*;
use vstd::utf8::encode_utf8;

use crate::anchors::{anchor_target, anchored_at, anchors_among, with_anchor, TreeView};
use crate::builder::{
    content, is_mapping, is_sequence, pair_key, pair_value, pairs_of, sequence_items,
};
use crate::comments::{comes_first, lemma_trawled_ordered, trawled};
use crate::cst::{KindView, MappingEntry, NodeId};
use crate::document::{
    comment_covers, comment_feature, comment_spans, document_of, indent_start, is_comment,
    is_document, is_indent_start, lemma_document, lemma_document_written, source_read, DocumentView,
};
use crate::error::{decimal, digit, message_of, ErrorView};
use crate::laws::{
    is_anchor_at, is_target_at, law_alias_stands_for_anchored_content,
    law_anchors_are_where_they_stand, law_key_only_needs_a_key, law_kind_says_how_routes_go_on,
    law_parent_of_entry, lemma_last_step,
};
use crate::links::{
    is_built_from, is_entry_of, is_last_pair, is_mapping_of, is_sequence_of, kind_fits,
    kind_linked, kind_written, pair_name,
};
use crate::location::{Location, SpanInfo};
use crate::maps::is_last_before;
use crate::query::{
    exact_feature, feature_kind, feature_of, key_feature, lemma_resolved_alias, located,
    location_of, parent_feature, pretty_feature, resolved_alias, FeatureKind, FeatureView,
    QueryMode,
};
use crate::reading::{
    is_item_value, is_key_at, is_named_child, is_pair_in, is_value_beside, is_value_in,
    law_anchors_are_for_the_value_beside_them, law_items_are_the_children,
    law_keys_are_what_is_written, law_pairs_are_in_order, lemma_content_is_read, reads_as, rises,
};
use crate::route::ComponentView;
use crate::syntax::{end_of, is_child, lemma_rows_nested, well_nested, SyntaxNodeView};
use crate::text::{is_slice, slice_of};
use crate::treesitter::{ids_resolve, is_listed_after, resolved, yaml_has_error, RawNode};

verus! {

/// Whether a location is that of a span.
pub open spec fn is_at(location: Location, span: SpanInfo) -> bool {
    &&& location.byte_span.0 == span.start_byte
    &&& location.byte_span.1 == span.end_byte
    &&& location.point_span.0.0 == span.start_point.row
    &&& location.point_span.0.1 == span.start_point.column
    &&& location.point_span.1.0 == span.end_point.row
    &&& location.point_span.1.1 == span.end_point.column
}

/// The kind of a feature that is written as a node of the given kind.
pub open spec fn written_kind(kind: Seq<char>) -> FeatureKind {
    if kind == "block_mapping"@ || kind == "flow_mapping"@ || kind == "block_mapping_pair"@ || kind
        == "flow_pair"@ {
        FeatureKind::Mapping
    } else if kind == "block_sequence"@ || kind == "flow_sequence"@ {
        FeatureKind::Sequence
    } else {
        FeatureKind::Scalar
    }
}

/// Whether node `id` of the reduced tree is the node for the syntax node `c`: it is
/// at the same place and, unless that is an alias, of the kind that is written
/// there. Of scalars those in a block, and no others, have a span for "pretty" mode,
/// which is the same.
pub open spec fn is_node_for(document: DocumentView, id: NodeId, c: int) -> bool {
    let nodes = document.cst.nodes;
    &&& id.0 < nodes.len()
    &&& 0 <= c < document.tree.nodes.len()
    &&& is_at(location_of(nodes, id, QueryMode::Exact), document.tree.nodes[c].span)
    &&& nodes[id.0 as int].kind is Alias <==> document.tree.nodes[c].kind == "alias"@
    &&& document.tree.nodes[c].kind != "alias"@ ==> feature_kind(nodes, Some(id)) == written_kind(
        document.tree.nodes[c].kind,
    )
    &&& nodes[id.0 as int].kind matches KindView::Scalar(scalar) ==> scalar.pretty_span
        == if document.tree.nodes[c].kind == "block_scalar"@ {
        Some(document.tree.nodes[c].span)
    } else {
        None
    }
}

/// Whether the syntax node `n` is read as something that node `id` of the reduced
/// tree is for. Of an anchor in the place of a value nothing is said.
pub open spec fn is_node_read_from(document: DocumentView, id: NodeId, n: int) -> bool {
    document.tree.nodes[n].kind != "anchor"@ ==> exists|c: int| #[trigger]
        reads_as(document.tree.nodes, n, c) && is_node_for(document, id, c)
}

/// Whether node `i` is the last anchor before the alias at node `a` that has its
/// name: what is written behind the marker.
pub open spec fn is_last_anchor(tree: TreeView, a: int, i: int) -> bool {
    &&& is_anchor_for(tree, a, i)
    &&& forall|j: int| #[trigger]
        is_anchor_for(tree, a, j) ==> tree.nodes[j].span.start_byte
            <= tree.nodes[i].span.start_byte
}

/// Whether node `i` is an anchor before the alias at node `a` that has its name.
pub open spec fn is_anchor_for(tree: TreeView, a: int, i: int) -> bool {
    let alias = tree.nodes[a].span;
    let anchor = tree.nodes[i].span;
    &&& 0 <= i < tree.nodes.len()
    &&& tree.nodes[i].kind == "anchor"@
    &&& anchor.start_byte < alias.start_byte
    &&& slice_of(tree.text, anchor.start_byte + 1, anchor.end_byte as int) == slice_of(
        tree.text,
        alias.start_byte + 1,
        alias.end_byte as int,
    )
}

/// Whether a location and a kind are those of what the syntax node `c` says: of the
/// value beside the last anchor of its name before it for an alias, and of `c`
/// itself otherwise.
pub open spec fn says(
    document: DocumentView,
    location: Location,
    kind: FeatureKind,
    c: int,
) -> bool {
    let nodes = document.tree.nodes;
    if nodes[c].kind == "alias"@ {
        exists|i: int, t: int|
            {
                &&& #[trigger] is_last_anchor(document.tree, c, i)
                &&& #[trigger] is_value_beside(nodes, i, t)
                &&& is_at(location, nodes[t].span)
                &&& kind == written_kind(nodes[t].kind)
            }
    } else {
        is_at(location, nodes[c].span) && kind == written_kind(nodes[c].kind)
    }
}

/// Whether a feature says what the syntax node `n` is read as.
pub open spec fn is_feature_read_from(
    document: DocumentView,
    feature: FeatureView,
    n: int,
) -> bool {
    document.tree.nodes[n].kind != "anchor"@ ==> exists|c: int| #[trigger]
        reads_as(document.tree.nodes, n, c) && says(
            document,
            feature.location,
            feature_kind(document.cst.nodes, feature.node_id),
            c,
        )
}

proof fn lemma_node_for(document: DocumentView, id: NodeId, c: int)
    requires
        is_document(document),
        id.0 < document.cst.nodes.len(),
        is_built_from(document.tree, document.cst.nodes[id.0 as int].kind, c),
    ensures
        is_node_for(document, id, c),
{
    lemma_document(document);
    lemma_resolved_alias(document.cst.nodes, id);
}

proof fn lemma_node_read(document: DocumentView, id: NodeId, n: int)
    requires
        is_document(document),
        id.0 < document.cst.nodes.len(),
        0 <= n < document.tree.nodes.len(),
        is_built_from(
            document.tree,
            document.cst.nodes[id.0 as int].kind,
            content(document.tree.nodes, n),
        ),
    ensures
        is_node_read_from(document, id, n),
{
    if document.tree.nodes[n].kind != "anchor"@ {
        lemma_content_is_read(document.tree.nodes, n);
        lemma_node_for(document, id, content(document.tree.nodes, n));
    }
}

/// An alias says what the value beside the last anchor of its name before it says.
pub proof fn law_alias_says_what_is_anchored(document: DocumentView, id: NodeId, a: int)
    requires
        is_document(document),
        id.0 < document.cst.nodes.len(),
        is_node_for(document, id, a),
    ensures
        ({
            let nodes = document.cst.nodes;
            let resolved = resolved_alias(nodes, id);
            &&& resolved.0 < nodes.len()
            &&& says(
                document,
                location_of(nodes, resolved, QueryMode::Exact),
                feature_kind(nodes, Some(resolved)),
                a,
            )
        }),
{
    lemma_document(document);
    let tree = document.tree;
    let nodes = document.cst.nodes;
    lemma_resolved_alias(nodes, id);
    let resolved = resolved_alias(nodes, id);
    assert(resolved_alias(nodes, resolved) == resolved);
    if tree.nodes[a].kind == "alias"@ {
        law_alias_stands_for_anchored_content(document, id);
        let span = nodes[id.0 as int].kind.exact_span();
        let name = slice_of(tree.text, span.start_byte + 1, span.end_byte as int);
        let positions = tree.anchors[name];
        let position = choose|p: usize| is_last_before(positions, span.start_byte, p);
        let target = positions[position];
        law_anchors_are_where_they_stand(document, name, position);
        let n = tree.nodes.len() as int;
        assert(is_target_at(tree.text, tree.nodes, n, name, position, target));
        let i = choose|i: int| #[trigger]
            is_anchor_at(tree.text, tree.nodes, n, i, name, position) && (anchor_target(
                tree.nodes,
                i,
            ) matches Ok(t) && t == target);
        law_anchors_are_for_the_value_beside_them(tree.nodes, i);
        assert forall|j: int| #[trigger] is_anchor_for(tree, a, j) implies
            tree.nodes[j].span.start_byte <= tree.nodes[i].span.start_byte by {
            let start = tree.nodes[j].span.start_byte;
            law_anchors_are_where_they_stand(document, name, start);
            assert(is_anchor_at(tree.text, tree.nodes, n, j, name, start));
            assert(positions.contains_key(start));
        }
        assert(is_last_anchor(tree, a, i));
        assert(is_value_beside(tree.nodes, i, target as int));
    }
}

/// Two aliases of the same name say the same, unless an anchor of that name stands
/// between them: what they stand for is at the same place and of the same kind.
pub proof fn law_aliases_of_one_anchor_agree(document: DocumentView, first: NodeId, second: NodeId)
    requires
        is_document(document),
        first.0 < document.cst.nodes.len(),
        second.0 < document.cst.nodes.len(),
        document.cst.nodes[first.0 as int].kind is Alias,
        document.cst.nodes[second.0 as int].kind is Alias,
        ({
            let text = document.tree.text;
            let a = document.cst.nodes[first.0 as int].kind.exact_span();
            let b = document.cst.nodes[second.0 as int].kind.exact_span();
            &&& slice_of(text, a.start_byte + 1, a.end_byte as int) == slice_of(
                text,
                b.start_byte + 1,
                b.end_byte as int,
            )
            &&& a.start_byte <= b.start_byte
            &&& forall|i: int|
                0 <= i < document.tree.nodes.len() && (#[trigger] document.tree.nodes[i]).kind
                    == "anchor"@ && slice_of(
                    text,
                    document.tree.nodes[i].span.start_byte + 1,
                    document.tree.nodes[i].span.end_byte as int,
                ) == slice_of(text, a.start_byte + 1, a.end_byte as int) ==> !(a.start_byte
                    <= document.tree.nodes[i].span.start_byte < b.start_byte)
        }),
    ensures
        ({
            let nodes = document.cst.nodes;
            let a = resolved_alias(nodes, first);
            let b = resolved_alias(nodes, second);
            &&& location_of(nodes, a, QueryMode::Exact) == location_of(nodes, b, QueryMode::Exact)
            &&& feature_kind(nodes, Some(first)) == feature_kind(nodes, Some(second))
        }),
{
    lemma_document(document);
    law_alias_stands_for_anchored_content(document, first);
    law_alias_stands_for_anchored_content(document, second);
    let tree = document.tree;
    let nodes = document.cst.nodes;
    let a = nodes[first.0 as int].kind.exact_span();
    let b = nodes[second.0 as int].kind.exact_span();
    let name = slice_of(tree.text, a.start_byte + 1, a.end_byte as int);
    let positions = tree.anchors[name];
    let p = choose|p: usize| is_last_before(positions, a.start_byte, p);
    let q = choose|q: usize| is_last_before(positions, b.start_byte, q);
    law_anchors_are_where_they_stand(document, name, q);
    let n = tree.nodes.len() as int;
    assert(is_target_at(tree.text, tree.nodes, n, name, q, positions[q]));
    let i = choose|i: int| #[trigger] is_anchor_at(tree.text, tree.nodes, n, i, name, q);
    assert(tree.nodes[i].span.start_byte == q);
    assert(p == q);
    lemma_resolved_alias(nodes, first);
    lemma_resolved_alias(nodes, second);
}

/// The node that holds the key of the pair `p`. A bare key is its own key.
pub open spec fn key_node(nodes: Seq<SyntaxNodeView>, p: int) -> Option<usize> {
    if nodes[p].kind == "flow_node"@ {
        Some(p as usize)
    } else {
        nodes[p].key
    }
}

/// Whether the pair `p` has the key `key`.
pub open spec fn has_key(tree: TreeView, p: int, key: Seq<char>) -> bool {
    key_node(tree.nodes, p) matches Some(node) && is_key_at(
        tree.text,
        tree.nodes,
        node as int,
        key,
    )
}

/// Whether the pair `p` is the last one of the mapping `c` with the key `key`.
pub open spec fn is_last_with_key(tree: TreeView, c: int, p: int, key: Seq<char>) -> bool {
    &&& is_pair_in(tree.nodes, c, p)
    &&& has_key(tree, p, key)
    &&& forall|q: int| #[trigger]
        is_pair_in(tree.nodes, c, q) && has_key(tree, q, key) ==> q <= p
}

/// Whether an entry is what the pair `p` of the mapping `c` says: it has the pair,
/// or for a bare key the mapping, and the nodes for its key and its value.
pub open spec fn is_entry_for(document: DocumentView, c: int, p: int, entry: MappingEntry) -> bool {
    let nodes = document.tree.nodes;
    &&& if nodes[p].kind == "flow_node"@ {
        &&& entry.pair_span == nodes[c].span
        &&& entry.value_id is None
    } else {
        &&& entry.pair_span == nodes[p].span
        &&& match nodes[p].value {
            Some(value) => entry.value_id matches Some(id) && is_node_read_from(
                document,
                id,
                value as int,
            ),
            None => entry.value_id is None,
        }
    }
    &&& key_node(nodes, p) matches Some(key)
    &&& is_node_read_from(document, entry.key_id, key as int)
}

proof fn lemma_has_key(document: DocumentView, c: int, p: int, key: Seq<char>)
    requires
        is_document(document),
        0 <= c < document.tree.nodes.len(),
        is_pair_in(document.tree.nodes, c, p),
        pair_key(document.tree.nodes, p) is Some,
    ensures
        0 <= p < document.tree.nodes.len(),
        key_node(document.tree.nodes, p) == Some(pair_key(document.tree.nodes, p)->Some_0 as usize),
        0 <= pair_key(document.tree.nodes, p)->Some_0 < document.tree.nodes.len(),
        has_key(document.tree, p, key) <==> pair_name(document.tree, p) == key,
{
    let nodes = document.tree.nodes;
    assert(0 <= p < nodes.len()) by {
        assert(end_of(nodes, c) <= nodes.len());
    }
    let node = pair_key(nodes, p)->Some_0;
    if nodes[p].kind != "flow_node"@ {
        assert(is_child(nodes, p, node));
        assert(end_of(nodes, p) <= nodes.len());
    }
    law_keys_are_what_is_written(document.tree.text, nodes, node, key);
}

/// A mapping is what is written. Its keys are those of its pairs and bare keys, and
/// no others. Under each there is what the last pair with that key says.
pub proof fn law_mappings_are_as_written(document: DocumentView, id: NodeId) -> (c: int)
    requires
        is_document(document),
        id.0 < document.cst.nodes.len(),
        document.cst.nodes[id.0 as int].kind is Mapping,
    ensures
        ({
            let tree = document.tree;
            let entries = document.cst.nodes[id.0 as int].kind->Mapping_0;
            &&& is_node_for(document, id, c)
            &&& forall|key: Seq<char>| #[trigger]
                entries.contains_key(key) <==> exists|p: int| #[trigger]
                    is_pair_in(tree.nodes, c, p) && has_key(tree, p, key)
            &&& forall|key: Seq<char>| #[trigger]
                entries.contains_key(key) ==> exists|p: int| #[trigger]
                    is_last_with_key(tree, c, p, key) && is_entry_for(
                        document,
                        c,
                        p,
                        entries[key],
                    )
        }),
{
    lemma_document(document);
    lemma_document_written(document);
    let tree = document.tree;
    let nodes = document.cst.nodes;
    let kind = nodes[id.0 as int].kind;
    let entries = kind->Mapping_0;
    assert(kind_written(tree, nodes, kind));
    assert(kind_linked(nodes, id.0 as int, kind));
    let c = choose|c: int| is_mapping_of(tree, nodes, c, kind->Mapping_0, kind->Mapping_1);
    let pairs = pairs_of(tree.nodes, c);
    law_pairs_are_in_order(tree.nodes, c);
    lemma_mapping_is_no_alias(tree.nodes[c].kind);
    lemma_resolved_alias(nodes, id);
    assert forall|key: Seq<char>| #[trigger] entries.contains_key(key) implies exists|p: int|
        #[trigger]
        is_last_with_key(tree, c, p, key) && is_entry_for(document, c, p, entries[key]) by {
        let j = choose|j: int| #[trigger]
            is_last_pair(tree, pairs, j, key) && is_entry_of(
                tree,
                nodes,
                c,
                pairs[j],
                key,
                entries[key],
            );
        let p = pairs[j];
        assert(pairs.contains(p));
        lemma_has_key(document, c, p, key);
        lemma_last(document, c, j, key);
        lemma_entry_for(document, id, c, p, key);
        assert(is_last_with_key(tree, c, p, key));
    }
    assert forall|key: Seq<char>|
        (exists|p: int| #[trigger] is_pair_in(tree.nodes, c, p) && has_key(tree, p, key)) implies
        #[trigger] entries.contains_key(key) by {
        let p = choose|p: int| #[trigger] is_pair_in(tree.nodes, c, p) && has_key(tree, p, key);
        assert(pairs.contains(p));
        let j = choose|j: int| 0 <= j < pairs.len() && pairs[j] == p;
        assert(entries.contains_key(pair_name(tree, pairs[j])));
        if pair_key(tree.nodes, p) is Some {
            lemma_has_key(document, c, p, key);
        }
    }
    assert forall|key: Seq<char>| #[trigger] entries.contains_key(key) implies exists|p: int|
        #[trigger]
        is_pair_in(tree.nodes, c, p) && has_key(tree, p, key) by {
        let p = choose|p: int| #[trigger] is_last_with_key(tree, c, p, key);
        assert(is_pair_in(tree.nodes, c, p) && has_key(tree, p, key));
    }
    c
}

proof fn lemma_last(document: DocumentView, c: int, j: int, key: Seq<char>)
    requires
        is_document(document),
        0 <= c < document.tree.nodes.len(),
        is_last_pair(document.tree, pairs_of(document.tree.nodes, c), j, key),
    ensures
        forall|q: int| #[trigger]
            is_pair_in(document.tree.nodes, c, q) && has_key(document.tree, q, key) ==> q
                <= pairs_of(document.tree.nodes, c)[j],
{
    let tree = document.tree;
    let pairs = pairs_of(tree.nodes, c);
    law_pairs_are_in_order(tree.nodes, c);
    assert forall|q: int| #[trigger]
        is_pair_in(tree.nodes, c, q) && has_key(tree, q, key) implies q <= pairs[j] by {
        assert(pairs.contains(q));
        let m = choose|m: int| 0 <= m < pairs.len() && pairs[m] == q;
        if pair_key(tree.nodes, q) is Some {
            lemma_has_key(document, c, q, key);
        }
        if j < m {
            assert(pair_name(tree, pairs[m]) != key);
        } else if m < j {
            assert(pairs[m] < pairs[j]);
        }
    }
}

proof fn lemma_entry_for(document: DocumentView, id: NodeId, c: int, p: int, key: Seq<char>)
    requires
        is_document(document),
        id.0 < document.cst.nodes.len(),
        document.cst.nodes[id.0 as int].kind is Mapping,
        0 <= c < document.tree.nodes.len(),
        is_pair_in(document.tree.nodes, c, p),
        document.cst.nodes[id.0 as int].kind->Mapping_0.contains_key(key),
        is_entry_of(
            document.tree,
            document.cst.nodes,
            c,
            p,
            key,
            document.cst.nodes[id.0 as int].kind->Mapping_0[key],
        ),
    ensures
        is_entry_for(document, c, p, document.cst.nodes[id.0 as int].kind->Mapping_0[key]),
{
    lemma_document(document);
    let tree = document.tree;
    let nodes = document.cst.nodes;
    let kind = nodes[id.0 as int].kind;
    let entry = kind->Mapping_0[key];
    assert(kind_linked(nodes, id.0 as int, kind));
    lemma_has_key(document, c, p, key);
    lemma_node_read(document, entry.key_id, pair_key(tree.nodes, p)->Some_0);
    if let Some(value) = pair_value(tree.nodes, p) {
        assert(is_child(tree.nodes, p, value));
        assert(end_of(tree.nodes, p) <= tree.nodes.len());
        lemma_node_read(document, entry.value_id->Some_0, value);
    }
}

/// Mappings and sequences are not aliases.
proof fn lemma_mapping_is_no_alias(kind: Seq<char>)
    ensures
        is_mapping(kind) || is_sequence(kind) ==> kind != "alias"@,
        is_mapping(kind) ==> !is_sequence(kind),
{
    reveal_strlit("alias");
    reveal_strlit("block_mapping");
    reveal_strlit("flow_mapping");
    reveal_strlit("block_mapping_pair");
    reveal_strlit("flow_pair");
    reveal_strlit("block_sequence");
    reveal_strlit("flow_sequence");
    assert("alias"@.len() == 5);
    assert("block_mapping"@.len() == 13);
    assert("flow_mapping"@.len() == 12);
    assert("block_mapping_pair"@.len() == 18);
    assert("flow_pair"@.len() == 9);
    assert("block_sequence"@.len() == 14);
    assert("flow_sequence"@.len() == 13);
    assert("flow_sequence"@[0] != "block_mapping"@[0]);
}

/// A sequence is what is written. Its items are the named children but comments of
/// what is written, in their order, and each is read from what its child holds.
pub proof fn law_sequences_are_as_written(document: DocumentView, id: NodeId) -> (result: (
    int,
    Seq<int>,
))
    requires
        is_document(document),
        id.0 < document.cst.nodes.len(),
        document.cst.nodes[id.0 as int].kind is Sequence,
    ensures
        ({
            let (c, children) = result;
            let nodes = document.tree.nodes;
            let item_ids = document.cst.nodes[id.0 as int].kind->Sequence_0;
            &&& is_node_for(document, id, c)
            &&& rises(children)
            &&& forall|k: int| #[trigger]
                children.contains(k) <==> is_named_child(nodes, c, k) && nodes[k].kind
                    != "comment"@
            &&& item_ids.len() == children.len()
            &&& forall|j: int|
                0 <= j < item_ids.len() ==> is_item_for(
                    document,
                    #[trigger] item_ids[j],
                    children[j],
                )
        }),
{
    lemma_document(document);
    lemma_document_written(document);
    let tree = document.tree;
    let nodes = document.cst.nodes;
    let kind = nodes[id.0 as int].kind;
    let item_ids = kind->Sequence_0;
    assert(kind_written(tree, nodes, kind));
    assert(kind_linked(nodes, id.0 as int, kind));
    let c = choose|c: int| is_sequence_of(tree, nodes, c, kind->Sequence_0, kind->Sequence_1);
    let items = sequence_items(tree.nodes, c + 1, end_of(tree.nodes, c));
    let children = law_items_are_the_children(tree.nodes, c);
    lemma_mapping_is_no_alias(tree.nodes[c].kind);
    lemma_resolved_alias(nodes, id);
    assert forall|j: int| 0 <= j < item_ids.len() implies is_item_for(
        document,
        #[trigger] item_ids[j],
        children[j],
    ) by {
        assert(item_ids[0 + j] == item_ids[j]);
        assert(children.contains(children[j]));
        assert(is_item_value(tree.nodes, children[j], items[j]));
        assert(end_of(tree.nodes, c) <= tree.nodes.len());
        assert(end_of(tree.nodes, children[j]) <= tree.nodes.len());
        lemma_node_read(document, item_ids[j], items[j]);
    }
    (c, children)
}

/// Whether node `id` of the reduced tree is read from what the child `k` of a
/// sequence holds.
pub open spec fn is_item_for(document: DocumentView, id: NodeId, k: int) -> bool {
    exists|i: int| #[trigger]
        is_item_value(document.tree.nodes, k, i) && is_node_read_from(document, id, i)
}

/// The topmost feature is what the whole source is read as.
pub proof fn law_top_is_as_written(document: DocumentView) -> (c: int)
    requires
        is_document(document),
    ensures
        ({
            let nodes = document.cst.nodes;
            let top = feature_of(nodes, document.cst.root_id, QueryMode::Exact);
            &&& reads_as(document.tree.nodes, 0, c)
            &&& is_at(top.location, document.tree.nodes[c].span)
            &&& feature_kind(nodes, top.node_id) == written_kind(document.tree.nodes[c].kind)
            &&& top.context is None
            &&& top.node_id == Some(document.cst.root_id)
        }),
{
    lemma_document(document);
    lemma_document_written(document);
    assert("stream"@ != "anchor"@) by {
        reveal_strlit("stream");
        reveal_strlit("anchor");
        assert("stream"@[0] != "anchor"@[0]);
    }
    let c = content(document.tree.nodes, 0);
    lemma_content_is_read(document.tree.nodes, 0);
    lemma_node_for(document, document.cst.root_id, c);
    c
}

/// Where a key leads, the features are what is written. The route's parent leads to
/// a mapping, and the last pair in it with that key says the rest: the "pretty"
/// feature is the pair, or for a bare key the mapping, the "key only" feature is
/// read from its key, and the "exact" feature says what its value is read as. There
/// is no "exact" feature exactly where the pair has no value. The context of all
/// three is the mapping.
pub proof fn law_key_features_are_as_written(
    document: DocumentView,
    route: Seq<ComponentView>,
) -> (result: (int, int))
    requires
        is_document(document),
        located(document.cst.nodes, document.cst.root_id, route) is Ok,
        route.len() > 0,
        route.last() is Key,
    ensures
        ({
            let (c, p) = result;
            let nodes = document.tree.nodes;
            let found = located(document.cst.nodes, document.cst.root_id, route)->Ok_0;
            let pretty = pretty_feature(document.cst.nodes, found);
            &&& located(document.cst.nodes, document.cst.root_id, route.drop_last()) matches Ok(
                before,
            )
            &&& exact_feature(document.cst.nodes, before) matches Some(around)
            &&& is_at(around.location, nodes[c].span)
            &&& feature_kind(document.cst.nodes, around.node_id) == FeatureKind::Mapping
            &&& written_kind(nodes[c].kind) == FeatureKind::Mapping
            &&& is_last_with_key(document.tree, c, p, route.last()->Key_0)
            &&& is_at(
                pretty.location,
                if nodes[p].kind == "flow_node"@ {
                    nodes[c].span
                } else {
                    nodes[p].span
                },
            )
            &&& pretty.context == Some(around.location)
            &&& key_feature(document.cst.nodes, found) matches Ok(key)
            &&& key.context == Some(around.location)
            &&& key_node(nodes, p) matches Some(node)
            &&& nodes[node as int].kind != "anchor"@ ==> exists|k: int| #[trigger]
                reads_as(nodes, node as int, k) && is_at(key.location, nodes[k].span)
            &&& if nodes[p].kind == "flow_node"@ || nodes[p].value is None {
                exact_feature(document.cst.nodes, found) is None
            } else {
                &&& exact_feature(document.cst.nodes, found) matches Some(exact)
                &&& exact.context == Some(around.location)
                &&& is_feature_read_from(document, exact, nodes[p].value->Some_0 as int)
            }
        }),
{
    lemma_document(document);
    let nodes = document.cst.nodes;
    let key = route.last()->Key_0;
    let id = lemma_last_step(document, route);
    let entries = nodes[id.0 as int].kind->Mapping_0;
    let c = law_mappings_are_as_written(document, id);
    lemma_mapping_kind(document, id, c);
    let p = choose|p: int| #[trigger]
        is_last_with_key(document.tree, c, p, key) && is_entry_for(document, c, p, entries[key]);
    lemma_key_read(document, id, c, p, key);
    if let Some(value_id) = entries[key].value_id {
        assert(kind_linked(nodes, id.0 as int, nodes[id.0 as int].kind));
        lemma_value_read(document, value_id, document.tree.nodes[p].value->Some_0 as int);
    }
    (c, p)
}

proof fn lemma_mapping_kind(document: DocumentView, id: NodeId, c: int)
    requires
        is_document(document),
        is_node_for(document, id, c),
        document.cst.nodes[id.0 as int].kind is Mapping || document.cst.nodes[id.0 as int].kind
            is Sequence,
    ensures
        feature_kind(document.cst.nodes, Some(id)) == written_kind(document.tree.nodes[c].kind),
        document.cst.nodes[id.0 as int].kind is Mapping ==> feature_kind(
            document.cst.nodes,
            Some(id),
        ) == FeatureKind::Mapping,
        document.cst.nodes[id.0 as int].kind is Sequence ==> feature_kind(
            document.cst.nodes,
            Some(id),
        ) == FeatureKind::Sequence,
{
    lemma_document(document);
    assert(resolved_alias(document.cst.nodes, id) == id);
}

proof fn lemma_key_read(document: DocumentView, id: NodeId, c: int, p: int, key: Seq<char>)
    requires
        is_document(document),
        id.0 < document.cst.nodes.len(),
        document.cst.nodes[id.0 as int].kind is Mapping,
        document.cst.nodes[id.0 as int].kind->Mapping_0.contains_key(key),
        is_entry_for(document, c, p, document.cst.nodes[id.0 as int].kind->Mapping_0[key]),
    ensures
        ({
            let nodes = document.tree.nodes;
            let entry = document.cst.nodes[id.0 as int].kind->Mapping_0[key];
            &&& key_node(nodes, p) matches Some(node)
            &&& nodes[node as int].kind != "anchor"@ ==> exists|k: int| #[trigger]
                reads_as(nodes, node as int, k) && is_at(
                    location_of(document.cst.nodes, entry.key_id, QueryMode::Exact),
                    nodes[k].span,
                )
        }),
{
    let nodes = document.tree.nodes;
    let entry = document.cst.nodes[id.0 as int].kind->Mapping_0[key];
    let node = key_node(nodes, p)->Some_0 as int;
    if nodes[node].kind != "anchor"@ {
        let k = choose|k: int| #[trigger]
            reads_as(nodes, node, k) && is_node_for(document, entry.key_id, k);
        assert(reads_as(nodes, node, k));
    }
}

/// What a node stands for says what the syntax node that it is read from says.
proof fn lemma_value_read(document: DocumentView, id: NodeId, n: int)
    requires
        is_document(document),
        id.0 < document.cst.nodes.len(),
        is_node_read_from(document, id, n),
    ensures
        ({
            let nodes = document.cst.nodes;
            let resolved = resolved_alias(nodes, id);
            &&& resolved.0 < nodes.len()
            &&& document.tree.nodes[n].kind != "anchor"@ ==> exists|c: int| #[trigger]
                reads_as(document.tree.nodes, n, c) && says(
                    document,
                    location_of(nodes, resolved, QueryMode::Exact),
                    feature_kind(nodes, Some(resolved)),
                    c,
                )
        }),
{
    lemma_document(document);
    lemma_resolved_alias(document.cst.nodes, id);
    if document.tree.nodes[n].kind != "anchor"@ {
        let c = choose|c: int| #[trigger]
            reads_as(document.tree.nodes, n, c) && is_node_for(document, id, c);
        law_alias_says_what_is_anchored(document, id, c);
        assert(reads_as(document.tree.nodes, n, c));
    }
}

/// Where an index leads, the features are what is written. The route's parent leads
/// to a sequence, and the named child but comments that stands there at that index
/// says the rest: the feature says what that child is read as, in "exact" and in
/// "pretty" mode. The index is below the number of such children.
pub proof fn law_index_features_are_as_written(
    document: DocumentView,
    route: Seq<ComponentView>,
) -> (result: (int, Seq<int>))
    requires
        is_document(document),
        located(document.cst.nodes, document.cst.root_id, route) is Ok,
        route.len() > 0,
        route.last() is Index,
    ensures
        ({
            let (c, children) = result;
            let nodes = document.tree.nodes;
            let index = route.last()->Index_0;
            let found = located(document.cst.nodes, document.cst.root_id, route)->Ok_0;
            let pretty = pretty_feature(document.cst.nodes, found);
            &&& located(document.cst.nodes, document.cst.root_id, route.drop_last()) matches Ok(
                before,
            )
            &&& exact_feature(document.cst.nodes, before) matches Some(around)
            &&& is_at(around.location, nodes[c].span)
            &&& feature_kind(document.cst.nodes, around.node_id) == FeatureKind::Sequence
            &&& written_kind(nodes[c].kind) == FeatureKind::Sequence
            &&& rises(children)
            &&& forall|k: int| #[trigger]
                children.contains(k) <==> is_named_child(nodes, c, k) && nodes[k].kind
                    != "comment"@
            &&& index < children.len()
            &&& exact_feature(document.cst.nodes, found) matches Some(exact)
            &&& pretty == exact
            &&& exists|i: int| #[trigger]
                is_item_value(nodes, children[index as int], i) && is_feature_read_from(
                    document,
                    exact,
                    i,
                )
        }),
{
    lemma_document(document);
    let nodes = document.cst.nodes;
    let index = route.last()->Index_0;
    let id = lemma_last_step(document, route);
    let item_ids = nodes[id.0 as int].kind->Sequence_0;
    let (c, children) = law_sequences_are_as_written(document, id);
    lemma_mapping_kind(document, id, c);
    let item_id = item_ids[index as int];
    assert(kind_linked(nodes, id.0 as int, nodes[id.0 as int].kind));
    assert(is_item_for(document, item_id, children[index as int]));
    let i = choose|i: int| #[trigger]
        is_item_value(document.tree.nodes, children[index as int], i) && is_node_read_from(
            document,
            item_id,
            i,
        );
    lemma_value_read(document, item_id, i);
    lemma_pretty_is_exact(document, resolved_alias(nodes, item_id));
    let found = located(nodes, document.cst.root_id, route)->Ok_0;
    let exact = exact_feature(nodes, found)->Some_0;
    assert(is_feature_read_from(document, exact, i));
    (c, children)
}

/// A node is at the same place in "pretty" and in "exact" mode.
proof fn lemma_pretty_is_exact(document: DocumentView, id: NodeId)
    requires
        is_document(document),
        id.0 < document.cst.nodes.len(),
    ensures
        feature_of(document.cst.nodes, id, QueryMode::Pretty) == feature_of(
            document.cst.nodes,
            id,
            QueryMode::Exact,
        ),
{
    lemma_document(document);
    assert(kind_fits(document.tree.text, document.cst.nodes[id.0 as int].kind));
}

/// From a mapping a key leads on exactly if a pair in what is written has that key.
pub proof fn law_keys_lead_on_where_they_are_written(
    document: DocumentView,
    route: Seq<ComponentView>,
) -> (c: int)
    requires
        is_document(document),
        located(document.cst.nodes, document.cst.root_id, route) is Ok,
        exact_feature(
            document.cst.nodes,
            located(document.cst.nodes, document.cst.root_id, route)->Ok_0,
        ) matches Some(feature) && feature_kind(document.cst.nodes, feature.node_id)
            == FeatureKind::Mapping,
    ensures
        ({
            let nodes = document.cst.nodes;
            let root_id = document.cst.root_id;
            let feature = exact_feature(nodes, located(nodes, root_id, route)->Ok_0)->Some_0;
            &&& is_at(feature.location, document.tree.nodes[c].span)
            &&& written_kind(document.tree.nodes[c].kind) == FeatureKind::Mapping
            &&& forall|key: Seq<char>|
                (#[trigger] located(
                    nodes,
                    root_id,
                    route.push(ComponentView::Key(key)),
                )) is Ok <==> exists|p: int| #[trigger]
                    is_pair_in(document.tree.nodes, c, p) && has_key(document.tree, p, key)
        }),
{
    let nodes = document.cst.nodes;
    let root_id = document.cst.root_id;
    lemma_document(document);
    law_kind_says_how_routes_go_on(document, route, Seq::empty(), 0);
    let feature = exact_feature(nodes, located(nodes, root_id, route)->Ok_0)->Some_0;
    let id = feature.node_id->Some_0;
    lemma_exact_location(document, route);
    let c = law_mappings_are_as_written(document, id);
    lemma_mapping_kind(document, id, c);
    let entries = nodes[id.0 as int].kind->Mapping_0;
    assert forall|key: Seq<char>|
        (#[trigger] located(nodes, root_id, route.push(ComponentView::Key(key)))) is Ok
            <==> entries.contains_key(key) by {
        law_kind_says_how_routes_go_on(document, route, key, 0);
    }
    c
}

/// From a sequence an index leads on exactly if it is below the number of named
/// children but comments of what is written.
pub proof fn law_indices_lead_on_where_they_are_written(
    document: DocumentView,
    route: Seq<ComponentView>,
) -> (result: (int, Seq<int>))
    requires
        is_document(document),
        located(document.cst.nodes, document.cst.root_id, route) is Ok,
        exact_feature(
            document.cst.nodes,
            located(document.cst.nodes, document.cst.root_id, route)->Ok_0,
        ) matches Some(feature) && feature_kind(document.cst.nodes, feature.node_id)
            == FeatureKind::Sequence,
    ensures
        ({
            let (c, children) = result;
            let nodes = document.cst.nodes;
            let root_id = document.cst.root_id;
            let feature = exact_feature(nodes, located(nodes, root_id, route)->Ok_0)->Some_0;
            &&& is_at(feature.location, document.tree.nodes[c].span)
            &&& written_kind(document.tree.nodes[c].kind) == FeatureKind::Sequence
            &&& rises(children)
            &&& forall|k: int| #[trigger]
                children.contains(k) <==> is_named_child(document.tree.nodes, c, k)
                    && document.tree.nodes[k].kind != "comment"@
            &&& forall|index: usize|
                (#[trigger] located(
                    nodes,
                    root_id,
                    route.push(ComponentView::Index(index)),
                )) is Ok <==> index < children.len()
        }),
{
    let nodes = document.cst.nodes;
    let root_id = document.cst.root_id;
    lemma_document(document);
    law_kind_says_how_routes_go_on(document, route, Seq::empty(), 0);
    let feature = exact_feature(nodes, located(nodes, root_id, route)->Ok_0)->Some_0;
    let id = feature.node_id->Some_0;
    lemma_exact_location(document, route);
    let (c, children) = law_sequences_are_as_written(document, id);
    lemma_mapping_kind(document, id, c);
    assert forall|index: usize|
        (#[trigger] located(nodes, root_id, route.push(ComponentView::Index(index)))) is Ok
            <==> index < children.len() by {
        law_kind_says_how_routes_go_on(document, route, Seq::empty(), index);
    }
    (c, children)
}

/// An "exact" feature is at the place of its node.
proof fn lemma_exact_location(document: DocumentView, route: Seq<ComponentView>)
    requires
        is_document(document),
        located(document.cst.nodes, document.cst.root_id, route) is Ok,
    ensures
        exact_feature(
            document.cst.nodes,
            located(document.cst.nodes, document.cst.root_id, route)->Ok_0,
        ) matches Some(feature) ==> feature.node_id matches Some(id) && feature.location
            == location_of(document.cst.nodes, id, QueryMode::Exact),
{
}

/// Where only spaces stand between the beginning of the line and a feature, what is
/// extracted with leading whitespace begins where the line begins. Otherwise it
/// begins where the feature begins.
pub proof fn law_indentation_is_taken_as_a_whole(text: Seq<char>, start: int, end: int, line: int)
    requires
        is_slice(text, start, end),
        0 <= line <= start,
        line == 0 || encode_utf8(text)[line - 1] == 0x0a,
        forall|j: int| line <= j < start ==> #[trigger] encode_utf8(text)[j] != 0x0a,
    ensures
        (forall|j: int| line <= j < start ==> #[trigger] encode_utf8(text)[j] == 0x20)
            ==> indent_start(encode_utf8(text), start) == line,
        !(forall|j: int| line <= j < start ==> #[trigger] encode_utf8(text)[j] == 0x20)
            ==> indent_start(encode_utf8(text), start) == start,
{
    let bytes = encode_utf8(text);
    if forall|j: int| line <= j < start ==> #[trigger] bytes[j] == 0x20 {
        assert(is_indent_start(bytes, start, line));
    }
    if exists|i: int| is_indent_start(bytes, start, i) {
        let i = indent_start(bytes, start);
        assert(is_indent_start(bytes, start, i));
        if i < line {
            assert(bytes[line - 1] == 0x20);
        }
        if line < i {
            assert(bytes[i - 1] == 0x0a);
        }
    }
}

/// What is extracted with leading whitespace begins at the feature or before it. If
/// it begins before it, nothing or a newline stands in front of it, and only spaces
/// stand between. If something else than a space stands directly before the
/// feature, nothing is added.
pub proof fn law_leading_whitespace_is_indentation(text: Seq<char>, start: int, end: int)
    requires
        is_slice(text, start, end),
    ensures
        ({
            let bytes = encode_utf8(text);
            let begin = indent_start(bytes, start);
            &&& 0 <= begin <= start
            &&& begin < start ==> begin == 0 || bytes[begin - 1] == 0x0a
            &&& forall|j: int| begin <= j < start ==> #[trigger] bytes[j] == 0x20
            &&& start > 0 && bytes[start - 1] != 0x20 ==> begin == start
        }),
{
    let bytes = encode_utf8(text);
    if exists|i: int| is_indent_start(bytes, start, i) {
        let i = indent_start(bytes, start);
        assert(is_indent_start(bytes, start, i));
    }
}

/// Where a key leads, the nodes of the features are those for its key and its value.
/// The mapping is the parent of both. The "pretty" feature has the node for the
/// value, and no node where there is no value. The "exact" feature has what that
/// node stands for, and so is of the same kind.
pub proof fn law_key_features_have_nodes(document: DocumentView, route: Seq<ComponentView>) -> (
    result: (int, int))
    requires
        is_document(document),
        located(document.cst.nodes, document.cst.root_id, route) is Ok,
        route.len() > 0,
        route.last() is Key,
    ensures
        ({
            let (c, p) = result;
            let nodes = document.cst.nodes;
            let found = located(nodes, document.cst.root_id, route)->Ok_0;
            let before = located(nodes, document.cst.root_id, route.drop_last())->Ok_0;
            let around = exact_feature(nodes, before)->Some_0;
            let pretty = pretty_feature(nodes, found);
            let key = key_feature(nodes, found)->Ok_0;
            &&& is_last_with_key(document.tree, c, p, route.last()->Key_0)
            &&& is_at(around.location, document.tree.nodes[c].span)
            &&& key.node_id matches Some(key_id)
            &&& is_node_read_from(
                document,
                key_id,
                key_node(document.tree.nodes, p)->Some_0 as int,
            )
            &&& parent_feature(nodes, key.node_id) matches Some(parent)
            &&& parent.node_id == around.node_id
            &&& match exact_feature(nodes, found) {
                Some(exact) => {
                    &&& pretty.node_id matches Some(value_id)
                    &&& is_node_read_from(
                        document,
                        value_id,
                        document.tree.nodes[p].value->Some_0 as int,
                    )
                    &&& parent_feature(nodes, pretty.node_id) matches Some(above)
                    &&& above.node_id == around.node_id
                    &&& feature_kind(nodes, exact.node_id) == feature_kind(nodes, pretty.node_id)
                },
                None => pretty.node_id is None,
            }
        }),
{
    lemma_document(document);
    let nodes = document.cst.nodes;
    let key = route.last()->Key_0;
    let id = lemma_last_step(document, route);
    let entries = nodes[id.0 as int].kind->Mapping_0;
    let c = law_mappings_are_as_written(document, id);
    let p = choose|p: int| #[trigger]
        is_last_with_key(document.tree, c, p, key) && is_entry_for(document, c, p, entries[key]);
    law_parent_of_entry(document, id, key);
    if let Some(value_id) = entries[key].value_id {
        assert(kind_linked(nodes, id.0 as int, nodes[id.0 as int].kind));
        lemma_resolved_alias(nodes, value_id);
        let resolved = resolved_alias(nodes, value_id);
        assert(resolved_alias(nodes, resolved) == resolved);
    }
    (c, p)
}

/// The context of a feature that has a node and is the topmost one, or that an index
/// leads to, is the parent of that node, and a feature's parent is at the place of its
/// own node.
pub proof fn law_contexts_are_parents(document: DocumentView, id: NodeId)
    requires
        is_document(document),
        id.0 < document.cst.nodes.len(),
    ensures
        ({
            let nodes = document.cst.nodes;
            let feature = feature_of(nodes, id, QueryMode::Exact);
            &&& feature.node_id == Some(id)
            &&& match parent_feature(nodes, Some(id)) {
                Some(parent) => {
                    &&& feature.context == Some(parent.location)
                    &&& parent.context is None
                    &&& parent.node_id matches Some(parent_id)
                    &&& parent.location == feature_of(nodes, parent_id, QueryMode::Exact).location
                },
                None => feature.context is None,
            }
        }),
{
}

/// A feature without a node, such as a comment or an absent value, is a scalar and
/// has no parent. A comment is at the place where it is written.
pub proof fn law_features_without_nodes(document: DocumentView, i: int)
    requires
        0 <= i < document.tree.nodes.len(),
    ensures
        feature_kind(document.cst.nodes, None) == FeatureKind::Scalar,
        parent_feature(document.cst.nodes, None) is None,
        ({
            let comment = comment_feature(document.tree.nodes[i]);
            &&& is_at(comment.location, document.tree.nodes[i].span)
            &&& comment.node_id is None
            &&& comment.context is None
        }),
{
}

/// The location of a span has its bytes and its points.
pub proof fn law_locations_are_spans(span: SpanInfo)
    ensures
        is_at(span.location(), span),
{
}

/// The value of a list of decimal digits.
pub open spec fn digits_value(digits: Seq<char>) -> int
    decreases digits.len(),
{
    if digits.len() == 0 {
        0
    } else {
        10 * digits_value(digits.drop_last()) + (digits.last() as int - '0' as int)
    }
}

/// A number in decimal digits has that number for its value. It has only digits, and
/// no zero in front unless it is zero.
pub proof fn law_decimals_have_their_value(n: nat)
    ensures
        digits_value(decimal(n)) == n,
        decimal(n).len() > 0,
        decimal(n).len() > 1 ==> decimal(n)[0] != '0',
        forall|i: int|
            0 <= i < decimal(n).len() ==> '0' <= #[trigger] decimal(n)[i] && decimal(n)[i] <= '9',
    decreases n,
{
    let digits = decimal(n);
    if n < 10 {
        assert(digits == seq![digit(n)]);
        assert(digits.drop_last() =~= Seq::<char>::empty());
        assert(digits_value(digits.drop_last()) == 0);
    } else {
        law_decimals_have_their_value(n / 10);
        let front = decimal(n / 10);
        assert(digits == front.push(digit(n % 10)));
        assert(digits.drop_last() =~= front);
        assert(n == 10 * (n / 10) + n % 10);
        assert(front.len() == 1 ==> front[0] != '0') by {
            if front.len() == 1 {
                assert(digits_value(front.drop_last()) == 0);
                assert(digits_value(front) == front[0] as int - '0' as int);
            }
        }
    }
}

/// What each error says, word for word.
pub proof fn law_messages_of_errors(
    key: Seq<char>,
    other: Seq<char>,
    index: usize,
    len: usize,
    language: tree_sitter::LanguageError,
)
    ensures
        message_of(ErrorView::InvalidLanguage(language))
            == "malformed or unsupported tree-sitter grammar"@,
        message_of(ErrorView::InvalidInput) == "input is not valid YAML"@,
        message_of(ErrorView::ExpectedMapping(key)) == "expected mapping containing key `"@ + key
            + "`"@,
        message_of(ErrorView::ExpectedList(index)) == "expected list for index `["@ + decimal(
            index as nat,
        ) + "]`"@,
        message_of(ErrorView::ExhaustedMapping(key)) == "mapping has no key `"@ + key + "`"@,
        message_of(ErrorView::ExhaustedList(index, len)) == "index `["@ + decimal(index as nat)
            + "]` exceeds list size ("@ + decimal(len as nat) + ")"@,
        message_of(ErrorView::UnexpectedNode(key)) == "unexpected node: `"@ + key + "`"@,
        message_of(ErrorView::MissingChild(key, other)) == "syntax node `"@ + key
            + "` is missing named child `"@ + other + "`"@,
        message_of(ErrorView::MissingChildField(key, other)) == "syntax node `"@ + key
            + "` is missing child field `"@ + other + "`"@,
        message_of(ErrorView::Other(key)) == "route error: "@ + key,
{
}

/// A source whose syntax has an error is refused as invalid input.
pub proof fn law_errors_in_the_syntax_are_invalid_input(text: Seq<char>)
    requires
        yaml_has_error(text),
    ensures
        document_of(text) == Err::<DocumentView, _>(ErrorView::InvalidInput),
{
}

/// A source with an anchor that has nothing named beside it but anchors and comments
/// is refused.
pub proof fn law_anchors_without_values_are_refused(
    text: Seq<char>,
    nodes: Seq<SyntaxNodeView>,
    i: int,
)
    requires
        well_nested(nodes),
        0 <= i < nodes.len(),
        nodes[i].kind == "anchor"@,
        forall|p: int, k: int|
            is_child(nodes, p, i) && #[trigger] is_named_child(nodes, p, k) ==> nodes[k].kind
                == "anchor"@ || nodes[k].kind == "comment"@,
    ensures
        source_read(text, Some(nodes)) matches Err(error) && error is UnexpectedNode,
{
    law_anchors_are_for_the_value_beside_them(nodes, i);
    assert(anchor_target(nodes, i) is Err) by {
        if let Ok(t) = anchor_target(nodes, i) {
            let p = choose|p: int| #[trigger] is_child(nodes, p, i) && is_value_in(nodes, p, t);
            assert(is_named_child(nodes, p, t));
        }
    }
    lemma_refused(text, nodes, i, nodes.len() as int);
}

proof fn lemma_refused(text: Seq<char>, nodes: Seq<SyntaxNodeView>, i: int, n: int)
    requires
        0 <= i < n,
        nodes[i].kind == "anchor"@,
        anchor_target(nodes, i) is Err,
    ensures
        anchors_among(text, nodes, n) matches Err(error) && error is UnexpectedNode,
    decreases n,
{
    if i < n - 1 {
        lemma_refused(text, nodes, i, n - 1);
    } else {
        lemma_only_unexpected(text, nodes, n - 1);
    }
}

proof fn lemma_only_unexpected(text: Seq<char>, nodes: Seq<SyntaxNodeView>, n: int)
    ensures
        anchors_among(text, nodes, n) matches Err(error) ==> error is UnexpectedNode,
    decreases n,
{
    if n > 0 {
        lemma_only_unexpected(text, nodes, n - 1);
    }
}

/// What a name stands for is what was last set for it at a position before. Setting
/// one name leaves the others as they are.
pub proof fn law_names_stand_for_what_was_last_set(
    anchors: Map<Seq<char>, Map<usize, usize>>,
    name: Seq<char>,
    position: usize,
    node: usize,
    end: usize,
    other: Seq<char>,
)
    ensures
        position < end && (anchors.contains_key(name) ==> forall|p: usize|
            #![trigger anchors[name].contains_key(p)]
            anchors[name].contains_key(p) ==> p <= position || end <= p) ==> anchored_at(
            with_anchor(anchors, name, position, node),
            name,
            end,
        ) == Some(node),
        other != name ==> anchored_at(with_anchor(anchors, name, position, node), other, end)
            == anchored_at(anchors, other, end),
        anchored_at(Map::empty(), name, end) is None,
{
    let after = with_anchor(anchors, name, position, node);
    if position < end && (anchors.contains_key(name) ==> forall|p: usize|
        #![trigger anchors[name].contains_key(p)]
        anchors[name].contains_key(p) ==> p <= position || end <= p) {
        let positions = after[name];
        assert(positions.contains_key(position));
        assert(is_last_before(positions, end, position));
        let chosen = choose|p: usize| is_last_before(positions, end, p);
        assert(is_last_before(positions, end, chosen));
        assert(chosen == position);
    }
}

/// The comments of a feature come in the order of the source, level by level: of what
/// is inside a node the comments among its children come first, in their order, and
/// then those inside each of its children, in the order of these.
pub proof fn law_comments_are_in_order(document: DocumentView, first: usize, last: usize)
    requires
        is_document(document),
    ensures
        ({
            let nodes = document.tree.nodes;
            let found = trawled(nodes, 0, document.comment_id, first, last);
            forall|p: int, q: int|
                0 <= p < q < found.len() ==> comes_first(
                    nodes,
                    #[trigger] found[p],
                    #[trigger] found[q],
                )
        }),
{
    lemma_rows_nested(document.tree.nodes, document.tree.text);
    lemma_trawled_ordered(document.tree.nodes, 0, document.comment_id, first, last);
}

/// A comment spans a range if it begins at or before it and ends at or behind it, and
/// does not end where the range begins. It covers the range if besides, where the
/// range is empty, the comment goes on to both sides of it.
pub proof fn law_comments_span_what_they_hold(
    document: DocumentView,
    i: int,
    start: usize,
    end: usize,
)
    requires
        is_document(document),
        0 <= i < document.tree.nodes.len(),
        document.tree.nodes[i].kind == "comment"@,
        start <= end,
    ensures
        ({
            let span = document.tree.nodes[i].span;
            &&& span.start_byte <= start < span.end_byte && end <= span.end_byte ==> comment_spans(
                document.tree.nodes,
                start,
                end,
            )
            &&& span.start_byte <= start < end <= span.end_byte ==> comment_covers(
                document.tree.nodes,
                start,
                end,
            )
            &&& span.start_byte < start == end < span.end_byte ==> comment_covers(
                document.tree.nodes,
                start,
                end,
            )
        }),
{
}

/// What was found is a comment exactly if it is of the kind of comments.
pub proof fn law_comments_are_of_their_kind(found: u16, comment_id: u16)
    ensures
        is_comment(Some(found), comment_id) <==> found == comment_id,
        !is_comment(None, comment_id),
{
}

/// A range that a comment spans or covers lies within a comment.
pub proof fn law_what_comments_span_is_in_comments(
    document: DocumentView,
    start: usize,
    end: usize,
)
    requires
        is_document(document),
        comment_spans(document.tree.nodes, start, end) || comment_covers(
            document.tree.nodes,
            start,
            end,
        ),
    ensures
        exists|i: int|
            {
                &&& 0 <= i < document.tree.nodes.len()
                &&& (#[trigger] document.tree.nodes[i]).kind == "comment"@
                &&& document.tree.nodes[i].span.start_byte <= start
                &&& start <= end
                &&& end <= document.tree.nodes[i].span.end_byte
                &&& start < document.tree.nodes[i].span.end_byte
            },
{
}

/// A syntax tree has the nodes that it is made from, in the same order, and all that
/// is said of each. Where a node names another by its id, that stands at the position
/// that is named in its place.
pub proof fn law_nodes_are_kept(raw: Seq<RawNode>, i: int)
    requires
        ids_resolve(raw),
        0 <= i < raw.len() <= usize::MAX,
    ensures
        ({
            let node = resolved(raw)[i];
            &&& resolved(raw).len() == raw.len()
            &&& node.kind == raw[i].kind@
            &&& node.kind_id == raw[i].kind_id
            &&& node.named == raw[i].named
            &&& node.size == raw[i].size
            &&& node.span.start_byte == raw[i].start_byte
            &&& node.span.end_byte == raw[i].end_byte
            &&& node.span.start_point.row == raw[i].start_row
            &&& node.span.start_point.column == raw[i].start_column
            &&& node.span.end_point.row == raw[i].end_row
            &&& node.span.end_point.column == raw[i].end_column
            &&& match raw[i].key {
                Some(id) => node.key matches Some(key) && key < raw.len() && raw[key as int].id
                    == id,
                None => node.key is None,
            }
            &&& match raw[i].value {
                Some(id) => node.value matches Some(value) && value < raw.len()
                    && raw[value as int].id == id,
                None => node.value is None,
            }
        }),
{
    assert(is_listed_after(raw, i, raw[i].key) && is_listed_after(raw, i, raw[i].value));
}

/// A route that ends with an index, and the empty route, have no key.
pub proof fn law_other_routes_have_no_key(document: DocumentView, route: Seq<ComponentView>)
    requires
        is_document(document),
        located(document.cst.nodes, document.cst.root_id, route) is Ok,
        route.len() == 0 || route.last() is Index,
    ensures
        key_feature(
            document.cst.nodes,
            located(document.cst.nodes, document.cst.root_id, route)->Ok_0,
        ) == Err::<FeatureView, _>(
            ErrorView::Other("key_only requires route to end with key"@),
        ),
{
    law_key_only_needs_a_key(document, route);
}

/// A name stands for nothing at a position exactly if it was not set before it.
pub proof fn law_names_stand_for_nothing_unless_set(
    anchors: Map<Seq<char>, Map<usize, usize>>,
    name: Seq<char>,
    position: usize,
    end: usize,
)
    ensures
        anchors.contains_key(name) && anchors[name].contains_key(position) && position < end
            ==> anchored_at(anchors, name, end) is Some,
        anchored_at(anchors, name, end) matches Some(node) ==> {
            &&& anchors.contains_key(name)
            &&& exists|p: usize| #[trigger]
                anchors[name].contains_key(p) && p < end && anchors[name][p] == node
        },
{
    if anchors.contains_key(name) && anchors[name].contains_key(position) && position < end {
        lemma_last_is_there(anchors[name], end, position);
    }
}

/// A map that has a position before `end` has a last one.
pub proof fn lemma_last_is_there(map: Map<usize, usize>, end: usize, position: usize)
    requires
        map.contains_key(position),
        position < end,
    ensures
        exists|p: usize| is_last_before(map, end, p),
    decreases end - position,
{
    if exists|p: usize| #[trigger] map.contains_key(p) && position < p < end {
        let p = choose|p: usize| #[trigger] map.contains_key(p) && position < p < end;
        lemma_last_is_there(map, end, p);
    } else {
        assert(is_last_before(map, end, position));
    }
}

} // verus!
