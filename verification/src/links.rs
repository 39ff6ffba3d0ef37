//! What holds of every reduced tree that is built.

use vstd::prelude::*;

use crate::anchors::{anchored_at, TreeView};
use crate::builder::{
    alias_target, build, build_content, build_items, build_kind, build_mapping, build_pair,
    build_pairs, build_sequence, content, holds_pair, is_mapping, is_pair, is_sequence,
    item_content, key_text, lemma_content, lemma_content_inside, lemma_item_inside,
    lemma_pair_inside, lemma_pair_is_no_wrapper, mapping_pairs, pair_key,
    pair_value, pairs_of, placeholder, pretty_span, sequence_items, BuildState,
};
use crate::cst::{AliasData, KindView, MappingEntry, NodeId, NodeView};
use crate::location::{span_fits, SpanInfo};
use crate::syntax::{
    bytes_nested, end_of, is_child, is_inside, is_syntax_of, well_nested, SyntaxNodeView,
};
use crate::text::slice_of;

verus! {

/// Whether the pairs of a mapping are slices of `text`, and lie within its span.
pub open spec fn entries_fit(
    text: Seq<char>,
    entries: Map<Seq<char>, MappingEntry>,
    span: SpanInfo,
) -> bool {
    forall|key: Seq<char>| #[trigger]
        entries.contains_key(key) ==> {
            &&& span_fits(text, entries[key].pair_span)
            &&& entries[key].pair_span.is_within(span)
        }
}

/// Whether every span of a node is a slice of `text`. The span of a scalar with
/// its indicator is its exact span.
pub open spec fn kind_fits(text: Seq<char>, kind: KindView) -> bool {
    match kind {
        KindView::Mapping(entries, span) => span_fits(text, span) && entries_fit(
            text,
            entries,
            span,
        ),
        KindView::Sequence(_, span) => span_fits(text, span),
        KindView::Scalar(scalar) => {
            &&& span_fits(text, scalar.exact_span)
            &&& scalar.pretty_span matches Some(span) ==> span == scalar.exact_span
        },
        KindView::Alias(alias) => span_fits(text, alias.span),
    }
}

/// Whether `id` is a node whose parent is node `i`, and comes after it.
pub open spec fn holds_child(nodes: Seq<NodeView>, i: int, id: NodeId) -> bool {
    &&& i < id.0 < nodes.len()
    &&& nodes[id.0 as int].parent_id == Some(NodeId(i as usize))
}

/// Whether `id` is a child of node `i`, and lies within a pair of it.
pub open spec fn holds_part(nodes: Seq<NodeView>, i: int, id: NodeId, pair_span: SpanInfo) -> bool {
    &&& holds_child(nodes, i, id)
    &&& nodes[id.0 as int].kind.exact_span().is_within(pair_span)
}

/// Whether the keys and the values of a mapping are children of node `i`, and
/// lie within their pairs.
pub open spec fn entries_linked(
    nodes: Seq<NodeView>,
    i: int,
    entries: Map<Seq<char>, MappingEntry>,
) -> bool {
    forall|key: Seq<char>| #[trigger]
        entries.contains_key(key) ==> {
            &&& holds_part(nodes, i, entries[key].key_id, entries[key].pair_span)
            &&& entries[key].value_id matches Some(value_id) ==> holds_part(
                nodes,
                i,
                value_id,
                entries[key].pair_span,
            )
        }
}

/// Whether the items of a sequence are children of node `i`.
pub open spec fn items_linked(nodes: Seq<NodeView>, i: int, item_ids: Seq<NodeId>) -> bool {
    forall|j: int| 0 <= j < item_ids.len() ==> holds_child(nodes, i, #[trigger] item_ids[j])
}

/// Whether the nodes that a kind of node names are what they should be for node
/// `i`: children of it, or, for an alias, an earlier node that has a parent and
/// is no alias.
pub open spec fn kind_linked(nodes: Seq<NodeView>, i: int, kind: KindView) -> bool {
    match kind {
        KindView::Mapping(entries, _) => entries_linked(nodes, i, entries),
        KindView::Sequence(item_ids, _) => items_linked(nodes, i, item_ids),
        KindView::Scalar(_) => true,
        KindView::Alias(alias) => {
            &&& alias.target_id.0 < i
            &&& nodes[alias.target_id.0 as int].kind !is Alias
            &&& nodes[alias.target_id.0 as int].parent_id is Some
        },
    }
}

/// Whether every node comes after its parent, and names the nodes that it
/// should.
pub open spec fn linked(nodes: Seq<NodeView>) -> bool {
    forall|i: int| #![trigger nodes[i]]
        0 <= i < nodes.len() ==> {
            &&& nodes[i].parent_id matches Some(parent) ==> parent.0 < i
            &&& kind_linked(nodes, i, nodes[i].kind)
        }
}

/// Whether every span of every node is a slice of `text`.
pub open spec fn nodes_fit(text: Seq<char>, nodes: Seq<NodeView>) -> bool {
    forall|i: int| 0 <= i < nodes.len() ==> kind_fits(text, (#[trigger] nodes[i]).kind)
}

/// Whether every node but the first has a mapping or a sequence for its parent,
/// and lies within it.
pub open spec fn all_nested(nodes: Seq<NodeView>) -> bool {
    forall|i: int| 1 <= i < nodes.len() ==> is_nested(nodes, 0, #[trigger] nodes[i])
}

/// Whether a node is a mapping or a sequence.
pub open spec fn is_container(kind: KindView) -> bool {
    kind is Mapping || kind is Sequence
}

/// Whether a node has a parent at `n` or after it that is a mapping or a
/// sequence, and lies within it.
pub open spec fn is_nested(nodes: Seq<NodeView>, n: int, node: NodeView) -> bool {
    node.parent_id matches Some(parent) && {
        &&& n <= parent.0 < nodes.len()
        &&& is_container(nodes[parent.0 as int].kind)
        &&& node.kind.exact_span().is_within(nodes[parent.0 as int].kind.exact_span())
    }
}

/// Whether a node is built from the syntax node `c`: it has its span, and is an
/// alias, a mapping or a sequence where that is one, and a scalar otherwise. A scalar
/// has its "pretty" span.
pub open spec fn is_built_from(tree: TreeView, kind: KindView, c: int) -> bool {
    &&& 0 <= c < tree.nodes.len()
    &&& kind.exact_span() == tree.nodes[c].span
    &&& if tree.nodes[c].kind == "alias"@ {
        kind is Alias
    } else if is_mapping(tree.nodes[c].kind) {
        kind is Mapping
    } else if is_sequence(tree.nodes[c].kind) {
        kind is Sequence
    } else {
        kind matches KindView::Scalar(scalar) && scalar.pretty_span == pretty_span(tree.nodes[c])
    }
}

/// Whether a node is built from the content that the alias at `span` names: that
/// of the last anchor of its name before it.
pub open spec fn is_named_by(tree: TreeView, span: SpanInfo, kind: KindView) -> bool {
    let name = slice_of(tree.text, span.start_byte + 1, span.end_byte as int);
    anchored_at(tree.anchors, name, span.start_byte) matches Some(target)
        && is_built_from(tree, kind, target as int)
}

/// Whether an entry of the mapping `c` under `key` is read off the pair `p`: it has
/// the text of its key, its nodes are built from the contents of its key and its
/// value, and it has its span.
pub open spec fn is_entry_of(
    tree: TreeView,
    nodes: Seq<NodeView>,
    c: int,
    p: int,
    key: Seq<char>,
    entry: MappingEntry,
) -> bool {
    &&& 0 <= p < tree.nodes.len()
    &&& is_pair_span(tree.nodes, c, p, entry.pair_span)
    &&& match (pair_value(tree.nodes, p), entry.value_id) {
        (Some(value), Some(value_id)) => is_built_from(
            tree,
            nodes[value_id.0 as int].kind,
            content(tree.nodes, value),
        ),
        (None, None) => true,
        _ => false,
    }
    &&& pair_key(tree.nodes, p) matches Some(key_node)
    &&& key_text(tree.text, tree.nodes, key_node) == key
    &&& is_built_from(tree, nodes[entry.key_id.0 as int].kind, content(tree.nodes, key_node))
}

/// The text of the key of the pair `p`.
pub open spec fn pair_name(tree: TreeView, p: int) -> Seq<char> {
    key_text(tree.text, tree.nodes, pair_key(tree.nodes, p)->Some_0)
}

/// Whether the pair at position `j` is the last one with this key.
pub open spec fn is_last_pair(tree: TreeView, pairs: Seq<int>, j: int, key: Seq<char>) -> bool {
    &&& 0 <= j < pairs.len()
    &&& pair_name(tree, pairs[j]) == key
    &&& forall|m: int| j < m < pairs.len() ==> pair_name(tree, #[trigger] pairs[m]) != key
}

/// Whether the entries of the mapping `c` are read off pairs: every pair has an
/// entry, and every entry is that of the last pair with its key.
pub open spec fn entries_written(
    tree: TreeView,
    nodes: Seq<NodeView>,
    c: int,
    entries: Map<Seq<char>, MappingEntry>,
    pairs: Seq<int>,
) -> bool {
    &&& forall|j: int|
        0 <= j < pairs.len() ==> entries.contains_key(pair_name(tree, #[trigger] pairs[j]))
    &&& forall|key: Seq<char>| #[trigger]
        entries.contains_key(key) ==> exists|j: int| #[trigger]
            is_last_pair(tree, pairs, j, key) && is_entry_of(
                tree,
                nodes,
                c,
                pairs[j],
                key,
                entries[key],
            )
}

/// Whether the entries of a mapping are read off the mapping `c`.
pub open spec fn is_mapping_of(
    tree: TreeView,
    nodes: Seq<NodeView>,
    c: int,
    entries: Map<Seq<char>, MappingEntry>,
    span: SpanInfo,
) -> bool {
    &&& 0 <= c < tree.nodes.len()
    &&& is_mapping(tree.nodes[c].kind)
    &&& span == tree.nodes[c].span
    &&& entries_written(tree, nodes, c, entries, pairs_of(tree.nodes, c))
}

/// Whether the nodes `item_ids` from position `from` on are built from the
/// contents of `items`, one after the other.
pub open spec fn items_written(
    tree: TreeView,
    nodes: Seq<NodeView>,
    item_ids: Seq<NodeId>,
    from: int,
    items: Seq<int>,
) -> bool {
    &&& item_ids.len() == from + items.len()
    &&& forall|j: int|
        0 <= j < items.len() ==> is_built_from(
            tree,
            nodes[item_ids[from + j].0 as int].kind,
            content(tree.nodes, #[trigger] items[j]),
        )
}

/// Whether the items of a sequence are read off the sequence `c`.
pub open spec fn is_sequence_of(
    tree: TreeView,
    nodes: Seq<NodeView>,
    c: int,
    item_ids: Seq<NodeId>,
    span: SpanInfo,
) -> bool {
    &&& 0 <= c < tree.nodes.len()
    &&& is_sequence(tree.nodes[c].kind)
    &&& span == tree.nodes[c].span
    &&& items_written(
        tree,
        nodes,
        item_ids,
        0,
        sequence_items(tree.nodes, c + 1, end_of(tree.nodes, c)),
    )
}

/// Whether what a node names is what the source says: the keys and the values of
/// pairs, the items of a sequence in order or, for an alias, the node of the
/// content that it names.
pub open spec fn kind_written(tree: TreeView, nodes: Seq<NodeView>, kind: KindView) -> bool {
    match kind {
        KindView::Mapping(entries, span) => exists|c: int|
            is_mapping_of(tree, nodes, c, entries, span),
        KindView::Sequence(item_ids, span) => exists|c: int|
            is_sequence_of(tree, nodes, c, item_ids, span),
        KindView::Scalar(_) => true,
        KindView::Alias(alias) => is_named_by(
            tree,
            alias.span,
            nodes[alias.target_id.0 as int].kind,
        ),
    }
}

/// Whether what every node names is what the source says.
pub open spec fn all_written(tree: TreeView, nodes: Seq<NodeView>) -> bool {
    forall|i: int| 0 <= i < nodes.len() ==> kind_written(tree, nodes, (#[trigger] nodes[i]).kind)
}

/// Whether node `a` is around node `i`: its parent, or around its parent.
pub open spec fn is_around(nodes: Seq<NodeView>, a: int, i: int) -> bool
    decreases i,
{
    match nodes[i].parent_id {
        Some(parent) => 0 <= parent.0 < i && (parent.0 == a || is_around(
            nodes,
            a,
            parent.0 as int,
        )),
        None => false,
    }
}

/// Whether no alias stands inside what it stands for.
pub open spec fn aliases_outside(nodes: Seq<NodeView>) -> bool {
    forall|i: int|
        0 <= i < nodes.len() ==> ((#[trigger] nodes[i]).kind matches KindView::Alias(alias)
            ==> !is_around(nodes, alias.target_id.0 as int, i))
}

/// Whether `id` is a node that is being built.
pub open spec fn is_open(nodes: Seq<NodeView>, id: NodeId) -> bool {
    id.0 < nodes.len() && nodes[id.0 as int].parent_id is None
}

/// What holds of the nodes while a tree is built.
pub open spec fn nodes_ok(tree: TreeView, nodes: Seq<NodeView>) -> bool {
    &&& nodes.len() <= usize::MAX
    &&& linked(nodes)
    &&& nodes_fit(tree.text, nodes)
    &&& all_written(tree, nodes)
    &&& aliases_outside(nodes)
}

/// Whether what can be referenced is built from its syntax node, has a parent and
/// is no alias.
pub open spec fn placed_ok(tree: TreeView, state: BuildState) -> bool {
    forall|c: usize| #[trigger]
        state.placed.contains_key(c) ==> {
            let id = state.placed[c].0 as int;
            &&& id < state.nodes.len()
            &&& state.nodes[id].kind !is Alias
            &&& state.nodes[id].parent_id is Some
            &&& is_built_from(tree, state.nodes[id].kind, c as int)
        }
}

/// What holds while a tree is built.
pub open spec fn state_ok(tree: TreeView, state: BuildState) -> bool {
    nodes_ok(tree, state.nodes) && placed_ok(tree, state)
}

/// Whether `after` holds the nodes of `before` and perhaps more.
pub open spec fn extends(before: Seq<NodeView>, after: Seq<NodeView>) -> bool {
    &&& before.len() <= after.len()
    &&& forall|i: int| 0 <= i < before.len() ==> before[i] == #[trigger] after[i]
}

/// The nodes that a kind of node names stay what they are when nodes are added.
proof fn lemma_extends(before: Seq<NodeView>, after: Seq<NodeView>, i: int, kind: KindView)
    requires
        extends(before, after),
        0 <= i <= before.len(),
        kind_linked(before, i, kind),
    ensures
        kind_linked(after, i, kind),
{
    match kind {
        KindView::Mapping(entries, _) => {
            assert forall|key: Seq<char>| #[trigger] entries.contains_key(key) implies {
                &&& holds_part(after, i, entries[key].key_id, entries[key].pair_span)
                &&& entries[key].value_id matches Some(value_id) ==> holds_part(
                    after,
                    i,
                    value_id,
                    entries[key].pair_span,
                )
            } by {
                assert(after[entries[key].key_id.0 as int] == before[entries[key].key_id.0 as int]);
                if let Some(value_id) = entries[key].value_id {
                    assert(after[value_id.0 as int] == before[value_id.0 as int]);
                }
            }
        },
        KindView::Sequence(item_ids, _) => {
            assert forall|j: int| 0 <= j < item_ids.len() implies holds_child(
                after,
                i,
                #[trigger] item_ids[j],
            ) by {
                assert(after[item_ids[j].0 as int] == before[item_ids[j].0 as int]);
            }
        },
        KindView::Scalar(_) => {},
        KindView::Alias(alias) => {
            assert(after[alias.target_id.0 as int] == before[alias.target_id.0 as int]);
        },
    }
}

/// Entries stay what the source says when their nodes stay what they are.
proof fn lemma_entries_kept(
    tree: TreeView,
    before: Seq<NodeView>,
    after: Seq<NodeView>,
    i: int,
    c: int,
    entries: Map<Seq<char>, MappingEntry>,
    pairs: Seq<int>,
)
    requires
        entries_linked(before, i, entries),
        entries_written(tree, before, c, entries, pairs),
        forall|child: NodeId| #[trigger]
            holds_child(before, i, child) ==> after[child.0 as int] == before[child.0 as int],
    ensures
        entries_written(tree, after, c, entries, pairs),
{
    assert forall|key: Seq<char>| #[trigger] entries.contains_key(key) implies exists|j: int|
        #[trigger]
        is_last_pair(tree, pairs, j, key) && is_entry_of(
            tree,
            after,
            c,
            pairs[j],
            key,
            entries[key],
        ) by {
        let j = choose|j: int| #[trigger]
            is_last_pair(tree, pairs, j, key) && is_entry_of(
                tree,
                before,
                c,
                pairs[j],
                key,
                entries[key],
            );
        assert(holds_child(before, i, entries[key].key_id));
        assert(entries[key].value_id matches Some(value_id) ==> holds_child(before, i, value_id));
        assert(is_last_pair(tree, pairs, j, key) && is_entry_of(
            tree,
            after,
            c,
            pairs[j],
            key,
            entries[key],
        ));
    }
}

/// What a node names stays what the source says when the nodes that it names
/// stay what they are.
proof fn lemma_written_kept(
    tree: TreeView,
    before: Seq<NodeView>,
    after: Seq<NodeView>,
    i: int,
    kind: KindView,
)
    requires
        kind_linked(before, i, kind),
        kind_written(tree, before, kind),
        forall|child: NodeId| #[trigger]
            holds_child(before, i, child) ==> after[child.0 as int] == before[child.0 as int],
        kind matches KindView::Alias(alias) ==> after[alias.target_id.0 as int]
            == before[alias.target_id.0 as int],
    ensures
        kind_written(tree, after, kind),
{
    match kind {
        KindView::Mapping(entries, span) => {
            let c = choose|c: int| is_mapping_of(tree, before, c, entries, span);
            lemma_entries_kept(tree, before, after, i, c, entries, pairs_of(tree.nodes, c));
            assert(is_mapping_of(tree, after, c, entries, span));
        },
        KindView::Sequence(item_ids, span) => {
            let c = choose|c: int| is_sequence_of(tree, before, c, item_ids, span);
            let items = sequence_items(tree.nodes, c + 1, end_of(tree.nodes, c));
            assert forall|j: int| 0 <= j < items.len() implies is_built_from(
                tree,
                after[item_ids[0 + j].0 as int].kind,
                content(tree.nodes, #[trigger] items[j]),
            ) by {
                assert(holds_child(before, i, item_ids[j]));
            }
            assert(is_sequence_of(tree, after, c, item_ids, span));
        },
        _ => {},
    }
}

/// What is around a node stays what it is when nodes are added.
proof fn lemma_around_kept(before: Seq<NodeView>, after: Seq<NodeView>, a: int, i: int)
    requires
        extends(before, after),
        0 <= i < before.len(),
    ensures
        is_around(after, a, i) == is_around(before, a, i),
    decreases i,
{
    assert(after[i] == before[i]);
    if let Some(parent) = before[i].parent_id {
        if parent.0 < i {
            lemma_around_kept(before, after, a, parent.0 as int);
        }
    }
}

/// Nothing but what was around a node and the parent of what is settled comes to
/// be around it.
proof fn lemma_around_settled(before: Seq<NodeView>, at: int, node: NodeView, a: int, i: int)
    requires
        0 <= at < before.len(),
        0 <= i < before.len(),
        node.parent_id matches Some(parent) ==> parent.0 < at && parent.0 != a
            && before[parent.0 as int].parent_id is None,
        is_around(before.update(at, node), a, i),
    ensures
        is_around(before, a, i),
    decreases i,
{
    let after = before.update(at, node);
    let parent = after[i].parent_id->Some_0;
    if i == at {
        assert(after[parent.0 as int] == before[parent.0 as int]);
        assert(!is_around(after, a, parent.0 as int));
    } else {
        assert(after[i] == before[i]);
        if parent.0 != a {
            lemma_around_settled(before, at, node, a, parent.0 as int);
        }
    }
}

/// Adding one node.
pub proof fn lemma_push(tree: TreeView, state: BuildState, node: NodeView)
    requires
        state_ok(tree, state),
        state.nodes.len() < usize::MAX,
        node.parent_id matches Some(parent) ==> is_open(state.nodes, parent),
        kind_linked(state.nodes, state.nodes.len() as int, node.kind),
        kind_fits(tree.text, node.kind),
        kind_written(tree, state.nodes, node.kind),
    ensures
        state_ok(tree, BuildState { nodes: state.nodes.push(node), placed: state.placed }),
        extends(state.nodes, state.nodes.push(node)),
{
    let after = state.nodes.push(node);
    assert(extends(state.nodes, after));
    assert forall|i: int| #![trigger after[i]] 0 <= i < after.len() implies {
        &&& after[i].parent_id matches Some(parent) ==> parent.0 < i
        &&& kind_linked(after, i, after[i].kind)
        &&& kind_written(tree, after, after[i].kind)
    } by {
        if i < state.nodes.len() {
            assert(after[i] == state.nodes[i]);
        }
        lemma_extends(state.nodes, after, i, after[i].kind);
        if let KindView::Alias(alias) = after[i].kind {
            assert(after[alias.target_id.0 as int] == state.nodes[alias.target_id.0 as int]);
        }
        lemma_written_kept(tree, state.nodes, after, i, after[i].kind);
    }
    assert forall|i: int| 0 <= i < after.len() implies ((#[trigger] after[i]).kind matches
        KindView::Alias(alias) ==> !is_around(after, alias.target_id.0 as int, i)) by {
        if let KindView::Alias(alias) = after[i].kind {
            let target = alias.target_id.0 as int;
            assert(kind_linked(after, i, after[i].kind));
            if i < state.nodes.len() {
                assert(after[i] == state.nodes[i]);
                lemma_around_kept(state.nodes, after, target, i);
            } else if let Some(parent) = node.parent_id {
                assert(after[parent.0 as int] == state.nodes[parent.0 as int]);
                assert(!is_around(after, target, parent.0 as int));
            }
        }
    }
}

/// Putting a node in the place that was reserved for it.
proof fn lemma_settle(
    tree: TreeView,
    state: BuildState,
    id: NodeId,
    node: NodeView,
    c: usize,
)
    requires
        state_ok(tree, state),
        id.0 < state.nodes.len(),
        state.nodes[id.0 as int] == placeholder(),
        node.parent_id matches Some(parent) ==> parent.0 < id.0 && is_open(state.nodes, parent),
        node.kind !is Alias,
        kind_linked(state.nodes, id.0 as int, node.kind),
        kind_fits(tree.text, node.kind),
        kind_written(tree, state.nodes, node.kind),
        is_built_from(tree, node.kind, c as int),
    ensures
        nodes_ok(tree, state.nodes.update(id.0 as int, node)),
        node.parent_id is Some ==> placed_ok(
            tree,
            BuildState {
                nodes: state.nodes.update(id.0 as int, node),
                placed: state.placed.insert(c, id),
            },
        ),
{
    let at = id.0 as int;
    let before = state.nodes;
    let after = before.update(at, node);
    assert forall|i: int, child: NodeId|
        0 <= i && #[trigger] holds_child(before, i, child) implies holds_child(after, i, child)
        && after[child.0 as int] == before[child.0 as int] by {
        assert(child.0 != at);
    }
    assert forall|i: int| #![trigger after[i]] 0 <= i < after.len() implies {
        &&& after[i].parent_id matches Some(parent) ==> parent.0 < i
        &&& kind_linked(after, i, after[i].kind)
        &&& kind_written(tree, after, after[i].kind)
    } by {
        let kind = after[i].kind;
        if i != at {
            assert(after[i] == before[i]);
            assert(kind_written(tree, before, before[i].kind));
        }
        assert(kind_linked(before, i, kind));
        if let KindView::Alias(alias) = kind {
            assert(alias.target_id.0 != at);
        }
        lemma_written_kept(tree, before, after, i, kind);
    }
    assert forall|i: int| 0 <= i < after.len() implies ((#[trigger] after[i]).kind matches
        KindView::Alias(alias) ==> !is_around(after, alias.target_id.0 as int, i)) by {
        if let KindView::Alias(alias) = after[i].kind {
            assert(after[i] == before[i]);
            assert(kind_linked(before, i, before[i].kind));
            if is_around(after, alias.target_id.0 as int, i) {
                lemma_around_settled(before, at, node, alias.target_id.0 as int, i);
            }
        }
    }
}

/// What building a node leaves: the nodes that were there, one that is built from
/// the content `c` with the given parent, and further ones inside it.
pub open spec fn grown(
    tree: TreeView,
    before: BuildState,
    after: BuildState,
    parent: Option<NodeId>,
    c: int,
) -> bool {
    let at = before.nodes.len() as int;
    &&& nodes_ok(tree, after.nodes)
    &&& parent is Some ==> placed_ok(tree, after)
    &&& extends(before.nodes, after.nodes)
    &&& at < after.nodes.len()
    &&& after.nodes[at].parent_id == parent
    &&& is_built_from(tree, after.nodes[at].kind, c)
    &&& forall|i: int|
        at < i < after.nodes.len() ==> is_nested(after.nodes, at, #[trigger] after.nodes[i])
}

/// What building the inside of node `id` leaves: the nodes that were there, and
/// further ones that are inside the node, with the given span, or inside each
/// other.
pub open spec fn filled(
    tree: TreeView,
    before: BuildState,
    after: BuildState,
    id: NodeId,
    span: SpanInfo,
) -> bool {
    let at = before.nodes.len() as int;
    &&& state_ok(tree, after)
    &&& extends(before.nodes, after.nodes)
    &&& forall|i: int|
        at <= i < after.nodes.len() ==> is_filling(
            after.nodes,
            at,
            id,
            span,
            #[trigger] after.nodes[i],
        )
}

/// Whether a node is inside node `id`, with the given span, or inside a node at
/// `at` or after it.
pub open spec fn is_filling(
    nodes: Seq<NodeView>,
    at: int,
    id: NodeId,
    span: SpanInfo,
    node: NodeView,
) -> bool {
    ||| node.parent_id == Some(id) && node.kind.exact_span().is_within(span)
    ||| is_nested(nodes, at, node)
}

/// Whether a node can be put inside `parent`, where it has one.
pub open spec fn can_hold(state: BuildState, parent: Option<NodeId>) -> bool {
    parent matches Some(p) ==> is_open(state.nodes, p)
}

/// The empty span at the start is a slice of every text.
pub proof fn lemma_placeholder_fits(text: Seq<char>)
    ensures
        kind_fits(text, placeholder().kind),
{
    vstd::utf8::encode_utf8_valid_utf8(text);
    vstd::utf8::is_char_boundary_start_end_of_seq(vstd::utf8::encode_utf8(text));
}

/// Building a node keeps what holds of the tree.
pub proof fn lemma_build(tree: TreeView, state: BuildState, n: int, parent: Option<NodeId>)
    requires
        is_syntax_of(tree.nodes, tree.text),
        0 <= n < tree.nodes.len(),
    ensures
        build(tree, state, n, parent) matches (after, Ok(id)) ==> {
            &&& state.nodes.len() < after.nodes.len()
            &&& state_ok(tree, state) && can_hold(state, parent) && after.nodes.len()
                <= usize::MAX ==> {
                &&& grown(tree, state, after, parent, content(tree.nodes, n))
                &&& id.0 == state.nodes.len()
            }
        },
    decreases tree.nodes[content(tree.nodes, n)].size, 4int, 0int,
{
    lemma_content(tree.nodes, n);
    lemma_build_content(tree, state, content(tree.nodes, n), parent);
}

proof fn lemma_build_content(tree: TreeView, state: BuildState, c: int, parent: Option<NodeId>)
    requires
        is_syntax_of(tree.nodes, tree.text),
        0 <= c < tree.nodes.len(),
    ensures
        build_content(tree, state, c, parent) matches (after, Ok(id)) ==> {
            &&& state.nodes.len() < after.nodes.len()
            &&& state_ok(tree, state) && can_hold(state, parent) && after.nodes.len()
                <= usize::MAX ==> {
                &&& grown(tree, state, after, parent, c)
                &&& id.0 == state.nodes.len()
            }
        },
    decreases tree.nodes[c].size, 3int, 0int,
{
    let text = tree.text;
    let node = tree.nodes[c];
    let id = NodeId(state.nodes.len() as usize);
    let reserved = BuildState { nodes: state.nodes.push(placeholder()), placed: state.placed };
    if node.kind != "alias"@ {
        lemma_build_kind(tree, reserved, c, id);
    }
    if let (after, Ok(_)) = build_content(tree, state, c, parent) {
        if state_ok(tree, state) && can_hold(state, parent) && after.nodes.len() <= usize::MAX {
            if node.kind == "alias"@ {
                let target_id = alias_target(tree, state, c)->Ok_0;
                let alias = KindView::Alias(AliasData { span: node.span, target_id });
                lemma_push(tree, state, NodeView { parent_id: parent, kind: alias });
            } else {
                let (inner, built) = build_kind(tree, reserved, c, id);
                let added = NodeView { parent_id: parent, kind: built->Ok_0 };
                assert(after.nodes == inner.nodes.update(id.0 as int, added));
                lemma_placeholder_fits(text);
                lemma_push(tree, state, placeholder());
                assert(inner.nodes[id.0 as int] == reserved.nodes[id.0 as int]);
                lemma_settle(tree, inner, id, added, c as usize);
                assert forall|i: int| 0 <= i < state.nodes.len() implies state.nodes[i]
                    == #[trigger] after.nodes[i] by {
                    assert(reserved.nodes[i] == inner.nodes[i]);
                }
                let at = state.nodes.len() as int;
                assert forall|i: int| at < i < after.nodes.len() implies is_nested(
                    after.nodes,
                    at,
                    #[trigger] after.nodes[i],
                ) by {
                    assert(after.nodes[i] == inner.nodes[i]);
                }
            }
        }
    }
}

/// A mapping whose entries are read off the mapping `c` is what the source says.
proof fn lemma_mapping_written(
    tree: TreeView,
    nodes: Seq<NodeView>,
    c: int,
    entries: Map<Seq<char>, MappingEntry>,
)
    requires
        0 <= c < tree.nodes.len(),
        is_mapping(tree.nodes[c].kind),
        entries_written(tree, nodes, c, entries, pairs_of(tree.nodes, c)),
    ensures
        kind_written(tree, nodes, KindView::Mapping(entries, tree.nodes[c].span)),
{
    let kind = KindView::Mapping(entries, tree.nodes[c].span);
    assert(is_mapping_of(tree, nodes, c, kind->Mapping_0, kind->Mapping_1));
}

/// A sequence whose items are read off the sequence `c` is what the source says.
proof fn lemma_sequence_written(
    tree: TreeView,
    nodes: Seq<NodeView>,
    c: int,
    item_ids: Seq<NodeId>,
)
    requires
        0 <= c < tree.nodes.len(),
        is_sequence(tree.nodes[c].kind),
        items_written(
            tree,
            nodes,
            item_ids,
            0,
            sequence_items(tree.nodes, c + 1, end_of(tree.nodes, c)),
        ),
    ensures
        kind_written(tree, nodes, KindView::Sequence(item_ids, tree.nodes[c].span)),
{
    let kind = KindView::Sequence(item_ids, tree.nodes[c].span);
    assert(is_sequence_of(tree, nodes, c, kind->Sequence_0, kind->Sequence_1));
}

pub proof fn lemma_build_kind(tree: TreeView, state: BuildState, c: int, id: NodeId)
    requires
        is_syntax_of(tree.nodes, tree.text),
        0 <= c < tree.nodes.len(),
    ensures
        build_kind(tree, state, c, id) matches (after, Ok(kind)) ==> {
            &&& state.nodes.len() <= after.nodes.len()
            &&& kind !is Alias
            &&& kind is Scalar ==> after == state
            &&& tree.nodes[c].kind != "alias"@ ==> is_built_from(tree, kind, c)
            &&& state_ok(tree, state) && is_open(state.nodes, id) && after.nodes.len()
                <= usize::MAX ==> {
                &&& filled(tree, state, after, id, tree.nodes[c].span)
                &&& kind_linked(after.nodes, id.0 as int, kind)
                &&& kind_fits(tree.text, kind)
                &&& kind_written(tree, after.nodes, kind)
            }
        },
    decreases tree.nodes[c].size, 2int, 0int,
{
    let node = tree.nodes[c];
    assert(span_fits(tree.text, node.span));
    if is_mapping(node.kind) {
        if is_pair(node.kind) {
            lemma_pair_is_no_wrapper(node.kind);
            lemma_build_pair(tree, state, c, c, node.span, id, Map::empty(), Seq::empty());
            assert(Seq::<int>::empty().push(c) =~= seq![c]);
        } else {
            lemma_build_pairs(tree, state, c, c + 1, id, Map::empty(), Seq::empty());
            let pairs = mapping_pairs(tree.nodes, c + 1, end_of(tree.nodes, c));
            assert(Seq::<int>::empty() + pairs =~= pairs);
        }
        assert(build_kind(tree, state, c, id) == build_mapping(tree, state, c, id));
        if let (after, Ok(kind)) = build_mapping(tree, state, c, id) {
            if state_ok(tree, state) && is_open(state.nodes, id) && after.nodes.len()
                <= usize::MAX {
                lemma_mapping_written(tree, after.nodes, c, kind->Mapping_0);
            }
        }
    } else if is_sequence(node.kind) {
        lemma_build_items(tree, state, c, c + 1, id, Seq::empty());
        assert(build_kind(tree, state, c, id) == build_sequence(tree, state, c, id));
        if let (after, Ok(item_ids)) = build_items(tree, state, c, c + 1, id, Seq::empty()) {
            if state_ok(tree, state) && is_open(state.nodes, id) && after.nodes.len()
                <= usize::MAX {
                lemma_sequence_written(tree, after.nodes, c, item_ids);
            }
        }
    }
}

pub proof fn lemma_build_pairs(
    tree: TreeView,
    state: BuildState,
    c: int,
    k: int,
    id: NodeId,
    entries: Map<Seq<char>, MappingEntry>,
    done: Seq<int>,
)
    requires
        is_syntax_of(tree.nodes, tree.text),
        0 <= c < tree.nodes.len(),
        c < k,
    ensures
        build_pairs(tree, state, c, k, id, entries) matches (after, Ok(longer)) ==> {
            &&& state.nodes.len() <= after.nodes.len()
            &&& state_ok(tree, state) && is_open(state.nodes, id) && after.nodes.len()
                <= usize::MAX && entries_linked(state.nodes, id.0 as int, entries) && entries_fit(
                tree.text,
                entries,
                tree.nodes[c].span,
            ) && entries_written(tree, state.nodes, c, entries, done) ==> {
                &&& filled(tree, state, after, id, tree.nodes[c].span)
                &&& entries_written(
                    tree,
                    after.nodes,
                    c,
                    longer,
                    done + mapping_pairs(tree.nodes, k, end_of(tree.nodes, c)),
                )
                &&& entries_linked(after.nodes, id.0 as int, longer)
                &&& entries_fit(tree.text, longer, tree.nodes[c].span)
            }
        },
    decreases tree.nodes[c].size, 1int, end_of(tree.nodes, c) - k,
{
    if k < end_of(tree.nodes, c) {
        let child = tree.nodes[k];
        let next = end_of(tree.nodes, k);
        assert(is_inside(tree.nodes, c, k));
        assert(child.size >= 1);
        if child.named && (is_pair(child.kind) || child.kind == "flow_node"@) {
            let span = if is_pair(child.kind) {
                lemma_pair_is_no_wrapper(child.kind);
                child.span
            } else {
                tree.nodes[c].span
            };
            lemma_build_pair(tree, state, c, k, span, id, entries, done);
            let rest = mapping_pairs(tree.nodes, next, end_of(tree.nodes, c));
            assert(done.push(k) + rest =~= done + (seq![k] + rest));
            if let (inner, Ok(more)) = build_pair(tree, state, c, k, span, id, entries) {
                lemma_build_pairs(tree, inner, c, next, id, more, done.push(k));
            }
        } else {
            lemma_build_pairs(tree, state, c, next, id, entries, done);
        }
    } else {
        assert(done + Seq::<int>::empty() =~= done);
    }
}

/// Whether `pair_span` is that of the pair `p`, or for a bare key that of the
/// mapping `c`.
pub open spec fn is_pair_span(
    nodes: Seq<SyntaxNodeView>,
    c: int,
    p: int,
    pair_span: SpanInfo,
) -> bool {
    if nodes[p].kind == "flow_node"@ {
        pair_span == nodes[c].span
    } else {
        pair_span == nodes[p].span
    }
}

/// The content of the key or the value of a pair lies within the pair and within
/// the mapping.
proof fn lemma_part_within(
    nodes: Seq<SyntaxNodeView>,
    c: int,
    p: int,
    part: int,
    pair_span: SpanInfo,
)
    requires
        well_nested(nodes),
        bytes_nested(nodes),
        0 <= c < nodes.len(),
        holds_pair(nodes, c, p),
        is_pair_span(nodes, c, p, pair_span),
        pair_key(nodes, p) == Some(part) || pair_value(nodes, p) == Some(part),
    ensures
        nodes[content(nodes, part)].span.is_within(pair_span),
        nodes[content(nodes, part)].span.is_within(nodes[c].span),
        pair_span.is_within(nodes[c].span),
{
    lemma_pair_inside(nodes, c, p);
    lemma_content_inside(nodes, c, part);
    if nodes[p].kind != "flow_node"@ {
        assert(is_child(nodes, p, part));
        lemma_content_inside(nodes, p, part);
    }
}

/// Entries and one more for a pair are read off pairs and that pair.
proof fn lemma_entry_added(
    tree: TreeView,
    nodes: Seq<NodeView>,
    c: int,
    entries: Map<Seq<char>, MappingEntry>,
    done: Seq<int>,
    p: int,
    entry: MappingEntry,
)
    requires
        entries_written(tree, nodes, c, entries, done),
        is_entry_of(tree, nodes, c, p, pair_name(tree, p), entry),
    ensures
        entries_written(tree, nodes, c, entries.insert(pair_name(tree, p), entry), done.push(p)),
{
    let name = pair_name(tree, p);
    let longer = entries.insert(name, entry);
    let pairs = done.push(p);
    assert forall|j: int| 0 <= j < pairs.len() implies longer.contains_key(
        pair_name(tree, #[trigger] pairs[j]),
    ) by {
        if j < done.len() {
            assert(pairs[j] == done[j]);
        }
    }
    assert forall|key: Seq<char>| #[trigger] longer.contains_key(key) implies exists|j: int|
        #[trigger]
        is_last_pair(tree, pairs, j, key) && is_entry_of(
            tree,
            nodes,
            c,
            pairs[j],
            key,
            longer[key],
        ) by {
        if key == name {
            assert(is_last_pair(tree, pairs, done.len() as int, key));
        } else {
            assert(entries.contains_key(key));
            let j = choose|j: int| #[trigger]
                is_last_pair(tree, done, j, key) && is_entry_of(
                    tree,
                    nodes,
                    c,
                    done[j],
                    key,
                    entries[key],
                );
            assert forall|m: int| j < m < pairs.len() implies pair_name(tree, #[trigger] pairs[m])
                != key by {
                if m < done.len() {
                    assert(pairs[m] == done[m]);
                }
            }
            assert(is_last_pair(tree, pairs, j, key));
        }
    }
}

pub proof fn lemma_build_pair(
    tree: TreeView,
    state: BuildState,
    c: int,
    p: int,
    pair_span: SpanInfo,
    id: NodeId,
    entries: Map<Seq<char>, MappingEntry>,
    done: Seq<int>,
)
    requires
        is_syntax_of(tree.nodes, tree.text),
        0 <= c < tree.nodes.len(),
        holds_pair(tree.nodes, c, p),
        span_fits(tree.text, pair_span),
        is_pair_span(tree.nodes, c, p, pair_span),
    ensures
        build_pair(tree, state, c, p, pair_span, id, entries) matches (after, Ok(longer)) ==> {
            &&& state.nodes.len() <= after.nodes.len()
            &&& state_ok(tree, state) && is_open(state.nodes, id) && after.nodes.len()
                <= usize::MAX && entries_linked(state.nodes, id.0 as int, entries) && entries_fit(
                tree.text,
                entries,
                tree.nodes[c].span,
            ) && entries_written(tree, state.nodes, c, entries, done) ==> {
                &&& filled(tree, state, after, id, tree.nodes[c].span)
                &&& entries_written(tree, after.nodes, c, longer, done.push(p))
                &&& entries_linked(after.nodes, id.0 as int, longer)
                &&& entries_fit(tree.text, longer, tree.nodes[c].span)
            }
        },
    decreases tree.nodes[c].size, 0int, 0int,
{
    let text = tree.text;
    lemma_pair_inside(tree.nodes, c, p);
    if let Some(key) = pair_key(tree.nodes, p) {
        lemma_content_inside(tree.nodes, c, key);
        lemma_build(tree, state, key, Some(id));
        if let (after_key, Ok(key_id)) = build(tree, state, key, Some(id)) {
            if let Some(value) = pair_value(tree.nodes, p) {
                lemma_content_inside(tree.nodes, c, value);
                lemma_build(tree, after_key, value, Some(id));
            }
            if let (after, Ok(longer)) = build_pair(tree, state, c, p, pair_span, id, entries) {
                if state_ok(tree, state) && is_open(state.nodes, id) && after.nodes.len()
                    <= usize::MAX && entries_linked(state.nodes, id.0 as int, entries)
                    && entries_fit(text, entries, tree.nodes[c].span)
                    && entries_written(tree, state.nodes, c, entries, done) {
                    let span = tree.nodes[c].span;
                    let at = state.nodes.len() as int;
                    lemma_part_within(tree.nodes, c, p, key, pair_span);
                    if let Some(value) = pair_value(tree.nodes, p) {
                        lemma_part_within(tree.nodes, c, p, value, pair_span);
                    }
                    assert(grown(tree, state, after_key, Some(id), content(tree.nodes, key)));
                    assert(extends(state.nodes, after.nodes));
                    assert forall|i: int| at <= i < after.nodes.len() implies is_filling(
                        after.nodes,
                        at,
                        id,
                        span,
                        #[trigger] after.nodes[i],
                    ) by {
                        if i < after_key.nodes.len() {
                            assert(after.nodes[i] == after_key.nodes[i]);
                            if let Some(parent) = after.nodes[i].parent_id {
                                if parent.0 < after_key.nodes.len() {
                                    assert(after.nodes[parent.0 as int]
                                        == after_key.nodes[parent.0 as int]);
                                }
                            }
                        }
                    }
                    lemma_extends(
                        state.nodes,
                        after.nodes,
                        id.0 as int,
                        KindView::Mapping(entries, span),
                    );
                    assert(after.nodes[key_id.0 as int] == after_key.nodes[key_id.0 as int]);
                    assert(holds_part(after.nodes, id.0 as int, key_id, pair_span));
                    lemma_entries_kept(
                        tree,
                        state.nodes,
                        after.nodes,
                        id.0 as int,
                        c,
                        entries,
                        done,
                    );
                    let name = key_text(text, tree.nodes, key);
                    if is_pair(tree.nodes[p].kind) {
                        lemma_pair_is_no_wrapper(tree.nodes[p].kind);
                    }
                    assert(p < tree.nodes.len());
                    assert(is_entry_of(tree, after.nodes, c, p, name, longer[name]));
                    lemma_entry_added(tree, after.nodes, c, entries, done, p, longer[name]);
                }
            }
        }
    }
}

/// The items of a sequence from the child `k` on are one for `k` and those from
/// the next child on.
proof fn lemma_item_added(
    tree: TreeView,
    inner: BuildState,
    after: BuildState,
    item_ids: Seq<NodeId>,
    item_id: NodeId,
    longer: Seq<NodeId>,
    c: int,
    k: int,
)
    requires
        well_nested(tree.nodes),
        0 <= c < tree.nodes.len(),
        is_inside(tree.nodes, c, k),
        tree.nodes[k].named,
        tree.nodes[k].kind != "comment"@,
        item_id.0 < inner.nodes.len(),
        extends(inner.nodes, after.nodes),
        is_built_from(
            tree,
            inner.nodes[item_id.0 as int].kind,
            content(tree.nodes, item_content(tree.nodes, k)),
        ),
        forall|j: int|
            0 <= j < item_ids.len() + 1 ==> item_ids.push(item_id)[j] == #[trigger] longer[j],
        items_written(
            tree,
            after.nodes,
            longer,
            item_ids.len() as int + 1,
            sequence_items(tree.nodes, end_of(tree.nodes, k), end_of(tree.nodes, c)),
        ),
    ensures
        items_written(
            tree,
            after.nodes,
            longer,
            item_ids.len() as int,
            sequence_items(tree.nodes, k, end_of(tree.nodes, c)),
        ),
{
    let len = item_ids.len() as int;
    let items = sequence_items(tree.nodes, k, end_of(tree.nodes, c));
    let rest = sequence_items(tree.nodes, end_of(tree.nodes, k), end_of(tree.nodes, c));
    assert(tree.nodes[k].size >= 1);
    assert(items == seq![item_content(tree.nodes, k)] + rest);
    assert(after.nodes[item_id.0 as int] == inner.nodes[item_id.0 as int]);
    assert(longer[len] == item_id);
    assert forall|j: int| 0 <= j < items.len() implies is_built_from(
        tree,
        after.nodes[longer[len + j].0 as int].kind,
        content(tree.nodes, #[trigger] items[j]),
    ) by {
        if j > 0 {
            assert(items[j] == rest[j - 1]);
            assert(longer[len + j] == longer[len + 1 + (j - 1)]);
        }
    }
}

pub proof fn lemma_build_items(
    tree: TreeView,
    state: BuildState,
    c: int,
    k: int,
    id: NodeId,
    item_ids: Seq<NodeId>,
)
    requires
        is_syntax_of(tree.nodes, tree.text),
        0 <= c < tree.nodes.len(),
        c < k,
    ensures
        build_items(tree, state, c, k, id, item_ids) matches (after, Ok(longer)) ==> {
            &&& state.nodes.len() <= after.nodes.len()
            &&& state_ok(tree, state) && is_open(state.nodes, id) && after.nodes.len()
                <= usize::MAX && items_linked(state.nodes, id.0 as int, item_ids) ==> {
                &&& filled(tree, state, after, id, tree.nodes[c].span)
                &&& items_linked(after.nodes, id.0 as int, longer)
                &&& forall|j: int|
                    0 <= j < item_ids.len() ==> item_ids[j] == #[trigger] longer[j]
                &&& items_written(
                    tree,
                    after.nodes,
                    longer,
                    item_ids.len() as int,
                    sequence_items(tree.nodes, k, end_of(tree.nodes, c)),
                )
            }
        },
    decreases tree.nodes[c].size, 1int, end_of(tree.nodes, c) - k,
{
    if k < end_of(tree.nodes, c) {
        let child = tree.nodes[k];
        let next = end_of(tree.nodes, k);
        assert(is_inside(tree.nodes, c, k));
        assert(child.size >= 1);
        if child.named && child.kind != "comment"@ {
            let item = item_content(tree.nodes, k);
            lemma_item_inside(tree.nodes, c, k);
            lemma_content_inside(tree.nodes, c, item);
            lemma_build(tree, state, item, Some(id));
            if let (inner, Ok(item_id)) = build(tree, state, item, Some(id)) {
                let more = item_ids.push(item_id);
                lemma_build_items(tree, inner, c, next, id, more);
                if let (after, Ok(longer)) = build_items(tree, inner, c, next, id, more) {
                    if state_ok(tree, state) && is_open(state.nodes, id) && after.nodes.len()
                        <= usize::MAX && items_linked(state.nodes, id.0 as int, item_ids) {
                        lemma_extends(
                            state.nodes,
                            inner.nodes,
                            id.0 as int,
                            KindView::Sequence(item_ids, child.span),
                        );
                        lemma_item_added(tree, inner, after, item_ids, item_id, longer, c, k);
                    }
                }
            }
        } else {
            lemma_build_items(tree, state, c, next, id, item_ids);
        }
    }
}

} // verus!
