//! From the syntax tree to the reduced tree.

use std::collections::HashMap;

use vstd::prelude::*;
use vstd::string::{StrSliceExecFns, StringExecFns};

use crate::anchors::{anchored_at, name_at, AnchoredTree, TreeView};
use crate::cst::{
    node_views, nodes_wf, AliasData, CstStore, KindView, MappingData, MappingEntry, NodeId,
    NodeView, ScalarData, SequenceData, YamlNodeData, YamlNodeKind,
};
use crate::error::{ErrorView, QueryError};
use crate::location::{Point, SpanInfo};
use crate::maps::TextMap;
use crate::syntax::{
    anchored_child, end_of, first_named_child, is_child, is_inside, lemma_first_named_child,
    lemma_preferred_child, parent_of, preferred_child, well_nested, wrapped_child, Skip,
    SyntaxNodeView, SyntaxTree,
};
use crate::text::{slice, slice_of};

verus! {

/// Whether a node of this kind only wraps its content.
pub open spec fn is_wrapper(kind: Seq<char>) -> bool {
    kind == "stream"@ || kind == "document"@ || kind == "block_node"@ || kind == "flow_node"@
}

/// Whether a node of this kind is a key with its value.
pub open spec fn is_pair(kind: Seq<char>) -> bool {
    kind == "flow_pair"@ || kind == "block_mapping_pair"@
}

/// Whether a node of this kind is a mapping, or a pair that stands for one.
pub open spec fn is_mapping(kind: Seq<char>) -> bool {
    kind == "block_mapping"@ || kind == "flow_mapping"@ || is_pair(kind)
}

/// Whether a node of this kind is a sequence.
pub open spec fn is_sequence(kind: Seq<char>) -> bool {
    kind == "block_sequence"@ || kind == "flow_sequence"@
}

/// Whether a node of this kind is a quoted scalar.
pub open spec fn is_quoted(kind: Seq<char>) -> bool {
    kind == "single_quote_scalar"@ || kind == "double_quote_scalar"@
}

/// The node that node `n` wraps, through any number of wrappers.
pub open spec fn unwrapped(nodes: Seq<SyntaxNodeView>, n: int) -> int
    decreases nodes[n].size,
    when well_nested(nodes) && 0 <= n < nodes.len()
    via unwrapped_decreases
{
    if is_wrapper(nodes[n].kind) {
        match wrapped_child(nodes, n) {
            Some(child) => unwrapped(nodes, child),
            None => n,
        }
    } else {
        n
    }
}

#[via_fn]
proof fn unwrapped_decreases(nodes: Seq<SyntaxNodeView>, n: int) {
    lemma_preferred_child(nodes, n, Skip::NonValue, Skip::NonContent);
}

/// The content of node `n`: what it wraps or, where that is an anchor, the value
/// beside the anchor.
pub open spec fn content(nodes: Seq<SyntaxNodeView>, n: int) -> int {
    let inner = unwrapped(nodes, n);
    if nodes[inner].kind == "anchor"@ {
        match parent_of(nodes, inner) {
            Some(parent) => match anchored_child(nodes, parent) {
                Some(anchored) => anchored,
                None => inner,
            },
            None => inner,
        }
    } else {
        inner
    }
}

/// What a node wraps is the node or inside it.
pub proof fn lemma_unwrapped(nodes: Seq<SyntaxNodeView>, n: int)
    requires
        well_nested(nodes),
        0 <= n < nodes.len(),
    ensures
        unwrapped(nodes, n) == n || is_inside(nodes, n, unwrapped(nodes, n)),
        0 <= unwrapped(nodes, n) < nodes.len(),
    decreases nodes[n].size,
{
    lemma_preferred_child(nodes, n, Skip::NonValue, Skip::NonContent);
    if is_wrapper(nodes[n].kind) {
        if let Some(child) = wrapped_child(nodes, n) {
            assert(is_inside(nodes, n, child));
            lemma_unwrapped(nodes, child);
        }
    }
}

/// The parent of a node inside `c` is `c` or inside it.
pub proof fn lemma_parent_inside(nodes: Seq<SyntaxNodeView>, c: int, n: int)
    requires
        well_nested(nodes),
        0 <= c < nodes.len(),
        is_inside(nodes, c, n),
    ensures
        parent_of(nodes, n) matches Some(parent) ==> parent == c || is_inside(nodes, c, parent),
{
    if let Some(parent) = parent_of(nodes, n) {
        assert(is_child(nodes, parent, n));
        if parent < c {
            assert(end_of(nodes, c) <= n);
        }
    }
}

/// The content of a node is a node.
pub proof fn lemma_content(nodes: Seq<SyntaxNodeView>, n: int)
    requires
        well_nested(nodes),
        0 <= n < nodes.len(),
    ensures
        0 <= content(nodes, n) < nodes.len(),
{
    lemma_unwrapped(nodes, n);
    let inner = unwrapped(nodes, n);
    if let Some(parent) = parent_of(nodes, inner) {
        assert(is_child(nodes, parent, inner));
        lemma_preferred_child(nodes, parent, Skip::Properties, Skip::AnchorsAndComments);
    }
}

/// The content of a node inside `c` is inside `c`, and smaller.
pub proof fn lemma_content_inside(nodes: Seq<SyntaxNodeView>, c: int, n: int)
    requires
        well_nested(nodes),
        0 <= c < nodes.len(),
        is_inside(nodes, c, n),
    ensures
        is_inside(nodes, c, content(nodes, n)),
        nodes[content(nodes, n)].size < nodes[c].size,
{
    lemma_unwrapped(nodes, n);
    let inner = unwrapped(nodes, n);
    assert(end_of(nodes, n) <= end_of(nodes, c));
    assert(is_inside(nodes, c, inner));
    lemma_parent_inside(nodes, c, inner);
    if let Some(parent) = parent_of(nodes, inner) {
        assert(is_child(nodes, parent, inner));
        lemma_preferred_child(nodes, parent, Skip::Properties, Skip::AnchorsAndComments);
    }
    assert(is_inside(nodes, c, content(nodes, n)));
}

/// The text of a key, without the quotes around it: that of its first named child
/// but anchors, with tags and comments passed over where anything else is there,
/// or its own.
pub open spec fn key_text(text: Seq<char>, nodes: Seq<SyntaxNodeView>, key: int) -> Seq<char> {
    let scalar = match preferred_child(nodes, key, Skip::Properties, Skip::Anchors) {
        Some(scalar) => scalar,
        None => key,
    };
    let written = slice_of(
        text,
        nodes[scalar].span.start_byte as int,
        nodes[scalar].span.end_byte as int,
    );
    if is_quoted(nodes[scalar].kind) {
        unquoted(written)
    } else {
        written
    }
}

/// A text without its first and its last character.
pub open spec fn unquoted(written: Seq<char>) -> Seq<char> {
    if written.len() >= 2 {
        written.subrange(1, written.len() - 1)
    } else {
        Seq::empty()
    }
}

/// How far a tree is built: its nodes, and the node that was built from each
/// syntax node.
#[verifier::ext_equal]
pub struct BuildState {
    pub nodes: Seq<NodeView>,
    pub placed: Map<usize, NodeId>,
}

/// What stands in the place of a node that is being built.
pub open spec fn placeholder() -> NodeView {
    let origin = Point { row: 0, column: 0 };
    NodeView {
        parent_id: None,
        kind: KindView::Scalar(
            ScalarData {
                exact_span: SpanInfo {
                    start_byte: 0,
                    end_byte: 0,
                    start_point: origin,
                    end_point: origin,
                },
                pretty_span: None,
            },
        ),
    }
}

/// The node that the alias at node `c` references: the one that was built from
/// the content of the last anchor of its name before it.
pub open spec fn alias_target(tree: TreeView, state: BuildState, c: int) -> Result<
    NodeId,
    ErrorView,
> {
    let name = name_at(tree.text, tree.nodes, c);
    match anchored_at(tree.anchors, name, tree.nodes[c].span.start_byte) {
        Some(target) => {
            if state.placed.contains_key(target) {
                Ok(state.placed[target])
            } else {
                Err(ErrorView::Other("anchor content not yet built for alias: "@ + name))
            }
        },
        None => Err(ErrorView::Other("undefined alias: "@ + name)),
    }
}

/// The span of a scalar that is shown with its indicator.
pub open spec fn pretty_span(node: SyntaxNodeView) -> Option<SpanInfo> {
    if node.kind == "block_scalar"@ {
        Some(node.span)
    } else {
        None
    }
}

/// Building node `n`: its content becomes a node, inside `parent`.
pub open spec fn build(tree: TreeView, state: BuildState, n: int, parent: Option<NodeId>) -> (
    BuildState,
    Result<NodeId, ErrorView>,
)
    decreases tree.nodes[content(tree.nodes, n)].size, 4int, 0int,
    when well_nested(tree.nodes) && 0 <= n < tree.nodes.len()
    via build_decreases
{
    build_content(tree, state, content(tree.nodes, n), parent)
}

#[via_fn]
proof fn build_decreases(tree: TreeView, state: BuildState, n: int, parent: Option<NodeId>) {
    lemma_content(tree.nodes, n);
}

/// Building the content `c`. An alias references what stands under its name. Any
/// other node takes its place before what is inside it is built, and can be
/// referenced after that.
pub open spec fn build_content(
    tree: TreeView,
    state: BuildState,
    c: int,
    parent: Option<NodeId>,
) -> (BuildState, Result<NodeId, ErrorView>)
    decreases tree.nodes[c].size, 3int, 0int,
    when well_nested(tree.nodes) && 0 <= c < tree.nodes.len()
{
    let node = tree.nodes[c];
    let id = NodeId(state.nodes.len() as usize);
    if node.kind == "alias"@ {
        match alias_target(tree, state, c) {
            Ok(target_id) => {
                let alias = KindView::Alias(AliasData { span: node.span, target_id });
                let nodes = state.nodes.push(NodeView { parent_id: parent, kind: alias });
                (BuildState { nodes, placed: state.placed }, Ok(id))
            },
            Err(error) => (state, Err(error)),
        }
    } else {
        let reserved = BuildState {
            nodes: state.nodes.push(placeholder()),
            placed: state.placed,
        };
        match build_kind(tree, reserved, c, id) {
            (inner, Ok(kind)) => {
                let nodes = inner.nodes.update(id.0 as int, NodeView { parent_id: parent, kind });
                let placed = inner.placed.insert(c as usize, id);
                (BuildState { nodes, placed }, Ok(id))
            },
            (inner, Err(error)) => (inner, Err(error)),
        }
    }
}

/// Building what is inside the content `c`, whose node is `id`.
pub open spec fn build_kind(tree: TreeView, state: BuildState, c: int, id: NodeId) -> (
    BuildState,
    Result<KindView, ErrorView>,
)
    decreases tree.nodes[c].size, 2int, 0int,
    when well_nested(tree.nodes) && 0 <= c < tree.nodes.len()
{
    let node = tree.nodes[c];
    if is_mapping(node.kind) {
        build_mapping(tree, state, c, id)
    } else if is_sequence(node.kind) {
        build_sequence(tree, state, c, id)
    } else {
        let scalar = ScalarData { exact_span: node.span, pretty_span: pretty_span(node) };
        (state, Ok(KindView::Scalar(scalar)))
    }
}

/// Building the entries of a mapping. A pair that stands alone is a mapping with
/// one entry.
pub open spec fn build_mapping(tree: TreeView, state: BuildState, c: int, id: NodeId) -> (
    BuildState,
    Result<KindView, ErrorView>,
)
    decreases tree.nodes[c].size, 1int, tree.nodes[c].size,
    when well_nested(tree.nodes) && 0 <= c < tree.nodes.len()
{
    let built = if is_pair(tree.nodes[c].kind) {
        build_pair(tree, state, c, c, tree.nodes[c].span, id, Map::empty())
    } else {
        build_pairs(tree, state, c, c + 1, id, Map::empty())
    };
    match built {
        (inner, Ok(entries)) => (inner, Ok(KindView::Mapping(entries, tree.nodes[c].span))),
        (inner, Err(error)) => (inner, Err(error)),
    }
}

/// Building the entries of the mapping `c` from its child `k` on. A bare key of
/// a flow mapping has the span of the mapping.
pub open spec fn build_pairs(
    tree: TreeView,
    state: BuildState,
    c: int,
    k: int,
    id: NodeId,
    entries: Map<Seq<char>, MappingEntry>,
) -> (BuildState, Result<Map<Seq<char>, MappingEntry>, ErrorView>)
    decreases tree.nodes[c].size, 1int, end_of(tree.nodes, c) - k,
    when well_nested(tree.nodes) && 0 <= c < k && c < tree.nodes.len()
    via build_pairs_decreases
{
    if k < end_of(tree.nodes, c) {
        let child = tree.nodes[k];
        let next = end_of(tree.nodes, k);
        if child.named && (is_pair(child.kind) || child.kind == "flow_node"@) {
            let span = if is_pair(child.kind) {
                child.span
            } else {
                tree.nodes[c].span
            };
            match build_pair(tree, state, c, k, span, id, entries) {
                (inner, Ok(longer)) => build_pairs(tree, inner, c, next, id, longer),
                (inner, Err(error)) => (inner, Err(error)),
            }
        } else {
            build_pairs(tree, state, c, next, id, entries)
        }
    } else {
        (state, Ok(entries))
    }
}

#[via_fn]
proof fn build_pairs_decreases(
    tree: TreeView,
    state: BuildState,
    c: int,
    k: int,
    id: NodeId,
    entries: Map<Seq<char>, MappingEntry>,
) {
    if k < end_of(tree.nodes, c) {
        assert(is_inside(tree.nodes, c, k));
        assert(tree.nodes[k].size >= 1);
    }
}

/// The key of the pair `p`. A bare key is its own key.
pub open spec fn pair_key(nodes: Seq<SyntaxNodeView>, p: int) -> Option<int> {
    if nodes[p].kind == "flow_node"@ {
        Some(p)
    } else {
        match nodes[p].key {
            Some(key) => Some(key as int),
            None => None,
        }
    }
}

/// The value of the pair `p`. A bare key has none.
pub open spec fn pair_value(nodes: Seq<SyntaxNodeView>, p: int) -> Option<int> {
    if nodes[p].kind == "flow_node"@ {
        None
    } else {
        match nodes[p].value {
            Some(value) => Some(value as int),
            None => None,
        }
    }
}

/// The pairs and bare keys of a mapping among its child `k` and those after it,
/// up to position `end`.
pub open spec fn mapping_pairs(nodes: Seq<SyntaxNodeView>, k: int, end: int) -> Seq<int>
    decreases end - k,
{
    if 0 <= k < end_of(nodes, k) <= end {
        let rest = mapping_pairs(nodes, end_of(nodes, k), end);
        if nodes[k].named && (is_pair(nodes[k].kind) || nodes[k].kind == "flow_node"@) {
            seq![k] + rest
        } else {
            rest
        }
    } else {
        Seq::empty()
    }
}

/// The pairs and bare keys of the mapping `c`. A pair that stands alone is its
/// own pair.
pub open spec fn pairs_of(nodes: Seq<SyntaxNodeView>, c: int) -> Seq<int> {
    if is_pair(nodes[c].kind) {
        seq![c]
    } else {
        mapping_pairs(nodes, c + 1, end_of(nodes, c))
    }
}

/// Whether `p` can be a pair of the mapping `c`: it is inside the mapping, or is
/// the mapping and not a bare key.
pub open spec fn holds_pair(nodes: Seq<SyntaxNodeView>, c: int, p: int) -> bool {
    is_inside(nodes, c, p) || (p == c && nodes[p].kind != "flow_node"@)
}

/// A pair is not a bare key.
pub proof fn lemma_pair_is_no_wrapper(kind: Seq<char>)
    requires
        is_pair(kind),
    ensures
        kind != "flow_node"@,
{
    reveal_strlit("flow_pair");
    reveal_strlit("block_mapping_pair");
    reveal_strlit("flow_node");
    assert("flow_pair"@[5] != "flow_node"@[5]);
    assert("block_mapping_pair"@.len() != "flow_node"@.len());
}

/// Building the key and the value of the pair `p`, which is the mapping `c` or
/// inside it.
pub open spec fn build_pair(
    tree: TreeView,
    state: BuildState,
    c: int,
    p: int,
    pair_span: SpanInfo,
    id: NodeId,
    entries: Map<Seq<char>, MappingEntry>,
) -> (BuildState, Result<Map<Seq<char>, MappingEntry>, ErrorView>)
    decreases tree.nodes[c].size, 0int, 0int,
    when well_nested(tree.nodes) && 0 <= c < tree.nodes.len() && holds_pair(tree.nodes, c, p)
    via build_pair_decreases
{
    match pair_key(tree.nodes, p) {
        Some(key) => match build(tree, state, key, Some(id)) {
            (after_key, Ok(key_id)) => {
                let name = key_text(tree.text, tree.nodes, key);
                match pair_value(tree.nodes, p) {
                    Some(value) => match build(tree, after_key, value, Some(id)) {
                        (after_value, Ok(value_id)) => {
                            let entry = MappingEntry {
                                key_id,
                                value_id: Some(value_id),
                                pair_span,
                            };
                            (after_value, Ok(entries.insert(name, entry)))
                        },
                        (after_value, Err(error)) => (after_value, Err(error)),
                    },
                    None => {
                        let entry = MappingEntry { key_id, value_id: None, pair_span };
                        (after_key, Ok(entries.insert(name, entry)))
                    },
                }
            },
            (after_key, Err(error)) => (after_key, Err(error)),
        },
        None => (state, Err(ErrorView::MissingChildField(tree.nodes[p].kind, "key"@))),
    }
}

#[via_fn]
proof fn build_pair_decreases(
    tree: TreeView,
    state: BuildState,
    c: int,
    p: int,
    pair_span: SpanInfo,
    id: NodeId,
    entries: Map<Seq<char>, MappingEntry>,
) {
    lemma_pair_inside(tree.nodes, c, p);
    if let Some(key) = pair_key(tree.nodes, p) {
        lemma_content_inside(tree.nodes, c, key);
    }
    if let Some(value) = pair_value(tree.nodes, p) {
        lemma_content_inside(tree.nodes, c, value);
    }
}

/// The key and the value of a pair of a mapping are inside the mapping.
pub proof fn lemma_pair_inside(nodes: Seq<SyntaxNodeView>, c: int, p: int)
    requires
        well_nested(nodes),
        0 <= c < nodes.len(),
        holds_pair(nodes, c, p),
    ensures
        pair_key(nodes, p) matches Some(key) ==> is_inside(nodes, c, key) && 0 <= key < nodes.len(),
        pair_value(nodes, p) matches Some(value) ==> is_inside(nodes, c, value) && 0 <= value
            < nodes.len(),
{
    if nodes[p].kind != "flow_node"@ {
        if let Some(key) = nodes[p].key {
            assert(is_child(nodes, p, key as int));
        }
        if let Some(value) = nodes[p].value {
            assert(is_child(nodes, p, value as int));
        }
    }
}

/// Building the items of a sequence.
pub open spec fn build_sequence(tree: TreeView, state: BuildState, c: int, id: NodeId) -> (
    BuildState,
    Result<KindView, ErrorView>,
)
    decreases tree.nodes[c].size, 1int, tree.nodes[c].size,
    when well_nested(tree.nodes) && 0 <= c < tree.nodes.len()
{
    match build_items(tree, state, c, c + 1, id, Seq::empty()) {
        (inner, Ok(item_ids)) => (inner, Ok(KindView::Sequence(item_ids, tree.nodes[c].span))),
        (inner, Err(error)) => (inner, Err(error)),
    }
}

/// The content of the child `k` of a sequence: for an item, its first named
/// child but comments.
pub open spec fn item_content(nodes: Seq<SyntaxNodeView>, k: int) -> int {
    if nodes[k].kind == "block_sequence_item"@ {
        match first_named_child(nodes, k, Skip::Comments) {
            Some(inner) => inner,
            None => k,
        }
    } else {
        k
    }
}

/// The contents of the items of a sequence among its child `k` and those after
/// it, up to position `end`.
pub open spec fn sequence_items(nodes: Seq<SyntaxNodeView>, k: int, end: int) -> Seq<int>
    decreases end - k,
{
    if 0 <= k < end_of(nodes, k) <= end {
        let rest = sequence_items(nodes, end_of(nodes, k), end);
        if nodes[k].named && nodes[k].kind != "comment"@ {
            seq![item_content(nodes, k)] + rest
        } else {
            rest
        }
    } else {
        Seq::empty()
    }
}

/// Building the items of the sequence `c` from its child `k` on. Comments are
/// not items.
pub open spec fn build_items(
    tree: TreeView,
    state: BuildState,
    c: int,
    k: int,
    id: NodeId,
    item_ids: Seq<NodeId>,
) -> (BuildState, Result<Seq<NodeId>, ErrorView>)
    decreases tree.nodes[c].size, 1int, end_of(tree.nodes, c) - k,
    when well_nested(tree.nodes) && 0 <= c < k && c < tree.nodes.len()
    via build_items_decreases
{
    if k < end_of(tree.nodes, c) {
        let child = tree.nodes[k];
        let next = end_of(tree.nodes, k);
        if child.named && child.kind != "comment"@ {
            match build(tree, state, item_content(tree.nodes, k), Some(id)) {
                (inner, Ok(item_id)) => build_items(
                    tree,
                    inner,
                    c,
                    next,
                    id,
                    item_ids.push(item_id),
                ),
                (inner, Err(error)) => (inner, Err(error)),
            }
        } else {
            build_items(tree, state, c, next, id, item_ids)
        }
    } else {
        (state, Ok(item_ids))
    }
}

#[via_fn]
proof fn build_items_decreases(
    tree: TreeView,
    state: BuildState,
    c: int,
    k: int,
    id: NodeId,
    item_ids: Seq<NodeId>,
) {
    if k < end_of(tree.nodes, c) {
        assert(is_inside(tree.nodes, c, k));
        assert(tree.nodes[k].size >= 1);
        lemma_item_inside(tree.nodes, c, k);
        lemma_content_inside(tree.nodes, c, item_content(tree.nodes, k));
    }
}

/// The content of a child of a sequence is inside the sequence.
pub proof fn lemma_item_inside(nodes: Seq<SyntaxNodeView>, c: int, k: int)
    requires
        well_nested(nodes),
        0 <= c < nodes.len(),
        is_inside(nodes, c, k),
    ensures
        is_inside(nodes, c, item_content(nodes, k)),
        0 <= item_content(nodes, k) < nodes.len(),
{
    lemma_first_named_child(nodes, k, Skip::Comments);
}

/// Builder for constructing the reduced tree with automatic parent tracking.
pub struct CstBuilder {
    nodes: Vec<YamlNodeData>,
    /// Map from syntax nodes to the nodes built from them. Used to find the node
    /// for an anchor's content when resolving aliases.
    ts_node_to_id: HashMap<usize, NodeId>,
}

impl View for CstBuilder {
    type V = BuildState;

    closed spec fn view(&self) -> BuildState {
        BuildState { nodes: node_views(self.nodes@), placed: self.ts_node_to_id@ }
    }
}

impl CstBuilder {
    /// No key of a mapping occurs twice.
    pub closed spec fn wf(&self) -> bool {
        nodes_wf(self.nodes@)
    }

    /// Creates a builder without nodes.
    pub fn new() -> (builder: Self)
        ensures
            builder.wf(),
            builder@ == (BuildState { nodes: Seq::empty(), placed: Map::empty() }),
    {
        broadcast use vstd::std_specs::hash::group_hash_axioms;

        let builder = CstBuilder { nodes: Vec::new(), ts_node_to_id: HashMap::new() };
        assert(builder@ =~= (BuildState { nodes: Seq::empty(), placed: Map::empty() }));
        builder
    }

    /// Reserves the place of a node.
    pub fn alloc_id(&mut self) -> (id: NodeId)
        requires
            old(self).wf(),
        ensures
            final(self).wf(),
            id.0 == old(self)@.nodes.len(),
            final(self)@ == (BuildState {
                nodes: old(self)@.nodes.push(placeholder()),
                placed: old(self)@.placed,
            }),
    {
        let ghost before = *self;
        let id = NodeId(self.nodes.len());
        let origin = Point { row: 0, column: 0 };
        self.nodes.push(
            YamlNodeData {
                parent_id: None,
                kind: YamlNodeKind::Scalar(
                    ScalarData {
                        exact_span: SpanInfo {
                            start_byte: 0,
                            end_byte: 0,
                            start_point: origin,
                            end_point: origin,
                        },
                        pretty_span: None,
                    },
                ),
            },
        );
        assert(self@.nodes =~= before@.nodes.push(placeholder()));
        id
    }

    /// Puts a node in its place.
    pub fn set_node(&mut self, id: NodeId, parent_id: Option<NodeId>, kind: YamlNodeKind)
        requires
            old(self).wf(),
            id.0 < old(self)@.nodes.len(),
            kind.wf(),
        ensures
            final(self).wf(),
            final(self)@ == (BuildState {
                nodes: old(self)@.nodes.update(
                    id.0 as int,
                    NodeView { parent_id, kind: kind@ },
                ),
                placed: old(self)@.placed,
            }),
    {
        let ghost before = *self;
        let ghost node = NodeView { parent_id, kind: kind@ };
        self.nodes.set(id.0, YamlNodeData { parent_id, kind });
        assert(self@.nodes =~= before@.nodes.update(id.0 as int, node));
    }

    /// Records the node that was built from a syntax node.
    pub fn place(&mut self, node: usize, id: NodeId)
        requires
            old(self).wf(),
        ensures
            final(self).wf(),
            final(self)@ == (BuildState {
                nodes: old(self)@.nodes,
                placed: old(self)@.placed.insert(node, id),
            }),
    {
        broadcast use vstd::std_specs::hash::group_hash_axioms;

        self.ts_node_to_id.insert(node, id);
    }

    /// Returns the node that was built from a syntax node.
    pub fn built_from(&self, node: usize) -> (id: Option<NodeId>)
        ensures
            match id {
                Some(id) => self@.placed.contains_key(node) && self@.placed[node] == id,
                None => !self@.placed.contains_key(node),
            },
    {
        broadcast use vstd::std_specs::hash::group_hash_axioms;

        match self.ts_node_to_id.get(&node) {
            Some(id) => Some(*id),
            None => None,
        }
    }

    /// Ends the building.
    pub fn finish(self, root_id: NodeId) -> (store: CstStore)
        requires
            self.wf(),
        ensures
            store@.nodes == self@.nodes,
            store@.root_id == root_id,
            nodes_wf(store.nodes@),
    {
        CstStore { nodes: self.nodes, root_id }
    }
}

/// Returns the content of a node.
fn find_content(syntax: &SyntaxTree, node: usize) -> (found: usize)
    requires
        well_nested(syntax@),
        node < syntax@.len(),
    ensures
        found == content(syntax@, node as int),
        found < syntax@.len(),
{
    let mut current: usize = node;
    // Skip wrapper nodes and non-content nodes (comments, directives, tags).
    loop
        invariant
            well_nested(syntax@),
            current < syntax@.len(),
            unwrapped(syntax@, current as int) == unwrapped(syntax@, node as int),
        ensures
            current == unwrapped(syntax@, node as int),
            current < syntax@.len(),
        decreases syntax@[current as int].size,
    {
        let wraps = syntax.is_kind(current, "stream") || syntax.is_kind(current, "document")
            || syntax.is_kind(current, "block_node") || syntax.is_kind(current, "flow_node");
        if !wraps {
            break;
        }
        proof {
            lemma_preferred_child(syntax@, current as int, Skip::NonValue, Skip::NonContent);
        }
        match syntax.preferred_child(current, Skip::NonValue, Skip::NonContent) {
            Some(child) => {
                current = child;
            },
            None => {
                break;
            },
        }
    }
    // Skip an anchor to the anchored content (also skipping comments and tags).
    if syntax.is_kind(current, "anchor") {
        if let Some(parent) = syntax.parent(current) {
            if let Some(anchored) = syntax.preferred_child(
                parent,
                Skip::Properties,
                Skip::AnchorsAndComments,
            ) {
                return anchored;
            }
        }
    }
    current
}

/// Creates the span of a syntax node.
fn span_from_node(syntax: &SyntaxTree, node: usize) -> (span: SpanInfo)
    requires
        node < syntax@.len(),
    ensures
        span == syntax@[node as int].span,
{
    syntax.node(node).span
}

/// Computes the pretty span for a scalar (with block scalar indicators).
fn compute_pretty_span(syntax: &SyntaxTree, node: usize) -> (span: Option<SpanInfo>)
    requires
        node < syntax@.len(),
    ensures
        span == pretty_span(syntax@[node as int]),
{
    if syntax.is_kind(node, "block_scalar") {
        Some(span_from_node(syntax, node))
    } else {
        None
    }
}

/// Extracts a key string from a key node, handling quotes, anchors and tags.
fn extract_key_string(tree: &AnchoredTree, node: usize) -> (key: String)
    requires
        tree.wf(),
        node < tree@.nodes.len(),
    ensures
        key@ == key_text(tree@.text, tree@.nodes, node as int),
{
    let scalar = match tree.syntax.preferred_child(node, Skip::Properties, Skip::Anchors) {
        Some(scalar) => scalar,
        None => node,
    };
    let span = span_from_node(&tree.syntax, scalar);
    let text = slice(tree.source.as_str(), span.start_byte, span.end_byte);
    if tree.syntax.is_kind(scalar, "single_quote_scalar") || tree.syntax.is_kind(
        scalar,
        "double_quote_scalar",
    ) {
        let len: usize = text.unicode_len();
        if len >= 2 {
            text.substring_char(1, len - 1).to_owned()
        } else {
            assert(unquoted(text@) =~= ""@) by {
                reveal_strlit("");
            }
            "".to_owned()
        }
    } else {
        text.to_owned()
    }
}

/// Whether a result is the expected one.
pub open spec fn is_built(
    result: Result<NodeId, QueryError>,
    expected: Result<NodeId, ErrorView>,
) -> bool {
    match (result, expected) {
        (Ok(id), Ok(expected_id)) => id == expected_id,
        (Err(error), Err(expected_error)) => error@ == expected_error,
        _ => false,
    }
}

/// Whether a kind of node is the expected one.
pub open spec fn is_built_kind(
    result: Result<YamlNodeKind, QueryError>,
    expected: Result<KindView, ErrorView>,
) -> bool {
    match (result, expected) {
        (Ok(kind), Ok(expected_kind)) => kind.wf() && kind@ == expected_kind,
        (Err(error), Err(expected_error)) => error@ == expected_error,
        _ => false,
    }
}

/// Builds the reduced tree from a syntax node.
pub fn build_node(
    builder: &mut CstBuilder,
    tree: &AnchoredTree,
    node: usize,
    parent_id: Option<NodeId>,
) -> (id: Result<NodeId, QueryError>)
    requires
        tree.wf(),
        node < tree@.nodes.len(),
        old(builder).wf(),
    ensures
        final(builder).wf(),
        final(builder)@.nodes.len() >= old(builder)@.nodes.len(),
        final(builder)@ == build(tree@, old(builder)@, node as int, parent_id).0,
        is_built(id, build(tree@, old(builder)@, node as int, parent_id).1),
    decreases tree@.nodes[content(tree@.nodes, node as int)].size, 4int,
{
    let current = find_content(&tree.syntax, node);
    let ghost before = builder@;
    let ghost c = current as int;
    // Handle aliases: create an alias node that references the anchor's content.
    if tree.syntax.is_kind(current, "alias") {
        let alias_span = span_from_node(&tree.syntax, current);
        // Slice off the leading '*'.
        let alias_name = slice(
            tree.source.as_str(),
            alias_span.start_byte + 1,
            alias_span.end_byte,
        );
        // Find the most recent anchor with this name.
        let target = match tree.anchors.at(alias_name, alias_span.start_byte) {
            Some(target) => target,
            None => {
                return Err(QueryError::Other(String::from("undefined alias: ").concat(alias_name)));
            },
        };
        // Look up the node for the anchor's content (already built).
        let target_id = match builder.built_from(target) {
            Some(target_id) => target_id,
            None => {
                return Err(
                    QueryError::Other(
                        String::from("anchor content not yet built for alias: ").concat(alias_name),
                    ),
                );
            },
        };
        let node_id = builder.alloc_id();
        builder.set_node(
            node_id,
            parent_id,
            YamlNodeKind::Alias(AliasData { span: alias_span, target_id }),
        );
        proof {
            let expected = build_content(tree@, before, c, parent_id).0;
            assert(builder@.nodes =~= expected.nodes);
        }
        return Ok(node_id);
    }
    let node_id = builder.alloc_id();
    let built = if tree.syntax.is_kind(current, "block_mapping") || tree.syntax.is_kind(
        current,
        "flow_mapping",
    ) || tree.syntax.is_kind(current, "flow_pair") || tree.syntax.is_kind(
        current,
        "block_mapping_pair",
    ) {
        build_mapping_node(builder, tree, current, node_id)
    } else if tree.syntax.is_kind(current, "block_sequence") || tree.syntax.is_kind(
        current,
        "flow_sequence",
    ) {
        build_sequence_node(builder, tree, current, node_id)
    } else {
        Ok(
            YamlNodeKind::Scalar(
                ScalarData {
                    exact_span: span_from_node(&tree.syntax, current),
                    pretty_span: compute_pretty_span(&tree.syntax, current),
                },
            ),
        )
    };
    match built {
        Ok(kind) => {
            builder.set_node(node_id, parent_id, kind);
            // Later aliases find this node.
            builder.place(current, node_id);
            Ok(node_id)
        },
        Err(error) => Err(error),
    }
}

/// Builds a mapping node from a mapping or a pair.
///
/// Handles both explicit mappings, which contain any number of pairs, and
/// implicit single-entry mappings from standalone pairs (e.g., `key: value`
/// appearing directly in a sequence like `[1, 2, key: value]`).
fn build_mapping_node(
    builder: &mut CstBuilder,
    tree: &AnchoredTree,
    node: usize,
    parent_id: NodeId,
) -> (kind: Result<YamlNodeKind, QueryError>)
    requires
        tree.wf(),
        node < tree@.nodes.len(),
        old(builder).wf(),
    ensures
        final(builder).wf(),
        final(builder)@.nodes.len() >= old(builder)@.nodes.len(),
        final(builder)@ == build_mapping(tree@, old(builder)@, node as int, parent_id).0,
        is_built_kind(kind, build_mapping(tree@, old(builder)@, node as int, parent_id).1),
    decreases tree@.nodes[node as int].size, 1int,
{
    let ghost before = builder@;
    let ghost c = node as int;
    let exact_span = span_from_node(&tree.syntax, node);
    let mut entries: TextMap<MappingEntry> = TextMap::new();
    if tree.syntax.is_kind(node, "flow_pair") || tree.syntax.is_kind(node, "block_mapping_pair") {
        proof {
            lemma_pair_is_no_wrapper(tree@.nodes[c].kind);
        }
        // Standalone pair: a single-entry mapping.
        if let Err(error) = build_pair_entry(
            builder,
            tree,
            node,
            node,
            exact_span,
            parent_id,
            &mut entries,
        ) {
            return Err(error);
        }
    } else {
        let end: usize = node + tree.syntax.node(node).size;
        let mut child: usize = node + 1;
        while child < end
            invariant
                tree.wf(),
                node < tree@.nodes.len(),
                c == node,
                before == old(builder)@,
                !is_pair(tree@.nodes[c].kind),
                exact_span == tree@.nodes[c].span,
                end == end_of(tree@.nodes, c),
                node < child <= end,
                builder.wf(),
                builder@.nodes.len() >= before.nodes.len(),
                entries.wf(),
                build_pairs(tree@, before, c, c + 1, parent_id, Map::empty()) == build_pairs(
                    tree@,
                    builder@,
                    c,
                    child as int,
                    parent_id,
                    entries@,
                ),
            decreases end - child,
        {
            assert(is_inside(tree@.nodes, c, child as int));
            assert(tree@.nodes[child as int].size >= 1);
            let is_pair = tree.syntax.is_kind(child, "flow_pair") || tree.syntax.is_kind(
                child,
                "block_mapping_pair",
            );
            let named = tree.syntax.node(child).named;
            if named && (is_pair || tree.syntax.is_kind(child, "flow_node")) {
                // A bare key in a flow mapping like { foo } has the mapping's span.
                let pair_span = if is_pair {
                    span_from_node(&tree.syntax, child)
                } else {
                    exact_span
                };
                if let Err(error) = build_pair_entry(
                    builder,
                    tree,
                    node,
                    child,
                    pair_span,
                    parent_id,
                    &mut entries,
                ) {
                    return Err(error);
                }
            }
            child += tree.syntax.node(child).size;
        }
    }
    Ok(YamlNodeKind::Mapping(MappingData { entries, exact_span }))
}

/// Builds the key and the value of a pair, and adds its entry.
fn build_pair_entry(
    builder: &mut CstBuilder,
    tree: &AnchoredTree,
    mapping: usize,
    pair: usize,
    pair_span: SpanInfo,
    parent_id: NodeId,
    entries: &mut TextMap<MappingEntry>,
) -> (result: Result<(), QueryError>)
    requires
        tree.wf(),
        mapping < tree@.nodes.len(),
        pair < tree@.nodes.len(),
        holds_pair(tree@.nodes, mapping as int, pair as int),
        old(builder).wf(),
        old(entries).wf(),
    ensures
        final(builder).wf(),
        final(entries).wf(),
        final(builder)@.nodes.len() >= old(builder)@.nodes.len(),
        ({
            let (built, expected) = build_pair(
                tree@,
                old(builder)@,
                mapping as int,
                pair as int,
                pair_span,
                parent_id,
                old(entries)@,
            );
            &&& final(builder)@ == built
            &&& match (result, expected) {
                (Ok(_), Ok(longer)) => final(entries)@ == longer,
                (Err(error), Err(expected_error)) => error@ == expected_error && final(entries)@
                    == old(entries)@,
                _ => false,
            }
        }),
    decreases tree@.nodes[mapping as int].size, 0int,
{
    proof {
        lemma_pair_inside(tree@.nodes, mapping as int, pair as int);
    }
    let (key, value) = if tree.syntax.is_kind(pair, "flow_node") {
        (pair, None)
    } else {
        match tree.syntax.node(pair).key {
            Some(key) => (key, tree.syntax.node(pair).value),
            None => {
                return Err(
                    QueryError::MissingChildField(tree.syntax.node(pair).kind.clone(), "key"),
                );
            },
        }
    };
    proof {
        lemma_content_inside(tree@.nodes, mapping as int, key as int);
    }
    let key_str = extract_key_string(tree, key);
    let key_id = match build_node(builder, tree, key, Some(parent_id)) {
        Ok(key_id) => key_id,
        Err(error) => {
            return Err(error);
        },
    };
    let value_id = match value {
        Some(value) => {
            proof {
                lemma_content_inside(tree@.nodes, mapping as int, value as int);
            }
            match build_node(builder, tree, value, Some(parent_id)) {
                Ok(value_id) => Some(value_id),
                Err(error) => {
                    return Err(error);
                },
            }
        },
        None => None,
    };
    entries.insert(key_str, MappingEntry { key_id, value_id, pair_span });
    Ok(())
}

/// Builds a sequence node.
fn build_sequence_node(
    builder: &mut CstBuilder,
    tree: &AnchoredTree,
    node: usize,
    parent_id: NodeId,
) -> (kind: Result<YamlNodeKind, QueryError>)
    requires
        tree.wf(),
        node < tree@.nodes.len(),
        old(builder).wf(),
    ensures
        final(builder).wf(),
        final(builder)@.nodes.len() >= old(builder)@.nodes.len(),
        final(builder)@ == build_sequence(tree@, old(builder)@, node as int, parent_id).0,
        is_built_kind(kind, build_sequence(tree@, old(builder)@, node as int, parent_id).1),
    decreases tree@.nodes[node as int].size, 1int,
{
    let ghost before = builder@;
    let ghost c = node as int;
    let mut item_ids: Vec<NodeId> = Vec::new();
    let end: usize = node + tree.syntax.node(node).size;
    let mut child: usize = node + 1;
    while child < end
        invariant
            tree.wf(),
            node < tree@.nodes.len(),
            c == node,
            before == old(builder)@,
            end == end_of(tree@.nodes, c),
            node < child <= end,
            builder.wf(),
            builder@.nodes.len() >= before.nodes.len(),
            build_items(tree@, before, c, c + 1, parent_id, Seq::empty()) == build_items(
                tree@,
                builder@,
                c,
                child as int,
                parent_id,
                item_ids@,
            ),
        decreases end - child,
    {
        assert(is_inside(tree@.nodes, c, child as int));
        assert(tree@.nodes[child as int].size >= 1);
        let named = tree.syntax.node(child).named;
        // Comments are not sequence items.
        if named && !tree.syntax.is_kind(child, "comment") {
            proof {
                lemma_item_inside(tree@.nodes, c, child as int);
                lemma_content_inside(tree@.nodes, c, item_content(tree@.nodes, child as int));
            }
            let item = if tree.syntax.is_kind(child, "block_sequence_item") {
                match tree.syntax.first_named_child(child, Skip::Comments) {
                    Some(inner) => inner,
                    None => child,
                }
            } else {
                child
            };
            match build_node(builder, tree, item, Some(parent_id)) {
                Ok(item_id) => {
                    item_ids.push(item_id);
                },
                Err(error) => {
                    return Err(error);
                },
            }
        }
        child += tree.syntax.node(child).size;
    }
    Ok(
        YamlNodeKind::Sequence(
            SequenceData { item_ids, exact_span: span_from_node(&tree.syntax, node) },
        ),
    )
}

} // verus!
