//! The reduced tree that queries walk: mappings, sequences, scalars and
//! aliases, without the syntax around them.

use vstd::prelude::*;

use crate::location::SpanInfo;
use crate::maps::TextMap;

verus! {

/// Unique identifier for a node: its position in the store.
#[derive(Debug, Clone, Copy, PartialEq, Eq, Hash)]
pub struct NodeId(pub usize);

/// One entry of a mapping.
#[derive(Debug, Clone, Copy)]
pub struct MappingEntry {
    /// The key node.
    pub key_id: NodeId,
    /// The value node (None for absent values like `foo:` or `{ foo }`).
    pub value_id: Option<NodeId>,
    /// Span of the entire mapping pair (key: value).
    pub pair_span: SpanInfo,
}

/// A mapping node (object/dict).
#[derive(Debug)]
pub struct MappingData {
    /// Map from key string to entry (key location and optional value node).
    pub entries: TextMap<MappingEntry>,
    /// The exact span of this mapping in the source.
    pub exact_span: SpanInfo,
}

/// A sequence node (array/list).
#[derive(Debug)]
pub struct SequenceData {
    /// The items of this sequence.
    pub item_ids: Vec<NodeId>,
    /// The exact span of this sequence in the source.
    pub exact_span: SpanInfo,
}

/// A scalar node (leaf value).
#[derive(Debug, Clone, Copy)]
pub struct ScalarData {
    /// The exact span of this scalar in the source.
    pub exact_span: SpanInfo,
    /// The span with any block scalar indicator (|, >).
    pub pretty_span: Option<SpanInfo>,
}

/// An alias node that references an anchor's content.
#[derive(Debug, Clone, Copy)]
pub struct AliasData {
    /// The span of the alias itself (e.g., `*foo`).
    pub span: SpanInfo,
    /// The anchored content that this alias references.
    pub target_id: NodeId,
}

/// A node's type and data.
#[derive(Debug)]
pub enum YamlNodeKind {
    Mapping(MappingData),
    Sequence(SequenceData),
    Scalar(ScalarData),
    Alias(AliasData),
}

/// The mathematical content of a [`YamlNodeKind`].
pub enum KindView {
    Mapping(Map<Seq<char>, MappingEntry>, SpanInfo),
    Sequence(Seq<NodeId>, SpanInfo),
    Scalar(ScalarData),
    Alias(AliasData),
}

impl KindView {
    /// The exact span of a node. An alias has its own span, not that of its
    /// target.
    pub open spec fn exact_span(self) -> SpanInfo {
        match self {
            KindView::Mapping(_, span) => span,
            KindView::Sequence(_, span) => span,
            KindView::Scalar(scalar) => scalar.exact_span,
            KindView::Alias(alias) => alias.span,
        }
    }
}

impl View for YamlNodeKind {
    type V = KindView;

    open spec fn view(&self) -> KindView {
        match *self {
            YamlNodeKind::Mapping(mapping) => KindView::Mapping(
                mapping.entries@,
                mapping.exact_span,
            ),
            YamlNodeKind::Sequence(sequence) => KindView::Sequence(
                sequence.item_ids@,
                sequence.exact_span,
            ),
            YamlNodeKind::Scalar(scalar) => KindView::Scalar(scalar),
            YamlNodeKind::Alias(alias) => KindView::Alias(alias),
        }
    }
}

impl YamlNodeKind {
    /// No key of a mapping occurs twice.
    pub open spec fn wf(&self) -> bool {
        match *self {
            YamlNodeKind::Mapping(mapping) => mapping.entries.wf(),
            _ => true,
        }
    }
}

/// A node, with the node around it.
#[derive(Debug)]
pub struct YamlNodeData {
    /// The parent (None only for the root).
    pub parent_id: Option<NodeId>,
    /// The node's type and data.
    pub kind: YamlNodeKind,
}

/// The mathematical content of a [`YamlNodeData`].
pub struct NodeView {
    pub parent_id: Option<NodeId>,
    pub kind: KindView,
}

impl View for YamlNodeData {
    type V = NodeView;

    open spec fn view(&self) -> NodeView {
        NodeView { parent_id: self.parent_id, kind: self.kind@ }
    }
}

/// Storage for all nodes. Single source of truth for the entire tree.
#[derive(Debug)]
pub struct CstStore {
    /// All nodes, each at the position that its id names.
    pub nodes: Vec<YamlNodeData>,
    /// The root node of the document.
    pub root_id: NodeId,
}

/// The mathematical content of a [`CstStore`].
pub struct CstView {
    pub nodes: Seq<NodeView>,
    pub root_id: NodeId,
}

/// The contents of a list of nodes.
pub open spec fn node_views(nodes: Seq<YamlNodeData>) -> Seq<NodeView> {
    nodes.map_values(|node: YamlNodeData| node@)
}

/// Whether no mapping among the nodes has a key twice.
pub open spec fn nodes_wf(nodes: Seq<YamlNodeData>) -> bool {
    forall|i: int| 0 <= i < nodes.len() ==> (#[trigger] nodes[i]).kind.wf()
}

impl View for CstStore {
    type V = CstView;

    open spec fn view(&self) -> CstView {
        CstView { nodes: node_views(self.nodes@), root_id: self.root_id }
    }
}

} // verus!
