//! Where a route leads in the reduced tree.

use vstd::prelude::*;

use crate::cst::{KindView, MappingEntry, NodeId, NodeView};
use crate::error::ErrorView;
use crate::links::linked;
use crate::location::{Location, SpanInfo};
use crate::route::ComponentView;

verus! {

/// Describes the feature's kind, i.e. whether it's a mapping, sequence,
/// or scalar value.
#[derive(Debug, Clone, Copy, PartialEq, Eq, Structural)]
pub enum FeatureKind {
    /// A mapping (object/dict), either block or flow style.
    Mapping,
    /// A sequence (array/list), either block or flow style.
    Sequence,
    /// Any sort of scalar value.
    Scalar,
}

/// Configures how features are extracted from a YAML document
/// during queries.
#[derive(Debug, Clone, Copy)]
pub enum QueryMode {
    /// Make extracted features as "pretty" as possible, e.g. with
    /// components that humans subjectively consider relevant.
    ///
    /// For example, querying `foo: bar` for `foo` will return
    /// `foo: bar` instead of just `bar`.
    Pretty,
    /// Make extracted features as "exact" as possible, i.e. with
    /// only the exact span of the route result.
    Exact,
}

/// Result of a query, preserving context about how the route terminated.
#[derive(Debug, Clone, Copy)]
pub enum QueryResult {
    /// Route ended at a node (sequence index or non-key traversal).
    Node(NodeId),
    /// Route ended with a key lookup in a mapping.
    MappingKey { parent_id: NodeId, entry: MappingEntry },
}

/// The node that an alias stands for, and any other node itself.
pub open spec fn resolved_alias(nodes: Seq<NodeView>, id: NodeId) -> NodeId
    decreases id.0,
    when linked(nodes) && id.0 < nodes.len()
{
    match nodes[id.0 as int].kind {
        KindView::Alias(alias) => resolved_alias(nodes, alias.target_id),
        _ => id,
    }
}

/// Where a route leads from a node. Keys lead through mappings and indices
/// through sequences. An alias on the way stands for its target. A key at the
/// end leads to its entry.
pub open spec fn located(nodes: Seq<NodeView>, id: NodeId, route: Seq<ComponentView>) -> Result<
    QueryResult,
    ErrorView,
>
    decreases route.len(),
{
    let current = resolved_alias(nodes, id);
    if route.len() == 0 {
        Ok(QueryResult::Node(current))
    } else {
        match route[0] {
            ComponentView::Key(key) => match nodes[current.0 as int].kind {
                KindView::Mapping(entries, _) => {
                    if !entries.contains_key(key) {
                        Err(ErrorView::ExhaustedMapping(key))
                    } else if route.len() == 1 {
                        Ok(QueryResult::MappingKey { parent_id: current, entry: entries[key] })
                    } else {
                        match entries[key].value_id {
                            Some(value_id) => located(nodes, value_id, route.drop_first()),
                            None => Err(ErrorView::Other("absent value for key: "@ + key)),
                        }
                    }
                },
                _ => Err(ErrorView::ExpectedMapping(key)),
            },
            ComponentView::Index(index) => match nodes[current.0 as int].kind {
                KindView::Sequence(item_ids, _) => {
                    if index < item_ids.len() {
                        located(nodes, item_ids[index as int], route.drop_first())
                    } else {
                        Err(ErrorView::ExhaustedList(index, item_ids.len() as usize))
                    }
                },
                _ => Err(ErrorView::ExpectedList(index)),
            },
        }
    }
}

/// The span of a node, which for a scalar in "pretty" mode holds its indicator.
pub open spec fn span_of(kind: KindView, mode: QueryMode) -> SpanInfo {
    match (mode, kind) {
        (QueryMode::Pretty, KindView::Scalar(scalar)) => match scalar.pretty_span {
            Some(span) => span,
            None => scalar.exact_span,
        },
        _ => kind.exact_span(),
    }
}

/// The location of a node.
pub open spec fn location_of(nodes: Seq<NodeView>, id: NodeId, mode: QueryMode) -> Location {
    span_of(nodes[id.0 as int].kind, mode).location()
}

/// The mathematical content of a feature, but for the document that it is from.
pub struct FeatureView {
    /// The node, for a feature that has one.
    pub node_id: Option<NodeId>,
    /// The exact location of the route result.
    pub location: Location,
    /// The location of the structure around it.
    pub context: Option<Location>,
}

/// The location of the parent of a node, if it has one.
pub open spec fn context_of(nodes: Seq<NodeView>, id: NodeId) -> Option<Location> {
    match nodes[id.0 as int].parent_id {
        Some(parent_id) => Some(location_of(nodes, parent_id, QueryMode::Exact)),
        None => None,
    }
}

/// The feature of a node.
pub open spec fn feature_of(nodes: Seq<NodeView>, id: NodeId, mode: QueryMode) -> FeatureView {
    FeatureView {
        node_id: Some(id),
        location: location_of(nodes, id, mode),
        context: context_of(nodes, id),
    }
}

/// The feature that a route leads to in "pretty" mode: for an entry of a
/// mapping, the key and the value.
pub open spec fn pretty_feature(nodes: Seq<NodeView>, found: QueryResult) -> FeatureView {
    match found {
        QueryResult::MappingKey { parent_id, entry } => FeatureView {
            node_id: entry.value_id,
            location: entry.pair_span.location(),
            context: Some(location_of(nodes, parent_id, QueryMode::Exact)),
        },
        QueryResult::Node(id) => feature_of(nodes, id, QueryMode::Pretty),
    }
}

/// The feature that a route leads to in "exact" mode: for an entry of a mapping,
/// what its value stands for, if it has a value.
pub open spec fn exact_feature(nodes: Seq<NodeView>, found: QueryResult) -> Option<FeatureView> {
    match found {
        QueryResult::MappingKey { parent_id, entry } => match entry.value_id {
            Some(value_id) => {
                let id = resolved_alias(nodes, value_id);
                Some(
                    FeatureView {
                        node_id: Some(id),
                        location: location_of(nodes, id, QueryMode::Exact),
                        context: Some(location_of(nodes, parent_id, QueryMode::Exact)),
                    },
                )
            },
            None => None,
        },
        QueryResult::Node(id) => Some(feature_of(nodes, id, QueryMode::Exact)),
    }
}

/// The feature that a route leads to in "key only" mode: the key of an entry of
/// a mapping.
pub open spec fn key_feature(nodes: Seq<NodeView>, found: QueryResult) -> Result<
    FeatureView,
    ErrorView,
> {
    match found {
        QueryResult::MappingKey { parent_id, entry } => Ok(
            FeatureView {
                node_id: Some(entry.key_id),
                location: location_of(nodes, entry.key_id, QueryMode::Exact),
                context: Some(location_of(nodes, parent_id, QueryMode::Exact)),
            },
        ),
        QueryResult::Node(_) => Err(ErrorView::Other("key_only requires route to end with key"@)),
    }
}

/// The kind of a node that is no alias.
pub open spec fn plain_kind(kind: KindView) -> FeatureKind {
    match kind {
        KindView::Mapping(..) => FeatureKind::Mapping,
        KindView::Sequence(..) => FeatureKind::Sequence,
        _ => FeatureKind::Scalar,
    }
}

/// The kind of a feature: that of its node, or of what its node stands for. A
/// feature without a node is a scalar.
pub open spec fn feature_kind(nodes: Seq<NodeView>, node_id: Option<NodeId>) -> FeatureKind {
    match node_id {
        Some(id) => if id.0 < nodes.len() {
            plain_kind(nodes[resolved_alias(nodes, id).0 as int].kind)
        } else {
            FeatureKind::Scalar
        },
        None => FeatureKind::Scalar,
    }
}

/// The feature around a feature: that of the parent of its node.
pub open spec fn parent_feature(nodes: Seq<NodeView>, node_id: Option<NodeId>) -> Option<
    FeatureView,
> {
    match node_id {
        Some(id) => if id.0 < nodes.len() {
            match nodes[id.0 as int].parent_id {
                Some(parent_id) => Some(
                    FeatureView {
                        node_id: Some(parent_id),
                        location: location_of(nodes, parent_id, QueryMode::Exact),
                        context: None,
                    },
                ),
                None => None,
            }
        } else {
            None
        },
        None => None,
    }
}

/// What an alias stands for is no alias, and no node after it.
pub proof fn lemma_resolved_alias(nodes: Seq<NodeView>, id: NodeId)
    requires
        linked(nodes),
        id.0 < nodes.len(),
    ensures
        resolved_alias(nodes, id).0 <= id.0,
        nodes[resolved_alias(nodes, id).0 as int].kind !is Alias,
    decreases id.0,
{
    if let KindView::Alias(alias) = nodes[id.0 as int].kind {
        lemma_resolved_alias(nodes, alias.target_id);
    }
}

} // verus!
