//! What the mathematical contents of values show of them.

use vstd::prelude::*;

use crate::anchors::AnchoredTree;
use crate::cst::{node_views, CstStore, KindView, YamlNodeKind};
use crate::document::Feature;
use crate::error::{ErrorView, QueryError};
use crate::syntax::{
    first_named_child, is_child, lemma_parent_unique, parent_of, preferred_child, Skip,
    SyntaxNodeView,
};

verus! {

/// The content of an error is the error, with the text of its strings.
pub proof fn law_errors_show_what_they_hold(error: QueryError)
    ensures
        match error {
            QueryError::InvalidLanguage(language) => error@ == ErrorView::InvalidLanguage(language),
            QueryError::InvalidInput => error@ == ErrorView::InvalidInput,
            QueryError::ExpectedMapping(key) => error@ == ErrorView::ExpectedMapping(key@),
            QueryError::ExpectedList(index) => error@ == ErrorView::ExpectedList(index),
            QueryError::ExhaustedMapping(key) => error@ == ErrorView::ExhaustedMapping(key@),
            QueryError::ExhaustedList(index, len) => error@ == ErrorView::ExhaustedList(index, len),
            QueryError::UnexpectedNode(node) => error@ == ErrorView::UnexpectedNode(node@),
            QueryError::MissingChild(node, child) => error@ == ErrorView::MissingChild(
                node@,
                child@,
            ),
            QueryError::MissingChildField(node, field) => error@ == ErrorView::MissingChildField(
                node@,
                field@,
            ),
            QueryError::Other(message) => error@ == ErrorView::Other(message@),
        },
{
}

/// The content of a feature is its node, its location and its context.
pub proof fn law_features_show_what_they_hold(feature: Feature)
    ensures
        feature@.node_id == feature.node_id,
        feature@.location == feature.location,
        feature@.context == feature.context,
{
}

/// The content of a reduced tree is its nodes in their order, each with its parent and
/// with what its kind holds.
pub proof fn law_nodes_show_what_they_hold(store: CstStore, i: int)
    requires
        0 <= i < store.nodes@.len(),
    ensures
        store@.root_id == store.root_id,
        store@.nodes.len() == store.nodes@.len(),
        node_views(store.nodes@).len() == store.nodes@.len(),
        store@.nodes[i].parent_id == store.nodes@[i].parent_id,
        match store.nodes@[i].kind {
            YamlNodeKind::Mapping(mapping) => store@.nodes[i].kind == KindView::Mapping(
                mapping.entries@,
                mapping.exact_span,
            ),
            YamlNodeKind::Sequence(sequence) => store@.nodes[i].kind == KindView::Sequence(
                sequence.item_ids@,
                sequence.exact_span,
            ),
            YamlNodeKind::Scalar(scalar) => store@.nodes[i].kind == KindView::Scalar(scalar),
            YamlNodeKind::Alias(alias) => store@.nodes[i].kind == KindView::Alias(alias),
        },
{
}

/// The content of a syntax tree is its nodes in their order, with all that they hold.
pub proof fn law_syntax_shows_what_it_holds(tree: AnchoredTree, i: int)
    requires
        0 <= i < tree.syntax.nodes@.len(),
    ensures
        tree@.text == tree.source@,
        tree@.anchors == tree.anchors@,
        tree@.nodes.len() == tree.syntax.nodes@.len(),
        ({
            let node = tree.syntax.nodes@[i];
            &&& tree@.nodes[i].kind == node.kind@
            &&& tree@.nodes[i].kind_id == node.kind_id
            &&& tree@.nodes[i].named == node.named
            &&& tree@.nodes[i].size == node.size
            &&& tree@.nodes[i].span == node.span
            &&& tree@.nodes[i].key == node.key
            &&& tree@.nodes[i].value == node.value
        }),
{
}

/// A search passes over these kinds and no others.
pub proof fn law_searches_pass_over_these_kinds(kind: Seq<char>)
    ensures
        Skip::Comments.skips(kind) <==> kind == "comment"@,
        Skip::Anchors.skips(kind) <==> kind == "anchor"@,
        Skip::AnchorsAndComments.skips(kind) <==> kind == "anchor"@ || kind == "comment"@,
        Skip::Properties.skips(kind) <==> kind == "anchor"@ || kind == "tag"@ || kind
            == "comment"@,
        Skip::NonContent.skips(kind) <==> kind == "comment"@ || kind == "yaml_directive"@ || kind
            == "tag_directive"@ || kind == "reserved_directive"@,
        Skip::NonValue.skips(kind) <==> kind == "comment"@ || kind == "yaml_directive"@ || kind
            == "tag_directive"@ || kind == "reserved_directive"@ || kind == "tag"@,
{
}

/// A search with two choices finds what the first finds. Only where that finds nothing
/// does it find what the second finds.
pub proof fn law_searches_prefer_their_first_choice(
    nodes: Seq<SyntaxNodeView>,
    i: int,
    preferred: Skip,
    otherwise: Skip,
)
    ensures
        first_named_child(nodes, i, preferred) is Some ==> preferred_child(
            nodes,
            i,
            preferred,
            otherwise,
        ) == first_named_child(nodes, i, preferred),
        first_named_child(nodes, i, preferred) is None ==> preferred_child(
            nodes,
            i,
            preferred,
            otherwise,
        ) == first_named_child(nodes, i, otherwise),
{
}

/// The parent of a node is the one that it is a child of. A node without a parent is a
/// child of none.
pub proof fn law_parents_are_around_their_children(nodes: Seq<SyntaxNodeView>, i: int, j: int)
    ensures
        parent_of(nodes, j) == Some(i) <==> is_child(nodes, i, j),
        parent_of(nodes, j) is None ==> !is_child(nodes, i, j),
{
    if is_child(nodes, i, j) {
        lemma_parent_unique(nodes, i, j);
    }
}

} // verus!
