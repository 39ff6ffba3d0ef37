//! Anchors: which node each name stands for, and from where on.

use vstd::prelude::*;

use crate::error::{ErrorView, QueryError};
use crate::maps::{last_before, PositionMap, TextMap};
use crate::syntax::{
    anchored_child, is_child, is_syntax_of, lemma_preferred_child, parent_of, well_nested, Skip,
    SyntaxNodeView, SyntaxTree,
};
use crate::text::{slice, slice_of};

verus! {

/// The anchors of a source: for each name, the nodes that it stands for, each
/// under the position of its anchor.
#[derive(Debug)]
pub struct AnchorMap {
    names: TextMap<PositionMap>,
}

impl View for AnchorMap {
    type V = Map<Seq<char>, Map<usize, usize>>;

    closed spec fn view(&self) -> Map<Seq<char>, Map<usize, usize>> {
        self.names@.map_values(|positions: PositionMap| positions@)
    }
}

/// The anchors of `anchors` and one more, at `position`.
pub open spec fn with_anchor(
    anchors: Map<Seq<char>, Map<usize, usize>>,
    name: Seq<char>,
    position: usize,
    node: usize,
) -> Map<Seq<char>, Map<usize, usize>> {
    let positions = if anchors.contains_key(name) {
        anchors[name]
    } else {
        Map::empty()
    };
    anchors.insert(name, positions.insert(position, node))
}

/// The node that `name` stands for at `position`: that of the last anchor of
/// this name before it.
pub open spec fn anchored_at(
    anchors: Map<Seq<char>, Map<usize, usize>>,
    name: Seq<char>,
    position: usize,
) -> Option<usize> {
    if anchors.contains_key(name) {
        last_before(anchors[name], position)
    } else {
        None
    }
}

impl AnchorMap {
    /// Neither a name nor a position of one name occurs twice.
    pub closed spec fn wf(&self) -> bool {
        &&& self.names.wf()
        &&& forall|name: Seq<char>| #[trigger]
            self.names@.contains_key(name) ==> self.names@[name].wf()
    }

    /// Creates a map without anchors.
    pub fn new() -> (anchors: Self)
        ensures
            anchors.wf(),
            anchors@ == Map::<Seq<char>, Map<usize, usize>>::empty(),
    {
        let anchors = AnchorMap { names: TextMap::new() };
        assert(anchors@ =~= Map::<Seq<char>, Map<usize, usize>>::empty());
        anchors
    }

    /// Returns the number of names.
    pub fn len(&self) -> (len: usize)
        requires
            self.wf(),
        ensures
            len == self@.len(),
    {
        assert(self@.dom() =~= self.names@.dom());
        self.names.len()
    }

    /// Returns whether there is no anchor.
    pub fn is_empty(&self) -> (empty: bool)
        requires
            self.wf(),
        ensures
            empty == (self@ == Map::<Seq<char>, Map<usize, usize>>::empty()),
    {
        proof {
            if self@ == Map::<Seq<char>, Map<usize, usize>>::empty() {
                assert(self@.dom() =~= self.names@.dom());
                assert(self.names@ =~= Map::<Seq<char>, PositionMap>::empty());
            } else {
                assert(!(self@ =~= Map::<Seq<char>, Map<usize, usize>>::empty()));
            }
        }
        self.names.is_empty()
    }

    /// Returns the nodes that `name` stands for, each under the position of its
    /// anchor.
    pub fn get(&self, name: &str) -> (positions: Option<&PositionMap>)
        requires
            self.wf(),
        ensures
            match positions {
                Some(p) => p.wf() && self@.contains_key(name@) && self@[name@] == p@,
                None => !self@.contains_key(name@),
            },
    {
        self.names.get(name)
    }

    /// Adds an anchor.
    pub fn insert(&mut self, name: String, position: usize, node: usize)
        requires
            old(self).wf(),
        ensures
            final(self).wf(),
            final(self)@ == with_anchor(old(self)@, name@, position, node),
    {
        let ghost before = *self;
        let ghost name_view = name@;
        let mut positions = match self.names.insert(name.clone(), PositionMap::new()) {
            Some(positions) => positions,
            None => PositionMap::new(),
        };
        positions.insert(position, node);
        let ghost new_positions = positions;
        self.names.insert(name, positions);
        proof {
            assert(self.names@ =~= before.names@.insert(name_view, new_positions));
            assert(self@ =~= with_anchor(before@, name_view, position, node));
        }
    }

    /// Returns the node that `name` stands for at `position`.
    pub fn at(&self, name: &str, position: usize) -> (node: Option<usize>)
        requires
            self.wf(),
        ensures
            node == anchored_at(self@, name@, position),
    {
        match self.get(name) {
            Some(positions) => positions.last_before(position),
            None => None,
        }
    }
}

/// A source and its syntax tree.
#[derive(Debug)]
pub struct SourceTree {
    pub source: String,
    pub syntax: SyntaxTree,
}

/// A source, its syntax tree and the anchors in it.
#[derive(Debug)]
pub struct AnchoredTree {
    pub source: String,
    pub syntax: SyntaxTree,
    pub anchors: AnchorMap,
}

/// The mathematical content of a [`AnchoredTree`].
pub struct TreeView {
    pub text: Seq<char>,
    pub nodes: Seq<SyntaxNodeView>,
    pub anchors: Map<Seq<char>, Map<usize, usize>>,
}

impl View for AnchoredTree {
    type V = TreeView;

    open spec fn view(&self) -> TreeView {
        TreeView { text: self.source@, nodes: self.syntax@, anchors: self.anchors@ }
    }
}

/// The name of the anchor or the alias at node `i`: its text without the
/// marker.
pub open spec fn name_at(text: Seq<char>, nodes: Seq<SyntaxNodeView>, i: int) -> Seq<char> {
    slice_of(text, nodes[i].span.start_byte + 1, nodes[i].span.end_byte as int)
}

/// The node that the anchor at node `i` stands for: the value beside it.
pub open spec fn anchor_target(nodes: Seq<SyntaxNodeView>, i: int) -> Result<int, ErrorView> {
    match parent_of(nodes, i) {
        Some(parent) => match anchored_child(nodes, parent) {
            Some(sibling) => Ok(sibling),
            None => Err(ErrorView::UnexpectedNode("anchor has no non-comment sibling"@)),
        },
        None => Err(ErrorView::UnexpectedNode("anchor node has no parent"@)),
    }
}

/// The anchors among the first `n` nodes.
pub open spec fn anchors_among(text: Seq<char>, nodes: Seq<SyntaxNodeView>, n: int) -> Result<
    Map<Seq<char>, Map<usize, usize>>,
    ErrorView,
>
    decreases n,
{
    if n <= 0 {
        Ok(Map::empty())
    } else {
        match anchors_among(text, nodes, n - 1) {
            Ok(anchors) => if nodes[n - 1].kind == "anchor"@ {
                match anchor_target(nodes, n - 1) {
                    Ok(target) => Ok(
                        with_anchor(
                            anchors,
                            name_at(text, nodes, n - 1),
                            nodes[n - 1].span.start_byte,
                            target as usize,
                        ),
                    ),
                    Err(error) => Err(error),
                }
            } else {
                Ok(anchors)
            },
            Err(error) => Err(error),
        }
    }
}

/// The anchors of a source.
pub open spec fn anchors_of(text: Seq<char>, nodes: Seq<SyntaxNodeView>) -> Result<
    Map<Seq<char>, Map<usize, usize>>,
    ErrorView,
> {
    anchors_among(text, nodes, nodes.len() as int)
}

/// An anchor without a target among the first nodes leaves the source without
/// anchors.
proof fn lemma_error_stays(text: Seq<char>, nodes: Seq<SyntaxNodeView>, n: int, m: int)
    requires
        0 <= n <= m,
        anchors_among(text, nodes, n) is Err,
    ensures
        anchors_among(text, nodes, m) == anchors_among(text, nodes, n),
    decreases m - n,
{
    if n < m {
        lemma_error_stays(text, nodes, n, m - 1);
    }
}

/// The target of an anchor is a node.
pub proof fn lemma_anchor_target(nodes: Seq<SyntaxNodeView>, i: int)
    requires
        well_nested(nodes),
        0 <= i < nodes.len(),
    ensures
        anchor_target(nodes, i) matches Ok(target) ==> 0 <= target < nodes.len(),
{
    if let Some(parent) = parent_of(nodes, i) {
        assert(is_child(nodes, parent, i));
        lemma_preferred_child(nodes, parent, Skip::Properties, Skip::AnchorsAndComments);
    }
}

impl AnchoredTree {
    /// Whether the syntax tree is one of the source.
    pub open spec fn wf(&self) -> bool {
        &&& is_syntax_of(self.syntax@, self.source@)
        &&& self.anchors.wf()
        &&& anchors_of(self.source@, self.syntax@) == Ok::<_, ErrorView>(self.anchors@)
    }

    /// Collects the anchors of a source.
    pub fn build(inner: SourceTree) -> (tree: Result<AnchoredTree, QueryError>)
        requires
            is_syntax_of(inner.syntax@, inner.source@),
        ensures
            match tree {
                Ok(tree) => {
                    &&& tree.wf()
                    &&& tree.source@ == inner.source@
                    &&& tree.syntax@ == inner.syntax@
                    &&& anchors_of(inner.source@, inner.syntax@) is Ok
                },
                Err(error) => anchors_of(inner.source@, inner.syntax@) == Err::<
                    Map<Seq<char>, Map<usize, usize>>,
                    ErrorView,
                >(error@),
            },
    {
        let ghost text = inner.source@;
        let ghost nodes = inner.syntax@;
        let mut anchors = AnchorMap::new();
        let mut i: usize = 0;
        while i < inner.syntax.nodes.len()
            invariant
                is_syntax_of(nodes, text),
                text == inner.source@,
                nodes == inner.syntax@,
                i <= nodes.len(),
                anchors.wf(),
                anchors_among(text, nodes, i as int) == Ok::<_, ErrorView>(anchors@),
            decreases nodes.len() - i,
        {
            if inner.syntax.is_kind(i, "anchor") {
                let span = inner.syntax.node(i).span;
                let name = slice(inner.source.as_str(), span.start_byte + 1, span.end_byte);
                let parent = match inner.syntax.parent(i) {
                    Some(parent) => parent,
                    None => {
                        proof {
                            lemma_error_stays(text, nodes, i + 1, nodes.len() as int);
                        }
                        return Err(
                            QueryError::UnexpectedNode(String::from("anchor node has no parent")),
                        );
                    },
                };
                let sibling = match inner.syntax.preferred_child(
                    parent,
                    Skip::Properties,
                    Skip::AnchorsAndComments,
                ) {
                    Some(sibling) => sibling,
                    None => {
                        proof {
                            lemma_error_stays(text, nodes, i + 1, nodes.len() as int);
                        }
                        return Err(
                            QueryError::UnexpectedNode(
                                String::from("anchor has no non-comment sibling"),
                            ),
                        );
                    },
                };
                anchors.insert(name.to_owned(), span.start_byte, sibling);
            }
            i += 1;
        }
        Ok(AnchoredTree { source: inner.source, syntax: inner.syntax, anchors })
    }
}

} // verus!
