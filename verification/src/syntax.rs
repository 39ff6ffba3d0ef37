//! The concrete syntax tree of a source, as plain values.
//!
//! The nodes stand in one list, in pre-order: a node comes before its
//! descendants, and a node's subtree is a contiguous run that starts with the
//! node itself.

use vstd::prelude::*;
use vstd::utf8::encode_utf8;

use crate::location::{lemma_newline_count, span_fits, SpanInfo};
use crate::text::{is_slice, same_text};

verus! {

/// One node of the concrete syntax tree.
#[derive(Debug)]
pub struct SyntaxNode {
    /// The grammar's name for this kind of node.
    pub kind: String,
    /// The grammar's number for this kind of node.
    pub kind_id: u16,
    /// Whether the grammar names this node (punctuation is unnamed).
    pub named: bool,
    /// The number of nodes in this node's subtree, itself among them.
    pub size: usize,
    /// Where the node stands in the source.
    pub span: SpanInfo,
    /// The position in the list of the child in the field `key`.
    pub key: Option<usize>,
    /// The position in the list of the child in the field `value`.
    pub value: Option<usize>,
}

/// The mathematical content of a [`SyntaxNode`].
pub struct SyntaxNodeView {
    pub kind: Seq<char>,
    pub kind_id: u16,
    pub named: bool,
    pub size: usize,
    pub span: SpanInfo,
    pub key: Option<usize>,
    pub value: Option<usize>,
}

impl View for SyntaxNode {
    type V = SyntaxNodeView;

    open spec fn view(&self) -> SyntaxNodeView {
        SyntaxNodeView {
            kind: self.kind@,
            kind_id: self.kind_id,
            named: self.named,
            size: self.size,
            span: self.span,
            key: self.key,
            value: self.value,
        }
    }
}

/// The nodes of a concrete syntax tree in pre-order.
#[derive(Debug)]
pub struct SyntaxTree {
    pub nodes: Vec<SyntaxNode>,
}

impl View for SyntaxTree {
    type V = Seq<SyntaxNodeView>;

    open spec fn view(&self) -> Seq<SyntaxNodeView> {
        self.nodes@.map_values(|node: SyntaxNode| node@)
    }
}

/// The position just after the subtree of node `i`.
pub open spec fn end_of(nodes: Seq<SyntaxNodeView>, i: int) -> int {
    i + nodes[i].size
}

/// Whether node `j` is a proper descendant of node `i`.
pub open spec fn is_inside(nodes: Seq<SyntaxNodeView>, i: int, j: int) -> bool {
    i < j < end_of(nodes, i)
}

/// Whether node `c` is a child of node `i`: a descendant of it that is inside
/// no node between the two.
pub open spec fn is_child(nodes: Seq<SyntaxNodeView>, i: int, c: int) -> bool {
    &&& 0 <= i
    &&& is_inside(nodes, i, c)
    &&& forall|k: int| i < k < c ==> #[trigger] end_of(nodes, k) <= c
}

/// Whether the list is the pre-order listing of a tree: the first node's
/// subtree is the whole list, subtrees are nested or disjoint, and the nodes in
/// the fields `key` and `value` are children.
pub open spec fn well_nested(nodes: Seq<SyntaxNodeView>) -> bool {
    &&& nodes.len() > 0
    &&& nodes.len() <= usize::MAX
    &&& nodes[0].size == nodes.len()
    &&& forall|i: int|
        0 <= i < nodes.len() ==> 1 <= (#[trigger] nodes[i]).size && end_of(nodes, i) <= nodes.len()
    &&& forall|i: int, j: int|
        0 <= i < nodes.len() && #[trigger] is_inside(nodes, i, j) ==> end_of(nodes, j) <= end_of(
            nodes,
            i,
        )
    &&& forall|i: int, c: usize|
        0 <= i < nodes.len() && (#[trigger] nodes[i]).key == Some(c) ==> #[trigger] is_child(
            nodes,
            i,
            c as int,
        )
    &&& forall|i: int, c: usize|
        0 <= i < nodes.len() && (#[trigger] nodes[i]).value == Some(c) ==> #[trigger] is_child(
            nodes,
            i,
            c as int,
        )
}

/// Whether every node's span is a slice of `text`, with the points of its bytes.
pub open spec fn spans_fit(nodes: Seq<SyntaxNodeView>, text: Seq<char>) -> bool {
    forall|i: int| 0 <= i < nodes.len() ==> span_fits(text, (#[trigger] nodes[i]).span)
}

/// Whether every node's rows are in order and lie within the rows of the nodes
/// around it.
pub open spec fn rows_nested(nodes: Seq<SyntaxNodeView>) -> bool {
    &&& forall|i: int| #![trigger nodes[i]]
        0 <= i < nodes.len() ==> nodes[i].span.start_point.row <= nodes[i].span.end_point.row
    &&& forall|i: int, j: int|
        0 <= i < nodes.len() && #[trigger] is_inside(nodes, i, j) ==> {
            &&& nodes[i].span.start_point.row <= nodes[j].span.start_point.row
            &&& nodes[j].span.end_point.row <= nodes[i].span.end_point.row
        }
}

/// Whether every node's bytes lie within the bytes of the nodes around it.
pub open spec fn bytes_nested(nodes: Seq<SyntaxNodeView>) -> bool {
    forall|i: int, j: int|
        0 <= i < nodes.len() && #[trigger] is_inside(nodes, i, j) ==> nodes[j].span.is_within(
            nodes[i].span,
        )
}

/// Whether every anchor and every alias is cut one character after its start:
/// both begin with a marker of one byte.
pub open spec fn markers_fit(nodes: Seq<SyntaxNodeView>, text: Seq<char>) -> bool {
    forall|i: int| #![trigger nodes[i]]
        0 <= i < nodes.len() && (nodes[i].kind == "anchor"@ || nodes[i].kind == "alias"@)
            ==> is_slice(
            text,
            nodes[i].span.start_byte + 1,
            nodes[i].span.end_byte as int,
        )
}

/// Whether `nodes` is a syntax tree of `text`.
pub open spec fn is_syntax_of(nodes: Seq<SyntaxNodeView>, text: Seq<char>) -> bool {
    &&& well_nested(nodes)
    &&& spans_fit(nodes, text)
    &&& bytes_nested(nodes)
    &&& markers_fit(nodes, text)
}

/// The rows of nodes are nested, since their bytes are.
pub proof fn lemma_rows_nested(nodes: Seq<SyntaxNodeView>, text: Seq<char>)
    requires
        is_syntax_of(nodes, text),
    ensures
        rows_nested(nodes),
{
    let bytes = encode_utf8(text);
    assert forall|i: int| #![trigger nodes[i]] 0 <= i < nodes.len() implies
        nodes[i].span.start_point.row <= nodes[i].span.end_point.row by {
        let span = nodes[i].span;
        lemma_newline_count(bytes, span.start_byte as int, span.end_byte as int);
    }
    assert forall|i: int, j: int|
        0 <= i < nodes.len() && #[trigger] is_inside(nodes, i, j) implies {
        &&& nodes[i].span.start_point.row <= nodes[j].span.start_point.row
        &&& nodes[j].span.end_point.row <= nodes[i].span.end_point.row
    } by {
        let outer = nodes[i].span;
        let inner = nodes[j].span;
        assert(inner.is_within(outer));
        lemma_newline_count(bytes, outer.start_byte as int, inner.start_byte as int);
        lemma_newline_count(bytes, inner.end_byte as int, outer.end_byte as int);
    }
}

/// The node around node `j`, if there is one.
pub open spec fn parent_of(nodes: Seq<SyntaxNodeView>, j: int) -> Option<int> {
    if exists|i: int| is_child(nodes, i, j) {
        Some(choose|i: int| is_child(nodes, i, j))
    } else {
        None
    }
}

/// Which kinds of node a search among the children passes over.
#[derive(Debug, Clone, Copy)]
pub enum Skip {
    /// Comments.
    Comments,
    /// Anchors.
    Anchors,
    /// Anchors and comments.
    AnchorsAndComments,
    /// What a value has beside it: anchors, tags and comments.
    Properties,
    /// Comments and directives.
    NonContent,
    /// Comments, directives and tags.
    NonValue,
}

impl Skip {
    /// Whether a node of this kind is passed over.
    pub open spec fn skips(self, kind: Seq<char>) -> bool {
        match self {
            Skip::Comments => kind == "comment"@,
            Skip::Anchors => kind == "anchor"@,
            Skip::AnchorsAndComments => kind == "anchor"@ || kind == "comment"@,
            Skip::Properties => kind == "anchor"@ || kind == "tag"@ || kind == "comment"@,
            Skip::NonContent => is_comment_or_directive(kind),
            Skip::NonValue => is_comment_or_directive(kind) || kind == "tag"@,
        }
    }

    /// Returns whether a node of this kind is passed over.
    pub fn skips_kind(self, kind: &str) -> (skipped: bool)
        ensures
            skipped == self.skips(kind@),
    {
        match self {
            Skip::Comments => same_text(kind, "comment"),
            Skip::Anchors => same_text(kind, "anchor"),
            Skip::AnchorsAndComments => same_text(kind, "anchor") || same_text(kind, "comment"),
            Skip::Properties => {
                same_text(kind, "anchor") || same_text(kind, "tag") || same_text(kind, "comment")
            },
            Skip::NonContent => is_non_content(kind),
            Skip::NonValue => is_non_content(kind) || same_text(kind, "tag"),
        }
    }
}

/// Whether a node of this kind is a comment or a directive.
pub open spec fn is_comment_or_directive(kind: Seq<char>) -> bool {
    ||| kind == "comment"@
    ||| kind == "yaml_directive"@
    ||| kind == "tag_directive"@
    ||| kind == "reserved_directive"@
}

fn is_non_content(kind: &str) -> (non_content: bool)
    ensures
        non_content == is_comment_or_directive(kind@),
{
    same_text(kind, "comment") || same_text(kind, "yaml_directive") || same_text(
        kind,
        "tag_directive",
    ) || same_text(kind, "reserved_directive")
}

/// The first named node that is not passed over, among `c` and the siblings
/// after it, up to position `end`.
pub open spec fn next_named(nodes: Seq<SyntaxNodeView>, c: int, end: int, skip: Skip) -> Option<int>
    decreases end - c,
{
    if 0 <= c < end_of(nodes, c) <= end {
        if nodes[c].named && !skip.skips(nodes[c].kind) {
            Some(c)
        } else {
            next_named(nodes, end_of(nodes, c), end, skip)
        }
    } else {
        None
    }
}

/// The first named child of node `i` that is not passed over.
pub open spec fn first_named_child(nodes: Seq<SyntaxNodeView>, i: int, skip: Skip) -> Option<int> {
    next_named(nodes, i + 1, end_of(nodes, i), skip)
}

/// The first named child of node `i` that `preferred` does not pass over or, where
/// there is none, that `otherwise` does not pass over.
pub open spec fn preferred_child(
    nodes: Seq<SyntaxNodeView>,
    i: int,
    preferred: Skip,
    otherwise: Skip,
) -> Option<int> {
    match first_named_child(nodes, i, preferred) {
        Some(child) => Some(child),
        None => first_named_child(nodes, i, otherwise),
    }
}

/// The child that a wrapper is for: the first named one but comments and
/// directives, with tags passed over where anything else is there.
pub open spec fn wrapped_child(nodes: Seq<SyntaxNodeView>, i: int) -> Option<int> {
    preferred_child(nodes, i, Skip::NonValue, Skip::NonContent)
}

/// The child that an anchor in node `i` is for: the first named one but anchors
/// and comments, with tags passed over where anything else is there.
pub open spec fn anchored_child(nodes: Seq<SyntaxNodeView>, i: int) -> Option<int> {
    preferred_child(nodes, i, Skip::Properties, Skip::AnchorsAndComments)
}

/// Whether position `c` is that of a child of node `i`, or the end of its
/// subtree.
pub open spec fn is_step(nodes: Seq<SyntaxNodeView>, i: int, c: int) -> bool {
    &&& 0 <= i < nodes.len()
    &&& i < c <= end_of(nodes, i)
    &&& forall|k: int| i < k < c ==> #[trigger] end_of(nodes, k) <= c
}

/// The position after a child's subtree is that of the next child, or the end.
pub proof fn lemma_next_step(nodes: Seq<SyntaxNodeView>, i: int, c: int)
    requires
        well_nested(nodes),
        is_step(nodes, i, c),
        c < end_of(nodes, i),
    ensures
        is_child(nodes, i, c),
        is_step(nodes, i, end_of(nodes, c)),
        c < end_of(nodes, c),
{
    assert(is_inside(nodes, i, c));
    assert(nodes[c].size >= 1);
    assert forall|k: int| i < k < end_of(nodes, c) implies #[trigger] end_of(nodes, k) <= end_of(
        nodes,
        c,
    ) by {
        if c < k {
            assert(is_inside(nodes, c, k));
        }
    }
}

/// The child that a search finds is a child of the node, and is smaller.
pub proof fn lemma_first_named_child(nodes: Seq<SyntaxNodeView>, i: int, skip: Skip)
    requires
        well_nested(nodes),
        0 <= i < nodes.len(),
    ensures
        first_named_child(nodes, i, skip) matches Some(c) ==> {
            &&& is_child(nodes, i, c)
            &&& is_inside(nodes, i, c)
            &&& nodes[c].size < nodes[i].size
            &&& nodes[c].named
            &&& !skip.skips(nodes[c].kind)
        },
{
    assert(nodes[i].size >= 1);
    lemma_next_named(nodes, i, i + 1, skip);
}

/// The child that is preferred is a child of the node, and is smaller.
pub proof fn lemma_preferred_child(
    nodes: Seq<SyntaxNodeView>,
    i: int,
    preferred: Skip,
    otherwise: Skip,
)
    requires
        well_nested(nodes),
        0 <= i < nodes.len(),
    ensures
        preferred_child(nodes, i, preferred, otherwise) matches Some(c) ==> {
            &&& is_child(nodes, i, c)
            &&& is_inside(nodes, i, c)
            &&& nodes[c].size < nodes[i].size
        },
{
    lemma_first_named_child(nodes, i, preferred);
    lemma_first_named_child(nodes, i, otherwise);
}

proof fn lemma_next_named(nodes: Seq<SyntaxNodeView>, i: int, c: int, skip: Skip)
    requires
        well_nested(nodes),
        is_step(nodes, i, c),
    ensures
        next_named(nodes, c, end_of(nodes, i), skip) matches Some(found) ==> {
            &&& is_child(nodes, i, found)
            &&& is_inside(nodes, i, found)
            &&& nodes[found].size < nodes[i].size
            &&& nodes[found].named
            &&& !skip.skips(nodes[found].kind)
        },
    decreases end_of(nodes, i) - c,
{
    if c < end_of(nodes, i) {
        lemma_next_step(nodes, i, c);
        lemma_next_named(nodes, i, end_of(nodes, c), skip);
    }
}

/// A node has at most one parent.
pub proof fn lemma_parent_unique(nodes: Seq<SyntaxNodeView>, i: int, j: int)
    requires
        is_child(nodes, i, j),
    ensures
        parent_of(nodes, j) == Some(i),
{
    let p = choose|p: int| is_child(nodes, p, j);
    assert(is_child(nodes, p, j));
    if p < i {
        assert(end_of(nodes, i) <= j);
    } else if i < p {
        assert(end_of(nodes, p) <= j);
    }
}

impl SyntaxTree {
    /// Returns node `i`.
    pub fn node(&self, i: usize) -> (node: &SyntaxNode)
        requires
            i < self@.len(),
        ensures
            node@ == self@[i as int],
    {
        &self.nodes[i]
    }

    /// Returns whether node `i` is of the given kind.
    pub fn is_kind(&self, i: usize, kind: &str) -> (same: bool)
        requires
            i < self@.len(),
        ensures
            same == (self@[i as int].kind == kind@),
    {
        same_text(self.node(i).kind.as_str(), kind)
    }

    /// Returns the first named child of node `i` that is not passed over.
    pub fn first_named_child(&self, i: usize, skip: Skip) -> (found: Option<usize>)
        requires
            well_nested(self@),
            i < self@.len(),
        ensures
            match found {
                Some(c) => first_named_child(self@, i as int, skip) == Some(c as int),
                None => first_named_child(self@, i as int, skip) is None,
            },
    {
        let end: usize = i + self.node(i).size;
        let mut c: usize = i + 1;
        while c < end
            invariant
                well_nested(self@),
                i < self@.len(),
                end == end_of(self@, i as int),
                i < c <= end,
                first_named_child(self@, i as int, skip) == next_named(
                    self@,
                    c as int,
                    end as int,
                    skip,
                ),
            decreases end - c,
        {
            assert(is_inside(self@, i as int, c as int));
            assert(self@[c as int].size >= 1);
            let node = self.node(c);
            if node.named && !skip.skips_kind(node.kind.as_str()) {
                return Some(c);
            }
            c += node.size;
        }
        None
    }

    /// Returns the first named child of node `i` that `preferred` does not pass
    /// over or, where there is none, that `otherwise` does not pass over.
    pub fn preferred_child(&self, i: usize, preferred: Skip, otherwise: Skip) -> (found: Option<
        usize,
    >)
        requires
            well_nested(self@),
            i < self@.len(),
        ensures
            match found {
                Some(c) => c < self@.len() && preferred_child(
                    self@,
                    i as int,
                    preferred,
                    otherwise,
                ) == Some(c as int),
                None => preferred_child(self@, i as int, preferred, otherwise) is None,
            },
    {
        proof {
            lemma_preferred_child(self@, i as int, preferred, otherwise);
        }
        match self.first_named_child(i, preferred) {
            Some(child) => Some(child),
            None => self.first_named_child(i, otherwise),
        }
    }

    /// Returns the node around node `j`, if there is one.
    pub fn parent(&self, j: usize) -> (found: Option<usize>)
        requires
            well_nested(self@),
            j < self@.len(),
        ensures
            match found {
                Some(i) => parent_of(self@, j as int) == Some(i as int) && is_child(
                    self@,
                    i as int,
                    j as int,
                ),
                None => parent_of(self@, j as int) is None,
            },
    {
        let mut i: usize = j;
        while i > 0
            invariant
                well_nested(self@),
                i <= j < self@.len(),
                forall|k: int| i <= k < j ==> #[trigger] end_of(self@, k) <= j,
            decreases i,
        {
            i -= 1;
            assert(self@[i as int].size >= 1);
            if j - i < self.node(i).size {
                proof {
                    assert(is_child(self@, i as int, j as int));
                    lemma_parent_unique(self@, i as int, j as int);
                }
                return Some(i);
            }
            assert(end_of(self@, i as int) <= j);
        }
        proof {
            assert forall|p: int| !is_child(self@, p, j as int) by {
                if is_child(self@, p, j as int) {
                    assert(end_of(self@, p) <= j);
                }
            }
        }
        None
    }
}

} // verus!
