//! Queryable documents and the features that routes lead to.

use vstd::pervasive::unreached;
use vstd::prelude::*;
use vstd::string::StringExecFns;
use vstd::utf8::encode_utf8;

use crate::anchors::{anchors_of, AnchoredTree, SourceTree, TreeView};
use crate::builder::{build, build_node, content, BuildState, CstBuilder};
use crate::comments::{positions, trawl, trawled};
use crate::cst::{nodes_wf, CstStore, CstView, KindView, NodeId, NodeView, YamlNodeKind};
use crate::error::{ErrorView, QueryError};
use crate::limits::{columns_fit, is_addressable, is_readable};
use crate::links::{
    aliases_outside, all_nested, all_written, is_built_from, lemma_build, linked, nodes_fit,
};
use crate::location::Location;
use crate::query::{
    exact_feature, feature_kind, feature_of, key_feature, lemma_resolved_alias, located,
    location_of, parent_feature, pretty_feature, resolved_alias, FeatureKind, FeatureView,
    QueryMode, QueryResult,
};
use crate::route::{key_str, Component, Route};
use crate::syntax::{is_syntax_of, SyntaxNodeView, SyntaxTree};
use crate::text::{is_slice, slice, slice_of};
use crate::treesitter::{
    covers_range, find_kind_id, find_spanning_kind_id, index_lines, is_comment_start,
    is_innermost, is_spanned_by, is_yaml, line_index_of, parse, parsed_text, reaches_range,
    spanning_kind_id, yaml_has_error, yaml_kind_id, yaml_nodes,
};

verus! {

/// What is read off a source whose syntax tree has the given nodes: its anchors
/// and its reduced tree. There are no nodes where the syntax holds an error.
pub open spec fn source_read(text: Seq<char>, syntax: Option<Seq<SyntaxNodeView>>) -> Result<
    (TreeView, CstView),
    ErrorView,
> {
    match syntax {
        Some(nodes) => match anchors_of(text, nodes) {
            Ok(anchors) => {
                let tree = TreeView { text, nodes, anchors };
                let empty = BuildState { nodes: Seq::empty(), placed: Map::empty() };
                match build(tree, empty, 0, None) {
                    (state, Ok(root_id)) => Ok(
                        (tree, CstView { nodes: state.nodes, root_id }),
                    ),
                    (_, Err(error)) => Err(error),
                }
            },
            Err(error) => Err(error),
        },
        None => Err(ErrorView::InvalidInput),
    }
}

/// The nodes of a syntax tree that may be there.
pub open spec fn syntax_view(syntax: Option<SyntaxTree>) -> Option<Seq<SyntaxNodeView>> {
    match syntax {
        Some(syntax) => Some(syntax@),
        None => None,
    }
}

/// Reads the anchors and the reduced tree off a source whose syntax tree has the
/// given nodes.
pub fn read_source(source: String, syntax: Option<SyntaxTree>) -> (read: Result<
    (AnchoredTree, CstStore),
    QueryError,
>)
    requires
        syntax matches Some(syntax) ==> is_syntax_of(syntax@, source@),
    ensures
        match (read, source_read(source@, syntax_view(syntax))) {
            (Ok((tree, cst)), Ok((tree_view, cst_view))) => {
                &&& tree.wf()
                &&& nodes_wf(cst.nodes@)
                &&& tree@ == tree_view
                &&& cst@ == cst_view
            },
            (Err(error), Err(error_view)) => error@ == error_view,
            _ => false,
        },
{
    let syntax = match syntax {
        Some(syntax) => syntax,
        None => {
            return Err(QueryError::InvalidInput);
        },
    };
    let tree = match AnchoredTree::build(SourceTree { source, syntax }) {
        Ok(tree) => tree,
        Err(error) => {
            return Err(error);
        },
    };
    let mut builder = CstBuilder::new();
    match build_node(&mut builder, &tree, 0, None) {
        Ok(root_id) => {
            let cst = builder.finish(root_id);
            Ok((tree, cst))
        },
        Err(error) => Err(error),
    }
}

/// The mathematical content of a [`Document`].
pub struct DocumentView {
    /// The source, its syntax tree and its anchors.
    pub tree: TreeView,
    /// The reduced tree.
    pub cst: CstView,
    /// The number of the kind of comments.
    pub comment_id: u16,
}

/// The document that is read off `text`.
pub open spec fn document_of(text: Seq<char>) -> Result<DocumentView, ErrorView> {
    let syntax = if yaml_has_error(text) {
        None
    } else {
        Some(yaml_nodes(text))
    };
    match source_read(text, syntax) {
        Ok((tree, cst)) => Ok(
            DocumentView { tree, cst, comment_id: yaml_kind_id("comment"@, true) },
        ),
        Err(error) => Err(error),
    }
}

/// What holds of every document: it is what is read off its text, whose syntax
/// tree is one of YAML.
pub open spec fn is_document(document: DocumentView) -> bool {
    &&& document_of(document.tree.text) == Ok::<_, ErrorView>(document)
    &&& is_syntax_of(document.tree.nodes, document.tree.text)
    &&& is_yaml(document.tree.nodes, document.tree.text)
    &&& document.cst.nodes.len() <= usize::MAX
}

/// What holds of the reduced tree of every document: nodes are linked, spans are
/// slices of the text, and the root is the first node and the only one without a
/// parent. It is no alias.
pub proof fn lemma_document(document: DocumentView)
    requires
        is_document(document),
    ensures
        linked(document.cst.nodes),
        nodes_fit(document.tree.text, document.cst.nodes),
        document.cst.root_id == NodeId(0),
        document.cst.nodes.len() > 0,
        document.cst.nodes[0].parent_id is None,
        document.cst.nodes[0].kind !is Alias,
        all_nested(document.cst.nodes),
{
    let empty = BuildState { nodes: Seq::empty(), placed: Map::empty() };
    lemma_build(document.tree, empty, 0, None);
    assert(document.cst.nodes[0].kind matches KindView::Alias(alias) ==> alias.target_id.0 < 0);
}

/// What holds of the reduced tree of every document: nodes name what the source
/// says, no alias stands inside what it stands for, and the root is built from the
/// content of the source.
pub proof fn lemma_document_written(document: DocumentView)
    requires
        is_document(document),
    ensures
        all_written(document.tree, document.cst.nodes),
        aliases_outside(document.cst.nodes),
        is_built_from(
            document.tree,
            document.cst.nodes[0].kind,
            content(document.tree.nodes, 0),
        ),
{
    let empty = BuildState { nodes: Seq::empty(), placed: Map::empty() };
    lemma_build(document.tree, empty, 0, None);
}

/// Represents a queryable YAML document.
#[derive(Debug)]
pub struct Document {
    /// The parse tree. Kept for queries by byte range.
    parsed: tree_sitter::Tree,
    /// The source, its syntax tree and its anchors.
    tree: AnchoredTree,
    /// The reduced tree.
    cst: CstStore,
    /// Line/column index for the source.
    line_index: line_index::LineIndex,
    /// The number of the kind of comments.
    comment_id: u16,
}

impl View for Document {
    type V = DocumentView;

    closed spec fn view(&self) -> DocumentView {
        DocumentView { tree: self.tree@, cst: self.cst@, comment_id: self.comment_id }
    }
}

impl Document {
    #[verifier::type_invariant]
    spec fn inv(self) -> bool {
        &&& is_document(self@)
        &&& is_readable(self.tree.source@)
        &&& parsed_text(self.parsed) == Some(self.tree.source@)
        &&& self.tree.wf()
        &&& nodes_wf(self.cst.nodes@)
        &&& self.line_index == line_index_of(self.tree.source@)
    }

    fn from_text(source: String) -> (document: Result<Self, QueryError>)
        requires
            is_readable(source@),
        ensures
            match (document, document_of(source@)) {
                (Ok(document), Ok(view)) => document@ == view && is_document(document@),
                (Err(error), Err(error_view)) => error@ == error_view,
                _ => false,
            },
    {
        let parsed = match parse(source.as_str()) {
            Ok(parsed) => parsed,
            Err(error) => {
                return Err(QueryError::from(error));
            },
        };
        let line_index = index_lines(source.as_str());
        match read_source(source, parsed.syntax) {
            Ok((tree, cst)) => {
                proof {
                    reveal_strlit("comment");
                }
                let comment_id = find_kind_id("comment", true);
                assert(cst.nodes.len() == cst@.nodes.len());
                Ok(Document { parsed: parsed.tree, tree, cst, line_index, comment_id })
            },
            Err(error) => Err(error),
        }
    }

    /// Construct a new `Document` from the given YAML, which must be within the
    /// limits of the parser: see [`crate::limits::can_be_read`].
    pub fn new<S: Into<String>>(source: S) -> (document: Result<Self, QueryError>)
        requires
            forall|text: String|
                call_ensures(<S as Into<String>>::into, (source,), text) ==> is_readable(text@),
        ensures
            exists|text: String|
                {
                    &&& #[trigger] call_ensures(<S as Into<String>>::into, (source,), text)
                    &&& match (document, document_of(text@)) {
                        (Ok(document), Ok(view)) => document@ == view && is_document(document@),
                        (Err(error), Err(error_view)) => error@ == error_view,
                        _ => false,
                    }
                },
    {
        let source: String = source.into();
        Self::from_text(source)
    }

    /// Returns a [`line_index::LineIndex`] for this document, which can be used
    /// to efficiently map between byte offsets and line coordinates.
    pub fn line_index(&self) -> (line_index: &line_index::LineIndex)
        ensures
            *line_index == line_index_of(self@.tree.text),
    {
        proof {
            use_type_invariant(self);
        }
        &self.line_index
    }

    /// Return a view of the YAML source that this document was loaded from.
    pub fn source(&self) -> (source: &str)
        ensures
            source@ == self@.tree.text,
    {
        self.tree.source.as_str()
    }

    /// Compute a location for a node by ID.
    fn compute_location_for_node(&self, node_id: NodeId, mode: QueryMode) -> (location: Location)
        requires
            node_id.0 < self@.cst.nodes.len(),
        ensures
            location == location_of(self@.cst.nodes, node_id, mode),
    {
        let node = &self.cst.nodes[node_id.0];
        assert(self@.cst.nodes[node_id.0 as int] == node@);
        match &node.kind {
            YamlNodeKind::Mapping(mapping) => Location::from_span(&mapping.exact_span),
            YamlNodeKind::Sequence(sequence) => Location::from_span(&sequence.exact_span),
            YamlNodeKind::Scalar(scalar) => match (mode, &scalar.pretty_span) {
                (QueryMode::Pretty, Some(span)) => Location::from_span(span),
                _ => Location::from_span(&scalar.exact_span),
            },
            YamlNodeKind::Alias(alias) => Location::from_span(&alias.span),
        }
    }

    /// Resolve an alias to its target, following chains if necessary.
    fn resolve_alias(&self, node_id: NodeId) -> (resolved: NodeId)
        requires
            node_id.0 < self@.cst.nodes.len(),
        ensures
            resolved == resolved_alias(self@.cst.nodes, node_id),
            resolved.0 < self@.cst.nodes.len(),
        decreases node_id.0,
    {
        proof {
            use_type_invariant(self);
            lemma_document(self@);
        }
        let node = &self.cst.nodes[node_id.0];
        assert(self@.cst.nodes[node_id.0 as int] == node@);
        match &node.kind {
            YamlNodeKind::Alias(alias) => self.resolve_alias(alias.target_id),
            _ => node_id,
        }
    }

    /// Query the reduced tree following the route, returning context about how
    /// the route terminated.
    fn query_cst(&self, route: &Route) -> (found: Result<QueryResult, QueryError>)
        ensures
            match (found, located(self@.cst.nodes, self@.cst.root_id, route@)) {
                (Ok(found), Ok(expected)) => found == expected && leads_into(
                    self@.cst.nodes,
                    found,
                ),
                (Err(error), Err(expected)) => error@ == expected,
                _ => false,
            },
    {
        let ghost nodes = self@.cst.nodes;
        proof {
            use_type_invariant(self);
            lemma_document(self@);
            assert(route@.skip(0) =~= route@);
        }
        let mut current_id = self.resolve_alias(self.cst.root_id);
        let mut next: Ghost<NodeId> = Ghost(self.cst.root_id);
        let mut i: usize = 0;
        while i < route.route.len()
            invariant
                nodes == self@.cst.nodes,
                linked(nodes),
                i <= route.route.len(),
                next@.0 < nodes.len(),
                current_id == resolved_alias(nodes, next@),
                current_id.0 < nodes.len(),
                nodes_wf(self.cst.nodes@),
                located(nodes, self@.cst.root_id, route@) == located(
                    nodes,
                    next@,
                    route@.skip(i as int),
                ),
            decreases route.route.len() - i,
        {
            let current = &self.cst.nodes[current_id.0];
            let ghost rest = route@.skip(i as int);
            proof {
                assert(nodes[current_id.0 as int] == current@);
                assert(rest[0] == route.route@[i as int]@);
                assert(rest.drop_first() =~= route@.skip(i + 1));
                lemma_resolved_alias(nodes, next@);
            }
            let is_last = i == route.route.len() - 1;
            match &route.route[i] {
                Component::Key(key) => {
                    let key = key_str(key);
                    match &current.kind {
                        YamlNodeKind::Mapping(mapping) => {
                            let entry = match mapping.entries.get(key) {
                                Some(entry) => *entry,
                                None => {
                                    return Err(QueryError::ExhaustedMapping(key.to_owned()));
                                },
                            };
                            if is_last {
                                return Ok(
                                    QueryResult::MappingKey { parent_id: current_id, entry },
                                );
                            }
                            let value_id = match entry.value_id {
                                Some(value_id) => value_id,
                                None => {
                                    return Err(
                                        QueryError::Other(
                                            String::from("absent value for key: ").concat(key),
                                        ),
                                    );
                                },
                            };
                            // Resolve aliases when moving to the next node.
                            next = Ghost(value_id);
                            current_id = self.resolve_alias(value_id);
                        },
                        _ => {
                            return Err(QueryError::ExpectedMapping(key.to_owned()));
                        },
                    }
                },
                Component::Index(index) => {
                    let index: usize = *index;
                    match &current.kind {
                        YamlNodeKind::Sequence(sequence) => {
                            if index >= sequence.item_ids.len() {
                                return Err(
                                    QueryError::ExhaustedList(index, sequence.item_ids.len()),
                                );
                            }
                            let item_id = sequence.item_ids[index];
                            // Resolve aliases when moving to the next node.
                            next = Ghost(item_id);
                            current_id = self.resolve_alias(item_id);
                        },
                        _ => {
                            return Err(QueryError::ExpectedList(index));
                        },
                    }
                },
            }
            i += 1;
        }
        Ok(QueryResult::Node(current_id))
    }
}

impl Clone for Document {
    fn clone(&self) -> (copy: Self)
        ensures
            copy@ == self@,
    {
        proof {
            use_type_invariant(self);
        }
        // What is read off the same source is the same document.
        match Document::new(self.tree.source.clone()) {
            Ok(document) => document,
            Err(_) => unreached(),
        }
    }
}

/// Whether the nodes that a query names are nodes.
pub open spec fn leads_into(nodes: Seq<NodeView>, found: QueryResult) -> bool {
    match found {
        QueryResult::Node(id) => id.0 < nodes.len(),
        QueryResult::MappingKey { parent_id, entry } => {
            &&& parent_id.0 < nodes.len()
            &&& entry.key_id.0 < nodes.len()
            &&& entry.value_id matches Some(value_id) ==> value_id.0 < nodes.len()
        },
    }
}

/// Represents the result of a successful route.
#[derive(Debug)]
pub struct Feature<'doc> {
    /// The node, by ID (None for comments and for absent values).
    pub node_id: Option<NodeId>,
    /// Borrow of the document for node lookups.
    pub doc: &'doc Document,
    /// The exact location of the route result.
    pub location: Location,
    /// The "context" location for the route result.
    /// This is typically the surrounding mapping or list structure.
    pub context: Option<Location>,
}

impl<'doc> View for Feature<'doc> {
    type V = FeatureView;

    open spec fn view(&self) -> FeatureView {
        FeatureView { node_id: self.node_id, location: self.location, context: self.context }
    }
}

impl<'doc> Feature<'doc> {
    /// Return this feature's parent feature, if it has one.
    pub fn parent(&self) -> (parent: Option<Feature<'doc>>)
        ensures
            match (parent, parent_feature(self.doc@.cst.nodes, self.node_id)) {
                (Some(parent), Some(view)) => parent@ == view && parent.doc == self.doc,
                (None, None) => true,
                _ => false,
            },
    {
        proof {
            use_type_invariant(self.doc);
            lemma_document(self.doc@);
        }
        let node_id = match self.node_id {
            Some(node_id) => node_id,
            None => {
                return None;
            },
        };
        if node_id.0 >= self.doc.cst.nodes.len() {
            return None;
        }
        let node = &self.doc.cst.nodes[node_id.0];
        assert(self.doc@.cst.nodes[node_id.0 as int] == node@);
        match node.parent_id {
            Some(parent_id) => Some(
                Feature {
                    node_id: Some(parent_id),
                    doc: self.doc,
                    location: self.doc.compute_location_for_node(parent_id, QueryMode::Exact),
                    context: None,
                },
            ),
            None => None,
        }
    }

    /// Return this feature's [`FeatureKind`].
    pub fn kind(&self) -> (kind: FeatureKind)
        ensures
            kind == feature_kind(self.doc@.cst.nodes, self.node_id),
    {
        proof {
            use_type_invariant(self.doc);
            lemma_document(self.doc@);
        }
        let node_id = match self.node_id {
            Some(node_id) => node_id,
            // Comments and absent values.
            None => {
                return FeatureKind::Scalar;
            },
        };
        if node_id.0 >= self.doc.cst.nodes.len() {
            return FeatureKind::Scalar;
        }
        proof {
            lemma_resolved_alias(self.doc@.cst.nodes, node_id);
        }
        // Follow an alias to get the target's kind.
        let resolved_id = self.doc.resolve_alias(node_id);
        let node = &self.doc.cst.nodes[resolved_id.0];
        assert(self.doc@.cst.nodes[resolved_id.0 as int] == node@);
        match &node.kind {
            YamlNodeKind::Mapping(_) => FeatureKind::Mapping,
            YamlNodeKind::Sequence(_) => FeatureKind::Sequence,
            _ => FeatureKind::Scalar,
        }
    }

    /// Returns whether this feature spans multiple lines.
    pub fn is_multiline(&self) -> (multiline: bool)
        ensures
            multiline == (self.location.point_span.0.0 != self.location.point_span.1.0),
    {
        let (start, end) = self.location.point_span;
        start.0 != end.0
    }
}

/// The position from which the line of `start` is indentation: that at which the
/// line begins, where only spaces stand between the two.
pub open spec fn is_indent_start(bytes: Seq<u8>, start: int, i: int) -> bool {
    &&& 0 <= i <= start
    &&& i == 0 || bytes[i - 1] == 0x0a
    &&& forall|j: int| i <= j < start ==> #[trigger] bytes[j] == 0x20
}

/// The position at which the indentation of `start` begins, or `start` where the
/// line holds anything else before it.
pub open spec fn indent_start(bytes: Seq<u8>, start: int) -> int {
    if exists|i: int| is_indent_start(bytes, start, i) {
        choose|i: int| is_indent_start(bytes, start, i)
    } else {
        start
    }
}

/// Whether a kind was found, and is that of comments.
pub open spec fn is_comment(found: Option<u16>, comment_id: u16) -> bool {
    found == Some(comment_id)
}

/// Returns whether the kind that was found is that of comments.
pub fn is_comment_kind(found: Option<u16>, comment_id: u16) -> (comment: bool)
    ensures
        comment == is_comment(found, comment_id),
{
    match found {
        Some(kind_id) => kind_id == comment_id,
        None => false,
    }
}

/// Whether what spans the bytes from `start` to `end` in a document is a comment.
pub open spec fn is_spanned(document: DocumentView, start: usize, end: usize) -> bool {
    &&& start <= u32::MAX
    &&& end <= u32::MAX
    &&& is_comment(spanning_kind_id(document.tree.text, start, end), document.comment_id)
}

/// Whether a comment spans the bytes from `start` to `end`, and does not end where
/// they start.
pub open spec fn comment_spans(nodes: Seq<SyntaxNodeView>, start: usize, end: usize) -> bool {
    exists|i: int|
        {
            &&& 0 <= i < nodes.len()
            &&& (#[trigger] nodes[i]).kind == "comment"@
            &&& reaches_range(nodes[i], start, end)
        }
}

/// Whether a comment spans the bytes from `start` to `end` and, where these are
/// none, goes on to both sides of them.
pub open spec fn comment_covers(nodes: Seq<SyntaxNodeView>, start: usize, end: usize) -> bool {
    exists|i: int|
        {
            &&& 0 <= i < nodes.len()
            &&& (#[trigger] nodes[i]).kind == "comment"@
            &&& covers_range(nodes[i], start, end)
        }
}

/// The feature of a comment.
pub open spec fn comment_feature(node: SyntaxNodeView) -> FeatureView {
    FeatureView { node_id: None, location: node.span.location(), context: None }
}

impl Document {
    /// Create a feature from a node.
    fn create_feature(&self, node_id: NodeId, mode: QueryMode) -> (feature: Feature<'_>)
        requires
            node_id.0 < self@.cst.nodes.len(),
        ensures
            *feature.doc == *self,
            feature@ == feature_of(self@.cst.nodes, node_id, mode),
    {
        proof {
            use_type_invariant(self);
            lemma_document(self@);
        }
        let location = self.compute_location_for_node(node_id, mode);
        let node = &self.cst.nodes[node_id.0];
        assert(self@.cst.nodes[node_id.0 as int] == node@);
        // Compute context from the parent if it exists.
        let context = match node.parent_id {
            Some(parent_id) => Some(
                self.compute_location_for_node(parent_id, QueryMode::Exact),
            ),
            None => None,
        };
        Feature { node_id: Some(node_id), doc: self, location, context }
    }

    /// Returns a [`Feature`] for the topmost semantic object in this document.
    ///
    /// This is typically useful as a "fallback" feature, e.g. for positioning
    /// relative to the "top" of the document.
    pub fn top_feature(&self) -> (feature: Result<Feature<'_>, QueryError>)
        ensures
            feature matches Ok(feature) && *feature.doc == *self && feature@ == feature_of(
                self@.cst.nodes,
                self@.cst.root_id,
                QueryMode::Exact,
            ),
    {
        proof {
            use_type_invariant(self);
            lemma_document(self@);
        }
        Ok(self.create_feature(self.cst.root_id, QueryMode::Exact))
    }

    /// Returns whether the given range is spanned by a comment node.
    ///
    /// The comment node must fully span the range; a range that ends
    /// after the comment or starts before it will not be considered
    /// spanned.
    pub fn range_spanned_by_comment(&self, start: usize, end: usize) -> (spanned: bool)
        ensures
            spanned == is_spanned(self@, start, end),
            spanned ==> comment_spans(self@.tree.nodes, start, end),
            comment_covers(self@.tree.nodes, start, end) ==> spanned,
            columns_fit(self@.tree.text) ==> spanned == comment_spans(
                self@.tree.nodes,
                start,
                end,
            ),
    {
        proof {
            use_type_invariant(self);
        }
        proof {
            lemma_spans_are_addressable(self@);
        }
        // Nothing stands at positions that do not fit in 32 bits.
        if start > u32::MAX as usize || end > u32::MAX as usize {
            return false;
        }
        let found = find_spanning_kind_id(&self.parsed, start, end);
        let spanned = is_comment_kind(found, self.comment_id);
        proof {
            if spanned {
                let nodes = self@.tree.nodes;
                reveal_strlit("stream");
                reveal_strlit("comment");
                assert("stream"@.len() != "comment"@.len());
                assert(nodes[0].kind_id != self.comment_id);
                assert(is_spanned_by(nodes, self.comment_id, start, end));
            }
            if comment_covers(self@.tree.nodes, start, end) {
                let nodes = self@.tree.nodes;
                let i = choose|i: int|
                    {
                        &&& 0 <= i < nodes.len()
                        &&& (#[trigger] nodes[i]).kind == "comment"@
                        &&& covers_range(nodes[i], start, end)
                    };
                assert(is_innermost(nodes, i, start, end));
            }
            if columns_fit(self@.tree.text) && comment_spans(self@.tree.nodes, start, end) {
                let nodes = self@.tree.nodes;
                let i = choose|i: int|
                    {
                        &&& 0 <= i < nodes.len()
                        &&& (#[trigger] nodes[i]).kind == "comment"@
                        &&& reaches_range(nodes[i], start, end)
                    };
                if start == end && nodes[i].span.start_byte == start {
                    assert(is_comment_start(nodes, i, start, end));
                } else {
                    assert(is_innermost(nodes, i, start, end));
                }
            }
        }
        spanned
    }

    /// Returns whether the given offset is within a comment node's span.
    pub fn offset_inside_comment(&self, offset: usize) -> (inside: bool)
        ensures
            inside == is_spanned(self@, offset, offset),
            inside ==> comment_spans(self@.tree.nodes, offset, offset),
            comment_covers(self@.tree.nodes, offset, offset) ==> inside,
            columns_fit(self@.tree.text) ==> inside == comment_spans(
                self@.tree.nodes,
                offset,
                offset,
            ),
    {
        self.range_spanned_by_comment(offset, offset)
    }

    /// Perform a route on the current document, returning `true`
    /// if the route succeeds (i.e. references an existing feature).
    ///
    /// All errors become `false`.
    pub fn query_exists(&self, route: &Route) -> (exists_there: bool)
        ensures
            exists_there == (located(self@.cst.nodes, self@.cst.root_id, route@) is Ok),
    {
        self.query_exact(route).is_ok()
    }

    /// Perform a route on the current document, returning a `Feature`
    /// if the route succeeds.
    ///
    /// The feature is extracted in "pretty" mode, meaning that it'll
    /// contain a subjectively relevant "pretty" span rather than the
    /// exact span of the route result.
    ///
    /// For example, querying `foo: bar` for `foo` will return
    /// `foo: bar` instead of just `bar`.
    pub fn query_pretty(&self, route: &Route) -> (feature: Result<Feature<'_>, QueryError>)
        ensures
            match (feature, located(self@.cst.nodes, self@.cst.root_id, route@)) {
                (Ok(feature), Ok(found)) => {
                    &&& *feature.doc == *self
                    &&& feature@ == pretty_feature(self@.cst.nodes, found)
                },
                (Err(error), Err(expected)) => error@ == expected,
                _ => false,
            },
    {
        match self.query_cst(route) {
            Ok(QueryResult::MappingKey { parent_id, entry }) => Ok(
                Feature {
                    node_id: entry.value_id,
                    doc: self,
                    location: Location::from_span(&entry.pair_span),
                    context: Some(self.compute_location_for_node(parent_id, QueryMode::Exact)),
                },
            ),
            Ok(QueryResult::Node(node_id)) => Ok(self.create_feature(node_id, QueryMode::Pretty)),
            Err(error) => Err(error),
        }
    }

    /// Perform a route on the current document, returning a `Feature`
    /// if the route succeeds. Returns `None` if the route
    /// succeeds, but matches an absent value (e.g. `foo:`).
    ///
    /// The feature is extracted in "exact" mode, meaning that it'll
    /// contain the exact span of the route result.
    ///
    /// For example, querying `foo: bar` for `foo` will return
    /// just `bar` instead of `foo: bar`.
    pub fn query_exact(&self, route: &Route) -> (feature: Result<Option<Feature<'_>>, QueryError>)
        ensures
            match (feature, located(self@.cst.nodes, self@.cst.root_id, route@)) {
                (Ok(feature), Ok(found)) => match (feature, exact_feature(self@.cst.nodes, found)) {
                    (Some(feature), Some(view)) => *feature.doc == *self && feature@ == view,
                    (None, None) => true,
                    _ => false,
                },
                (Err(error), Err(expected)) => error@ == expected,
                _ => false,
            },
    {
        match self.query_cst(route) {
            Ok(QueryResult::MappingKey { parent_id, entry }) => {
                let value_id = match entry.value_id {
                    Some(value_id) => value_id,
                    // Absent value like `foo:` or `{ foo }`.
                    None => {
                        return Ok(None);
                    },
                };
                // Resolve aliases to get the semantic value's location.
                let resolved_id = self.resolve_alias(value_id);
                Ok(
                    Some(
                        Feature {
                            node_id: Some(resolved_id),
                            doc: self,
                            location: self.compute_location_for_node(
                                resolved_id,
                                QueryMode::Exact,
                            ),
                            context: Some(
                                self.compute_location_for_node(parent_id, QueryMode::Exact),
                            ),
                        },
                    ),
                )
            },
            Ok(QueryResult::Node(node_id)) => Ok(
                Some(self.create_feature(node_id, QueryMode::Exact)),
            ),
            Err(error) => Err(error),
        }
    }

    /// Perform a route on the current document, returning a `Feature`
    /// if the route succeeds.
    ///
    /// The feature is extracted in "key only" mode, meaning that it'll
    /// contain only the key of a mapping, rather than the
    /// key and value ("pretty") or just the value ("exact").
    ///
    /// For example, querying `foo: bar` for `foo` will return
    /// just `foo` instead of `foo: bar` or `bar`.
    pub fn query_key_only(&self, route: &Route) -> (feature: Result<Feature<'_>, QueryError>)
        ensures
            match (feature, located(self@.cst.nodes, self@.cst.root_id, route@)) {
                (Ok(feature), Ok(found)) => {
                    &&& *feature.doc == *self
                    &&& key_feature(self@.cst.nodes, found) == Ok::<_, ErrorView>(feature@)
                },
                (Err(error), Ok(found)) => key_feature(self@.cst.nodes, found) == Err::<
                    FeatureView,
                    ErrorView,
                >(error@),
                (Err(error), Err(expected)) => error@ == expected,
                _ => false,
            },
    {
        match self.query_cst(route) {
            Ok(QueryResult::MappingKey { parent_id, entry }) => Ok(
                Feature {
                    node_id: Some(entry.key_id),
                    doc: self,
                    location: self.compute_location_for_node(entry.key_id, QueryMode::Exact),
                    context: Some(self.compute_location_for_node(parent_id, QueryMode::Exact)),
                },
            ),
            Ok(QueryResult::Node(_)) => Err(
                QueryError::Other(String::from("key_only requires route to end with key")),
            ),
            Err(error) => Err(error),
        }
    }

    /// Returns a string slice of the document corresponding to the given
    /// [`Feature`].
    ///
    /// This function returns a slice corresponding to the [`Feature`]'s exact
    /// span, meaning that leading whitespace for the start point is not
    /// necessarily captured. See [`Self::extract_with_leading_whitespace`]
    /// for feature extraction with rudimentary whitespace handling.
    pub fn extract(&self, feature: &Feature) -> (text: &str)
        requires
            is_slice(
                self@.tree.text,
                feature.location.byte_span.0 as int,
                feature.location.byte_span.1 as int,
            ),
        ensures
            text@ == slice_of(
                self@.tree.text,
                feature.location.byte_span.0 as int,
                feature.location.byte_span.1 as int,
            ),
    {
        let (start, end) = feature.location.byte_span;
        slice(self.source(), start, end)
    }

    /// Returns a string slice of the document corresponding to the given
    /// [`Feature`], along with any leading (indentation-semantic) whitespace.
    ///
    /// **Important**: The returned string here can be longer than the span
    /// identified in the [`Feature`]. In particular, this API will return a
    /// longer string if it identifies leading non-newline whitespace
    /// ahead of the captured [`Feature`], since this indicates indentation
    /// not encapsulated by the feature itself.
    pub fn extract_with_leading_whitespace<'a>(&'a self, feature: &Feature) -> (text: &'a str)
        requires
            is_slice(
                self@.tree.text,
                feature.location.byte_span.0 as int,
                feature.location.byte_span.1 as int,
            ),
        ensures
            text@ == slice_of(
                self@.tree.text,
                indent_start(
                    encode_utf8(self@.tree.text),
                    feature.location.byte_span.0 as int,
                ),
                feature.location.byte_span.1 as int,
            ),
    {
        let (start, end) = feature.location.byte_span;
        let source = self.source();
        let begin = find_indent_start(source, start);
        proof {
            lemma_indent_start(self@.tree.text, start as int, end as int);
        }
        slice(source, begin, end)
    }

    /// Given a [`Feature`], return all comments that span the same range
    /// as the feature does.
    pub fn feature_comments<'tree>(&'tree self, feature: &Feature<'tree>) -> (comments: Vec<
        Feature<'tree>,
    >)
        ensures
            ({
                let found = trawled(
                    self@.tree.nodes,
                    0,
                    self@.comment_id,
                    feature.location.point_span.0.0,
                    feature.location.point_span.1.0,
                );
                &&& comments.len() == found.len()
                &&& forall|k: int|
                    0 <= k < found.len() ==> {
                        &&& (#[trigger] comments[k])@ == comment_feature(
                            self@.tree.nodes[found[k]],
                        )
                        &&& *comments[k].doc == *self
                    }
            }),
    {
        proof {
            use_type_invariant(self);
        }
        // The comments of a feature can stand beside its node rather than inside
        // it, so the whole tree is trawled for comments in the feature's rows.
        let (start, end) = feature.location.point_span;
        let found = trawl(&self.tree.syntax, 0, self.comment_id, start.0, end.0);
        let ghost positions = positions(found@);
        let mut comments: Vec<Feature<'tree>> = Vec::new();
        let mut i: usize = 0;
        while i < found.len()
            invariant
                i <= found.len(),
                comments.len() == i,
                positions.len() == found.len(),
                forall|k: int| 0 <= k < found.len() ==> positions[k] == #[trigger] found@[k],
                forall|k: int| 0 <= k < found.len() ==> #[trigger] found@[k] < self@.tree.nodes.len(),
                forall|k: int|
                    0 <= k < i ==> {
                        &&& (#[trigger] comments@[k])@ == comment_feature(
                            self@.tree.nodes[positions[k]],
                        )
                        &&& *comments@[k].doc == *self
                    },
            decreases found.len() - i,
        {
            let node = self.tree.syntax.node(found[i]);
            comments.push(
                Feature {
                    // Comments aren't in the reduced tree.
                    node_id: None,
                    doc: self,
                    location: Location::from_span(&node.span),
                    context: None,
                },
            );
            i += 1;
        }
        comments
    }

    /// Returns whether this document contains any YAML anchors.
    pub fn has_anchors(&self) -> (has_anchors: bool)
        ensures
            has_anchors == (self@.tree.anchors != Map::<Seq<char>, Map<usize, usize>>::empty()),
    {
        proof {
            use_type_invariant(self);
        }
        !self.tree.anchors.is_empty()
    }

    /// Returns the reduced tree.
    pub fn cst(&self) -> (cst: &CstStore)
        ensures
            nodes_wf(cst.nodes@),
            cst@ == self@.cst,
    {
        proof {
            use_type_invariant(self);
        }
        &self.cst
    }

    /// Returns the grammar's number for the kind of comments.
    pub fn comment_id(&self) -> (comment_id: u16)
        ensures
            comment_id == self@.comment_id,
    {
        self.comment_id
    }

    /// Returns the source, its syntax tree and its anchors.
    pub fn tree(&self) -> (tree: &AnchoredTree)
        ensures
            tree.wf(),
            tree@ == self@.tree,
    {
        proof {
            use_type_invariant(self);
        }
        &self.tree
    }
}

/// No node reaches a position that does not fit in 32 bits.
proof fn lemma_spans_are_addressable(document: DocumentView)
    requires
        is_syntax_of(document.tree.nodes, document.tree.text),
        is_addressable(document.tree.text),
    ensures
        forall|i: int|
            0 <= i < document.tree.nodes.len() ==> (
            #[trigger] document.tree.nodes[i]).span.end_byte < u32::MAX,
{
}

/// Indentation is cut between characters.
pub proof fn lemma_indent_start(text: Seq<char>, start: int, end: int)
    requires
        is_slice(text, start, end),
    ensures
        is_slice(text, indent_start(encode_utf8(text), start), end),
        indent_start(encode_utf8(text), start) <= start,
{
    let bytes = encode_utf8(text);
    let i = indent_start(bytes, start);
    vstd::utf8::encode_utf8_valid_utf8(text);
    if i < start {
        vstd::utf8::is_char_boundary_iff_not_is_continuation_byte(bytes, i);
        assert(bytes[i] == 0x20);
        assert(!vstd::utf8::is_continuation_byte(0x20)) by (bit_vector);
    }
}

/// Returns the position at which the indentation of `start` begins.
fn find_indent_start(source: &str, start: usize) -> (begin: usize)
    requires
        start <= encode_utf8(source@).len(),
    ensures
        begin == indent_start(encode_utf8(source@), start as int),
{
    let bytes = source.as_bytes();
    let mut begin: usize = start;
    while begin > 0 && bytes[begin - 1] == 0x20
        invariant
            begin <= start <= bytes@.len(),
            forall|j: int| begin <= j < start ==> #[trigger] bytes@[j] == 0x20,
        decreases begin,
    {
        begin -= 1;
    }
    if begin == 0 || bytes[begin - 1] == 0x0a {
        proof {
            assert(is_indent_start(bytes@, start as int, begin as int));
            let chosen = indent_start(bytes@, start as int);
            assert(is_indent_start(bytes@, start as int, chosen));
            if chosen < begin {
                assert(bytes@[begin - 1] == 0x20);
            }
        }
        begin
    } else {
        proof {
            assert forall|i: int| !is_indent_start(bytes@, start as int, i) by {
                if is_indent_start(bytes@, start as int, i) && i < begin {
                    assert(bytes@[begin - 1] == 0x20);
                }
            }
        }
        start
    }
}

} // verus!
