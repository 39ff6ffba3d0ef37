//! The calls into tree-sitter and line-index, and the syntax tree read off them.

use vstd::prelude::*;
use vstd::utf8::encode_utf8;

use crate::limits::{columns_fit, is_addressable, is_break, is_readable};
use crate::location::{Point, SpanInfo};
use crate::syntax::{is_inside, is_syntax_of, SyntaxNode, SyntaxNodeView, SyntaxTree};

verus! {

/// The error of a parser that is given a grammar of another version of
/// tree-sitter.
#[verifier::external_type_specification]
#[verifier::external_body]
pub struct ExLanguageError(tree_sitter::LanguageError);

/// A parsed source.
#[verifier::external_type_specification]
#[verifier::external_body]
pub struct ExTree(tree_sitter::Tree);

/// The line starts of a source.
#[verifier::external_type_specification]
#[verifier::external_body]
pub struct ExLineIndex(line_index::LineIndex);

/// The text that a tree was parsed from, if that was done with the YAML grammar
/// and the tree was not edited since.
pub uninterp spec fn parsed_text(tree: tree_sitter::Tree) -> Option<Seq<char>>;

/// Whether the tree that the YAML grammar gives for `text` holds an error.
pub uninterp spec fn yaml_has_error(text: Seq<char>) -> bool;

/// The nodes of the tree that the YAML grammar gives for `text`.
pub uninterp spec fn yaml_nodes(text: Seq<char>) -> Seq<SyntaxNodeView>;

/// The number of the kind of the smallest named node that spans the bytes from
/// `start` to `end`, in the tree that the YAML grammar gives for `text`.
pub uninterp spec fn spanning_kind_id(text: Seq<char>, start: usize, end: usize) -> Option<u16>;

/// The YAML grammar's number for a kind of node.
pub uninterp spec fn yaml_kind_id(kind: Seq<char>, named: bool) -> u16;

/// The line starts of `text`.
pub uninterp spec fn line_index_of(text: Seq<char>) -> line_index::LineIndex;

/// A node as tree-sitter describes it. Nodes name each other by an id that is
/// unique within a tree.
#[derive(Debug)]
pub struct RawNode {
    pub id: usize,
    pub kind: String,
    pub kind_id: u16,
    pub named: bool,
    pub size: usize,
    pub start_byte: usize,
    pub end_byte: usize,
    pub start_row: usize,
    pub start_column: usize,
    pub end_row: usize,
    pub end_column: usize,
    pub key: Option<usize>,
    pub value: Option<usize>,
}

/// The position in the list of the node with the given id.
pub open spec fn position_of(raw: Seq<RawNode>, id: usize) -> usize {
    (choose|j: int| 0 <= j < raw.len() && (#[trigger] raw[j]).id == id) as usize
}

/// The position in the list of the node with the given id, if there is one.
pub open spec fn resolved_id(raw: Seq<RawNode>, id: Option<usize>) -> Option<usize> {
    match id {
        Some(id) => Some(position_of(raw, id)),
        None => None,
    }
}

/// A node with positions in the list in place of ids.
pub open spec fn resolved_node(raw: Seq<RawNode>, i: int) -> SyntaxNodeView {
    SyntaxNodeView {
        kind: raw[i].kind@,
        kind_id: raw[i].kind_id,
        named: raw[i].named,
        size: raw[i].size,
        span: SpanInfo {
            start_byte: raw[i].start_byte,
            end_byte: raw[i].end_byte,
            start_point: Point { row: raw[i].start_row, column: raw[i].start_column },
            end_point: Point { row: raw[i].end_row, column: raw[i].end_column },
        },
        key: resolved_id(raw, raw[i].key),
        value: resolved_id(raw, raw[i].value),
    }
}

/// The nodes with positions in the list in place of ids.
pub open spec fn resolved(raw: Seq<RawNode>) -> Seq<SyntaxNodeView> {
    Seq::new(raw.len(), |i: int| resolved_node(raw, i))
}

/// Whether a node with this id, if any is asked for, stands after position `i`.
pub open spec fn is_listed_after(raw: Seq<RawNode>, i: int, id: Option<usize>) -> bool {
    id matches Some(id) ==> exists|j: int| i < j < raw.len() && (#[trigger] raw[j]).id == id
}

/// Whether no id occurs twice, and every id that a node names stands after it in
/// the list.
pub open spec fn ids_resolve(raw: Seq<RawNode>) -> bool {
    &&& forall|i: int, j: int|
        0 <= i < raw.len() && 0 <= j < raw.len() && (#[trigger] raw[i]).id == (
        #[trigger] raw[j]).id ==> i == j
    &&& forall|i: int|
        0 <= i < raw.len() ==> is_listed_after(raw, i, (#[trigger] raw[i]).key)
            && is_listed_after(raw, i, raw[i].value)
}

/// Whether the comments among the nodes are those with the number of that kind,
/// have nothing inside and are not empty.
pub open spec fn comments_numbered(nodes: Seq<SyntaxNodeView>) -> bool {
    forall|i: int|
        0 <= i < nodes.len() ==> {
            &&& (#[trigger] nodes[i]).kind_id == yaml_kind_id("comment"@, true) <==> nodes[i].kind
                == "comment"@
            &&& nodes[i].kind == "comment"@ ==> nodes[i].named && nodes[i].size == 1
                && nodes[i].span.start_byte < nodes[i].span.end_byte
        }
}

/// Whether every comment begins with `#` and stands in one line.
pub open spec fn comments_marked(nodes: Seq<SyntaxNodeView>, text: Seq<char>) -> bool {
    forall|i: int|
        0 <= i < nodes.len() && (#[trigger] nodes[i]).kind == "comment"@ ==> {
            &&& encode_utf8(text)[nodes[i].span.start_byte as int] == 0x23
            &&& forall|j: int|
                nodes[i].span.start_byte <= j < nodes[i].span.end_byte ==> !is_break(
                    #[trigger] encode_utf8(text)[j],
                )
        }
}

/// What holds of the nodes of every YAML tree without errors: the root is a
/// `stream`, and comments are numbered and marked.
pub open spec fn is_yaml(nodes: Seq<SyntaxNodeView>, text: Seq<char>) -> bool {
    &&& nodes[0].kind == "stream"@
    &&& comments_numbered(nodes)
    &&& comments_marked(nodes, text)
}

/// Whether a node spans the bytes from `start` to `end`.
pub open spec fn spans_range(node: SyntaxNodeView, start: usize, end: usize) -> bool {
    node.span.start_byte <= start <= end <= node.span.end_byte
}

/// Whether a node spans the bytes from `start` to `end` and, where these are
/// none, goes on to both sides of them.
pub open spec fn covers_range(node: SyntaxNodeView, start: usize, end: usize) -> bool {
    &&& spans_range(node, start, end)
    &&& start == end ==> node.span.start_byte < start < node.span.end_byte
}

/// Whether node `i` is a named node that covers the bytes from `start` to `end`,
/// with no named node inside it that spans them.
pub open spec fn is_innermost(
    nodes: Seq<SyntaxNodeView>,
    i: int,
    start: usize,
    end: usize,
) -> bool {
    &&& 0 <= i < nodes.len()
    &&& nodes[i].named
    &&& covers_range(nodes[i], start, end)
    &&& forall|j: int| #[trigger]
        is_inside(nodes, i, j) ==> !(nodes[j].named && spans_range(nodes[j], start, end))
}

/// Whether a node spans the bytes from `start` to `end` and, unless it is empty,
/// does not end where they start.
pub open spec fn reaches_range(node: SyntaxNodeView, start: usize, end: usize) -> bool {
    &&& spans_range(node, start, end)
    &&& start < node.span.end_byte || node.span.start_byte == node.span.end_byte
}

/// Whether a named node with this number of its kind spans the bytes from
/// `start` to `end` and, unless it is empty, does not end where they start.
pub open spec fn is_spanned_by(
    nodes: Seq<SyntaxNodeView>,
    kind_id: u16,
    start: usize,
    end: usize,
) -> bool {
    exists|i: int|
        {
            &&& 0 <= i < nodes.len()
            &&& (#[trigger] nodes[i]).named
            &&& nodes[i].kind_id == kind_id
            &&& reaches_range(nodes[i], start, end)
        }
}

/// Whether the bytes from `start` to `end` are none, and stand at the first byte of
/// node `i`, which is a comment.
pub open spec fn is_comment_start(
    nodes: Seq<SyntaxNodeView>,
    i: int,
    start: usize,
    end: usize,
) -> bool {
    &&& 0 <= i < nodes.len()
    &&& nodes[i].kind == "comment"@
    &&& nodes[i].span.start_byte == start == end
}

/// `tree_sitter::Parser::parse` with the grammar `tree_sitter_yaml::LANGUAGE`:
/// a tree of the source. The parser takes the grammar, whose version is one that
/// it supports, and without a time limit or a cancellation it gives a tree.
/// Positions are held in 32 bits, and the grammar's scanner keeps the levels of
/// block structure that are open in a buffer that holds 253 of them, and aborts
/// where there are more, so texts beyond these limits are left out.
#[verifier::external_body]
fn parse_yaml(source: &str) -> (parsed: Result<tree_sitter::Tree, tree_sitter::LanguageError>)
    requires
        is_readable(source@),
    ensures
        parsed is Ok,
        parsed_text(parsed->Ok_0) == Some(source@),
{
    let mut parser = tree_sitter::Parser::new();
    parser.set_language(&tree_sitter_yaml::LANGUAGE.into())?;
    Ok(parser.parse(source, None).expect("impossible: tree-sitter parsing should never fail"))
}

/// `tree_sitter::Node::has_error` of the root: whether the tree holds an error,
/// which its text decides.
#[verifier::external_body]
fn tree_has_error(tree: &tree_sitter::Tree) -> (has_error: bool)
    requires
        parsed_text(*tree) is Some,
    ensures
        has_error == yaml_has_error(parsed_text(*tree)->Some_0),
{
    tree.root_node().has_error()
}

/// `tree_sitter_iter::TreeIter`: the nodes of a tree in pre-order, each with what
/// `tree_sitter::Node` says of it. Ids are unique, and what they stand for is
/// decided by the text. Of a tree without errors:
///
/// - nodes are nested, with the number of nodes in each subtree, and nodes in the
///   fields `key` and `value` are children;
/// - spans are slices of the text, and the bytes of a node lie within those of its
///   parent;
/// - the row of a position is the number of newlines before it, and its column the
///   number of bytes since the last of them;
/// - the root is a `stream`, and nodes of the kind `comment` are those with its
///   number, and are named, without children and not empty;
/// - comments begin with `#` and hold no newline and no carriage return;
/// - anchors and aliases begin with a marker of one byte.
#[verifier::external_body]
fn tree_nodes(tree: &tree_sitter::Tree) -> (nodes: Vec<RawNode>)
    requires
        parsed_text(*tree) is Some,
        !yaml_has_error(parsed_text(*tree)->Some_0),
    ensures
        ids_resolve(nodes@),
        resolved(nodes@) == yaml_nodes(parsed_text(*tree)->Some_0),
        is_syntax_of(resolved(nodes@), parsed_text(*tree)->Some_0),
        is_yaml(resolved(nodes@), parsed_text(*tree)->Some_0),
{
    tree_sitter_iter::TreeIter::new(tree)
        .map(|n| RawNode {
            id: n.id(),
            kind: n.kind().to_owned(), kind_id: n.kind_id(), named: n.is_named(),
            size: n.descendant_count(),
            start_byte: n.start_byte(), end_byte: n.end_byte(),
            start_row: n.start_position().row, start_column: n.start_position().column,
            end_row: n.end_position().row, end_column: n.end_position().column,
            key: n.child_by_field_name("key").map(|c| c.id()),
            value: n.child_by_field_name("value").map(|c| c.id()),
        })
        .collect()
}

/// `tree_sitter::Node::named_descendant_for_byte_range` of the root, and
/// `kind_id` of what it finds: decided by the text and the range. A range that
/// is in order finds a node, one that is not finds none. Where the tree has no
/// errors, what is found is the root, or a named node that spans the range and,
/// unless it is empty, does not end where the range starts; and it is the
/// innermost named node that covers the range, where there is one. An empty range
/// at the first byte of a comment finds the comment, since the tokens without text
/// that could stand in its way stand at the end of a token, and a comment begins
/// behind the end of the token before it. Where a line is so long that its columns
/// do not fit in 16 bits the scanner can lose track of that, so this is stated of
/// other texts only. Positions are cut to 32 bits, so larger ones are left out.
#[verifier::external_body]
pub(crate) fn find_spanning_kind_id(
    tree: &tree_sitter::Tree,
    start: usize,
    end: usize,
) -> (found: Option<u16>)
    requires
        parsed_text(*tree) is Some,
        start <= u32::MAX,
        end <= u32::MAX,
    ensures
        found == spanning_kind_id(parsed_text(*tree)->Some_0, start, end),
        found is Some <==> start <= end,
        !yaml_has_error(parsed_text(*tree)->Some_0) ==> (found matches Some(kind_id) ==> {
            ||| kind_id == yaml_nodes(parsed_text(*tree)->Some_0)[0].kind_id
            ||| is_spanned_by(yaml_nodes(parsed_text(*tree)->Some_0), kind_id, start, end)
        }),
        !yaml_has_error(parsed_text(*tree)->Some_0) ==> forall|i: int| #[trigger]
            is_innermost(yaml_nodes(parsed_text(*tree)->Some_0), i, start, end) ==> found == Some(
                yaml_nodes(parsed_text(*tree)->Some_0)[i].kind_id,
            ),
        !yaml_has_error(parsed_text(*tree)->Some_0) && columns_fit(parsed_text(*tree)->Some_0)
            ==> forall|i: int| #[trigger]
            is_comment_start(yaml_nodes(parsed_text(*tree)->Some_0), i, start, end) ==> found
                == Some(yaml_nodes(parsed_text(*tree)->Some_0)[i].kind_id),
{
    tree.root_node().named_descendant_for_byte_range(start, end).map(|n| n.kind_id())
}

/// `tree_sitter::Language::id_for_node_kind` of `tree_sitter_yaml::LANGUAGE`: the
/// number of a kind of node, which its name and whether it is named decide. A
/// name with a zero byte is left out: the lookup would read past it.
#[verifier::external_body]
pub(crate) fn find_kind_id(kind: &str, named: bool) -> (kind_id: u16)
    requires
        !kind@.contains('\0'),
    ensures
        kind_id == yaml_kind_id(kind@, named),
{
    tree_sitter::Language::from(tree_sitter_yaml::LANGUAGE).id_for_node_kind(kind, named)
}

/// `line_index::LineIndex::new`: the line starts of a text, which it decides. It
/// panics on a text of `u32::MAX` bytes or more, so such a text is left out.
#[verifier::external_body]
pub(crate) fn index_lines(text: &str) -> (index: line_index::LineIndex)
    requires
        is_addressable(text@),
    ensures
        index == line_index_of(text@),
{
    line_index::LineIndex::new(text)
}

/// Returns the position in the list of the node with the given id, which stands
/// after position `i`.
fn find_position(raw: &Vec<RawNode>, i: usize, id: usize) -> (position: usize)
    requires
        ids_resolve(raw@),
        i < raw.len(),
        is_listed_after(raw@, i as int, Some(id)),
    ensures
        position == position_of(raw@, id),
{
    let mut position: usize = i + 1;
    while position < raw.len() && raw[position].id != id
        invariant
            i < position <= raw.len(),
            forall|j: int| i < j < position ==> (#[trigger] raw@[j]).id != id,
        decreases raw.len() - position,
    {
        position += 1;
    }
    position
}

/// Puts positions in the list in place of ids.
pub fn resolve_nodes(raw: Vec<RawNode>) -> (syntax: SyntaxTree)
    requires
        ids_resolve(raw@),
    ensures
        syntax@ == resolved(raw@),
{
    let mut nodes: Vec<SyntaxNode> = Vec::new();
    let mut i: usize = 0;
    while i < raw.len()
        invariant
            ids_resolve(raw@),
            i <= raw.len(),
            nodes.len() == i,
            forall|j: int| 0 <= j < i ==> (#[trigger] nodes@[j])@ == resolved_node(raw@, j),
        decreases raw.len() - i,
    {
        let node = &raw[i];
        let key = match node.key {
            Some(id) => Some(find_position(&raw, i, id)),
            None => None,
        };
        let value = match node.value {
            Some(id) => Some(find_position(&raw, i, id)),
            None => None,
        };
        nodes.push(
            SyntaxNode {
                kind: node.kind.clone(),
                kind_id: node.kind_id,
                named: node.named,
                size: node.size,
                span: SpanInfo {
                    start_byte: node.start_byte,
                    end_byte: node.end_byte,
                    start_point: Point { row: node.start_row, column: node.start_column },
                    end_point: Point { row: node.end_row, column: node.end_column },
                },
                key,
                value,
            },
        );
        i += 1;
    }
    let syntax = SyntaxTree { nodes };
    assert(syntax@ =~= resolved(raw@));
    syntax
}

/// A source that is parsed: whether its tree holds an error and, where it does
/// not, its nodes.
pub struct Parsed {
    pub tree: tree_sitter::Tree,
    /// The nodes, where the tree holds no error.
    pub syntax: Option<SyntaxTree>,
}

/// Parses a source.
pub(crate) fn parse(source: &str) -> (parsed: Result<Parsed, tree_sitter::LanguageError>)
    requires
        is_readable(source@),
    ensures
        parsed matches Ok(parsed) && {
            &&& parsed_text(parsed.tree) == Some(source@)
            &&& match parsed.syntax {
                Some(syntax) => {
                    &&& !yaml_has_error(source@)
                    &&& syntax@ == yaml_nodes(source@)
                    &&& is_syntax_of(syntax@, source@)
                    &&& is_yaml(syntax@, source@)
                },
                None => yaml_has_error(source@),
            }
        },
{
    match parse_yaml(source) {
        Ok(tree) => {
            if tree_has_error(&tree) {
                Ok(Parsed { tree, syntax: None })
            } else {
                let syntax = resolve_nodes(tree_nodes(&tree));
                Ok(Parsed { tree, syntax: Some(syntax) })
            }
        },
        Err(error) => Err(error),
    }
}

} // verus!
