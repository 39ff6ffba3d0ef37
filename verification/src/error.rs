//! What can go wrong in a route.

use vstd::prelude::*;
use vstd::string::StringExecFns;

verus! {

/// Possible errors when performing YAML path routes.
#[derive(Debug)]
pub enum QueryError {
    /// The tree-sitter backend couldn't accept the YAML grammar.
    InvalidLanguage(tree_sitter::LanguageError),
    /// The user's input YAML is malformed.
    InvalidInput,
    /// The route expects a key at a given point, but the input isn't a mapping.
    ExpectedMapping(String),
    /// The route expects a list index at a given point, but the input isn't a list.
    ExpectedList(usize),
    /// The route expects the given key in a mapping, but the mapping doesn't have that key.
    ExhaustedMapping(String),
    /// The route expects the given list index, but the list isn't the right size.
    ExhaustedList(usize, usize),
    /// The YAML syntax tree wasn't structured the way we expect.
    UnexpectedNode(String),
    /// The YAML syntax tree is missing an expected named child node.
    MissingChild(String, String),
    /// The YAML syntax tree is missing an expected named child node with
    /// the given field name.
    MissingChildField(String, &'static str),
    /// Any other route error that doesn't fit cleanly above.
    Other(String),
}

/// The mathematical content of a [`QueryError`].
pub enum ErrorView {
    InvalidLanguage(tree_sitter::LanguageError),
    InvalidInput,
    ExpectedMapping(Seq<char>),
    ExpectedList(usize),
    ExhaustedMapping(Seq<char>),
    ExhaustedList(usize, usize),
    UnexpectedNode(Seq<char>),
    MissingChild(Seq<char>, Seq<char>),
    MissingChildField(Seq<char>, Seq<char>),
    Other(Seq<char>),
}

impl View for QueryError {
    type V = ErrorView;

    open spec fn view(&self) -> ErrorView {
        match *self {
            QueryError::InvalidLanguage(error) => ErrorView::InvalidLanguage(error),
            QueryError::InvalidInput => ErrorView::InvalidInput,
            QueryError::ExpectedMapping(key) => ErrorView::ExpectedMapping(key@),
            QueryError::ExpectedList(index) => ErrorView::ExpectedList(index),
            QueryError::ExhaustedMapping(key) => ErrorView::ExhaustedMapping(key@),
            QueryError::ExhaustedList(index, len) => ErrorView::ExhaustedList(index, len),
            QueryError::UnexpectedNode(node) => ErrorView::UnexpectedNode(node@),
            QueryError::MissingChild(node, child) => ErrorView::MissingChild(node@, child@),
            QueryError::MissingChildField(node, field) => ErrorView::MissingChildField(
                node@,
                field@,
            ),
            QueryError::Other(message) => ErrorView::Other(message@),
        }
    }
}

impl From<tree_sitter::LanguageError> for QueryError {
    fn from(error: tree_sitter::LanguageError) -> (wrapped: Self) {
        QueryError::InvalidLanguage(error)
    }
}

impl vstd::std_specs::convert::FromSpecImpl<tree_sitter::LanguageError> for QueryError {
    open spec fn obeys_from_spec() -> bool {
        true
    }

    open spec fn from_spec(error: tree_sitter::LanguageError) -> Self {
        QueryError::InvalidLanguage(error)
    }
}

/// A number in decimal digits.
pub open spec fn decimal(n: nat) -> Seq<char>
    decreases n,
{
    if n < 10 {
        seq![digit(n)]
    } else {
        decimal(n / 10).push(digit(n % 10))
    }
}

/// A decimal digit.
pub open spec fn digit(d: nat) -> char {
    (0x30 + d) as char
}

/// What an error says.
pub open spec fn message_of(error: ErrorView) -> Seq<char> {
    match error {
        ErrorView::InvalidLanguage(_) => "malformed or unsupported tree-sitter grammar"@,
        ErrorView::InvalidInput => "input is not valid YAML"@,
        ErrorView::ExpectedMapping(key) => "expected mapping containing key `"@ + key + "`"@,
        ErrorView::ExpectedList(index) => "expected list for index `["@ + decimal(index as nat)
            + "]`"@,
        ErrorView::ExhaustedMapping(key) => "mapping has no key `"@ + key + "`"@,
        ErrorView::ExhaustedList(index, len) => "index `["@ + decimal(index as nat)
            + "]` exceeds list size ("@ + decimal(len as nat) + ")"@,
        ErrorView::UnexpectedNode(node) => "unexpected node: `"@ + node + "`"@,
        ErrorView::MissingChild(node, child) => "syntax node `"@ + node
            + "` is missing named child `"@ + child + "`"@,
        ErrorView::MissingChildField(node, field) => "syntax node `"@ + node
            + "` is missing child field `"@ + field + "`"@,
        ErrorView::Other(message) => "route error: "@ + message,
    }
}

/// Returns a decimal digit.
fn digit_str(d: usize) -> (text: &'static str)
    requires
        d < 10,
    ensures
        text@ == seq![digit(d as nat)],
{
    proof {
        reveal_strlit("0");
        reveal_strlit("1");
        reveal_strlit("2");
        reveal_strlit("3");
        reveal_strlit("4");
        reveal_strlit("5");
        reveal_strlit("6");
        reveal_strlit("7");
        reveal_strlit("8");
        reveal_strlit("9");
    }
    match d {
        0 => "0",
        1 => "1",
        2 => "2",
        3 => "3",
        4 => "4",
        5 => "5",
        6 => "6",
        7 => "7",
        8 => "8",
        _ => "9",
    }
}

/// Returns a number in decimal digits.
fn decimal_string(n: usize) -> (text: String)
    ensures
        text@ == decimal(n as nat),
    decreases n,
{
    if n < 10 {
        digit_str(n).to_owned()
    } else {
        let text = decimal_string(n / 10).concat(digit_str(n % 10));
        assert(text@ =~= decimal(n as nat));
        text
    }
}

impl QueryError {
    /// Returns what this error says.
    pub fn message(&self) -> (message: String)
        ensures
            message@ == message_of(self@),
    {
        match self {
            QueryError::InvalidLanguage(_) => {
                String::from("malformed or unsupported tree-sitter grammar")
            },
            QueryError::InvalidInput => String::from("input is not valid YAML"),
            QueryError::ExpectedMapping(key) => {
                String::from("expected mapping containing key `").concat(key.as_str()).concat("`")
            },
            QueryError::ExpectedList(index) => {
                String::from("expected list for index `[").concat(
                    decimal_string(*index).as_str(),
                ).concat("]`")
            },
            QueryError::ExhaustedMapping(key) => {
                String::from("mapping has no key `").concat(key.as_str()).concat("`")
            },
            QueryError::ExhaustedList(index, len) => {
                String::from("index `[").concat(decimal_string(*index).as_str()).concat(
                    "]` exceeds list size (",
                ).concat(decimal_string(*len).as_str()).concat(")")
            },
            QueryError::UnexpectedNode(node) => {
                String::from("unexpected node: `").concat(node.as_str()).concat("`")
            },
            QueryError::MissingChild(node, child) => {
                String::from("syntax node `").concat(node.as_str()).concat(
                    "` is missing named child `",
                ).concat(child.as_str()).concat("`")
            },
            QueryError::MissingChildField(node, field) => {
                String::from("syntax node `").concat(node.as_str()).concat(
                    "` is missing child field `",
                ).concat(*field).concat("`")
            },
            QueryError::Other(message) => String::from("route error: ").concat(message.as_str()),
        }
    }
}

} // verus!
