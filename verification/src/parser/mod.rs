//! The error-tolerant parser of RSML.

pub mod advance;
pub mod construct;
pub mod datatype;
pub mod declaration;
pub mod error;
pub mod grammar;
pub mod order;
pub mod rule;
pub mod scope;
pub mod scanner;
pub mod token;

use crate::diagnostic::AstErrors;
use crate::text;
use crate::text::Range;
use construct::{Construct, Node, NodeView};
use grammar::{State, StatusView};
use ropey::Rope;
use token::SpannedToken;
use vstd::prelude::*;

verus! {

/// The parser, and after [`Parser::new`] the parsed document.
pub struct Parser<'a> {
    pub tokens: Vec<SpannedToken<'a>>,
    pub position: usize,
    pub rope: Rope,
    pub last_token_end: usize,
    pub ast: Vec<Construct<'a>>,
    pub ast_errors: AstErrors,
    pub did_advance: bool,
}

impl<'a> View for Parser<'a> {
    type V = State<'a>;

    open spec fn view(&self) -> State<'a> {
        State {
            tokens: self.tokens@,
            position: self.position as nat,
            text: text::rope_text(&self.rope),
            last_token_end: self.last_token_end,
            errors: self.ast_errors.0.deep_view(),
            did_advance: self.did_advance,
        }
    }
}

/// Whether a construct was read to its end.
#[derive(Debug)]
pub enum NodeStatus<'a> {
    Exists,
    Absent,
    /// The token that ended the search for another one.
    Stopped(Node<'a>),
}

impl<'a> DeepView for NodeStatus<'a> {
    type V = StatusView<'a>;

    open spec fn deep_view(&self) -> StatusView<'a> {
        match self {
            NodeStatus::Exists => StatusView::Exists,
            NodeStatus::Absent => StatusView::Absent,
            NodeStatus::Stopped(node) => StatusView::Stopped(node.deep_view()),
        }
    }
}

/// What a part of the parser read: the token to go on with, and a construct.
pub struct Parsed<'a>(pub Option<Node<'a>>, pub Option<Construct<'a>>);

/// The view of the outcome of a search for a token.
pub open spec fn found_view<'a>(found: Option<Result<Node<'a>, Node<'a>>>) -> Option<
    Result<NodeView<'a>, NodeView<'a>>,
> {
    match found {
        Some(Ok(node)) => Some(Ok(node.deep_view())),
        Some(Err(node)) => Some(Err(node.deep_view())),
        None => None,
    }
}

/// The last byte in front of `span_end`, as a span.
pub fn clamp_span_to_end(span_end: usize) -> (r: (usize, usize))
    ensures
        r == grammar::clamped(span_end),
{
    (span_end.saturating_sub(1), span_end)
}

pub trait ToStatus<'a> : Sized {
    spec fn status_spec(self) -> StatusView<'a>;

    fn to_status(self) -> (r: NodeStatus<'a>)
        ensures
            r.deep_view() == self.status_spec(),
    ;
}

impl<'a> ToStatus<'a> for Option<Node<'a>> {
    open spec fn status_spec(self) -> StatusView<'a> {
        grammar::status_of(self.deep_view())
    }

    fn to_status(self) -> (r: NodeStatus<'a>) {
        match self {
            Some(node) => NodeStatus::Stopped(node),
            None => NodeStatus::Absent,
        }
    }
}

impl<'a> ToStatus<'a> for Node<'a> {
    open spec fn status_spec(self) -> StatusView<'a> {
        StatusView::Stopped(self.deep_view())
    }

    fn to_status(self) -> (r: NodeStatus<'a>) {
        NodeStatus::Stopped(self)
    }
}

impl<'a> Parser<'a> {
    /// Parses a document, given its tokens and its text.
    pub fn new(tokens: Vec<SpannedToken<'a>>, source: &str) -> (r: Self)
        ensures
            ({
                let start = grammar::scope::start_of(tokens@, source@);
                &&& r@ == start.document().0
                &&& construct::constructs_view(r.ast@) == start.document().1
            }),
    {
        let mut parser = Parser {
            tokens,
            position: 0,
            rope: text::rope_from_str(source),
            last_token_end: 0,
            ast: Vec::new(),
            ast_errors: AstErrors::new(),
            did_advance: false,
        };
        assert(parser@ == grammar::scope::start_of(tokens@, source@));
        let ast = parser.parse_loop();
        parser.ast = ast;
        parser
    }

    pub fn range_from_span(&self, span: (usize, usize)) -> (r: Range)
        ensures
            r == self@.range(span),
    {
        Range::from_span(&self.rope, span)
    }
}

} // verus!
