//! What the parser computes, as functions of the tokens that are left.
//!
//! Every function takes the state of the parser and gives the state it leaves behind
//! together with what it read. A test that a later state has no more tokens left than an
//! earlier one always holds; it only makes the recursion visibly end.

pub mod binding;
pub mod datatype;
pub mod lossless;
pub mod origin;
pub mod placed;
pub mod report;
pub mod scope;

use crate::parser::construct::{ConstructView, NodeView};
use crate::parser::error;
use crate::parser::error::{ParseError, ParseErrorMessage};
use crate::parser::token;
use crate::parser::token::{Delimiters, SpannedToken, Token, TokenSet};
use crate::diagnostic::DiagnosticView;
use crate::text;
use crate::text::Range;
use vstd::prelude::*;

verus! {

/// Where the parser stands.
pub struct State<'a> {
    /// All tokens of the document.
    pub tokens: Seq<SpannedToken<'a>>,
    /// The number of tokens that were read.
    pub position: nat,
    /// The text of the document.
    pub text: Seq<char>,
    /// The end of the last token that the parser accepted.
    pub last_token_end: usize,
    /// The diagnostics so far.
    pub errors: Seq<DiagnosticView>,
    /// Whether a token was read since the flag was last cleared.
    pub did_advance: bool,
}

/// Whether a construct was read to its end, or which token stopped it.
pub enum StatusView<'a> {
    Exists,
    Absent,
    Stopped(NodeView<'a>),
}

/// What is between the braces: a style sheet as a whole, a macro or a rule.
#[derive(Debug, Clone, Copy)]
pub enum Scope {
    Global,
    Macro,
    Rule,
}

/// The kinds of constructs that a scope may hold, in the order in which they are tried.
#[derive(Debug, Clone, Copy)]
pub enum Part {
    Macro,
    MacroCall,
    Derive,
    Priority,
    Name,
    Tween,
    StaticTokenAssignment,
    TokenAssignment,
    PropertyOrRule,
    SelectorBegin,
    InvalidDeclaration,
    Absent,
}

/// The declarations that are followed by a datatype.
#[derive(Debug, Clone, Copy)]
pub enum DeclarationKind {
    Derive,
    Priority,
    Name,
}

/// What a macro stands for.
#[derive(Debug, Clone, Copy)]
pub enum MacroContext {
    /// Constructs of a scope.
    Construct,
    /// The selector of a rule.
    Selector,
    /// The value of an assignment.
    Assignment,
}

/// A span of one byte that ends where the given one does.
pub open spec fn clamped(span_end: usize) -> (usize, usize) {
    (if span_end > 0 {
        (span_end - 1) as usize
    } else {
        0
    }, span_end)
}

/// The error that something is missing.
pub open spec fn missing(what: &'static str) -> ParseError<'static> {
    ParseError::MissingToken { msg: Some(ParseErrorMessage::Expected(what)) }
}

/// The error that something else was expected.
pub open spec fn unexpected(what: &'static str) -> ParseError<'static> {
    ParseError::UnexpectedTokens { msg: Some(ParseErrorMessage::Expected(what)) }
}

/// The error that some tokens have no place.
pub open spec fn misplaced() -> ParseError<'static> {
    ParseError::UnexpectedTokens { msg: None }
}

/// The closing long bracket of the given nestedness, in quotes.
pub open spec fn closing_bracket(nestedness: usize) -> Seq<char> {
    "\"]"@ + Seq::new(nestedness as nat, |i: int| '=') + "]\""@
}

pub open spec fn is_comment(token: Token) -> bool {
    token is CommentMulti || token is CommentSingle
}

/// The construct for a declaration.
pub open spec fn declared<'a>(
    kind: DeclarationKind,
    declaration: NodeView<'a>,
    body: Option<ConstructView<'a>>,
    terminator: Option<NodeView<'a>>,
) -> ConstructView<'a> {
    match kind {
        DeclarationKind::Derive => ConstructView::Derive {
            declaration,
            body: in_box(body),
            terminator,
        },
        DeclarationKind::Priority => ConstructView::Priority {
            declaration,
            body: in_box(body),
            terminator,
        },
        DeclarationKind::Name => ConstructView::Name {
            declaration,
            body: in_box(body),
            terminator,
        },
    }
}

pub open spec fn in_box<'a>(c: Option<ConstructView<'a>>) -> Option<Box<ConstructView<'a>>> {
    match c {
        Some(c) => Some(Box::new(c)),
        None => None,
    }
}

pub open spec fn status_of<'a>(node: Option<NodeView<'a>>) -> StatusView<'a> {
    match node {
        Some(node) => StatusView::Stopped(node),
        None => StatusView::Absent,
    }
}

pub open spec fn is_kind(node: Option<NodeView>, test: spec_fn(Token) -> bool) -> bool {
    match node {
        Some(node) => test(node.token.1),
        None => false,
    }
}

impl Part {
    pub open spec fn rank(self) -> nat {
        match self {
            Part::Macro => 12,
            Part::MacroCall => 11,
            Part::Derive => 10,
            Part::Priority => 9,
            Part::Name => 8,
            Part::Tween => 7,
            Part::StaticTokenAssignment => 6,
            Part::TokenAssignment => 5,
            Part::PropertyOrRule => 4,
            Part::SelectorBegin => 3,
            Part::InvalidDeclaration => 2,
            Part::Absent => 1,
        }
    }

    /// The kind that is tried next.
    pub open spec fn following(self) -> Option<Part> {
        match self {
            Part::Macro => Some(Part::MacroCall),
            Part::MacroCall => Some(Part::Derive),
            Part::Derive => Some(Part::Priority),
            Part::Priority => Some(Part::Name),
            Part::Name => Some(Part::Tween),
            Part::Tween => Some(Part::StaticTokenAssignment),
            Part::StaticTokenAssignment => Some(Part::TokenAssignment),
            Part::TokenAssignment => Some(Part::PropertyOrRule),
            Part::PropertyOrRule => Some(Part::SelectorBegin),
            Part::SelectorBegin => Some(Part::InvalidDeclaration),
            Part::InvalidDeclaration => Some(Part::Absent),
            Part::Absent => None,
        }
    }
}

/// Where a construct of this kind is not allowed, in the words of the error.
pub open spec fn objection(
    part: Part,
    scope: Scope,
    construct: ConstructView,
) -> Option<&'static str> {
    match scope {
        Scope::Global => if part is Priority || part is Name || (part is PropertyOrRule
            && construct is Assignment) {
            Some("the global scope")
        } else {
            None
        },
        Scope::Macro => if part is Macro {
            Some("other macros")
        } else if part is Derive {
            Some("non-global scopes")
        } else {
            None
        },
        Scope::Rule => if part is Macro {
            Some("rules")
        } else if part is Derive {
            Some("non-global scopes")
        } else {
            None
        },
    }
}

impl<'a> State<'a> {
    /// The number of tokens that are left.
    pub open spec fn remaining(self) -> nat {
        if self.position < self.tokens.len() {
            (self.tokens.len() - self.position) as nat
        } else {
            0
        }
    }

    pub open spec fn range(self, span: (usize, usize)) -> Range {
        text::range_of(self.text, (span.0 as int, span.1 as int))
    }

    /// Reports an error.
    pub open spec fn fail(self, error: ParseError, span: (usize, usize)) -> State<'a> {
        State {
            errors: self.errors.push(error::parse_diagnostic(error, self.range(span))),
            ..self
        }
    }

    /// Reports a string or comment that is not closed.
    pub open spec fn fail_unclosed(self, token_end: usize, nestedness: usize) -> State<'a> {
        State {
            errors: self.errors.push(
                DiagnosticView {
                    message: "Missing Token: "@ + ("Expected "@ + closing_bracket(nestedness)
                        + "."@),
                    ..error::parse_diagnostic(missing(""), self.range(clamped(token_end)))
                },
            ),
            ..self
        }
    }

    pub open spec fn fail_if(self, error_span: Option<(usize, usize)>) -> State<'a> {
        match error_span {
            Some(span) => self.fail(misplaced(), span),
            None => self,
        }
    }

    pub open spec fn advanced(self) -> State<'a> {
        State { did_advance: true, ..self }
    }

    pub open spec fn next_token(self) -> (State<'a>, Option<SpannedToken<'a>>) {
        if self.position < self.tokens.len() {
            (
                State { position: self.position + 1, ..self },
                Some(self.tokens[self.position as int]),
            )
        } else {
            (self, None)
        }
    }

    /// Reports a comment that is not closed.
    pub open spec fn check_comment(self, comment: SpannedToken<'a>) -> State<'a> {
        match comment.1 {
            Token::CommentMulti(comment_text) => match comment_text.nestedness {
                Err(nestedness) => self.fail_unclosed(comment.2, nestedness),
                Ok(_) => self,
            },
            _ => self,
        }
    }

    /// Reads on behind the comments `trivia`.
    pub open spec fn after_trivia(self, trivia: Seq<SpannedToken<'a>>) -> (
        State<'a>,
        NodeView<'a>,
    )
        decreases self.remaining(),
    {
        match self.next_token() {
            (s, Some(token)) => if is_comment(token.1) {
                s.check_comment(token).after_trivia(trivia.push(token))
            } else {
                (s, NodeView { token, leading_trivia: Some(trivia) })
            },
            (s, None) => (
                s,
                NodeView {
                    token: SpannedToken(s.last_token_end, Token::Absent, s.last_token_end),
                    leading_trivia: Some(trivia),
                },
            ),
        }
    }

    /// Reads a token and the comments in front of it.
    pub open spec fn next_node(self) -> (State<'a>, Option<NodeView<'a>>) {
        match self.next_token() {
            (s, Some(token)) => if is_comment(token.1) {
                let (s, node) = s.check_comment(token).after_trivia(seq![token]);
                (s, Some(node))
            } else {
                (s, Some(NodeView { token, leading_trivia: None }))
            },
            (s, None) => (s, None),
        }
    }

    /// Skips the tokens that are none, and reports them as one span.
    pub open spec fn skip_errors(self, start: usize, end: usize) -> (
        State<'a>,
        Option<NodeView<'a>>,
    )
        decreases self.remaining(),
    {
        proof {
            lemma_next_node(self);
        }
        let (s, node) = self.next_node();
        if node is Some && node->0.token.1 is Error {
            s.skip_errors(start, node->0.token.2)
        } else {
            (s.fail(misplaced(), (start, end)), node)
        }
    }

    /// Reads the next token that is one.
    #[verifier::opaque]
    pub open spec fn advance_without_flags(self) -> (State<'a>, Option<NodeView<'a>>) {
        let (s, node) = self.next_node();
        if node is Some && node->0.token.1 is Error {
            s.skip_errors(node->0.token.0, node->0.token.2)
        } else {
            (s, node)
        }
    }

    /// Remembers where the token ends.
    pub open spec fn update_last_token_end(self, node: Option<NodeView<'a>>) -> State<'a> {
        match node {
            Some(node) => State { last_token_end: node.token.2, ..self },
            None => self,
        }
    }

    /// Accepts the next token.
    pub open spec fn advance(self) -> (State<'a>, Option<NodeView<'a>>) {
        let (s, node) = self.advance_without_flags();
        (s.update_last_token_end(node).advanced(), node)
    }

    /// Accepts a token without noting that it was read.
    pub open spec fn accept(self) -> (State<'a>, Option<NodeView<'a>>) {
        let (s, node) = self.advance_without_flags();
        (s.update_last_token_end(node), node)
    }

    /// Looks for an expected token; `start` and `end` span what was passed over. Gives the
    /// token, or the delimiter that ended the search.
    pub open spec fn until_core(
        self,
        allow: TokenSet,
        delimiters: Delimiters,
        start: usize,
        end: usize,
    ) -> (State<'a>, Option<Result<NodeView<'a>, NodeView<'a>>>)
        decreases self.remaining(),
    {
        proof {
            lemma_next_node(self);
        }
        match self.next_node() {
            (s, Some(node)) => if node.token.1 is Error {
                s.until_core(allow, delimiters, start, node.token.2)
            } else if allow.has(node.token.1) {
                (
                    State {
                        last_token_end: node.token.2,
                        ..s.fail(misplaced(), (start, end))
                    },
                    Some(Ok(node)),
                )
            } else if delimiters.has(node.token.1) {
                (s.fail(unexpected(allow.text()), (start, end)), Some(Err(node)))
            } else {
                s.until_core(allow, delimiters, start, node.token.2)
            },
            (s, None) => (s.fail(unexpected(allow.text()), (start, end)), None),
        }
    }

    /// Looks for an expected token.
    pub open spec fn advance_until_without_flag(self, allow: TokenSet, delimiters: Delimiters) -> (
        State<'a>,
        Option<Result<NodeView<'a>, NodeView<'a>>>,
    ) {
        match self.next_node() {
            (s, Some(node)) => if node.token.1 is Error {
                s.until_core(allow, delimiters, node.token.0, node.token.2)
            } else if allow.has(node.token.1) {
                (State { last_token_end: node.token.2, ..s }, Some(Ok(node)))
            } else if delimiters.has(node.token.1) {
                (s.fail(missing(allow.text()), clamped(s.last_token_end)), Some(Err(node)))
            } else {
                s.until_core(allow, delimiters, node.token.0, node.token.2)
            },
            (s, None) => (s.fail(missing(allow.text()), clamped(s.last_token_end)), None),
        }
    }

    #[verifier::opaque]
    pub open spec fn advance_until(self, allow: TokenSet, delimiters: Delimiters) -> (
        State<'a>,
        Option<Result<NodeView<'a>, NodeView<'a>>>,
    ) {
        let (s, found) = self.advance_until_without_flag(allow, delimiters);
        (s.advanced(), found)
    }

    /// Takes the node where it is expected, and looks for one that is otherwise.
    pub open spec fn kind_else_advance_until(
        self,
        node: NodeView<'a>,
        allow: TokenSet,
        delimiters: Delimiters,
    ) -> (State<'a>, Option<Result<NodeView<'a>, NodeView<'a>>>) {
        if allow.has(node.token.1) {
            (self, Some(Ok(node)))
        } else if delimiters.has(node.token.1) {
            (self.fail(missing(allow.text()), clamped(self.last_token_end)), Some(Err(node)))
        } else {
            let last = node.token;
            match self.next_node() {
                (s, Some(node)) => if node.token.1 is Error {
                    s.until_core(allow, delimiters, last.0, node.token.2)
                } else if allow.has(node.token.1) {
                    (
                        State {
                            last_token_end: node.token.2,
                            ..s.fail(misplaced(), (last.0, last.2))
                        },
                        Some(Ok(node)),
                    )
                } else if delimiters.has(node.token.1) {
                    (s.fail(unexpected(allow.text()), (last.0, last.2)), Some(Err(node)))
                } else {
                    s.until_core(allow, delimiters, last.0, node.token.2)
                },
                (s, None) => (s.fail(unexpected(allow.text()), (last.0, last.2)), None),
            }
        }
    }

    #[verifier::opaque]
    pub open spec fn optional_kind_else_advance_until(
        self,
        node: Option<NodeView<'a>>,
        allow: TokenSet,
        delimiters: Delimiters,
    ) -> (State<'a>, Option<Result<NodeView<'a>, NodeView<'a>>>) {
        match node {
            Some(node) => self.kind_else_advance_until(node, allow, delimiters),
            None => (self.fail(missing(allow.text()), clamped(self.last_token_end)), None),
        }
    }

    /// The node that a status holds, or the next one.
    pub open spec fn consume(self, status: StatusView<'a>) -> (State<'a>, Option<NodeView<'a>>) {
        match status {
            StatusView::Stopped(node) => (self, Some(node)),
            StatusView::Exists => self.advance(),
            StatusView::Absent => (self, None),
        }
    }
}

/// Reading a token leaves fewer tokens; at the end nothing changes.
pub proof fn lemma_next_node(s: State)
    ensures
        s.next_node().1 is Some ==> s.next_node().0.remaining() < s.remaining(),
        s.next_node().1 is None ==> s.next_node().0 == s && s.remaining() == 0,
        s.next_node().0.tokens == s.tokens,
        s.next_node().0.text == s.text,
        s.next_node().0.did_advance == s.did_advance,
{
    match s.next_token() {
        (s1, Some(token)) => if is_comment(token.1) {
            lemma_after_trivia(s1.check_comment(token), seq![token]);
        },
        (_, None) => {},
    }
}

proof fn lemma_after_trivia<'a>(s: State<'a>, trivia: Seq<SpannedToken<'a>>)
    ensures
        s.after_trivia(trivia).0.remaining() <= s.remaining(),
        s.after_trivia(trivia).0.tokens == s.tokens,
        s.after_trivia(trivia).0.text == s.text,
        s.after_trivia(trivia).0.did_advance == s.did_advance,
    decreases s.remaining(),
{
    match s.next_token() {
        (s1, Some(token)) => if is_comment(token.1) {
            lemma_after_trivia(s1.check_comment(token), trivia.push(token));
        },
        (_, None) => {},
    }
}

proof fn lemma_skip_errors(s: State, start: usize, end: usize)
    ensures
        s.skip_errors(start, end).0.remaining() <= s.remaining(),
        s.skip_errors(start, end).1 is Some ==> s.skip_errors(start, end).0.remaining()
            < s.remaining(),
        s.skip_errors(start, end).0.tokens == s.tokens,
        s.skip_errors(start, end).0.text == s.text,
        s.skip_errors(start, end).0.did_advance == s.did_advance,
    decreases s.remaining(),
{
    lemma_next_node(s);
    let (s1, node) = s.next_node();
    if node is Some && node->0.token.1 is Error {
        lemma_skip_errors(s1, start, node->0.token.2);
    }
}

/// Accepting a token leaves fewer tokens; without one no more are left.
pub proof fn lemma_advance_without_flags(s: State)
    ensures
        s.advance_without_flags().0.remaining() <= s.remaining(),
        s.advance_without_flags().1 is Some ==> s.advance_without_flags().0.remaining()
            < s.remaining(),
        s.advance_without_flags().0.tokens == s.tokens,
        s.advance_without_flags().0.text == s.text,
        s.advance_without_flags().0.did_advance == s.did_advance,
{
    reveal(State::advance_without_flags);
    lemma_next_node(s);
    let (s1, node) = s.next_node();
    if node is Some && node->0.token.1 is Error {
        lemma_skip_errors(s1, node->0.token.0, node->0.token.2);
    }
}

proof fn lemma_until_core(
    s: State,
    allow: TokenSet,
    delimiters: Delimiters,
    start: usize,
    end: usize,
)
    ensures
        s.until_core(allow, delimiters, start, end).0.remaining() <= s.remaining(),
        s.until_core(allow, delimiters, start, end).1 is Some ==> s.until_core(
            allow,
            delimiters,
            start,
            end,
        ).0.remaining() < s.remaining(),
    decreases s.remaining(),
{
    lemma_next_node(s);
    match s.next_node() {
        (s1, Some(node)) => if node.token.1 is Error {
            lemma_until_core(s1, allow, delimiters, start, node.token.2);
        } else if allow.has(node.token.1) || delimiters.has(node.token.1) {
        } else {
            lemma_until_core(s1, allow, delimiters, start, node.token.2);
        },
        (_, None) => {},
    }
}

/// A search that finds a token leaves fewer tokens.
pub proof fn lemma_advance_until(s: State, allow: TokenSet, delimiters: Delimiters)
    ensures
        s.advance_until(allow, delimiters).0.remaining() <= s.remaining(),
        s.advance_until(allow, delimiters).1 is Some ==> s.advance_until(
            allow,
            delimiters,
        ).0.remaining() < s.remaining(),
{
    reveal(State::advance_until);
    lemma_next_node(s);
    match s.next_node() {
        (s1, Some(node)) => {
            lemma_until_core(s1, allow, delimiters, node.token.0, node.token.2);
        },
        (_, None) => {},
    }
}

/// A search that starts from a node leaves no more tokens.
pub proof fn lemma_optional_kind_else_advance_until<'a>(
    s: State<'a>,
    node: Option<NodeView<'a>>,
    allow: TokenSet,
    delimiters: Delimiters,
)
    ensures
        s.optional_kind_else_advance_until(node, allow, delimiters).0.remaining() <= s.remaining(),
        node is None ==> s.optional_kind_else_advance_until(node, allow, delimiters).1 is None,
{
    reveal(State::optional_kind_else_advance_until);
    if let Some(node) = node {
        lemma_next_node(s);
        match s.next_node() {
            (s1, Some(next)) => {
                lemma_until_core(s1, allow, delimiters, node.token.0, next.token.2);
            },
            (_, None) => {},
        }
    }
}

} // verus!
