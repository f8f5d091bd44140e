//! What is missing from a construct is reported.

use super::origin;
use super::{DeclarationKind, MacroContext, Part, Scope, State, StatusView};
use crate::diagnostic::{DiagnosticView, Severity};
use crate::parser::construct::{ConstructView, DelimitedView, NodeView};
use crate::parser::error;
use crate::parser::error::{ParseError, ParseErrorMessage};
use crate::parser::token;
use crate::parser::token::{Delimiters, SpannedToken, Token, TokenSet, ADD_SUB_PRECEDENCE};
use crate::text;
use vstd::prelude::*;

verus! {

/// The diagnostic that something is missing behind what ends at `at`: it marks the byte in
/// front of `at`.
pub open spec fn missing_at(text: Seq<char>, what: Seq<char>, at: usize) -> DiagnosticView {
    DiagnosticView {
        range: text::range_of(
            text,
            (if at > 0 {
                at - 1
            } else {
                0
            }, at as int),
        ),
        severity: Severity::Error,
        code: "MISSING_TOKEN"@,
        source: "RSML LSP"@,
        message: "Missing Token: "@ + ("Expected "@ + what + "."@),
        data: None,
    }
}

/// Whether a diagnostic says that something was expected.
pub open spec fn is_expectation(diagnostic: DiagnosticView, what: Seq<char>) -> bool {
    &&& diagnostic.severity is Error
    &&& {
        ||| diagnostic.code == "MISSING_TOKEN"@ && diagnostic.message == "Missing Token: "@ + (
        "Expected "@ + what + "."@)
        ||| diagnostic.code == "UNEXPECTED_TOKENS"@ && diagnostic.message
            == "Unexpected Token(s): "@ + ("Expected "@ + what + "."@)
    }
}

/// Whether it is reported that something is missing behind what ends at `at`.
pub open spec fn lacks(end: State, what: &'static str, at: usize) -> bool {
    end.errors.contains(missing_at(end.text, what@, at))
}

/// Whether it is reported that something was expected.
pub open spec fn expects(end: State, what: &'static str) -> bool {
    exists|i: int| 0 <= i < end.errors.len() && is_expectation(#[trigger] end.errors[i], what@)
}

/// Whether a construct that ends at `at` without its terminator has a semicolon for it, or the
/// missing semicolon is reported there.
pub open spec fn terminated(terminator: Option<NodeView>, at: usize, end: State) -> bool {
    match terminator {
        Some(terminator) => terminator.token.1 is SemiColon,
        None => lacks(end, "\";\"", at),
    }
}

/// Whether two names of arguments follow one another without a comma.
pub open spec fn lacks_comma(args: Seq<ConstructView>, i: int) -> bool {
    &&& args[i] matches ConstructView::Node { node } && node.token.1 is MacroArgIdentifier
    &&& args[i + 1] matches ConstructView::Node { node } && node.token.1 is MacroArgIdentifier
}

/// Whether the arguments of a macro have commas between them, or a missing comma is reported.
pub open spec fn args_are_apart(args: Option<Seq<ConstructView>>, end: State) -> bool {
    match args {
        Some(args) => commas_part(args, end),
        None => true,
    }
}

/// Whether commas part the names of arguments, or a missing comma is reported.
pub open spec fn commas_part(args: Seq<ConstructView>, end: State) -> bool {
    forall|i: int|
        0 <= i < args.len() - 1 && #[trigger] lacks_comma(args, i) ==> expects(end, "\",\"")
}

/// Whether a construct is a comma.
pub open spec fn is_comma(construct: ConstructView) -> bool {
    construct matches ConstructView::Node { node } && node.token.1 is Comma
}

/// Whether two elements of a table follow one another without a comma.
pub open spec fn are_joined(elements: Seq<ConstructView>, i: int) -> bool {
    !is_comma(elements[i]) && !is_comma(elements[i + 1])
}

/// Whether the elements of a table have commas between them, or a missing comma is reported.
pub open spec fn elements_are_apart(elements: Option<Seq<ConstructView>>, end: State) -> bool {
    match elements {
        Some(elements) => commas_follow(elements, end),
        None => true,
    }
}

/// Whether commas part the elements of a table, or a missing comma is reported.
pub open spec fn commas_follow(elements: Seq<ConstructView>, end: State) -> bool {
    forall|i: int|
        0 <= i < elements.len() - 1 && #[trigger] are_joined(elements, i) ==> expects(
            end,
            "\",\"",
        )
}

/// Whether a token leads from a selector to the children or the descendants of what it selects.
pub open spec fn is_combinator(token: Token) -> bool {
    token is ChildrenSelector || token is DescendantsSelector
}

/// Whether a combinator is followed by a combinator or a comma in place of a selector.
pub open spec fn dangles(selectors: Seq<NodeView>, i: int) -> bool {
    is_combinator(selectors[i].token.1) && (is_combinator(selectors[i + 1].token.1) || selectors[i
        + 1].token.1 is Comma)
}

/// Whether selectors follow the combinators but for the last part, or a missing one is reported.
pub open spec fn parts_are_joined(selectors: Seq<NodeView>, end: State) -> bool {
    forall|i: int|
        0 <= i < selectors.len() - 1 && #[trigger] dangles(selectors, i) ==> expects(
            end,
            "selector part",
        )
}

/// Whether the selector of a rule is whole in front of the rule's body: a selector follows each
/// combinator and the last comma, or what is missing is reported.
pub open spec fn selector_is_whole(selectors: Option<Seq<NodeView>>, end: State) -> bool {
    selectors matches Some(selectors) ==> {
        &&& parts_are_joined(selectors, end)
        &&& selectors.len() > 0 && is_combinator(selectors.last().token.1) ==> expects(
            end,
            "selector part",
        )
        &&& selectors.len() > 0 && selectors.last().token.1 is Comma ==> end.errors.len() > 0
    }
}

/// Whether a construct has all its parts at any depth, or what is missing is reported.
pub open spec fn accounted(construct: ConstructView, end: State) -> bool
    decreases construct,
{
    match construct {
        ConstructView::Macro { name, args, body, .. } => {
            &&& name is None ==> expects(end, "macro name")
            &&& body is None ==> end.errors.len() > 0
            &&& match args {
                Some(args) => {
                    &&& args.right is None ==> end.errors.len() > 0
                    &&& args_are_apart(args.content, end)
                },
                None => true,
            }
            &&& match body {
                Some(body) => {
                    &&& body.right is None ==> end.errors.len() > 0
                    &&& contents_accounted(body, end)
                },
                None => true,
            }
        },
        ConstructView::MacroCall { body, terminator, .. } => match body {
            Some(body) => match body.right {
                Some(right) => {
                    &&& right.token.1 is ParensClose
                    &&& match terminator {
                        Some(terminator) => terminator.token.1 is SemiColon,
                        None => expects(end, "\";\""),
                    }
                },
                None => expects(end, "\")\""),
            },
            None => expects(end, "\"(\""),
        },
        ConstructView::Derive { body, terminator, .. } => {
            &&& valued(body, end)
            &&& terminated(terminator, construct.end(), end)
        },
        ConstructView::Priority { body, terminator, .. } => {
            &&& valued(body, end)
            &&& terminated(terminator, construct.end(), end)
        },
        ConstructView::Name { body, terminator, .. } => {
            &&& valued(body, end)
            &&& terminated(terminator, construct.end(), end)
        },
        ConstructView::Tween { name, body, terminator, .. } => if name is Some {
            &&& valued(body, end)
            &&& terminated(terminator, construct.end(), end)
        } else {
            expects(end, "tween name")
        },
        ConstructView::Rule { selectors, body } => match body {
            Some(body) => {
                &&& selector_is_whole(selectors, end)
                &&& match body.right {
                    Some(right) => right.token.1 is ScopeClose,
                    None => lacks(end, "\"}\"", body.end()),
                }
                &&& contents_accounted(body, end)
            },
            None => expects(end, "selector part or \"{\""),
        },
        ConstructView::Assignment { middle, right, terminator, .. } => {
            &&& middle is Some && middle->0.token.1 is Equals
            &&& valued(right, end)
            &&& terminated(terminator, construct.end(), end)
        },
        ConstructView::MathOperation { left, right, .. } => {
            &&& accounted(*left, end)
            &&& valued(right, end)
        },
        ConstructView::UnaryMinus { operand, .. } => accounted(*operand, end),
        ConstructView::AnnotatedTable { body, .. } => match body {
            Some(body) => {
                &&& match body.right {
                    Some(right) => right.token.1 is ParensClose,
                    None => lacks(end, "\")\"", body.end()),
                }
                &&& elements_are_apart(body.content, end)
                &&& contents_accounted(body, end)
            },
            None => false,
        },
        ConstructView::Table { body } => {
            &&& match body.right {
                Some(right) => right.token.1 is ParensClose,
                None => lacks(end, "\")\"", body.end()),
            }
            &&& elements_are_apart(body.content, end)
            &&& contents_accounted(body, end)
        },
        ConstructView::Enum { name, variant, .. } => name is None || variant is None ==> expects(
            end,
            "enum part",
        ),
        ConstructView::Node { .. } => true,
        ConstructView::Absent { .. } => true,
    }
}

/// Whether there is a value, with all its parts, or what is missing is reported.
pub open spec fn valued(value: Option<Box<ConstructView>>, end: State) -> bool
    decreases value,
{
    match value {
        Some(value) => accounted(*value, end),
        None => expects(end, "a datatype"),
    }
}

pub open spec fn contents_accounted(delimited: DelimitedView, end: State) -> bool
    decreases delimited,
{
    match delimited.content {
        Some(content) => all_accounted(content, end),
        None => true,
    }
}

pub open spec fn all_accounted(constructs: Seq<ConstructView>, end: State) -> bool
    decreases constructs,
{
    forall|i: int| 0 <= i < constructs.len() ==> accounted(#[trigger] constructs[i], end)
}

/// Whether what was read has all its parts, or what is missing is reported.
pub open spec fn read_accounted(construct: Option<ConstructView>, end: State) -> bool {
    match construct {
        Some(construct) => accounted(construct, end),
        None => true,
    }
}

pub open spec fn found_is(found: Option<Result<NodeView, NodeView>>, allow: TokenSet, end: State) -> bool {
    match found {
        Some(Ok(node)) => allow.has(node.token.1),
        _ => expects(end, allow.text()),
    }
}

pub(super) proof fn lemma_expected(
    s: State,
    error: ParseError,
    span: (usize, usize),
    what: &'static str,
    end: State,
)
    requires
        error == super::missing(what) || error == super::unexpected(what),
        origin::leads_to(s.fail(error, span), end),
    ensures
        expects(end, what),
{
    let failed = s.fail(error, span);
    let n = s.errors.len() as int;
    assert(failed.errors[n] == error::parse_diagnostic(error, s.range(span)));
    assert(end.errors[n] == failed.errors[n]);
    assert(is_expectation(end.errors[n], what@));
}

pub(super) proof fn lemma_missing(s: State, what: &'static str, at: usize, end: State)
    requires
        origin::leads_to(s.fail(super::missing(what), super::clamped(at)), end),
    ensures
        lacks(end, what, at),
        expects(end, what),
{
    let failed = s.fail(super::missing(what), super::clamped(at));
    let n = s.errors.len() as int;
    lemma_expected(s, super::missing(what), super::clamped(at), what, end);
    assert(failed.errors[n] == missing_at(s.text, what@, at));
    assert(end.errors[n] == failed.errors[n]);
}

pub(super) proof fn lemma_until_core(
    s: State,
    allow: TokenSet,
    delimiters: Delimiters,
    start: usize,
    stop: usize,
    end: State,
)
    requires
        origin::leads_to(s.until_core(allow, delimiters, start, stop).0, end),
    ensures
        found_is(s.until_core(allow, delimiters, start, stop).1, allow, end),
    decreases s.remaining(),
{
    super::lemma_next_node(s);
    match s.next_node() {
        (s1, Some(node)) => if node.token.1 is Error {
            lemma_until_core(s1, allow, delimiters, start, node.token.2, end);
        } else if allow.has(node.token.1) {
        } else if delimiters.has(node.token.1) {
            lemma_expected(s1, super::unexpected(allow.text()), (start, stop), allow.text(), end);
        } else {
            lemma_until_core(s1, allow, delimiters, start, node.token.2, end);
        },
        (s1, None) => {
            lemma_expected(s1, super::unexpected(allow.text()), (start, stop), allow.text(), end);
        },
    }
}

pub(super) proof fn lemma_advance_until(s: State, allow: TokenSet, delimiters: Delimiters, end: State)
    ensures
        origin::leads_to(s, s.advance_until(allow, delimiters).0),
        origin::leads_to(s.advance_until(allow, delimiters).0, end) ==> found_is(
            s.advance_until(allow, delimiters).1,
            allow,
            end,
        ),
        s.advance_until(allow, delimiters).1 matches Some(Ok(node)) ==> allow.has(node.token.1),
{
    origin::lemma_advance_until(s, allow, delimiters);
    reveal(State::advance_until);
    let (after, found) = s.advance_until(allow, delimiters);
    lemma_found_is_allowed(s, allow, delimiters);
    if origin::leads_to(after, end) {
        let (before, _) = s.advance_until_without_flag(allow, delimiters);
        assert(origin::leads_to(before, end));
        match s.next_node() {
            (s1, Some(node)) => if node.token.1 is Error {
                lemma_until_core(s1, allow, delimiters, node.token.0, node.token.2, end);
            } else if allow.has(node.token.1) {
            } else if delimiters.has(node.token.1) {
                lemma_missing(s1, allow.text(), s1.last_token_end, end);
            } else {
                lemma_until_core(s1, allow, delimiters, node.token.0, node.token.2, end);
            },
            (s1, None) => {
                lemma_missing(s1, allow.text(), s1.last_token_end, end);
            },
        }
    }
}

pub(super) proof fn lemma_core_is_allowed(
    s: State,
    allow: TokenSet,
    delimiters: Delimiters,
    start: usize,
    stop: usize,
)
    ensures
        s.until_core(allow, delimiters, start, stop).1 matches Some(Ok(node)) ==> allow.has(
            node.token.1,
        ),
    decreases s.remaining(),
{
    super::lemma_next_node(s);
    if let (s1, Some(node)) = s.next_node() {
        if node.token.1 is Error || !(allow.has(node.token.1) || delimiters.has(node.token.1)) {
            lemma_core_is_allowed(s1, allow, delimiters, start, node.token.2);
        }
    }
}

pub(super) proof fn lemma_found_is_allowed(s: State, allow: TokenSet, delimiters: Delimiters)
    ensures
        s.advance_until(allow, delimiters).1 matches Some(Ok(node)) ==> allow.has(node.token.1),
{
    reveal(State::advance_until);
    if let (s1, Some(node)) = s.next_node() {
        lemma_core_is_allowed(s1, allow, delimiters, node.token.0, node.token.2);
    }
}

pub(super) proof fn lemma_kind_else_advance_until<'a>(
    s: State<'a>,
    node: Option<NodeView<'a>>,
    allow: TokenSet,
    delimiters: Delimiters,
    end: State<'a>,
)
    ensures
        origin::leads_to(s, s.optional_kind_else_advance_until(node, allow, delimiters).0),
        origin::leads_to(s.optional_kind_else_advance_until(node, allow, delimiters).0, end)
            ==> found_is(
            s.optional_kind_else_advance_until(node, allow, delimiters).1,
            allow,
            end,
        ),
{
    reveal(State::optional_kind_else_advance_until);
    let (after, found) = s.optional_kind_else_advance_until(node, allow, delimiters);
    match node {
        Some(node) => {
            origin::lemma_next_node(s);
            if let (s1, Some(next)) = s.next_node() {
                origin::lemma_until_core(s1, allow, delimiters, node.token.0, next.token.2);
            }
            if origin::leads_to(after, end) && !allow.has(node.token.1) {
                if delimiters.has(node.token.1) {
                    lemma_missing(s, allow.text(), s.last_token_end, end);
                } else {
                    let last = node.token;
                    let error = super::unexpected(allow.text());
                    match s.next_node() {
                        (s1, Some(next)) => if next.token.1 is Error {
                            lemma_until_core(s1, allow, delimiters, last.0, next.token.2, end);
                        } else if allow.has(next.token.1) {
                        } else if delimiters.has(next.token.1) {
                            lemma_expected(s1, error, (last.0, last.2), allow.text(), end);
                        } else {
                            lemma_until_core(s1, allow, delimiters, last.0, next.token.2, end);
                        },
                        (s1, None) => {
                            lemma_expected(s1, error, (last.0, last.2), allow.text(), end);
                        },
                    }
                }
            }
        },
        None => {
            if origin::leads_to(after, end) {
                lemma_missing(s, allow.text(), s.last_token_end, end);
            }
        },
    }
}

pub(super) proof fn lemma_consume<'a>(s: State<'a>, status: StatusView<'a>)
    ensures
        origin::leads_to(s, s.consume(status).0),
{
    origin::lemma_advance(s);
}

pub(super) proof fn lemma_operator_chain<'a>(s: State<'a>, operators: Seq<NodeView<'a>>)
    ensures
        origin::leads_to(s, s.operator_chain(operators).0),
    decreases s.remaining(),
{
    super::lemma_advance_without_flags(s);
    origin::lemma_advance(s);
    if let (s1, Some(node)) = s.advance() {
        if let Some(precedence) = token::precedence_of(node.token.1) {
            if precedence == ADD_SUB_PRECEDENCE {
                lemma_operator_chain(s1, operators.push(node));
            } else {
                let s2 = s1.fail(super::misplaced(), super::clamped(node.token.2));
                assert(origin::leads_to(s1, s2));
                lemma_operator_chain(s2, operators);
            }
        }
    }
}

pub(super) proof fn lemma_datatype_operators<'a>(s: State<'a>, first: NodeView<'a>, precedence: usize)
    ensures
        origin::leads_to(s, s.datatype_operators(first, precedence).0),
{
    reveal(State::datatype_operators);
    lemma_operator_chain(s, seq![first]);
    origin::lemma_advance(s);
}

/// Whether what comes of reading a datatype is accounted for.
pub open spec fn is_datatype_read<'a>(
    s: State<'a>,
    read: (State<'a>, StatusView<'a>, Option<ConstructView<'a>>),
    end: State<'a>,
) -> bool {
    &&& origin::leads_to(s, read.0)
    &&& origin::leads_to(read.0, end) ==> valued(super::in_box(read.2), end)
}

pub(super) proof fn lemma_datatype<'a>(
    s: State<'a>,
    node: Option<NodeView<'a>>,
    delimiters: Delimiters,
    end: State<'a>,
)
    ensures
        is_datatype_read(s, s.datatype(node, delimiters), end),
        !(s.datatype(node, delimiters).1 is Exists),
    decreases s.remaining(), 5nat,
{
    reveal_with_fuel(accounted, 4);
    lemma_datatype_part(s, node, delimiters, end);
    let (s1, status, construct) = s.datatype_part(node, delimiters);
    if construct is Some && status is Exists {
        let left = construct->0;
        origin::lemma_advance(s1);
        let (s2, middle) = s1.advance();
        if middle is Some && token::precedence_of(middle->0.token.1) is Some {
            let precedence = token::precedence_of(middle->0.token.1)->0;
            lemma_datatype_operators(s2, middle->0, precedence);
            let (s3, right, operators) = s2.datatype_operators(middle->0, precedence);
            if super::is_kind(right, |t: Token| t is SemiColon) {
                let at = operators.last().token.2;
                let s4 = s3.fail(super::missing("a datatype"), super::clamped(at));
                assert(origin::leads_to(s3, s4));
                if origin::leads_to(s4, end) {
                    lemma_missing(s3, "a datatype", at, end);
                    assert(accounted(left, end));
                    assert(accounted(super::datatype::math(left, operators, None), end));
                }
            } else if s3.remaining() < s.remaining() {
                lemma_datatype_operation(s3, right, left, precedence, operators, delimiters, end);
            }
        }
    }
}

pub(super) proof fn lemma_datatype_operation<'a>(
    s: State<'a>,
    node: Option<NodeView<'a>>,
    last_datatype: ConstructView<'a>,
    last_precedence: usize,
    last_operators: Seq<NodeView<'a>>,
    delimiters: Delimiters,
    end: State<'a>,
)
    ensures
        ({
            let read = s.datatype_operation(
                node,
                last_datatype,
                last_precedence,
                last_operators,
                delimiters,
            );
            &&& origin::leads_to(s, read.0)
            &&& origin::leads_to(read.0, end) && accounted(last_datatype, end) ==> valued(
                super::in_box(read.2),
                end,
            )
            &&& !(read.1 is Exists)
        }),
    decreases s.remaining(), 5nat,
{
    reveal_with_fuel(accounted, 4);
    lemma_datatype_part(s, node, delimiters, end);
    let (s1, status, construct) = s.datatype_part(node, delimiters);
    let so_far = super::datatype::math(last_datatype, last_operators, construct);
    if origin::leads_to(s1, end) && accounted(last_datatype, end) {
        assert(accounted(so_far, end));
    }
    if construct is Some && status is Exists {
        let left = construct->0;
        origin::lemma_advance(s1);
        let (s2, middle) = s1.advance();
        if middle is Some && token::precedence_of(middle->0.token.1) is Some {
            let precedence = token::precedence_of(middle->0.token.1)->0;
            lemma_datatype_operators(s2, middle->0, precedence);
            let (s3, right, operators) = s2.datatype_operators(middle->0, precedence);
            if super::is_kind(right, |t: Token| t is SemiColon) {
                let at = operators.last().token.2;
                let s4 = s3.fail(super::missing("a datatype"), super::clamped(at));
                assert(origin::leads_to(s3, s4));
                if origin::leads_to(s4, end) && accounted(last_datatype, end) {
                    lemma_missing(s3, "a datatype", at, end);
                    let inner = super::datatype::math(left, operators, None);
                    assert(accounted(left, end));
                    assert(accounted(inner, end));
                    assert(accounted(so_far, end));
                    assert(accounted(
                        super::datatype::math(last_datatype, last_operators, Some(inner)),
                        end,
                    ));
                    assert(accounted(super::datatype::math(so_far, operators, None), end));
                }
            } else if s3.remaining() >= s.remaining() {
            } else if precedence > last_precedence {
                lemma_datatype_operation(s3, right, left, precedence, operators, delimiters, end);
            } else {
                lemma_datatype_operation(s3, right, so_far, precedence, operators, delimiters, end);
            }
        }
    }
}

pub(super) proof fn lemma_datatype_part<'a>(
    s: State<'a>,
    node: Option<NodeView<'a>>,
    delimiters: Delimiters,
    end: State<'a>,
)
    ensures
        is_datatype_read(s, s.datatype_part(node, delimiters), end),
        s.datatype_part(node, delimiters).2 is None ==> !(s.datatype_part(
            node,
            delimiters,
        ).1 is Exists),
    decreases s.remaining(), 4nat,
{
    reveal_with_fuel(accounted, 4);
    super::lemma_optional_kind_else_advance_until(s, node, TokenSet::Datatype, delimiters);
    lemma_kind_else_advance_until(s, node, TokenSet::Datatype, delimiters, end);
    match s.optional_kind_else_advance_until(node, TokenSet::Datatype, delimiters) {
        (s1, Some(Ok(node))) => match node.token.1 {
            Token::Identifier(_) => {
                lemma_annotated_table(s1, node, end);
            },
            Token::ParensOpen => {
                lemma_table_body(s1, node, end);
            },
            Token::EnumKeyword => {
                lemma_enum_datatype(s1, node, end);
            },
            Token::MacroCallIdentifier(_) => {
                lemma_macro_call_body(s1, node, end);
            },
            Token::OpSub => {
                super::lemma_advance_without_flags(s1);
                origin::lemma_advance(s1);
                let (s2, next) = s1.advance();
                if next is Some {
                    lemma_datatype_part(s2, next, delimiters, end);
                }
            },
            _ => {},
        },
        _ => {},
    }
}

/// Whether another element may follow: a comma stands in front of it, or its lack is reported.
pub open spec fn may_go_on<'a>(elements: Seq<ConstructView<'a>>, end: State<'a>) -> bool {
    elements.len() > 0 && (is_comma(elements.last()) || expects(end, "\",\""))
}

proof fn lemma_elements_push<'a>(
    elements: Seq<ConstructView<'a>>,
    element: ConstructView<'a>,
    end: State<'a>,
)
    requires
        elements_are_apart(Some(elements), end),
        elements.len() == 0 || is_comma(element) || may_go_on(elements, end),
    ensures
        elements_are_apart(Some(elements.push(element)), end),
{
    let more = elements.push(element);
    assert forall|i: int| 0 <= i < more.len() - 1 && #[trigger] are_joined(more, i) implies expects(
        end,
        "\",\"",
    ) by {
        if i < elements.len() - 1 {
            assert(more[i] == elements[i] && more[i + 1] == elements[i + 1]);
            assert(commas_follow(elements, end));
            assert(are_joined(elements, i));
            assert(expects(end, "\",\""));
        } else {
            assert(more[i] == elements.last() && more[i + 1] == element);
            assert(expects(end, "\",\""));
        }
    }
}

pub(super) proof fn lemma_table_arg<'a>(
    s: State<'a>,
    this: Option<NodeView<'a>>,
    group: ConstructView<'a>,
    groups: Seq<ConstructView<'a>>,
    end: State<'a>,
)
    ensures
        ({
            let (after, all, next) = s.table_arg(this, group, groups);
            &&& origin::leads_to(s, after)
            &&& accounted(group, end) && all_accounted(groups, end) ==> all_accounted(all, end)
            &&& next matches Some(Err(node)) ==> node.token.1 is ParensClose
            &&& origin::leads_to(after, end) && elements_are_apart(Some(groups), end) && (
            groups.len() == 0 || may_go_on(groups, end)) ==> {
                &&& elements_are_apart(Some(all), end)
                &&& next matches Some(Ok(_)) ==> may_go_on(all, end)
            }
        }),
{
    origin::lemma_advance(s);
    let (after, all, next) = s.table_arg(this, group, groups);
    let more = groups.push(group);
    if origin::leads_to(after, end) && elements_are_apart(Some(groups), end) && (groups.len() == 0
        || may_go_on(groups, end)) {
        lemma_elements_push(groups, group, end);
    }
    if let Some(this) = this {
        let comma = ConstructView::Node { node: this };
        assert(accounted(comma, end));
        if this.token.1 is Comma && elements_are_apart(Some(more), end) {
            lemma_elements_push(more, comma, end);
        }
        if !(this.token.1 is Comma || this.token.1 is ParensClose) {
            if origin::leads_to(after, end) {
                lemma_missing(s, "\",\"", group.end(), end);
            }
        }
    }
}

pub(super) proof fn lemma_table_args<'a>(s: State<'a>, node: NodeView<'a>, end: State<'a>)
    ensures
        ({
            let (after, close, groups) = s.table_args(node);
            &&& origin::leads_to(s, after)
            &&& groups is Some && origin::leads_to(after, end) ==> all_accounted(groups->0, end)
            &&& origin::leads_to(after, end) ==> elements_are_apart(groups, end)
        }),
    decreases s.remaining(), 6nat,
{
    lemma_datatype(s, Some(node), Delimiters::InsideParens, end);
    let (s1, status, group) = s.datatype(Some(node), Delimiters::InsideParens);
    if let Some(group) = group {
        lemma_consume(s1, status);
        let (s2, this) = s1.consume(status);
        lemma_table_arg(s2, this, group, seq![], end);
        let (s3, groups, next) = s2.table_arg(this, group, seq![]);
        if let Some(Ok(node)) = next {
            if s3.remaining() < s.remaining() {
                lemma_table_args_rest(s3, node, groups, end);
            }
        }
    }
}

pub(super) proof fn lemma_table_args_rest<'a>(
    s: State<'a>,
    node: NodeView<'a>,
    before: Seq<ConstructView<'a>>,
    end: State<'a>,
)
    ensures
        ({
            let (after, close, groups) = s.table_args_rest(node, before);
            &&& origin::leads_to(s, after)
            &&& groups is Some && origin::leads_to(after, end) && all_accounted(before, end)
                ==> all_accounted(groups->0, end)
            &&& origin::leads_to(after, end) && elements_are_apart(Some(before), end) && may_go_on(
                before,
                end,
            ) ==> elements_are_apart(groups, end)
        }),
    decreases s.remaining(), 6nat,
{
    lemma_datatype(s, Some(node), Delimiters::InsideParens, end);
    let (s1, status, group) = s.datatype(Some(node), Delimiters::InsideParens);
    lemma_consume(s1, status);
    let (s2, this) = s1.consume(status);
    if let Some(group) = group {
        lemma_table_arg(s2, this, group, before, end);
        let (s3, groups, next) = s2.table_arg(this, group, before);
        if let Some(Ok(node)) = next {
            if s3.remaining() < s.remaining() {
                lemma_table_args_rest(s3, node, groups, end);
            }
        }
    }
}

pub(super) proof fn lemma_table_body<'a>(s: State<'a>, open: NodeView<'a>, end: State<'a>)
    ensures
        ({
            let (after, status, body) = s.table_body(open);
            &&& origin::leads_to(s, after)
            &&& origin::leads_to(after, end) ==> accounted(ConstructView::Table { body }, end)
        }),
    decreases s.remaining(), 2nat,
{
    reveal_with_fuel(accounted, 4);
    super::lemma_advance_without_flags(s);
    origin::lemma_advance(s);
    match s.advance() {
        (s1, Some(node)) => if !(node.token.1 is ParensClose) {
            lemma_table_args(s1, node, end);
            let (s2, close, groups) = s1.table_args(node);
            if !super::is_kind(close, |t: Token| t is ParensClose) {
                let body = DelimitedView { left: open, content: groups, right: None };
                let s3 = s2.fail(super::missing("\")\""), super::clamped(body.end()));
                assert(origin::leads_to(s2, s3));
                if origin::leads_to(s3, end) {
                    lemma_missing(s2, "\")\"", body.end(), end);
                }
            }
        },
        (s1, None) => {
            let s2 = s1.fail(super::missing("\")\""), super::clamped(open.token.2));
            assert(origin::leads_to(s1, s2));
            if origin::leads_to(s2, end) {
                lemma_missing(s1, "\")\"", open.token.2, end);
            }
        },
    }
}

pub(super) proof fn lemma_annotated_table<'a>(s: State<'a>, annotation: NodeView<'a>, end: State<'a>)
    ensures
        is_datatype_read(s, s.annotated_table(annotation), end),
        s.annotated_table(annotation).2 is None ==> !(s.annotated_table(annotation).1 is Exists),
    decreases s.remaining(), 3nat,
{
    reveal_with_fuel(accounted, 4);
    super::lemma_advance_without_flags(s);
    origin::lemma_advance(s);
    let error = super::unexpected("a datatype");
    match s.advance() {
        (s1, Some(node)) => if node.token.1 is ParensOpen {
            lemma_table_body(s1, node, end);
        } else {
            let span = if node.token.1 is SemiColon {
                (annotation.token.0, annotation.token.2)
            } else {
                (annotation.token.0, node.token.2)
            };
            assert(origin::leads_to(s1, s1.fail(error, span)));
            if origin::leads_to(s1.fail(error, span), end) {
                lemma_expected(s1, error, span, "a datatype", end);
            }
        },
        (s1, None) => {
            let span = (annotation.token.0, annotation.token.2);
            assert(origin::leads_to(s1, s1.fail(error, span)));
            if origin::leads_to(s1.fail(error, span), end) {
                lemma_expected(s1, error, span, "a datatype", end);
            }
        },
    }
}

pub(super) proof fn lemma_enum_datatype<'a>(s: State<'a>, keyword: NodeView<'a>, end: State<'a>)
    ensures
        is_datatype_read(s, s.enum_datatype(keyword), end),
        s.enum_datatype(keyword).2 is Some,
{
    reveal_with_fuel(accounted, 4);
    reveal(State::enum_datatype);
    lemma_advance_until(s, TokenSet::EnumPart, Delimiters::Construct, end);
    if let (s1, Some(Ok(_))) = s.advance_until(TokenSet::EnumPart, Delimiters::Construct) {
        lemma_advance_until(s1, TokenSet::EnumPart, Delimiters::Construct, end);
        if let (s2, Some(Ok(_))) = s1.advance_until(TokenSet::EnumPart, Delimiters::Construct) {
            origin::lemma_advance(s2);
        }
    }
}

pub(super) proof fn lemma_macro_call_content<'a>(
    s: State<'a>,
    nestedness: nat,
    content: Seq<ConstructView<'a>>,
)
    ensures
        origin::leads_to(s, s.macro_call_content(nestedness, content).0),
        s.macro_call_content(nestedness, content).2 matches Some(close)
            ==> close.token.1 is ParensClose,
    decreases s.remaining(),
{
    reveal_with_fuel(State::macro_call_content, 2);
    super::lemma_advance_without_flags(s);
    origin::lemma_advance(s);
    if let (s1, Some(node)) = s.advance() {
        match node.token.1 {
            Token::ParensOpen => {
                lemma_macro_call_content(s1, nestedness + 1, content);
            },
            Token::ParensClose => if nestedness != 0 {
                lemma_macro_call_content(s1, (nestedness - 1) as nat, content);
            },
            _ => {
                lemma_macro_call_content(
                    s1,
                    nestedness,
                    content.push(ConstructView::Node { node }),
                );
            },
        }
    }
}

pub(super) proof fn lemma_macro_call_body<'a>(s: State<'a>, name: NodeView<'a>, end: State<'a>)
    ensures
        ({
            let (after, next, construct) = s.macro_call_body(name);
            &&& origin::leads_to(s, after)
            &&& construct is Some
            &&& origin::leads_to(after, end) ==> accounted(construct->0, end)
        }),
{
    reveal_with_fuel(accounted, 4);
    reveal(State::macro_call_body);
    lemma_advance_until(s, TokenSet::ParensOpen, Delimiters::Construct, end);
    if let (s1, Some(Ok(open))) = s.advance_until(TokenSet::ParensOpen, Delimiters::Construct) {
        lemma_macro_call_content(s1, 0, seq![]);
        let (s2, content, close) = s1.macro_call_content(0, seq![]);
        if close is Some {
            lemma_advance_until(s2, TokenSet::SemiColon, Delimiters::Construct, end);
            if let (s3, Some(Ok(_))) = s2.advance_until(
                TokenSet::SemiColon,
                Delimiters::Construct,
            ) {
                origin::lemma_advance(s3);
            }
        } else {
            let unfinished = ConstructView::MacroCall {
                name,
                body: Some(DelimitedView { left: open, content: Some(content), right: close }),
                terminator: None,
            };
            let s3 = s2.fail(super::missing("\")\""), unfinished.span());
            assert(origin::leads_to(s2, s3));
            if origin::leads_to(s3, end) {
                lemma_expected(s2, super::missing("\")\""), unfinished.span(), "\")\"", end);
            }
        }
    }
}

/// Behind a datatype, the search for a semicolon finds one or reports that it is missing.
pub(super) proof fn lemma_terminate<'a>(s: State<'a>, status: StatusView<'a>, at: usize, end: State<'a>)
    requires
        !(status is Exists),
    ensures
        origin::leads_to(s, s.terminate(status, at).0),
        match s.terminate(status, at).1 {
            Ok(node) => node.token.1 is SemiColon,
            Err(_) => origin::leads_to(s.terminate(status, at).0, end) ==> lacks(end, "\";\"", at),
        },
{
    reveal(State::terminate);
    let failed = s.fail(super::missing("\";\""), super::clamped(at));
    assert(origin::leads_to(s, failed));
    if origin::leads_to(failed, end) {
        lemma_missing(s, "\";\"", at, end);
    }
}

pub(super) proof fn lemma_datatype_behind<'a>(s: State<'a>, end: State<'a>)
    ensures
        is_datatype_read(s, s.datatype_behind(), end),
        !(s.datatype_behind().1 is Exists),
{
    reveal(State::datatype_behind);
    origin::lemma_advance(s);
    let (s1, node) = s.advance_without_flags();
    lemma_datatype(s1.advanced(), node, Delimiters::Construct, end);
}

/// Whether what comes of reading a construct is accounted for.
pub open spec fn is_read<'a>(
    s: State<'a>,
    read: (State<'a>, Option<NodeView<'a>>, Option<ConstructView<'a>>),
    end: State<'a>,
) -> bool {
    &&& origin::leads_to(s, read.0)
    &&& origin::leads_to(read.0, end) ==> read_accounted(read.2, end)
}

pub(super) proof fn lemma_declaration<'a>(
    s: State<'a>,
    node: NodeView<'a>,
    kind: DeclarationKind,
    end: State<'a>,
)
    ensures
        is_read(s, s.declaration(node, kind), end),
{
    reveal(State::declaration);
    reveal_with_fuel(accounted, 4);
    lemma_datatype_behind(s, end);
    let (s1, status, body) = s.datatype_behind();
    let at = super::declared(kind, node, body, None).end();
    lemma_terminate(s1, status, at, end);
    origin::lemma_advance(s1.terminate(status, at).0);
}

pub(super) proof fn lemma_tween<'a>(s: State<'a>, node: NodeView<'a>, end: State<'a>)
    ensures
        is_read(s, s.tween(node), end),
{
    reveal(State::tween);
    reveal_with_fuel(accounted, 4);
    lemma_advance_until(s, TokenSet::TweenName, Delimiters::Construct, end);
    if let (s1, Some(Ok(name))) = s.advance_until(TokenSet::TweenName, Delimiters::Construct) {
        lemma_datatype_behind(s1, end);
        let (s2, status, body) = s1.datatype_behind();
        let at = super::scope::tweened(node, Some(name), body, None).end();
        lemma_terminate(s2, status, at, end);
        origin::lemma_advance(s2.terminate(status, at).0);
    }
}

pub(super) proof fn lemma_assigned_value<'a>(
    s: State<'a>,
    left: NodeView<'a>,
    middle: NodeView<'a>,
    end: State<'a>,
)
    requires
        middle.token.1 is Equals,
    ensures
        is_read(s, s.assigned_value(left, middle), end),
{
    reveal(State::assigned_value);
    reveal_with_fuel(accounted, 4);
    lemma_datatype_behind(s, end);
    let (s1, status, body) = s.datatype_behind();
    let at = super::scope::assigned(left, middle, body, None).end();
    lemma_terminate(s1, status, at, end);
    origin::lemma_advance(s1.terminate(status, at).0);
}

pub(super) proof fn lemma_assignment<'a>(s: State<'a>, left: NodeView<'a>, end: State<'a>)
    ensures
        is_read(s, s.assignment(left), end),
{
    reveal(State::assignment);
    lemma_advance_until(s, TokenSet::Equals, Delimiters::Construct, end);
    if let (s1, Some(Ok(middle))) = s.advance_until(TokenSet::Equals, Delimiters::Construct) {
        lemma_assigned_value(s1, left, middle, end);
    }
}

pub(super) proof fn lemma_part<'a>(
    s: State<'a>,
    node: NodeView<'a>,
    part: Part,
    scope: Scope,
    end: State<'a>,
)
    ensures
        is_read(s, s.part(node, part, scope), end),
    decreases s.remaining(), 2nat, 0nat,
{
    match part {
        Part::Macro => {
            lemma_macro_declaration(s, node, end);
        },
        Part::MacroCall => {
            lemma_macro_call_body(s, node, end);
        },
        Part::Derive => {
            lemma_declaration(s, node, DeclarationKind::Derive, end);
        },
        Part::Priority => {
            lemma_declaration(s, node, DeclarationKind::Priority, end);
        },
        Part::Name => {
            lemma_declaration(s, node, DeclarationKind::Name, end);
        },
        Part::Tween => {
            lemma_tween(s, node, end);
        },
        Part::StaticTokenAssignment => {
            lemma_assignment(s, node, end);
        },
        Part::TokenAssignment => {
            lemma_assignment(s, node, end);
        },
        Part::PropertyOrRule => {
            lemma_property_or_rule(s, node, end);
        },
        Part::SelectorBegin => {
            lemma_selector_begin(s, node, end);
        },
        Part::InvalidDeclaration => {
            lemma_invalid_declaration(s, node);
        },
        Part::Absent => {
            origin::lemma_advance(s);
        },
    }
}

pub(super) proof fn lemma_invalid_declaration<'a>(s: State<'a>, node: NodeView<'a>)
    ensures
        origin::leads_to(s, s.invalid_declaration(node).0),
{
    reveal(State::invalid_declaration);
    if let Token::InvalidDeclaration(name) = node.token.1 {
        let span = (node.token.0, node.token.2);
        let closest = match name {
            Some(name) => error::closest("@"@ + name@, super::scope::declaration_names()),
            None => None,
        };
        let failed = s.fail(
            ParseError::UnexpectedTokens {
                msg: Some(ParseErrorMessage::Correction { closest, range: s.range(span) }),
            },
            span,
        );
        assert(origin::leads_to(s, failed));
        origin::lemma_advance(failed);
    }
}

/// Whether what comes of reading a construct is accounted for, where some arguments that were
/// read before are.
pub open spec fn is_read_behind<'a>(
    args: Option<Seq<ConstructView<'a>>>,
    s: State<'a>,
    read: (State<'a>, Option<NodeView<'a>>, Option<ConstructView<'a>>),
    end: State<'a>,
) -> bool {
    &&& origin::leads_to(s, read.0)
    &&& origin::leads_to(read.0, end) && args_are_apart(args, end) ==> read_accounted(read.2, end)
}

/// The content of the arguments of a macro.
pub open spec fn content_of<'a>(args: Option<DelimitedView<'a>>) -> Option<
    Seq<ConstructView<'a>>,
> {
    match args {
        Some(args) => args.content,
        None => None,
    }
}

/// Whether what comes of reading several constructs behind some others is accounted for.
pub open spec fn is_content_read<'a>(
    s: State<'a>,
    content: Seq<ConstructView<'a>>,
    after: State<'a>,
    read: Seq<ConstructView<'a>>,
    end: State<'a>,
) -> bool {
    &&& origin::leads_to(s, after)
    &&& origin::leads_to(after, end) && all_accounted(content, end) ==> all_accounted(read, end)
}

pub(super) proof fn lemma_step<'a>(
    s: State<'a>,
    node: NodeView<'a>,
    content: Seq<ConstructView<'a>>,
    part: Part,
    scope: Scope,
    end: State<'a>,
)
    ensures
        ({
            let (after, read, next) = s.step(node, content, part, scope);
            is_content_read(s, content, after, read, end)
        }),
    decreases s.remaining(), 3nat, part.rank(),
{
    lemma_part(s, node, part, scope, end);
    let (s1, next, construct) = s.part(node, part, scope);
    let (s2, put) = s1.put(construct, content, part, scope);
    assert(origin::leads_to(s1, s2));
    if origin::leads_to(s2, end) && all_accounted(content, end) {
        assert(origin::leads_to(s1, end));
        assert(all_accounted(put, end));
    }
    if let (Some(node), Some(following)) = (next, part.following()) {
        if s2.remaining() <= s.remaining() {
            lemma_step(s2, node, put, following, scope, end);
        }
    }
}

pub(super) proof fn lemma_scope_loop<'a>(
    s: State<'a>,
    node: NodeView<'a>,
    content: Seq<ConstructView<'a>>,
    scope: Scope,
    error_span: Option<(usize, usize)>,
    end: State<'a>,
)
    ensures
        ({
            let (after, read, close) = s.scope_loop(node, content, scope, error_span);
            &&& is_content_read(s, content, after, read, end)
            &&& close matches Some(close) ==> close.token.1 is ScopeClose
        }),
    decreases s.remaining(), 4nat, 0nat,
{
    lemma_step(s, node, content, Part::Macro, scope, end);
    let (s1, content, next) = s.step(node, content, Part::Macro, scope);
    if let Some(node) = next {
        let ends = node.token.1 is ScopeClose;
        if s1.did_advance {
            let s2 = (State { did_advance: false, ..s1 }).fail_if(error_span);
            assert(origin::leads_to(s1, s2));
            if !ends && s2.remaining() < s.remaining() {
                lemma_scope_loop(s2, node, content, scope, error_span, end);
            }
        } else if ends {
            assert(origin::leads_to(s1, s1.fail_if(error_span)));
        } else {
            let span = super::scope::widened(error_span, node.token);
            origin::lemma_advance(s1);
            let (s2, next) = s1.accept();
            match next {
                Some(next) => if s2.remaining() < s.remaining() {
                    lemma_scope_loop(s2, next, content, scope, span, end);
                },
                None => {
                    assert(origin::leads_to(s2, s2.fail_if(span)));
                },
            }
        }
    }
}

/// Whether a stretch between braces is closed, or the missing brace is reported, and what is in
/// it is accounted for.
pub open spec fn is_braced<'a>(body: DelimitedView<'a>, end: State<'a>) -> bool {
    &&& match body.right {
        Some(right) => right.token.1 is ScopeClose,
        None => lacks(end, "\"}\"", body.end()),
    }
    &&& contents_accounted(body, end)
}

pub(super) proof fn lemma_braced<'a>(s: State<'a>, open: NodeView<'a>, scope: Scope, end: State<'a>)
    ensures
        ({
            let (after, next, body) = s.braced(open, scope);
            &&& origin::leads_to(s, after)
            &&& origin::leads_to(after, end) ==> is_braced(body, end)
        }),
    decreases s.remaining(), 0nat, 0nat,
{
    super::lemma_advance_without_flags(s);
    origin::lemma_advance(s);
    match s.advance() {
        (s1, Some(node)) => if node.token.1 is ScopeClose {
            origin::lemma_advance(s1);
        } else {
            let cleared = State { did_advance: false, ..s1 };
            assert(origin::leads_to(s1, cleared));
            lemma_scope_loop(cleared, node, seq![], scope, None, end);
            let (s2, content, close) = s1.scope_content(node, scope);
            assert(origin::leads_to(cleared, s2));
            let body = DelimitedView { left: open, content: Some(content), right: close };
            let s3 = if close is Some {
                s2
            } else {
                s2.fail(super::missing("\"}\""), super::clamped(body.end()))
            };
            assert(origin::leads_to(s2, s3));
            origin::lemma_advance(s3);
            if origin::leads_to(s3.advance().0, end) {
                assert(origin::leads_to(s3, end));
                if close is None {
                    lemma_missing(s2, "\"}\"", body.end(), end);
                }
                assert(origin::leads_to(s2, end));
                assert(origin::leads_to(
                    cleared.scope_loop(node, seq![], scope, None).0,
                    end,
                ));
                assert(all_accounted(content, end));
            }
        },
        (s1, None) => {
            let s2 = s1.fail(super::missing("\"}\""), super::clamped(open.token.2));
            assert(origin::leads_to(s1, s2));
            if origin::leads_to(s2, end) {
                lemma_missing(s1, "\"}\"", open.token.2, end);
            }
        },
    }
}

pub(super) proof fn lemma_rule_body<'a>(
    s: State<'a>,
    open: NodeView<'a>,
    selectors: Option<Seq<NodeView<'a>>>,
    end: State<'a>,
)
    ensures
        origin::leads_to(s, s.rule_body(open, selectors).0),
        origin::leads_to(s.rule_body(open, selectors).0, end) && selector_is_whole(selectors, end)
            ==> read_accounted(s.rule_body(open, selectors).2, end),
    decreases s.remaining(), 0nat, 1nat,
{
    reveal_with_fuel(accounted, 4);
    lemma_braced(s, open, Scope::Rule, end);
}

pub(super) proof fn lemma_selector_parts<'a>(s: State<'a>, parts: Seq<ConstructView<'a>>, end: State<'a>)
    ensures
        ({
            let (after, read, close) = s.selector_parts(parts);
            &&& is_content_read(s, parts, after, read, end)
            &&& close is Err && origin::leads_to(after, end) ==> end.errors.len() > 0
        }),
    decreases s.remaining(),
{
    super::lemma_advance_until(s, TokenSet::MacroSelectorPart, Delimiters::Construct);
    lemma_advance_until(s, TokenSet::MacroSelectorPart, Delimiters::Construct, end);
    if let (s1, Some(Ok(node))) = s.advance_until(
        TokenSet::MacroSelectorPart,
        Delimiters::Construct,
    ) {
        if !(node.token.1 is ScopeClose) {
            assert(accounted(ConstructView::Node { node }, end));
            lemma_selector_parts(s1, parts.push(ConstructView::Node { node }), end);
        }
    }
}

/// Whether the body of a macro is closed, or something is reported, and what is in it is
/// accounted for.
pub open spec fn is_macro_body<'a>(body: DelimitedView<'a>, end: State<'a>) -> bool {
    &&& body.right is None ==> end.errors.len() > 0
    &&& contents_accounted(body, end)
}

pub(super) proof fn lemma_braced_selector<'a>(s: State<'a>, open: NodeView<'a>, end: State<'a>)
    ensures
        ({
            let (after, next, body) = s.braced_selector(open);
            &&& origin::leads_to(s, after)
            &&& origin::leads_to(after, end) ==> is_macro_body(body, end)
        }),
{
    reveal(State::braced_selector);
    lemma_selector_parts(s, seq![], end);
    origin::lemma_advance(s.selector_parts(seq![]).0);
}

pub(super) proof fn lemma_close<'a>(s: State<'a>, status: StatusView<'a>, at: usize, end: State<'a>)
    requires
        !(status is Exists),
    ensures
        origin::leads_to(s, s.close(status, at).0),
        s.close(status, at).1 is Err && origin::leads_to(s.close(status, at).0, end)
            ==> end.errors.len() > 0,
{
    reveal(State::close);
    let failed = s.fail(super::missing("\"}\""), super::clamped(at));
    assert(origin::leads_to(s, failed));
}

pub(super) proof fn lemma_braced_datatype<'a>(s: State<'a>, open: NodeView<'a>, end: State<'a>)
    ensures
        ({
            let (after, next, body) = s.braced_datatype(open);
            &&& origin::leads_to(s, after)
            &&& origin::leads_to(after, end) ==> is_macro_body(body, end)
        }),
{
    reveal(State::braced_datatype);
    reveal_with_fuel(accounted, 4);
    origin::lemma_advance(s);
    if let (s1, Some(node)) = s.advance() {
        origin::lemma_advance(s1);
        lemma_datatype(s1, Some(node), Delimiters::Construct, end);
        let (s2, status, value) = s1.datatype(Some(node), Delimiters::Construct);
        let content = match value {
            Some(value) => Some(seq![value]),
            None => None,
        };
        let at = (DelimitedView { left: open, content, right: None }).end();
        lemma_close(s2, status, at, end);
        origin::lemma_advance(s2.close(status, at).0);
    }
}

pub(super) proof fn lemma_macro_body<'a>(
    s: State<'a>,
    open: NodeView<'a>,
    declaration: NodeView<'a>,
    name: NodeView<'a>,
    args: Option<DelimitedView<'a>>,
    return_type: Option<(NodeView<'a>, Option<NodeView<'a>>)>,
    context: MacroContext,
    end: State<'a>,
)
    requires
        args is Some ==> args->0.right is Some,
    ensures
        is_read_behind(
            content_of(args),
            s,
            s.macro_body(open, declaration, Some(name), args, return_type, context),
            end,
        ),
    decreases s.remaining(), 0nat, 1nat,
{
    reveal_with_fuel(accounted, 4);
    match context {
        MacroContext::Construct => {
            lemma_braced(s, open, Scope::Macro, end);
            let (after, _, body) = s.braced(open, Scope::Macro);
            if origin::leads_to(after, end) {
                assert(is_braced(body, end));
                assert(is_macro_body(body, end));
            }
        },
        MacroContext::Selector => {
            lemma_braced_selector(s, open, end);
        },
        MacroContext::Assignment => {
            lemma_braced_datatype(s, open, end);
        },
    }
}

pub(super) proof fn lemma_macro_context<'a>(
    s: State<'a>,
    arrow: NodeView<'a>,
    declaration: NodeView<'a>,
    name: NodeView<'a>,
    args: Option<DelimitedView<'a>>,
    end: State<'a>,
)
    requires
        args is Some ==> args->0.right is Some,
    ensures
        is_read_behind(
            content_of(args),
            s,
            s.macro_context(arrow, declaration, Some(name), args),
            end,
        ),
    decreases s.remaining(), 0nat, 2nat,
{
    reveal_with_fuel(accounted, 4);
    super::lemma_advance_until(s, TokenSet::MacroContext, Delimiters::Construct);
    lemma_advance_until(s, TokenSet::MacroContext, Delimiters::Construct, end);
    if let (s1, Some(Ok(ident))) = s.advance_until(TokenSet::MacroContext, Delimiters::Construct) {
        let s2 = s1.check_context(ident.token);
        assert(origin::leads_to(s1, s2));
        super::lemma_advance_until(s2, TokenSet::ScopeOpen, Delimiters::Construct);
        lemma_advance_until(s2, TokenSet::ScopeOpen, Delimiters::Construct, end);
        if let (s3, Some(Ok(open))) = s2.advance_until(
            TokenSet::ScopeOpen,
            Delimiters::Construct,
        ) {
            let return_type = Some((arrow, Some(ident)));
            lemma_macro_body(
                s3,
                open,
                declaration,
                name,
                args,
                return_type,
                super::scope::context_of(return_type),
                end,
            );
        }
    }
}

pub(super) proof fn lemma_macro_rest<'a>(
    s: State<'a>,
    start: NodeView<'a>,
    declaration: NodeView<'a>,
    name: NodeView<'a>,
    args: Option<DelimitedView<'a>>,
    end: State<'a>,
)
    requires
        args is Some ==> args->0.right is Some,
    ensures
        is_read_behind(
            content_of(args),
            s,
            s.macro_rest(start, declaration, Some(name), args),
            end,
        ),
    decreases s.remaining(), 0nat, 3nat,
{
    lemma_macro_context(s, start, declaration, name, args, end);
    lemma_macro_body(s, start, declaration, name, args, None, MacroContext::Construct, end);
}

/// Whether `last` is the last part of a selector, behind which a comma may stand only where it
/// is no comma.
pub open spec fn selectors_end_with(
    selectors: Seq<NodeView>,
    last: SpannedToken,
    comma_allowed: bool,
) -> bool {
    &&& selectors.len() > 0
    &&& selectors.last().token == last
    &&& last.1 is Comma ==> !comma_allowed
}

/// A combinator that no selector follows is reported.
pub(super) proof fn lemma_check_hierarchy<'a>(
    s: State<'a>,
    last: SpannedToken<'a>,
    token: SpannedToken<'a>,
    end: State<'a>,
)
    requires
        origin::leads_to(s.check_hierarchy(last, token), end),
    ensures
        is_combinator(last.1) && (is_combinator(token.1) || token.1 is Comma || token.1 is ScopeOpen)
            ==> expects(end, "selector part"),
{
    if is_combinator(last.1) && (is_combinator(token.1) || token.1 is Comma
        || token.1 is ScopeOpen) {
        lemma_missing(s, "selector part", last.2, end);
    }
}

pub(super) proof fn lemma_rule_selector<'a>(
    s: State<'a>,
    last: SpannedToken<'a>,
    selectors: Seq<NodeView<'a>>,
    comma_allowed: bool,
    end: State<'a>,
)
    ensures
        origin::leads_to(s, s.rule_selector(last, selectors, comma_allowed).0),
        origin::leads_to(s.rule_selector(last, selectors, comma_allowed).0, end)
            && selectors_end_with(selectors, last, comma_allowed) && parts_are_joined(
            selectors,
            end,
        ) ==> read_accounted(
            s.rule_selector(last, selectors, comma_allowed).2,
            end,
        ),
    decreases s.remaining(), 0nat, 2nat,
{
    reveal_with_fuel(accounted, 4);
    let allow = if comma_allowed {
        TokenSet::SelectorPartOrComma
    } else {
        TokenSet::SelectorPart
    };
    super::lemma_advance_until(s, allow, Delimiters::Construct);
    lemma_advance_until(s, allow, Delimiters::Construct, end);
    if let (s1, Some(Ok(node))) = s.advance_until(allow, Delimiters::Construct) {
        let s2 = s1.check_hierarchy(last, node.token);
        assert(origin::leads_to(s1, s2));
        if node.token.1 is ScopeOpen {
            let s3 = if !comma_allowed && last.1 is Comma {
                s2.fail(super::misplaced(), (last.0, last.2))
            } else {
                s2
            };
            assert(origin::leads_to(s2, s3));
            lemma_rule_body(s3, node, Some(selectors), end);
            if origin::leads_to(s3, end) && selectors_end_with(selectors, last, comma_allowed)
                && parts_are_joined(selectors, end) {
                lemma_check_hierarchy(s1, last, node.token, end);
            }
        } else {
            let more = selectors.push(node);
            lemma_found_is_allowed(s, allow, Delimiters::Construct);
            lemma_rule_selector(
                s2,
                node.token,
                more,
                !(comma_allowed && node.token.1 is Comma),
                end,
            );
            if origin::leads_to(s2, end) && selectors_end_with(selectors, last, comma_allowed)
                && parts_are_joined(selectors, end) {
                lemma_check_hierarchy(s1, last, node.token, end);
                assert forall|i: int|
                    0 <= i < more.len() - 1 && #[trigger] dangles(more, i) implies expects(
                    end,
                    "selector part",
                ) by {
                    if i < selectors.len() - 1 {
                        assert(dangles(selectors, i));
                    } else {
                        assert(more[i] == selectors.last());
                    }
                }
            }
        }
    }
}

pub(super) proof fn lemma_selector_begin<'a>(s: State<'a>, node: NodeView<'a>, end: State<'a>)
    ensures
        is_read(s, s.selector_begin(node), end),
    decreases s.remaining(), 1nat, 0nat,
{
    lemma_rule_selector(s, node.token, seq![node], true, end);
    lemma_rule_body(s, node, None, end);
}

pub(super) proof fn lemma_property_or_rule<'a>(s: State<'a>, node: NodeView<'a>, end: State<'a>)
    ensures
        is_read(s, s.property_or_rule(node), end),
    decreases s.remaining(), 1nat, 0nat,
{
    super::lemma_advance_until(s, TokenSet::PropertyOrSelector, Delimiters::Construct);
    lemma_advance_until(s, TokenSet::PropertyOrSelector, Delimiters::Construct, end);
    if let (s1, Some(Ok(middle))) = s.advance_until(
        TokenSet::PropertyOrSelector,
        Delimiters::Construct,
    ) {
        if middle.token.1 is Equals {
            lemma_assigned_value(s1, node, middle, end);
        }
        lemma_rule_body(s1, middle, Some(seq![node]), end);
        lemma_rule_selector(s1, middle.token, seq![node, middle], false, end);
        lemma_rule_selector(s1, middle.token, seq![node, middle], true, end);
        if node.token.1 is Identifier {
            assert(parts_are_joined(seq![node, middle], end));
            assert(selector_is_whole(Some(seq![node]), end));
        }
    }
}

pub(super) proof fn lemma_macro_declaration<'a>(s: State<'a>, node: NodeView<'a>, end: State<'a>)
    ensures
        is_read(s, s.macro_declaration(node), end),
    decreases s.remaining(), 1nat, 0nat,
{
    reveal_with_fuel(accounted, 4);
    super::lemma_advance_until(s, TokenSet::MacroName, Delimiters::Construct);
    lemma_advance_until(s, TokenSet::MacroName, Delimiters::Construct, end);
    match s.advance_until(TokenSet::MacroName, Delimiters::Construct) {
        (s1, Some(Ok(name))) => {
            super::lemma_advance_until(s1, TokenSet::MacroArgsOrBody, Delimiters::Construct);
            lemma_advance_until(s1, TokenSet::MacroArgsOrBody, Delimiters::Construct, end);
            if let (s2, Some(Ok(open))) = s1.advance_until(
                TokenSet::MacroArgsOrBody,
                Delimiters::Construct,
            ) {
                lemma_macro_args(s2, open, node, name, end);
                lemma_macro_rest(s2, open, node, name, None, end);
            }
        },
        (_, Some(Err(_))) => {},
        (s1, None) => {
            origin::lemma_advance(s1);
        },
    }
}

pub(super) proof fn lemma_macro_args<'a>(
    s: State<'a>,
    open: NodeView<'a>,
    declaration: NodeView<'a>,
    name: NodeView<'a>,
    end: State<'a>,
)
    ensures
        is_read(s, s.macro_args(open, declaration, Some(name)), end),
    decreases s.remaining(), 0nat, 0nat,
{
    reveal_with_fuel(accounted, 4);
    super::lemma_advance_until(s, TokenSet::MacroArg, Delimiters::InsideParens);
    lemma_advance_until(s, TokenSet::MacroArg, Delimiters::InsideParens, end);
    if let (s1, Some(Ok(node))) = s.advance_until(TokenSet::MacroArg, Delimiters::InsideParens) {
        lemma_macro_body_open(s1, declaration, name, open, None, node, end);
        lemma_macro_args_rest(
            s1,
            open,
            declaration,
            name,
            seq![ConstructView::Node { node }],
            node.token,
            end,
        );
    }
}

pub(super) proof fn lemma_macro_args_rest<'a>(
    s: State<'a>,
    open: NodeView<'a>,
    declaration: NodeView<'a>,
    name: NodeView<'a>,
    args: Seq<ConstructView<'a>>,
    last: SpannedToken<'a>,
    end: State<'a>,
)
    requires
        args.len() > 0,
        args.last() matches ConstructView::Node { node } && node.token == last,
    ensures
        is_read_behind(
            Some(args),
            s,
            s.macro_args_rest(open, declaration, Some(name), args, last),
            end,
        ),
    decreases s.remaining(), 0nat, 0nat,
{
    reveal_with_fuel(accounted, 4);
    let allow = if last.1 is Comma {
        TokenSet::MacroArgAfterComma
    } else {
        TokenSet::MacroArg
    };
    super::lemma_advance_until(s, allow, Delimiters::InsideParens);
    lemma_advance_until(s, allow, Delimiters::InsideParens, end);
    if let (s1, Some(Ok(node))) = s.advance_until(allow, Delimiters::InsideParens) {
        lemma_macro_body_open(s1, declaration, name, open, Some(args), node, end);
        let s2 = if last.1 is MacroArgIdentifier && node.token.1 is MacroArgIdentifier {
            s1.fail(super::missing("\",\""), super::clamped(last.2))
        } else {
            s1
        };
        assert(origin::leads_to(s1, s2));
        let more = args.push(ConstructView::Node { node });
        lemma_macro_args_rest(s2, open, declaration, name, more, node.token, end);
        if origin::leads_to(s2, end) && args_are_apart(Some(args), end) {
            if last.1 is MacroArgIdentifier && node.token.1 is MacroArgIdentifier {
                lemma_missing(s1, "\",\"", last.2, end);
            }
            assert forall|i: int|
                0 <= i < more.len() - 1 && #[trigger] lacks_comma(more, i) implies expects(
                end,
                "\",\"",
            ) by {
                if i < args.len() - 1 {
                    assert(more[i] == args[i] && more[i + 1] == args[i + 1]);
                    assert(commas_part(args, end));
                    assert(lacks_comma(args, i));
                    assert(expects(end, "\",\""));
                } else {
                    assert(more[i] == args.last() && more[i + 1] == ConstructView::Node { node });
                }
            }
        }
    }
}

pub(super) proof fn lemma_macro_body_open<'a>(
    s: State<'a>,
    declaration: NodeView<'a>,
    name: NodeView<'a>,
    open: NodeView<'a>,
    args: Option<Seq<ConstructView<'a>>>,
    close: NodeView<'a>,
    end: State<'a>,
)
    ensures
        is_read_behind(
            args,
            s,
            s.macro_body_open(declaration, Some(name), open, args, close),
            end,
        ),
    decreases s.remaining(), 0nat, 0nat,
{
    reveal_with_fuel(accounted, 4);
    super::lemma_advance_until(s, TokenSet::MacroContextOrBody, Delimiters::Construct);
    lemma_advance_until(s, TokenSet::MacroContextOrBody, Delimiters::Construct, end);
    let args = DelimitedView { left: open, content: args, right: Some(close) };
    if let (s1, Some(Ok(start))) = s.advance_until(
        TokenSet::MacroContextOrBody,
        Delimiters::Construct,
    ) {
        lemma_macro_rest(s1, start, declaration, name, Some(args), end);
    }
}

pub(super) proof fn lemma_document_loop<'a>(
    s: State<'a>,
    node: NodeView<'a>,
    ast: Seq<ConstructView<'a>>,
    error_span: Option<(usize, usize)>,
    end: State<'a>,
)
    ensures
        ({
            let (after, read) = s.document_loop(node, ast, error_span);
            is_content_read(s, ast, after, read, end)
        }),
    decreases s.remaining(),
{
    lemma_step(s, node, ast, Part::Macro, Scope::Global, end);
    let (s1, ast, next) = s.step(node, ast, Part::Macro, Scope::Global);
    match next {
        None => {
            assert(origin::leads_to(s1, s1.fail_if(error_span)));
        },
        Some(node) => if s1.did_advance {
            let s2 = (State { did_advance: false, ..s1 }).fail_if(error_span);
            assert(origin::leads_to(s1, s2));
            if s2.remaining() < s.remaining() {
                lemma_document_loop(s2, node, ast, error_span, end);
            }
        } else {
            let span = super::scope::widened(error_span, node.token);
            origin::lemma_advance(s1);
            let (s2, next) = s1.accept();
            match next {
                Some(next) => if s2.remaining() < s.remaining() {
                    lemma_document_loop(s2, next, ast, span, end);
                },
                None => {
                    assert(origin::leads_to(s2, s2.fail_if(span)));
                },
            }
        },
    }
}

/// Whatever the tokens of a document are, each of its constructs at any depth has all its
/// parts, or what is missing is reported. A derive, priority, name, tween or assignment ends
/// with a semicolon, or a diagnostic at its last byte says that the semicolon is missing; a
/// rule or a table that is not closed has a diagnostic at its last byte for the bracket; a
/// missing value has one that expects a datatype. Where no comma parts two elements of a table
/// or two arguments of a macro, a diagnostic expects one; where no selector follows a
/// combinator, a diagnostic expects it.
pub proof fn lemma_missing_parts_are_reported(tokens: Seq<SpannedToken>, text: Seq<char>)
    ensures
        ({
            let (end, ast) = super::scope::start_of(tokens, text).document();
            all_accounted(ast, end)
        }),
{
    let start = super::scope::start_of(tokens, text);
    let (end, ast) = start.document();
    if let (s, Some(node)) = start.accept() {
        lemma_document_loop(s, node, seq![], None, end);
    }
}

/// The terminator of a construct that is ended by a semicolon; nothing for other constructs.
pub open spec fn terminator_of<'a>(construct: ConstructView<'a>) -> Option<Option<NodeView<'a>>> {
    match construct {
        ConstructView::Derive { terminator, .. } => Some(terminator),
        ConstructView::Priority { terminator, .. } => Some(terminator),
        ConstructView::Name { terminator, .. } => Some(terminator),
        ConstructView::Tween { terminator, .. } => Some(terminator),
        ConstructView::Assignment { terminator, .. } => Some(terminator),
        ConstructView::MacroCall { terminator, .. } => Some(terminator),
        _ => None,
    }
}

/// Whether each construct of a scope that is ended by a semicolon has one, and so have those in
/// the rules and macros of the scope.
pub open spec fn all_terminated(constructs: Seq<ConstructView>) -> bool
    decreases constructs,
{
    forall|i: int| 0 <= i < constructs.len() ==> is_terminated(#[trigger] constructs[i])
}

pub open spec fn is_terminated(construct: ConstructView) -> bool
    decreases construct,
{
    &&& terminator_of(construct) matches Some(terminator) ==> terminator is Some
        && terminator->0.token.1 is SemiColon
    &&& match construct {
        ConstructView::Rule { body, .. } => body is Some && body->0.right is Some
            && contents_terminated(body),
        ConstructView::Macro { body, .. } => body is Some && body->0.right is Some
            && contents_terminated(body),
        _ => true,
    }
}

pub open spec fn contents_terminated(body: Option<DelimitedView>) -> bool
    decreases body,
{
    match body {
        Some(body) => match body.content {
            Some(content) => all_terminated(content),
            None => true,
        },
        None => true,
    }
}

pub(super) proof fn lemma_terminated(construct: ConstructView, end: State)
    requires
        accounted(construct, end),
        end.errors.len() == 0,
    ensures
        is_terminated(construct),
    decreases construct,
{
    reveal_with_fuel(accounted, 4);
    reveal_with_fuel(is_terminated, 4);
    match construct {
        ConstructView::Rule { body: Some(body), .. } => {
            if let Some(content) = body.content {
                assert(decreases_to!(body => body.content));
                assert(decreases_to!(body.content => content));
                assert forall|i: int| 0 <= i < content.len() implies is_terminated(
                    #[trigger] content[i],
                ) by {
                    assert(decreases_to!(content => content[i]));
                    lemma_terminated(content[i], end);
                }
            }
        },
        ConstructView::Macro { body: Some(body), .. } => {
            if let Some(content) = body.content {
                assert(decreases_to!(body => body.content));
                assert(decreases_to!(body.content => content));
                assert forall|i: int| 0 <= i < content.len() implies is_terminated(
                    #[trigger] content[i],
                ) by {
                    assert(decreases_to!(content => content[i]));
                    lemma_terminated(content[i], end);
                }
            }
        },
        _ => {},
    }
}

/// In a document without diagnostics each derive, priority, name, tween, assignment and macro
/// call, in a rule, in a macro or outside of both, ends with a semicolon, and each rule and
/// macro is closed.
pub proof fn lemma_clean_document_is_terminated(tokens: Seq<SpannedToken>, text: Seq<char>)
    requires
        super::scope::start_of(tokens, text).document().0.errors.len() == 0,
    ensures
        all_terminated(super::scope::start_of(tokens, text).document().1),
{
    let (end, ast) = super::scope::start_of(tokens, text).document();
    lemma_missing_parts_are_reported(tokens, text);
    assert forall|i: int| 0 <= i < ast.len() implies is_terminated(#[trigger] ast[i]) by {
        lemma_terminated(ast[i], end);
    }
}

} // verus!
