//! What is read comes from the tokens of the document.

use super::{DeclarationKind, MacroContext, Part, Scope, State, StatusView};
use crate::parser::construct::{ConstructView, DelimitedView, NodeView};
use crate::parser::error;
use crate::parser::error::{ParseError, ParseErrorMessage};
use crate::parser::token;
use crate::parser::token::{Delimiters, SpannedToken, Token, TokenSet, ADD_SUB_PRECEDENCE};
use vstd::prelude::*;

verus! {

/// Whether a token is no comment, or one that is closed.
pub open spec fn is_closed(token: SpannedToken) -> bool {
    token.1 matches Token::CommentMulti(comment) ==> comment.nestedness is Ok
}

/// Whether one state leads to another: the document stays the same, no token is given back,
/// and the diagnostics so far stay. Comments that are not closed are not passed over without a
/// diagnostic.
pub open spec fn leads_to(before: State, after: State) -> bool {
    &&& after.tokens == before.tokens
    &&& after.text == before.text
    &&& before.position <= after.position
    &&& after.position <= after.tokens.len() || after.position == before.position
    &&& before.errors.len() <= after.errors.len()
    &&& forall|i: int|
        0 <= i < before.errors.len() ==> after.errors[i] == #[trigger] before.errors[i]
    &&& before.errors.len() == after.errors.len() ==> forall|i: int|
        before.position <= i < after.position ==> is_closed(#[trigger] before.tokens[i])
}

/// Whether a node holds tokens of a document. The comments at the end of a document stand
/// in front of the mark that nothing follows.
#[verifier::opaque]
pub open spec fn node_is_from(tokens: Seq<SpannedToken>, node: NodeView) -> bool {
    &&& node.token.1 is Absent || tokens.contains(node.token)
    &&& match node.leading_trivia {
        Some(trivia) => trivia_is_from(tokens, trivia),
        None => true,
    }
}

pub open spec fn trivia_is_from(tokens: Seq<SpannedToken>, trivia: Seq<SpannedToken>) -> bool {
    forall|i: int| 0 <= i < trivia.len() ==> tokens.contains(#[trigger] trivia[i])
}

pub open spec fn optional_is_from(tokens: Seq<SpannedToken>, node: Option<NodeView>) -> bool {
    match node {
        Some(node) => node_is_from(tokens, node),
        None => true,
    }
}

pub open spec fn nodes_are_from(tokens: Seq<SpannedToken>, nodes: Seq<NodeView>) -> bool {
    forall|i: int| 0 <= i < nodes.len() ==> node_is_from(tokens, #[trigger] nodes[i])
}

/// Whether all nodes of a construct hold tokens of a document.
pub open spec fn construct_is_from(tokens: Seq<SpannedToken>, construct: ConstructView) -> bool
    decreases construct,
{
    match construct {
        ConstructView::Macro { declaration, name, args, return_type, body } => {
            &&& node_is_from(tokens, declaration)
            &&& optional_is_from(tokens, name)
            &&& optional_delimited_is_from(tokens, args)
            &&& match return_type {
                Some((arrow, ident)) => node_is_from(tokens, arrow) && optional_is_from(
                    tokens,
                    ident,
                ),
                None => true,
            }
            &&& optional_delimited_is_from(tokens, body)
        },
        ConstructView::MacroCall { name, body, terminator } => {
            &&& node_is_from(tokens, name)
            &&& optional_delimited_is_from(tokens, body)
            &&& optional_is_from(tokens, terminator)
        },
        ConstructView::Derive { declaration, body, terminator } => {
            &&& node_is_from(tokens, declaration)
            &&& boxed_is_from(tokens, body)
            &&& optional_is_from(tokens, terminator)
        },
        ConstructView::Priority { declaration, body, terminator } => {
            &&& node_is_from(tokens, declaration)
            &&& boxed_is_from(tokens, body)
            &&& optional_is_from(tokens, terminator)
        },
        ConstructView::Name { declaration, body, terminator } => {
            &&& node_is_from(tokens, declaration)
            &&& boxed_is_from(tokens, body)
            &&& optional_is_from(tokens, terminator)
        },
        ConstructView::Tween { declaration, name, body, terminator } => {
            &&& node_is_from(tokens, declaration)
            &&& optional_is_from(tokens, name)
            &&& boxed_is_from(tokens, body)
            &&& optional_is_from(tokens, terminator)
        },
        ConstructView::Rule { selectors, body } => {
            &&& match selectors {
                Some(selectors) => nodes_are_from(tokens, selectors),
                None => true,
            }
            &&& optional_delimited_is_from(tokens, body)
        },
        ConstructView::Assignment { left, middle, right, terminator } => {
            &&& node_is_from(tokens, left)
            &&& optional_is_from(tokens, middle)
            &&& boxed_is_from(tokens, right)
            &&& optional_is_from(tokens, terminator)
        },
        ConstructView::MathOperation { left, operators, right } => {
            &&& construct_is_from(tokens, *left)
            &&& nodes_are_from(tokens, operators)
            &&& boxed_is_from(tokens, right)
        },
        ConstructView::UnaryMinus { operator, operand } => {
            &&& node_is_from(tokens, operator)
            &&& construct_is_from(tokens, *operand)
        },
        ConstructView::AnnotatedTable { annotation, body } => {
            &&& node_is_from(tokens, annotation)
            &&& optional_delimited_is_from(tokens, body)
        },
        ConstructView::Table { body } => delimited_is_from(tokens, body),
        ConstructView::Enum { keyword, name, variant } => {
            &&& node_is_from(tokens, keyword)
            &&& optional_is_from(tokens, name)
            &&& optional_is_from(tokens, variant)
        },
        ConstructView::Node { node } => node_is_from(tokens, node),
        ConstructView::Absent { node } => node_is_from(tokens, node),
    }
}

pub open spec fn boxed_is_from(
    tokens: Seq<SpannedToken>,
    construct: Option<Box<ConstructView>>,
) -> bool
    decreases construct,
{
    match construct {
        Some(construct) => construct_is_from(tokens, *construct),
        None => true,
    }
}

pub open spec fn delimited_is_from(tokens: Seq<SpannedToken>, delimited: DelimitedView) -> bool
    decreases delimited,
{
    &&& node_is_from(tokens, delimited.left)
    &&& match delimited.content {
        Some(content) => all_are_from(tokens, content),
        None => true,
    }
    &&& optional_is_from(tokens, delimited.right)
}

pub open spec fn optional_delimited_is_from(
    tokens: Seq<SpannedToken>,
    delimited: Option<DelimitedView>,
) -> bool
    decreases delimited,
{
    match delimited {
        Some(delimited) => delimited_is_from(tokens, delimited),
        None => true,
    }
}

pub open spec fn all_are_from(tokens: Seq<SpannedToken>, constructs: Seq<ConstructView>) -> bool
    decreases constructs,
{
    forall|i: int|
        0 <= i < constructs.len() ==> construct_is_from(tokens, #[trigger] constructs[i])
}

pub open spec fn read_is_from(tokens: Seq<SpannedToken>, construct: Option<ConstructView>) -> bool {
    match construct {
        Some(construct) => construct_is_from(tokens, construct),
        None => true,
    }
}

pub open spec fn found_is_from(
    tokens: Seq<SpannedToken>,
    found: Option<Result<NodeView, NodeView>>,
) -> bool {
    match found {
        Some(Ok(node)) => node_is_from(tokens, node),
        Some(Err(node)) => node_is_from(tokens, node),
        None => true,
    }
}

pub open spec fn status_is_from(tokens: Seq<SpannedToken>, status: StatusView) -> bool {
    match status {
        StatusView::Stopped(node) => node_is_from(tokens, node),
        _ => true,
    }
}

proof fn lemma_after_trivia<'a>(s: State<'a>, trivia: Seq<SpannedToken<'a>>)
    requires
        trivia_is_from(s.tokens, trivia),
    ensures
        leads_to(s, s.after_trivia(trivia).0),
        node_is_from(s.tokens, s.after_trivia(trivia).1),
    decreases s.remaining(),
{
    reveal(node_is_from);
    match s.next_token() {
        (s1, Some(token)) => {
            assert(s.tokens[s.position as int] == token);
            if super::is_comment(token.1) {
                assert(leads_to(s, s1.check_comment(token)));
                lemma_after_trivia(s1.check_comment(token), trivia.push(token));
            }
        },
        (_, None) => {},
    }
}

pub(super) proof fn lemma_next_node(s: State)
    ensures
        leads_to(s, s.next_node().0),
        optional_is_from(s.tokens, s.next_node().1),
{
    reveal(node_is_from);
    match s.next_token() {
        (s1, Some(token)) => {
            assert(s.tokens[s.position as int] == token);
            if super::is_comment(token.1) {
                assert(leads_to(s, s1.check_comment(token)));
                lemma_after_trivia(s1.check_comment(token), seq![token]);
            }
        },
        (_, None) => {},
    }
}

proof fn lemma_skip_errors(s: State, start: usize, end: usize)
    ensures
        leads_to(s, s.skip_errors(start, end).0),
        optional_is_from(s.tokens, s.skip_errors(start, end).1),
    decreases s.remaining(),
{
    super::lemma_next_node(s);
    lemma_next_node(s);
    let (s1, node) = s.next_node();
    if node is Some && node->0.token.1 is Error {
        lemma_skip_errors(s1, start, node->0.token.2);
    }
}

pub(super) proof fn lemma_advance(s: State)
    ensures
        leads_to(s, s.advance_without_flags().0),
        optional_is_from(s.tokens, s.advance_without_flags().1),
        leads_to(s, s.advance().0),
        optional_is_from(s.tokens, s.advance().1),
{
    reveal(State::advance_without_flags);
    lemma_next_node(s);
    let (s1, node) = s.next_node();
    if node is Some && node->0.token.1 is Error {
        lemma_skip_errors(s1, node->0.token.0, node->0.token.2);
    }
}

pub(super) proof fn lemma_until_core(
    s: State,
    allow: TokenSet,
    delimiters: Delimiters,
    start: usize,
    end: usize,
)
    ensures
        leads_to(s, s.until_core(allow, delimiters, start, end).0),
        found_is_from(s.tokens, s.until_core(allow, delimiters, start, end).1),
    decreases s.remaining(),
{
    super::lemma_next_node(s);
    lemma_next_node(s);
    match s.next_node() {
        (s1, Some(node)) => if node.token.1 is Error || !(allow.has(node.token.1)
            || delimiters.has(node.token.1)) {
            lemma_until_core(s1, allow, delimiters, start, node.token.2);
        },
        (_, None) => {},
    }
}

pub(super) proof fn lemma_advance_until(s: State, allow: TokenSet, delimiters: Delimiters)
    ensures
        leads_to(s, s.advance_until(allow, delimiters).0),
        found_is_from(s.tokens, s.advance_until(allow, delimiters).1),
{
    reveal(State::advance_until);
    lemma_next_node(s);
    match s.next_node() {
        (s1, Some(node)) => {
            lemma_until_core(s1, allow, delimiters, node.token.0, node.token.2);
        },
        (_, None) => {},
    }
}

proof fn lemma_kind_else_advance_until<'a>(
    s: State<'a>,
    node: Option<NodeView<'a>>,
    allow: TokenSet,
    delimiters: Delimiters,
)
    requires
        optional_is_from(s.tokens, node),
    ensures
        leads_to(s, s.optional_kind_else_advance_until(node, allow, delimiters).0),
        found_is_from(s.tokens, s.optional_kind_else_advance_until(node, allow, delimiters).1),
{
    reveal(State::optional_kind_else_advance_until);
    if let Some(node) = node {
        lemma_next_node(s);
        match s.next_node() {
            (s1, Some(next)) => {
                lemma_until_core(s1, allow, delimiters, node.token.0, next.token.2);
            },
            (_, None) => {},
        }
    }
}

proof fn lemma_consume<'a>(s: State<'a>, status: StatusView<'a>)
    requires
        status_is_from(s.tokens, status),
    ensures
        leads_to(s, s.consume(status).0),
        optional_is_from(s.tokens, s.consume(status).1),
{
    lemma_advance(s);
}

proof fn lemma_operator_chain<'a>(s: State<'a>, operators: Seq<NodeView<'a>>)
    requires
        nodes_are_from(s.tokens, operators),
    ensures
        leads_to(s, s.operator_chain(operators).0),
        optional_is_from(s.tokens, s.operator_chain(operators).1),
        nodes_are_from(s.tokens, s.operator_chain(operators).2),
    decreases s.remaining(),
{
    super::lemma_advance_without_flags(s);
    lemma_advance(s);
    match s.advance() {
        (s1, Some(node)) => match token::precedence_of(node.token.1) {
            Some(precedence) => if precedence == ADD_SUB_PRECEDENCE {
                lemma_operator_chain(s1, operators.push(node));
            } else {
                let s2 = s1.fail(super::misplaced(), super::clamped(node.token.2));
                assert(leads_to(s1, s2));
                lemma_operator_chain(s2, operators);
            },
            None => {},
        },
        (_, None) => {},
    }
}

proof fn lemma_datatype_operators<'a>(s: State<'a>, first: NodeView<'a>, precedence: usize)
    requires
        node_is_from(s.tokens, first),
    ensures
        leads_to(s, s.datatype_operators(first, precedence).0),
        optional_is_from(s.tokens, s.datatype_operators(first, precedence).1),
        nodes_are_from(s.tokens, s.datatype_operators(first, precedence).2),
{
    reveal(State::datatype_operators);
    lemma_operator_chain(s, seq![first]);
    lemma_advance(s);
}

proof fn lemma_datatype<'a>(s: State<'a>, node: Option<NodeView<'a>>, delimiters: Delimiters)
    requires
        optional_is_from(s.tokens, node),
    ensures
        leads_to(s, s.datatype(node, delimiters).0),
        status_is_from(s.tokens, s.datatype(node, delimiters).1),
        read_is_from(s.tokens, s.datatype(node, delimiters).2),
    decreases s.remaining(), 5nat,
{
    reveal_with_fuel(construct_is_from, 4);
    lemma_datatype_part(s, node, delimiters);
    let (s1, status, construct) = s.datatype_part(node, delimiters);
    if construct is Some && status is Exists {
        let left = construct->0;
        lemma_advance(s1);
        let (s2, middle) = s1.advance();
        if middle is Some && token::precedence_of(middle->0.token.1) is Some {
            let precedence = token::precedence_of(middle->0.token.1)->0;
            lemma_datatype_operators(s2, middle->0, precedence);
            let (s3, right, operators) = s2.datatype_operators(middle->0, precedence);
            if super::is_kind(right, |t: Token| t is SemiColon) {
            } else if s3.remaining() < s.remaining() {
                lemma_datatype_operation(s3, right, left, precedence, operators, delimiters);
            }
        }
    }
}

proof fn lemma_datatype_operation<'a>(
    s: State<'a>,
    node: Option<NodeView<'a>>,
    last_datatype: ConstructView<'a>,
    last_precedence: usize,
    last_operators: Seq<NodeView<'a>>,
    delimiters: Delimiters,
)
    requires
        optional_is_from(s.tokens, node),
        construct_is_from(s.tokens, last_datatype),
        nodes_are_from(s.tokens, last_operators),
    ensures
        ({
            let (after, status, construct) = s.datatype_operation(
                node,
                last_datatype,
                last_precedence,
                last_operators,
                delimiters,
            );
            &&& leads_to(s, after)
            &&& status_is_from(s.tokens, status)
            &&& read_is_from(s.tokens, construct)
        }),
    decreases s.remaining(), 5nat,
{
    reveal_with_fuel(construct_is_from, 4);
    lemma_datatype_part(s, node, delimiters);
    let (s1, status, construct) = s.datatype_part(node, delimiters);
    let so_far = super::datatype::math(last_datatype, last_operators, construct);
    assert(construct_is_from(s.tokens, so_far));
    if construct is Some && status is Exists {
        let left = construct->0;
        lemma_advance(s1);
        let (s2, middle) = s1.advance();
        if middle is Some && token::precedence_of(middle->0.token.1) is Some {
            let precedence = token::precedence_of(middle->0.token.1)->0;
            lemma_datatype_operators(s2, middle->0, precedence);
            let (s3, right, operators) = s2.datatype_operators(middle->0, precedence);
            if super::is_kind(right, |t: Token| t is SemiColon) {
                let inner = super::datatype::math(left, operators, None);
                assert(construct_is_from(s.tokens, inner));
                assert(construct_is_from(
                    s.tokens,
                    super::datatype::math(last_datatype, last_operators, Some(inner)),
                ));
                assert(construct_is_from(
                    s.tokens,
                    super::datatype::math(so_far, operators, None),
                ));
            } else if s3.remaining() >= s.remaining() {
            } else if precedence > last_precedence {
                lemma_datatype_operation(s3, right, left, precedence, operators, delimiters);
            } else {
                lemma_datatype_operation(s3, right, so_far, precedence, operators, delimiters);
            }
        }
    }
}

proof fn lemma_datatype_part<'a>(s: State<'a>, node: Option<NodeView<'a>>, delimiters: Delimiters)
    requires
        optional_is_from(s.tokens, node),
    ensures
        leads_to(s, s.datatype_part(node, delimiters).0),
        status_is_from(s.tokens, s.datatype_part(node, delimiters).1),
        read_is_from(s.tokens, s.datatype_part(node, delimiters).2),
    decreases s.remaining(), 4nat,
{
    reveal_with_fuel(construct_is_from, 4);
    super::lemma_optional_kind_else_advance_until(s, node, TokenSet::Datatype, delimiters);
    lemma_kind_else_advance_until(s, node, TokenSet::Datatype, delimiters);
    match s.optional_kind_else_advance_until(node, TokenSet::Datatype, delimiters) {
        (s1, Some(Ok(node))) => match node.token.1 {
            Token::Identifier(_) => {
                lemma_annotated_table(s1, node);
            },
            Token::ParensOpen => {
                lemma_table_body(s1, node);
            },
            Token::EnumKeyword => {
                lemma_enum_datatype(s1, node);
            },
            Token::MacroCallIdentifier(_) => {
                lemma_macro_call_body(s1, node);
            },
            Token::OpSub => {
                super::lemma_advance_without_flags(s1);
                lemma_advance(s1);
                let (s2, next) = s1.advance();
                if next is Some {
                    lemma_datatype_part(s2, next, delimiters);
                }
            },
            _ => {},
        },
        _ => {},
    }
}

proof fn lemma_table_arg<'a>(
    s: State<'a>,
    this: Option<NodeView<'a>>,
    group: ConstructView<'a>,
    groups: Seq<ConstructView<'a>>,
)
    requires
        optional_is_from(s.tokens, this),
        construct_is_from(s.tokens, group),
        all_are_from(s.tokens, groups),
    ensures
        leads_to(s, s.table_arg(this, group, groups).0),
        all_are_from(s.tokens, s.table_arg(this, group, groups).1),
        found_is_from(s.tokens, s.table_arg(this, group, groups).2),
{
    lemma_advance(s);
    if let Some(this) = this {
        assert(construct_is_from(s.tokens, ConstructView::Node { node: this }));
    }
}

proof fn lemma_table_args<'a>(s: State<'a>, node: NodeView<'a>)
    requires
        node_is_from(s.tokens, node),
    ensures
        leads_to(s, s.table_args(node).0),
        optional_is_from(s.tokens, s.table_args(node).1),
        s.table_args(node).2 is Some ==> all_are_from(s.tokens, s.table_args(node).2->0),
    decreases s.remaining(), 6nat,
{
    lemma_datatype(s, Some(node), Delimiters::InsideParens);
    let (s1, status, group) = s.datatype(Some(node), Delimiters::InsideParens);
    if let Some(group) = group {
        lemma_consume(s1, status);
        let (s2, this) = s1.consume(status);
        lemma_table_arg(s2, this, group, seq![]);
        let (s3, groups, next) = s2.table_arg(this, group, seq![]);
        if let Some(Ok(node)) = next {
            if s3.remaining() < s.remaining() {
                lemma_table_args_rest(s3, node, groups);
            }
        }
    }
}

proof fn lemma_table_args_rest<'a>(
    s: State<'a>,
    node: NodeView<'a>,
    before: Seq<ConstructView<'a>>,
)
    requires
        node_is_from(s.tokens, node),
        all_are_from(s.tokens, before),
    ensures
        leads_to(s, s.table_args_rest(node, before).0),
        optional_is_from(s.tokens, s.table_args_rest(node, before).1),
        s.table_args_rest(node, before).2 is Some ==> all_are_from(
            s.tokens,
            s.table_args_rest(node, before).2->0,
        ),
    decreases s.remaining(), 6nat,
{
    lemma_datatype(s, Some(node), Delimiters::InsideParens);
    let (s1, status, group) = s.datatype(Some(node), Delimiters::InsideParens);
    lemma_consume(s1, status);
    let (s2, this) = s1.consume(status);
    if let Some(group) = group {
        lemma_table_arg(s2, this, group, before);
        let (s3, groups, next) = s2.table_arg(this, group, before);
        if let Some(Ok(node)) = next {
            if s3.remaining() < s.remaining() {
                lemma_table_args_rest(s3, node, groups);
            }
        }
    }
}

proof fn lemma_table_body<'a>(s: State<'a>, open: NodeView<'a>)
    requires
        node_is_from(s.tokens, open),
    ensures
        leads_to(s, s.table_body(open).0),
        status_is_from(s.tokens, s.table_body(open).1),
        delimited_is_from(s.tokens, s.table_body(open).2),
    decreases s.remaining(), 2nat,
{
    reveal_with_fuel(construct_is_from, 4);
    super::lemma_advance_without_flags(s);
    lemma_advance(s);
    match s.advance() {
        (s1, Some(node)) => if !(node.token.1 is ParensClose) {
            lemma_table_args(s1, node);
        },
        (_, None) => {},
    }
}

proof fn lemma_annotated_table<'a>(s: State<'a>, annotation: NodeView<'a>)
    requires
        node_is_from(s.tokens, annotation),
    ensures
        leads_to(s, s.annotated_table(annotation).0),
        status_is_from(s.tokens, s.annotated_table(annotation).1),
        read_is_from(s.tokens, s.annotated_table(annotation).2),
    decreases s.remaining(), 3nat,
{
    reveal_with_fuel(construct_is_from, 4);
    super::lemma_advance_without_flags(s);
    lemma_advance(s);
    match s.advance() {
        (s1, Some(node)) => if node.token.1 is ParensOpen {
            lemma_table_body(s1, node);
        },
        (_, None) => {},
    }
}

proof fn lemma_enum_datatype<'a>(s: State<'a>, keyword: NodeView<'a>)
    requires
        node_is_from(s.tokens, keyword),
    ensures
        leads_to(s, s.enum_datatype(keyword).0),
        status_is_from(s.tokens, s.enum_datatype(keyword).1),
        read_is_from(s.tokens, s.enum_datatype(keyword).2),
{
    reveal(State::enum_datatype);
    lemma_advance_until(s, TokenSet::EnumPart, Delimiters::Construct);
    if let (s1, Some(Ok(_))) = s.advance_until(TokenSet::EnumPart, Delimiters::Construct) {
        lemma_advance_until(s1, TokenSet::EnumPart, Delimiters::Construct);
        if let (s2, Some(Ok(_))) = s1.advance_until(TokenSet::EnumPart, Delimiters::Construct) {
            lemma_advance(s2);
        }
    }
}

proof fn lemma_macro_call_content<'a>(
    s: State<'a>,
    nestedness: nat,
    content: Seq<ConstructView<'a>>,
)
    requires
        all_are_from(s.tokens, content),
    ensures
        leads_to(s, s.macro_call_content(nestedness, content).0),
        all_are_from(s.tokens, s.macro_call_content(nestedness, content).1),
        optional_is_from(s.tokens, s.macro_call_content(nestedness, content).2),
    decreases s.remaining(),
{
    reveal_with_fuel(State::macro_call_content, 2);
    super::lemma_advance_without_flags(s);
    lemma_advance(s);
    match s.advance() {
        (s1, Some(node)) => match node.token.1 {
            Token::ParensOpen => {
                lemma_macro_call_content(s1, nestedness + 1, content);
            },
            Token::ParensClose => if nestedness != 0 {
                lemma_macro_call_content(s1, (nestedness - 1) as nat, content);
            },
            _ => {
                assert(construct_is_from(s.tokens, ConstructView::Node { node }));
                lemma_macro_call_content(
                    s1,
                    nestedness,
                    content.push(ConstructView::Node { node }),
                );
            },
        },
        (_, None) => {},
    }
}

proof fn lemma_macro_call_body<'a>(s: State<'a>, name: NodeView<'a>)
    requires
        node_is_from(s.tokens, name),
    ensures
        leads_to(s, s.macro_call_body(name).0),
        optional_is_from(s.tokens, s.macro_call_body(name).1),
        read_is_from(s.tokens, s.macro_call_body(name).2),
{
    reveal_with_fuel(construct_is_from, 4);
    reveal(State::macro_call_body);
    lemma_advance_until(s, TokenSet::ParensOpen, Delimiters::Construct);
    if let (s1, Some(Ok(open))) = s.advance_until(TokenSet::ParensOpen, Delimiters::Construct) {
        lemma_macro_call_content(s1, 0, seq![]);
        let (s2, content, close) = s1.macro_call_content(0, seq![]);
        let body = DelimitedView { left: open, content: Some(content), right: close };
        assert(delimited_is_from(s.tokens, body));
        if close is Some {
            lemma_advance_until(s2, TokenSet::SemiColon, Delimiters::Construct);
            if let (s3, Some(Ok(_))) = s2.advance_until(
                TokenSet::SemiColon,
                Delimiters::Construct,
            ) {
                lemma_advance(s3);
            }
        }
    }
}

proof fn lemma_terminate<'a>(s: State<'a>, status: StatusView<'a>, end: usize)
    requires
        status_is_from(s.tokens, status),
    ensures
        leads_to(s, s.terminate(status, end).0),
        match s.terminate(status, end).1 {
            Ok(node) => node_is_from(s.tokens, node),
            Err(next) => optional_is_from(s.tokens, next),
        },
{
    reveal(State::terminate);
    lemma_advance_until(s, TokenSet::SemiColon, Delimiters::Construct);
}

proof fn lemma_datatype_behind(s: State)
    ensures
        leads_to(s, s.datatype_behind().0),
        status_is_from(s.tokens, s.datatype_behind().1),
        read_is_from(s.tokens, s.datatype_behind().2),
{
    reveal(State::datatype_behind);
    lemma_advance(s);
    let (s1, node) = s.advance_without_flags();
    lemma_datatype(s1.advanced(), node, Delimiters::Construct);
}

proof fn lemma_declaration<'a>(s: State<'a>, node: NodeView<'a>, kind: DeclarationKind)
    requires
        node_is_from(s.tokens, node),
    ensures
        leads_to(s, s.declaration(node, kind).0),
        optional_is_from(s.tokens, s.declaration(node, kind).1),
        read_is_from(s.tokens, s.declaration(node, kind).2),
{
    reveal(State::declaration);
    reveal_with_fuel(construct_is_from, 4);
    lemma_datatype_behind(s);
    let (s1, status, body) = s.datatype_behind();
    let end = super::declared(kind, node, body, None).end();
    lemma_terminate(s1, status, end);
    lemma_advance(s1.terminate(status, end).0);
}

proof fn lemma_tween<'a>(s: State<'a>, node: NodeView<'a>)
    requires
        node_is_from(s.tokens, node),
    ensures
        leads_to(s, s.tween(node).0),
        optional_is_from(s.tokens, s.tween(node).1),
        read_is_from(s.tokens, s.tween(node).2),
{
    reveal(State::tween);
    reveal_with_fuel(construct_is_from, 4);
    lemma_advance_until(s, TokenSet::TweenName, Delimiters::Construct);
    if let (s1, Some(Ok(name))) = s.advance_until(TokenSet::TweenName, Delimiters::Construct) {
        lemma_datatype_behind(s1);
        let (s2, status, body) = s1.datatype_behind();
        let end = super::scope::tweened(node, Some(name), body, None).end();
        lemma_terminate(s2, status, end);
        lemma_advance(s2.terminate(status, end).0);
    }
}

proof fn lemma_assigned_value<'a>(s: State<'a>, left: NodeView<'a>, middle: NodeView<'a>)
    requires
        node_is_from(s.tokens, left),
        node_is_from(s.tokens, middle),
    ensures
        leads_to(s, s.assigned_value(left, middle).0),
        optional_is_from(s.tokens, s.assigned_value(left, middle).1),
        read_is_from(s.tokens, s.assigned_value(left, middle).2),
{
    reveal(State::assigned_value);
    reveal_with_fuel(construct_is_from, 4);
    lemma_datatype_behind(s);
    let (s1, status, body) = s.datatype_behind();
    let end = super::scope::assigned(left, middle, body, None).end();
    lemma_terminate(s1, status, end);
    lemma_advance(s1.terminate(status, end).0);
}

proof fn lemma_assignment<'a>(s: State<'a>, left: NodeView<'a>)
    requires
        node_is_from(s.tokens, left),
    ensures
        leads_to(s, s.assignment(left).0),
        optional_is_from(s.tokens, s.assignment(left).1),
        read_is_from(s.tokens, s.assignment(left).2),
{
    reveal(State::assignment);
    lemma_advance_until(s, TokenSet::Equals, Delimiters::Construct);
    if let (s1, Some(Ok(middle))) = s.advance_until(TokenSet::Equals, Delimiters::Construct) {
        lemma_assigned_value(s1, left, middle);
    }
}

proof fn lemma_part<'a>(s: State<'a>, node: NodeView<'a>, part: Part, scope: Scope)
    requires
        node_is_from(s.tokens, node),
    ensures
        leads_to(s, s.part(node, part, scope).0),
        optional_is_from(s.tokens, s.part(node, part, scope).1),
        read_is_from(s.tokens, s.part(node, part, scope).2),
    decreases s.remaining(), 2nat, 0nat,
{
    match part {
        Part::Macro => {
            lemma_macro_declaration(s, node);
        },
        Part::MacroCall => {
            lemma_macro_call_body(s, node);
        },
        Part::Derive => {
            lemma_declaration(s, node, DeclarationKind::Derive);
        },
        Part::Priority => {
            lemma_declaration(s, node, DeclarationKind::Priority);
        },
        Part::Name => {
            lemma_declaration(s, node, DeclarationKind::Name);
        },
        Part::Tween => {
            lemma_tween(s, node);
        },
        Part::StaticTokenAssignment => {
            lemma_assignment(s, node);
        },
        Part::TokenAssignment => {
            lemma_assignment(s, node);
        },
        Part::PropertyOrRule => {
            lemma_property_or_rule(s, node);
        },
        Part::SelectorBegin => {
            lemma_selector_begin(s, node);
        },
        Part::InvalidDeclaration => {
            lemma_invalid_declaration(s, node);
        },
        Part::Absent => {
            lemma_advance(s);
        },
    }
}

proof fn lemma_invalid_declaration<'a>(s: State<'a>, node: NodeView<'a>)
    requires
        node_is_from(s.tokens, node),
    ensures
        leads_to(s, s.invalid_declaration(node).0),
        optional_is_from(s.tokens, s.invalid_declaration(node).1),
{
    reveal(State::invalid_declaration);
    if let Token::InvalidDeclaration(name) = node.token.1 {
        let span = (node.token.0, node.token.2);
        let closest = match name {
            Some(name) => error::closest("@"@ + name@, super::scope::declaration_names()),
            None => None,
        };
        let failed = s.fail(
            ParseError::UnexpectedTokens {
                msg: Some(ParseErrorMessage::Correction { closest, range: s.range(span) }),
            },
            span,
        );
        assert(leads_to(s, failed));
        lemma_advance(failed);
    }
}

proof fn lemma_step<'a>(
    s: State<'a>,
    node: NodeView<'a>,
    content: Seq<ConstructView<'a>>,
    part: Part,
    scope: Scope,
)
    requires
        node_is_from(s.tokens, node),
        all_are_from(s.tokens, content),
    ensures
        leads_to(s, s.step(node, content, part, scope).0),
        all_are_from(s.tokens, s.step(node, content, part, scope).1),
        optional_is_from(s.tokens, s.step(node, content, part, scope).2),
    decreases s.remaining(), 3nat, part.rank(),
{
    lemma_part(s, node, part, scope);
    let (s1, next, construct) = s.part(node, part, scope);
    let (s2, content) = s1.put(construct, content, part, scope);
    assert(leads_to(s1, s2));
    assert(all_are_from(s.tokens, content));
    if let (Some(node), Some(following)) = (next, part.following()) {
        if s2.remaining() <= s.remaining() {
            lemma_step(s2, node, content, following, scope);
        }
    }
}

proof fn lemma_scope_loop<'a>(
    s: State<'a>,
    node: NodeView<'a>,
    content: Seq<ConstructView<'a>>,
    scope: Scope,
    error_span: Option<(usize, usize)>,
)
    requires
        node_is_from(s.tokens, node),
        all_are_from(s.tokens, content),
    ensures
        leads_to(s, s.scope_loop(node, content, scope, error_span).0),
        all_are_from(s.tokens, s.scope_loop(node, content, scope, error_span).1),
        optional_is_from(s.tokens, s.scope_loop(node, content, scope, error_span).2),
    decreases s.remaining(), 4nat, 0nat,
{
    lemma_step(s, node, content, Part::Macro, scope);
    let (s1, content, next) = s.step(node, content, Part::Macro, scope);
    if let Some(node) = next {
        let ends = node.token.1 is ScopeClose;
        if s1.did_advance {
            let s2 = (State { did_advance: false, ..s1 }).fail_if(error_span);
            assert(leads_to(s1, s2));
            if !ends && s2.remaining() < s.remaining() {
                lemma_scope_loop(s2, node, content, scope, error_span);
            }
        } else if ends {
            assert(leads_to(s1, s1.fail_if(error_span)));
        } else {
            let span = super::scope::widened(error_span, node.token);
            lemma_advance(s1);
            let (s2, next) = s1.accept();
            match next {
                Some(next) => if s2.remaining() < s.remaining() {
                    lemma_scope_loop(s2, next, content, scope, span);
                },
                None => {
                    assert(leads_to(s2, s2.fail_if(span)));
                },
            }
        }
    }
}

proof fn lemma_scope_content<'a>(s: State<'a>, node: NodeView<'a>, scope: Scope)
    requires
        node_is_from(s.tokens, node),
    ensures
        leads_to(s, s.scope_content(node, scope).0),
        all_are_from(s.tokens, s.scope_content(node, scope).1),
        optional_is_from(s.tokens, s.scope_content(node, scope).2),
    decreases s.remaining(), 5nat, 0nat,
{
    lemma_scope_loop(State { did_advance: false, ..s }, node, seq![], scope, None);
}

proof fn lemma_braced<'a>(s: State<'a>, open: NodeView<'a>, scope: Scope)
    requires
        node_is_from(s.tokens, open),
    ensures
        leads_to(s, s.braced(open, scope).0),
        optional_is_from(s.tokens, s.braced(open, scope).1),
        delimited_is_from(s.tokens, s.braced(open, scope).2),
    decreases s.remaining(), 0nat, 0nat,
{
    reveal_with_fuel(delimited_is_from, 3);
    super::lemma_advance_without_flags(s);
    lemma_advance(s);
    if let (s1, Some(node)) = s.advance() {
        if node.token.1 is ScopeClose {
            lemma_advance(s1);
        } else {
            lemma_scope_content(s1, node, scope);
            let (s2, content, close) = s1.scope_content(node, scope);
            let body = DelimitedView { left: open, content: Some(content), right: close };
            let s3 = if close is Some {
                s2
            } else {
                s2.fail(super::missing("\"}\""), super::clamped(body.end()))
            };
            assert(leads_to(s2, s3));
            lemma_advance(s3);
        }
    }
}

proof fn lemma_rule_body<'a>(
    s: State<'a>,
    open: NodeView<'a>,
    selectors: Option<Seq<NodeView<'a>>>,
)
    requires
        node_is_from(s.tokens, open),
        selectors is Some ==> nodes_are_from(s.tokens, selectors->0),
    ensures
        leads_to(s, s.rule_body(open, selectors).0),
        optional_is_from(s.tokens, s.rule_body(open, selectors).1),
        read_is_from(s.tokens, s.rule_body(open, selectors).2),
    decreases s.remaining(), 0nat, 1nat,
{
    reveal_with_fuel(construct_is_from, 4);
    lemma_braced(s, open, Scope::Rule);
}

proof fn lemma_selector_parts<'a>(s: State<'a>, parts: Seq<ConstructView<'a>>)
    requires
        all_are_from(s.tokens, parts),
    ensures
        leads_to(s, s.selector_parts(parts).0),
        all_are_from(s.tokens, s.selector_parts(parts).1),
        match s.selector_parts(parts).2 {
            Ok(node) => node_is_from(s.tokens, node),
            Err(next) => optional_is_from(s.tokens, next),
        },
    decreases s.remaining(),
{
    super::lemma_advance_until(s, TokenSet::MacroSelectorPart, Delimiters::Construct);
    lemma_advance_until(s, TokenSet::MacroSelectorPart, Delimiters::Construct);
    if let (s1, Some(Ok(node))) = s.advance_until(
        TokenSet::MacroSelectorPart,
        Delimiters::Construct,
    ) {
        if !(node.token.1 is ScopeClose) {
            assert(construct_is_from(s.tokens, ConstructView::Node { node }));
            lemma_selector_parts(s1, parts.push(ConstructView::Node { node }));
        }
    }
}

proof fn lemma_braced_selector<'a>(s: State<'a>, open: NodeView<'a>)
    requires
        node_is_from(s.tokens, open),
    ensures
        leads_to(s, s.braced_selector(open).0),
        optional_is_from(s.tokens, s.braced_selector(open).1),
        delimited_is_from(s.tokens, s.braced_selector(open).2),
{
    reveal(State::braced_selector);
    reveal_with_fuel(delimited_is_from, 3);
    lemma_selector_parts(s, seq![]);
    lemma_advance(s.selector_parts(seq![]).0);
}

proof fn lemma_close<'a>(s: State<'a>, status: StatusView<'a>, end: usize)
    requires
        status_is_from(s.tokens, status),
    ensures
        leads_to(s, s.close(status, end).0),
        match s.close(status, end).1 {
            Ok(node) => node_is_from(s.tokens, node),
            Err(next) => optional_is_from(s.tokens, next),
        },
{
    reveal(State::close);
    lemma_advance_until(s, TokenSet::ScopeClose, Delimiters::Construct);
}

proof fn lemma_braced_datatype<'a>(s: State<'a>, open: NodeView<'a>)
    requires
        node_is_from(s.tokens, open),
    ensures
        leads_to(s, s.braced_datatype(open).0),
        optional_is_from(s.tokens, s.braced_datatype(open).1),
        delimited_is_from(s.tokens, s.braced_datatype(open).2),
{
    reveal(State::braced_datatype);
    reveal_with_fuel(delimited_is_from, 3);
    lemma_advance(s);
    if let (s1, Some(node)) = s.advance() {
        lemma_advance(s1);
        lemma_datatype(s1, Some(node), Delimiters::Construct);
        let (s2, status, value) = s1.datatype(Some(node), Delimiters::Construct);
        let content = match value {
            Some(value) => Some(seq![value]),
            None => None,
        };
        let end = (DelimitedView { left: open, content, right: None }).end();
        lemma_close(s2, status, end);
        lemma_advance(s2.close(status, end).0);
    }
}

proof fn lemma_macro_body<'a>(
    s: State<'a>,
    open: NodeView<'a>,
    declaration: NodeView<'a>,
    name: Option<NodeView<'a>>,
    args: Option<DelimitedView<'a>>,
    return_type: Option<(NodeView<'a>, Option<NodeView<'a>>)>,
    context: MacroContext,
)
    requires
        node_is_from(s.tokens, open),
        node_is_from(s.tokens, declaration),
        optional_is_from(s.tokens, name),
        optional_delimited_is_from(s.tokens, args),
        match return_type {
            Some((arrow, ident)) => node_is_from(s.tokens, arrow) && optional_is_from(
                s.tokens,
                ident,
            ),
            None => true,
        },
    ensures
        ({
            let (after, next, construct) = s.macro_body(
                open,
                declaration,
                name,
                args,
                return_type,
                context,
            );
            &&& leads_to(s, after)
            &&& optional_is_from(s.tokens, next)
            &&& read_is_from(s.tokens, construct)
        }),
    decreases s.remaining(), 0nat, 1nat,
{
    reveal_with_fuel(construct_is_from, 4);
    match context {
        MacroContext::Construct => {
            lemma_braced(s, open, Scope::Macro);
        },
        MacroContext::Selector => {
            lemma_braced_selector(s, open);
        },
        MacroContext::Assignment => {
            lemma_braced_datatype(s, open);
        },
    }
}

proof fn lemma_macro_context<'a>(
    s: State<'a>,
    arrow: NodeView<'a>,
    declaration: NodeView<'a>,
    name: Option<NodeView<'a>>,
    args: Option<DelimitedView<'a>>,
)
    requires
        node_is_from(s.tokens, arrow),
        node_is_from(s.tokens, declaration),
        optional_is_from(s.tokens, name),
        optional_delimited_is_from(s.tokens, args),
    ensures
        leads_to(s, s.macro_context(arrow, declaration, name, args).0),
        optional_is_from(s.tokens, s.macro_context(arrow, declaration, name, args).1),
        read_is_from(s.tokens, s.macro_context(arrow, declaration, name, args).2),
    decreases s.remaining(), 0nat, 2nat,
{
    reveal_with_fuel(construct_is_from, 4);
    super::lemma_advance_until(s, TokenSet::MacroContext, Delimiters::Construct);
    lemma_advance_until(s, TokenSet::MacroContext, Delimiters::Construct);
    if let (s1, Some(Ok(ident))) = s.advance_until(TokenSet::MacroContext, Delimiters::Construct) {
        let s2 = s1.check_context(ident.token);
        assert(leads_to(s1, s2));
        super::lemma_advance_until(s2, TokenSet::ScopeOpen, Delimiters::Construct);
        lemma_advance_until(s2, TokenSet::ScopeOpen, Delimiters::Construct);
        if let (s3, Some(Ok(open))) = s2.advance_until(
            TokenSet::ScopeOpen,
            Delimiters::Construct,
        ) {
            let return_type = Some((arrow, Some(ident)));
            lemma_macro_body(
                s3,
                open,
                declaration,
                name,
                args,
                return_type,
                super::scope::context_of(return_type),
            );
        }
    }
}

proof fn lemma_macro_rest<'a>(
    s: State<'a>,
    start: NodeView<'a>,
    declaration: NodeView<'a>,
    name: Option<NodeView<'a>>,
    args: Option<DelimitedView<'a>>,
)
    requires
        node_is_from(s.tokens, start),
        node_is_from(s.tokens, declaration),
        optional_is_from(s.tokens, name),
        optional_delimited_is_from(s.tokens, args),
    ensures
        leads_to(s, s.macro_rest(start, declaration, name, args).0),
        optional_is_from(s.tokens, s.macro_rest(start, declaration, name, args).1),
        read_is_from(s.tokens, s.macro_rest(start, declaration, name, args).2),
    decreases s.remaining(), 0nat, 3nat,
{
    lemma_macro_context(s, start, declaration, name, args);
    lemma_macro_body(s, start, declaration, name, args, None, MacroContext::Construct);
}

proof fn lemma_rule_selector<'a>(
    s: State<'a>,
    last: SpannedToken<'a>,
    selectors: Seq<NodeView<'a>>,
    comma_allowed: bool,
)
    requires
        nodes_are_from(s.tokens, selectors),
    ensures
        leads_to(s, s.rule_selector(last, selectors, comma_allowed).0),
        optional_is_from(s.tokens, s.rule_selector(last, selectors, comma_allowed).1),
        read_is_from(s.tokens, s.rule_selector(last, selectors, comma_allowed).2),
    decreases s.remaining(), 0nat, 2nat,
{
    reveal_with_fuel(construct_is_from, 4);
    let allow = if comma_allowed {
        TokenSet::SelectorPartOrComma
    } else {
        TokenSet::SelectorPart
    };
    super::lemma_advance_until(s, allow, Delimiters::Construct);
    lemma_advance_until(s, allow, Delimiters::Construct);
    if let (s1, Some(Ok(node))) = s.advance_until(allow, Delimiters::Construct) {
        let s2 = s1.check_hierarchy(last, node.token);
        assert(leads_to(s1, s2));
        if node.token.1 is ScopeOpen {
            let s3 = if !comma_allowed && last.1 is Comma {
                s2.fail(super::misplaced(), (last.0, last.2))
            } else {
                s2
            };
            assert(leads_to(s2, s3));
            lemma_rule_body(s3, node, Some(selectors));
        } else {
            lemma_rule_selector(
                s2,
                node.token,
                selectors.push(node),
                !(comma_allowed && node.token.1 is Comma),
            );
        }
    }
}

proof fn lemma_selector_begin<'a>(s: State<'a>, node: NodeView<'a>)
    requires
        node_is_from(s.tokens, node),
    ensures
        leads_to(s, s.selector_begin(node).0),
        optional_is_from(s.tokens, s.selector_begin(node).1),
        read_is_from(s.tokens, s.selector_begin(node).2),
    decreases s.remaining(), 1nat, 0nat,
{
    lemma_rule_selector(s, node.token, seq![node], true);
    lemma_rule_body(s, node, None);
}

proof fn lemma_property_or_rule<'a>(s: State<'a>, node: NodeView<'a>)
    requires
        node_is_from(s.tokens, node),
    ensures
        leads_to(s, s.property_or_rule(node).0),
        optional_is_from(s.tokens, s.property_or_rule(node).1),
        read_is_from(s.tokens, s.property_or_rule(node).2),
    decreases s.remaining(), 1nat, 0nat,
{
    super::lemma_advance_until(s, TokenSet::PropertyOrSelector, Delimiters::Construct);
    lemma_advance_until(s, TokenSet::PropertyOrSelector, Delimiters::Construct);
    if let (s1, Some(Ok(middle))) = s.advance_until(
        TokenSet::PropertyOrSelector,
        Delimiters::Construct,
    ) {
        lemma_assigned_value(s1, node, middle);
        lemma_rule_body(s1, middle, Some(seq![node]));
        lemma_rule_selector(s1, middle.token, seq![node, middle], false);
        lemma_rule_selector(s1, middle.token, seq![node, middle], true);
    }
}

proof fn lemma_macro_declaration<'a>(s: State<'a>, node: NodeView<'a>)
    requires
        node_is_from(s.tokens, node),
    ensures
        leads_to(s, s.macro_declaration(node).0),
        optional_is_from(s.tokens, s.macro_declaration(node).1),
        read_is_from(s.tokens, s.macro_declaration(node).2),
    decreases s.remaining(), 1nat, 0nat,
{
    reveal_with_fuel(construct_is_from, 4);
    super::lemma_advance_until(s, TokenSet::MacroName, Delimiters::Construct);
    lemma_advance_until(s, TokenSet::MacroName, Delimiters::Construct);
    match s.advance_until(TokenSet::MacroName, Delimiters::Construct) {
        (s1, Some(Ok(name))) => {
            super::lemma_advance_until(s1, TokenSet::MacroArgsOrBody, Delimiters::Construct);
            lemma_advance_until(s1, TokenSet::MacroArgsOrBody, Delimiters::Construct);
            if let (s2, Some(Ok(open))) = s1.advance_until(
                TokenSet::MacroArgsOrBody,
                Delimiters::Construct,
            ) {
                lemma_macro_args(s2, open, node, Some(name));
                lemma_macro_rest(s2, open, node, Some(name), None);
            }
        },
        (_, Some(Err(_))) => {},
        (s1, None) => {
            lemma_advance(s1);
        },
    }
}

proof fn lemma_macro_args<'a>(
    s: State<'a>,
    open: NodeView<'a>,
    declaration: NodeView<'a>,
    name: Option<NodeView<'a>>,
)
    requires
        node_is_from(s.tokens, open),
        node_is_from(s.tokens, declaration),
        optional_is_from(s.tokens, name),
    ensures
        leads_to(s, s.macro_args(open, declaration, name).0),
        optional_is_from(s.tokens, s.macro_args(open, declaration, name).1),
        read_is_from(s.tokens, s.macro_args(open, declaration, name).2),
    decreases s.remaining(), 0nat, 0nat,
{
    reveal_with_fuel(construct_is_from, 4);
    super::lemma_advance_until(s, TokenSet::MacroArg, Delimiters::InsideParens);
    lemma_advance_until(s, TokenSet::MacroArg, Delimiters::InsideParens);
    if let (s1, Some(Ok(node))) = s.advance_until(TokenSet::MacroArg, Delimiters::InsideParens) {
        lemma_macro_body_open(s1, declaration, name, open, None, node);
        lemma_macro_args_rest(
            s1,
            open,
            declaration,
            name,
            seq![ConstructView::Node { node }],
            node.token,
        );
    }
}

proof fn lemma_macro_args_rest<'a>(
    s: State<'a>,
    open: NodeView<'a>,
    declaration: NodeView<'a>,
    name: Option<NodeView<'a>>,
    args: Seq<ConstructView<'a>>,
    last: SpannedToken<'a>,
)
    requires
        node_is_from(s.tokens, open),
        node_is_from(s.tokens, declaration),
        optional_is_from(s.tokens, name),
        all_are_from(s.tokens, args),
    ensures
        leads_to(s, s.macro_args_rest(open, declaration, name, args, last).0),
        optional_is_from(s.tokens, s.macro_args_rest(open, declaration, name, args, last).1),
        read_is_from(s.tokens, s.macro_args_rest(open, declaration, name, args, last).2),
    decreases s.remaining(), 0nat, 0nat,
{
    reveal_with_fuel(construct_is_from, 4);
    let allow = if last.1 is Comma {
        TokenSet::MacroArgAfterComma
    } else {
        TokenSet::MacroArg
    };
    super::lemma_advance_until(s, allow, Delimiters::InsideParens);
    lemma_advance_until(s, allow, Delimiters::InsideParens);
    if let (s1, Some(Ok(node))) = s.advance_until(allow, Delimiters::InsideParens) {
        lemma_macro_body_open(s1, declaration, name, open, Some(args), node);
        let s2 = if last.1 is MacroArgIdentifier && node.token.1 is MacroArgIdentifier {
            s1.fail(super::missing("\",\""), super::clamped(last.2))
        } else {
            s1
        };
        assert(leads_to(s1, s2));
        assert(construct_is_from(s.tokens, ConstructView::Node { node }));
        lemma_macro_args_rest(
            s2,
            open,
            declaration,
            name,
            args.push(ConstructView::Node { node }),
            node.token,
        );
    }
}

proof fn lemma_macro_body_open<'a>(
    s: State<'a>,
    declaration: NodeView<'a>,
    name: Option<NodeView<'a>>,
    open: NodeView<'a>,
    args: Option<Seq<ConstructView<'a>>>,
    close: NodeView<'a>,
)
    requires
        node_is_from(s.tokens, open),
        node_is_from(s.tokens, close),
        node_is_from(s.tokens, declaration),
        optional_is_from(s.tokens, name),
        args is Some ==> all_are_from(s.tokens, args->0),
    ensures
        leads_to(s, s.macro_body_open(declaration, name, open, args, close).0),
        optional_is_from(s.tokens, s.macro_body_open(declaration, name, open, args, close).1),
        read_is_from(s.tokens, s.macro_body_open(declaration, name, open, args, close).2),
    decreases s.remaining(), 0nat, 0nat,
{
    reveal_with_fuel(construct_is_from, 4);
    reveal_with_fuel(optional_delimited_is_from, 4);
    super::lemma_advance_until(s, TokenSet::MacroContextOrBody, Delimiters::Construct);
    lemma_advance_until(s, TokenSet::MacroContextOrBody, Delimiters::Construct);
    let args = DelimitedView { left: open, content: args, right: Some(close) };
    assert(optional_delimited_is_from(s.tokens, Some(args)));
    if let (s1, Some(Ok(start))) = s.advance_until(
        TokenSet::MacroContextOrBody,
        Delimiters::Construct,
    ) {
        lemma_macro_rest(s1, start, declaration, name, Some(args));
    }
}

proof fn lemma_document_loop<'a>(
    s: State<'a>,
    node: NodeView<'a>,
    ast: Seq<ConstructView<'a>>,
    error_span: Option<(usize, usize)>,
)
    requires
        node_is_from(s.tokens, node),
        all_are_from(s.tokens, ast),
    ensures
        leads_to(s, s.document_loop(node, ast, error_span).0),
        all_are_from(s.tokens, s.document_loop(node, ast, error_span).1),
    decreases s.remaining(),
{
    lemma_step(s, node, ast, Part::Macro, Scope::Global);
    let (s1, ast, next) = s.step(node, ast, Part::Macro, Scope::Global);
    match next {
        None => {
            assert(leads_to(s1, s1.fail_if(error_span)));
        },
        Some(node) => if s1.did_advance {
            let s2 = (State { did_advance: false, ..s1 }).fail_if(error_span);
            assert(leads_to(s1, s2));
            if s2.remaining() < s.remaining() {
                lemma_document_loop(s2, node, ast, error_span);
            }
        } else {
            let span = super::scope::widened(error_span, node.token);
            lemma_advance(s1);
            let (s2, next) = s1.accept();
            match next {
                Some(next) => if s2.remaining() < s.remaining() {
                    lemma_document_loop(s2, next, ast, span);
                },
                None => {
                    assert(leads_to(s2, s2.fail_if(span)));
                },
            }
        },
    }
}

/// In a document without diagnostics each comment that was read is closed.
pub proof fn lemma_clean_document_has_closed_comments(tokens: Seq<SpannedToken>, text: Seq<char>)
    requires
        super::scope::start_of(tokens, text).document().0.errors.len() == 0,
    ensures
        forall|i: int|
            0 <= i < super::scope::start_of(tokens, text).document().0.position ==> is_closed(
                #[trigger] tokens[i],
            ),
{
    let start = super::scope::start_of(tokens, text);
    lemma_advance(start);
    if let (s, Some(node)) = start.accept() {
        lemma_document_loop(s, node, seq![], None);
        assert(leads_to(start, start.document().0));
    }
}

/// Whatever the tokens of a document are, each node of its constructs holds one of them,
/// and comments of the document in front of it. No more tokens are read than there are.
pub proof fn lemma_document_is_from_its_tokens(tokens: Seq<SpannedToken>, text: Seq<char>)
    ensures
        all_are_from(tokens, super::scope::start_of(tokens, text).document().1),
        super::scope::start_of(tokens, text).document().0.tokens == tokens,
        super::scope::start_of(tokens, text).document().0.text == text,
        super::scope::start_of(tokens, text).document().0.position <= tokens.len(),
{
    let start = super::scope::start_of(tokens, text);
    lemma_advance(start);
    if let (s, Some(node)) = start.accept() {
        lemma_document_loop(s, node, seq![], None);
    }
}

} // verus!
