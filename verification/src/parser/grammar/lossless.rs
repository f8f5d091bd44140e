//! Nothing of a document without diagnostics is left out.

use super::origin;
use super::report;
use super::{DeclarationKind, MacroContext, Part, Scope, State, StatusView};
use crate::parser::construct::{ConstructView, DelimitedView, NodeView};
use crate::parser::order;
use crate::parser::token;
use crate::parser::token::{Delimiters, SpannedToken, Token, TokenSet, ADD_SUB_PRECEDENCE};
use vstd::prelude::*;

verus! {

/// Whether a token counts: comments do not, nor do round brackets, of which a macro call keeps
/// only the outer ones, nor the mark that nothing follows.
pub open spec fn counts(token: Token) -> bool {
    !(super::is_comment(token) || token is ParensOpen || token is ParensClose || token is Absent)
}

/// The tokens that count.
pub open spec fn kept<'a>(tokens: Seq<SpannedToken<'a>>) -> Seq<SpannedToken<'a>>
    decreases tokens.len(),
{
    if tokens.len() == 0 {
        Seq::empty()
    } else {
        let front = kept(tokens.drop_last());
        if counts(tokens.last().1) {
            front.push(tokens.last())
        } else {
            front
        }
    }
}

broadcast proof fn lemma_kept<'a>(a: Seq<SpannedToken<'a>>, b: Seq<SpannedToken<'a>>)
    ensures
        #[trigger] kept(a + b) == kept(a) + kept(b),
    decreases b.len(),
{
    if b.len() == 0 {
        assert(a + b =~= a);
        assert(kept(a) + kept(b) =~= kept(a));
    } else {
        assert((a + b).drop_last() =~= a + b.drop_last());
        lemma_kept(a, b.drop_last());
        assert(kept(a + b) =~= kept(a) + kept(b));
    }
}

/// A token, where it counts.
spec fn one<'a>(token: SpannedToken<'a>) -> Seq<SpannedToken<'a>> {
    if counts(token.1) {
        seq![token]
    } else {
        Seq::empty()
    }
}

broadcast proof fn lemma_kept_one<'a>(token: SpannedToken<'a>)
    ensures
        #[trigger] kept(seq![token]) == one(token),
{
    let tokens = seq![token];
    assert(tokens.drop_last() =~= Seq::empty());
    assert(kept(tokens.drop_last()) =~= Seq::empty());
    assert(kept(tokens) =~= one(token));
}

/// The token of a node, where there is one and it counts.
spec fn own<'a>(node: Option<NodeView<'a>>) -> Seq<SpannedToken<'a>> {
    match node {
        Some(node) => one(node.token),
        None => Seq::empty(),
    }
}

broadcast proof fn lemma_kept_optional<'a>(node: Option<NodeView<'a>>)
    ensures
        #[trigger] kept(order::optional_token(node)) == own(node),
{
    broadcast use lemma_kept_one;

}

/// Whether the state is within its document.
spec fn is_inside(s: State) -> bool {
    s.position <= s.tokens.len()
}

/// The tokens that were read between two states.
spec fn read<'a>(before: State<'a>, after: State<'a>) -> Seq<SpannedToken<'a>> {
    kept(before.tokens.subrange(before.position as int, after.position as int))
}

/// Whether nothing was reported between two states.
spec fn is_quiet(before: State, after: State) -> bool {
    before.errors.len() == after.errors.len()
}

proof fn lemma_read_twice<'a>(a: State<'a>, b: State<'a>, c: State<'a>)
    requires
        is_inside(a),
        origin::leads_to(a, b),
        origin::leads_to(b, c),
    ensures
        read(a, c) == read(a, b) + read(b, c),
        is_quiet(a, c) ==> is_quiet(a, b) && is_quiet(b, c),
        is_inside(b),
        is_inside(c),
{
    let first = a.tokens.subrange(a.position as int, b.position as int);
    let second = a.tokens.subrange(b.position as int, c.position as int);
    assert(a.tokens.subrange(a.position as int, c.position as int) =~= first + second);
    lemma_kept(first, second);
}

proof fn lemma_read_none<'a>(a: State<'a>, b: State<'a>)
    requires
        is_inside(a),
        a.position == b.position,
    ensures
        read(a, b) == Seq::<SpannedToken>::empty(),
{
    assert(a.tokens.subrange(a.position as int, b.position as int) =~= Seq::empty());
}

proof fn lemma_read_one<'a>(a: State<'a>)
    requires
        a.position < a.tokens.len(),
    ensures
        read(a, a.next_token().0) == one(a.tokens[a.position as int]),
{
    let p = a.position as int;
    assert(a.tokens.subrange(p, p + 1) =~= seq![a.tokens[p]]);
    lemma_kept_one(a.tokens[p]);
}

proof fn lemma_after_trivia<'a>(s: State<'a>, trivia: Seq<SpannedToken<'a>>)
    requires
        is_inside(s),
    ensures
        origin::leads_to(s, s.after_trivia(trivia).0),
        read(s, s.after_trivia(trivia).0) == one(s.after_trivia(trivia).1.token),
    decreases s.remaining(),
{
    match s.next_token() {
        (s1, Some(token)) => {
            lemma_read_one(s);
            assert(s.tokens[s.position as int] == token);
            if super::is_comment(token.1) {
                let s2 = s1.check_comment(token);
                assert(origin::leads_to(s, s2));
                lemma_after_trivia(s2, trivia.push(token));
                let s3 = s2.after_trivia(trivia.push(token)).0;
                assert(read(s, s2) == read(s, s1));
                lemma_read_twice(s, s2, s3);
                assert(read(s, s3) =~= read(s2, s3));
            }
        },
        (s1, None) => {
            lemma_read_none(s, s1);
        },
    }
}

proof fn lemma_next_node<'a>(s: State<'a>)
    requires
        is_inside(s),
    ensures
        origin::leads_to(s, s.next_node().0),
        read(s, s.next_node().0) == own(s.next_node().1),
{
    match s.next_token() {
        (s1, Some(token)) => {
            lemma_read_one(s);
            assert(s.tokens[s.position as int] == token);
            if super::is_comment(token.1) {
                let s2 = s1.check_comment(token);
                assert(origin::leads_to(s, s2));
                lemma_after_trivia(s2, seq![token]);
                let s3 = s2.after_trivia(seq![token]).0;
                assert(read(s, s2) == read(s, s1));
                lemma_read_twice(s, s2, s3);
                assert(read(s, s3) =~= read(s2, s3));
            }
        },
        (s1, None) => {
            lemma_read_none(s, s1);
        },
    }
}

proof fn lemma_skip_errors<'a>(s: State<'a>, start: usize, end: usize)
    ensures
        origin::leads_to(s, s.skip_errors(start, end).0),
        !is_quiet(s, s.skip_errors(start, end).0),
    decreases s.remaining(),
{
    super::lemma_next_node(s);
    origin::lemma_next_node(s);
    let (s1, node) = s.next_node();
    if node is Some && node->0.token.1 is Error {
        lemma_skip_errors(s1, start, node->0.token.2);
    }
}

/// Accepting a token reads that token, or reports something. Without one the document is at
/// its end.
proof fn lemma_advance<'a>(s: State<'a>)
    requires
        is_inside(s),
    ensures
        origin::leads_to(s, s.advance().0),
        origin::leads_to(s, s.advance_without_flags().0),
        is_inside(s.advance().0),
        is_quiet(s, s.advance().0) ==> read(s, s.advance().0) == own(s.advance().1),
        is_quiet(s, s.advance().0) && s.advance().1 is None ==> s.advance().0.remaining() == 0,
        s.advance().1 is Some ==> s.advance().0.position > s.position,
        s.accept().0.position == s.advance().0.position,
        s.accept().0.errors == s.advance().0.errors,
        origin::leads_to(s, s.accept().0),
        s.advance_without_flags().0.position == s.advance().0.position,
        s.advance_without_flags().0.errors == s.advance().0.errors,
{
    origin::lemma_advance(s);
    super::lemma_advance_without_flags(s);
    super::lemma_next_node(s);
    reveal(State::advance_without_flags);
    lemma_next_node(s);
    let (s1, node) = s.next_node();
    if node is Some && node->0.token.1 is Error {
        lemma_skip_errors(s1, node->0.token.0, node->0.token.2);
    }
}

proof fn lemma_until_core<'a>(
    s: State<'a>,
    allow: TokenSet,
    delimiters: Delimiters,
    start: usize,
    stop: usize,
)
    ensures
        origin::leads_to(s, s.until_core(allow, delimiters, start, stop).0),
        !is_quiet(s, s.until_core(allow, delimiters, start, stop).0),
    decreases s.remaining(),
{
    super::lemma_next_node(s);
    origin::lemma_next_node(s);
    match s.next_node() {
        (s1, Some(node)) => if node.token.1 is Error || !(allow.has(node.token.1)
            || delimiters.has(node.token.1)) {
            lemma_until_core(s1, allow, delimiters, start, node.token.2);
        },
        (_, None) => {},
    }
}

/// A search reads the token that it finds, or reports something.
proof fn lemma_advance_until<'a>(s: State<'a>, allow: TokenSet, delimiters: Delimiters)
    requires
        is_inside(s),
    ensures
        ({
            let (after, found) = s.advance_until(allow, delimiters);
            &&& origin::leads_to(s, after)
            &&& is_inside(after)
            &&& is_quiet(s, after) ==> found is Some && found->0 is Ok && read(s, after) == one(
                found->0->Ok_0.token,
            )
            &&& found is Some ==> after.position > s.position
        }),
{
    origin::lemma_advance_until(s, allow, delimiters);
    super::lemma_advance_until(s, allow, delimiters);
    super::lemma_next_node(s);
    reveal(State::advance_until);
    lemma_next_node(s);
    match s.next_node() {
        (s1, Some(node)) => {
            lemma_until_core(s1, allow, delimiters, node.token.0, node.token.2);
        },
        (_, None) => {},
    }
}

/// A token that is expected is taken as it is; for another something is reported.
proof fn lemma_kind_else_advance_until<'a>(
    s: State<'a>,
    node: Option<NodeView<'a>>,
    allow: TokenSet,
    delimiters: Delimiters,
)
    ensures
        ({
            let (after, found) = s.optional_kind_else_advance_until(node, allow, delimiters);
            &&& is_quiet(s, after) ==> node is Some && found == Some(
                Ok::<NodeView<'a>, NodeView<'a>>(node->0),
            ) && after == s
        }),
{
    reveal(State::optional_kind_else_advance_until);
    if let Some(node) = node {
        origin::lemma_next_node(s);
        match s.next_node() {
            (s1, Some(next)) => {
                lemma_until_core(s1, allow, delimiters, node.token.0, next.token.2);
            },
            (_, None) => {},
        }
    }
}

/// The token that a status holds.
spec fn pending<'a>(status: StatusView<'a>) -> Seq<SpannedToken<'a>> {
    match status {
        StatusView::Stopped(node) => one(node.token),
        _ => Seq::empty(),
    }
}

proof fn lemma_node_tokens_push<'a>(nodes: Seq<NodeView<'a>>, node: NodeView<'a>)
    ensures
        kept(order::node_tokens(nodes.push(node))) == kept(order::node_tokens(nodes)) + one(
            node.token,
        ),
{
    broadcast use {lemma_kept, lemma_kept_one};

    assert(order::node_tokens(nodes.push(node)) =~= order::node_tokens(nodes) + seq![node.token]);
}

#[verifier::rlimit(60)]
proof fn lemma_operator_chain<'a>(s: State<'a>, operators: Seq<NodeView<'a>>)
    requires
        is_inside(s),
    ensures
        ({
            let (after, next, all) = s.operator_chain(operators);
            &&& origin::leads_to(s, after)
            &&& is_quiet(s, after) ==> kept(order::node_tokens(operators)) + read(s, after)
                == kept(order::node_tokens(all)) + own(next)
            &&& is_quiet(s, after) && next is None ==> after.remaining() == 0
        }),
    decreases s.remaining(),
{
    report::lemma_operator_chain(s, operators);
    super::lemma_advance_without_flags(s);
    lemma_advance(s);
    let (after, next, all) = s.operator_chain(operators);
    if let (s1, Some(node)) = s.advance() {
        if let Some(precedence) = token::precedence_of(node.token.1) {
            if precedence == ADD_SUB_PRECEDENCE {
                lemma_operator_chain(s1, operators.push(node));
                lemma_node_tokens_push(operators, node);
                lemma_read_twice(s, s1, after);
                if is_quiet(s, after) {
                    assert(kept(order::node_tokens(operators)) + read(s, after) =~= kept(
                        order::node_tokens(operators.push(node)),
                    ) + read(s1, after));
                }
            } else {
                let s2 = s1.fail(super::misplaced(), super::clamped(node.token.2));
                assert(origin::leads_to(s1, s2));
                report::lemma_operator_chain(s2, operators);
            }
        }
    }
}

proof fn lemma_datatype_operators<'a>(s: State<'a>, first: NodeView<'a>, precedence: usize)
    requires
        is_inside(s),
    ensures
        ({
            let (after, next, all) = s.datatype_operators(first, precedence);
            &&& origin::leads_to(s, after)
            &&& is_inside(after)
            &&& is_quiet(s, after) ==> one(first.token) + read(s, after) == kept(
                order::node_tokens(all),
            ) + own(next)
            &&& is_quiet(s, after) && next is None ==> after.remaining() == 0
        }),
{
    broadcast use lemma_kept_one;

    reveal(State::datatype_operators);
    lemma_operator_chain(s, seq![first]);
    lemma_advance(s);
    assert(order::node_tokens(seq![first]) =~= seq![first.token]);
}

/// The tokens of a construct that count.
spec fn of<'a>(construct: ConstructView<'a>) -> Seq<SpannedToken<'a>> {
    kept(order::tokens_of(construct))
}

spec fn of_all<'a>(constructs: Seq<ConstructView<'a>>) -> Seq<SpannedToken<'a>> {
    kept(order::all_tokens_of(constructs))
}

spec fn of_read<'a>(construct: Option<ConstructView<'a>>) -> Seq<SpannedToken<'a>> {
    match construct {
        Some(construct) => of(construct),
        None => Seq::empty(),
    }
}

/// Whether a datatype was read from some tokens and those behind them, or something was
/// reported.
spec fn is_whole<'a>(
    front: Seq<SpannedToken<'a>>,
    s: State<'a>,
    datatype: (State<'a>, StatusView<'a>, Option<ConstructView<'a>>),
) -> bool {
    is_quiet(s, datatype.0) ==> {
        &&& datatype.2 is Some
        &&& front + read(s, datatype.0) == of(datatype.2->0) + pending(datatype.1)
    }
}

proof fn lemma_math<'a>(
    left: ConstructView<'a>,
    operators: Seq<NodeView<'a>>,
    right: Option<ConstructView<'a>>,
)
    ensures
        of(super::datatype::math(left, operators, right)) == of(left) + kept(
            order::node_tokens(operators),
        ) + of_read(right),
{
    broadcast use lemma_kept;

    reveal_with_fuel(order::tokens_of, 3);
    let none = Seq::<SpannedToken>::empty();
    assert(kept(none) =~= none);
    assert(of(super::datatype::math(left, operators, right)) =~= of(left) + (kept(
        order::node_tokens(operators),
    ) + of_read(right)));
    assert(of(super::datatype::math(left, operators, right)) =~= of(left) + kept(
        order::node_tokens(operators),
    ) + of_read(right));
}

proof fn lemma_node<'a>(node: NodeView<'a>)
    ensures
        of(ConstructView::Node { node }) == one(node.token),
{
    broadcast use lemma_kept_one;

}

/// Reading a datatype only adds diagnostics.
proof fn lemma_datatype_leads<'a>(s: State<'a>, node: Option<NodeView<'a>>, delimiters: Delimiters)
    ensures
        origin::leads_to(s, s.datatype(node, delimiters).0),
        origin::leads_to(s, s.datatype_part(node, delimiters).0),
{
    report::lemma_datatype_part(s, node, delimiters, s);
    report::lemma_datatype(s, node, delimiters, s);
}

proof fn lemma_operation_leads<'a>(
    s: State<'a>,
    node: Option<NodeView<'a>>,
    last_datatype: ConstructView<'a>,
    last_precedence: usize,
    last_operators: Seq<NodeView<'a>>,
    delimiters: Delimiters,
)
    ensures
        origin::leads_to(
            s,
            s.datatype_operation(
                node,
                last_datatype,
                last_precedence,
                last_operators,
                delimiters,
            ).0,
        ),
{
    report::lemma_datatype_operation(
        s,
        node,
        last_datatype,
        last_precedence,
        last_operators,
        delimiters,
        s,
    );
}

proof fn lemma_sum<'a>(
    a: Seq<SpannedToken<'a>>,
    b: Seq<SpannedToken<'a>>,
    c: Seq<SpannedToken<'a>>,
)
    ensures
        a + b + c == a + (b + c),
{
    assert(a + b + c =~= a + (b + c));
}

proof fn lemma_sum_none<'a>(a: Seq<SpannedToken<'a>>)
    ensures
        a + Seq::<SpannedToken<'a>>::empty() == a,
        Seq::<SpannedToken<'a>>::empty() + a == a,
{
    assert(a + Seq::<SpannedToken<'a>>::empty() =~= a);
    assert(Seq::<SpannedToken<'a>>::empty() + a =~= a);
}

/// The operators behind an operand, and the token behind them, are read from where the operand
/// ends.
proof fn lemma_operators_behind<'a>(
    front: Seq<SpannedToken<'a>>,
    operand: Seq<SpannedToken<'a>>,
    s: State<'a>,
    s1: State<'a>,
)
    requires
        is_inside(s),
        origin::leads_to(s, s1),
        is_quiet(s, s1) ==> front + read(s, s1) == operand,
        s1.advance().1 is Some,
        token::precedence_of(s1.advance().1->0.token.1) is Some,
    ensures
        ({
            let (s2, middle) = s1.advance();
            let precedence = token::precedence_of(middle->0.token.1)->0;
            let (s3, right, operators) = s2.datatype_operators(middle->0, precedence);
            &&& origin::leads_to(s, s3)
            &&& is_inside(s3)
            &&& s3.remaining() < s.remaining()
            &&& is_quiet(s, s3) ==> front + read(s, s3) == operand + kept(
                order::node_tokens(operators),
            ) + own(right)
        }),
{
    lemma_advance(s1);
    super::lemma_advance_without_flags(s1);
    let (s2, middle) = s1.advance();
    let precedence = token::precedence_of(middle->0.token.1)->0;
    lemma_datatype_operators(s2, middle->0, precedence);
    let (s3, right, operators) = s2.datatype_operators(middle->0, precedence);
    lemma_read_twice(s, s1, s2);
    lemma_read_twice(s, s2, s3);
    if is_quiet(s, s3) {
        let ops = kept(order::node_tokens(operators));
        lemma_sum(read(s, s1), one(middle->0.token), read(s2, s3));
        lemma_sum(front, read(s, s1), one(middle->0.token) + read(s2, s3));
        lemma_sum(operand, ops, own(right));
    }
}

/// Where no operator follows, the next token is read from where the operand ends.
proof fn lemma_nothing_behind<'a>(
    front: Seq<SpannedToken<'a>>,
    operand: Seq<SpannedToken<'a>>,
    s: State<'a>,
    s1: State<'a>,
)
    requires
        is_inside(s),
        origin::leads_to(s, s1),
        is_quiet(s, s1) ==> front + read(s, s1) == operand,
    ensures
        is_quiet(s, s1.advance().0) ==> front + read(s, s1.advance().0) == operand + own(
            s1.advance().1,
        ),
        origin::leads_to(s, s1.advance().0),
{
    lemma_advance(s1);
    let (s2, middle) = s1.advance();
    lemma_read_twice(s, s1, s2);
    lemma_sum(front, read(s, s1), own(middle));
}

proof fn lemma_pending<'a>(node: Option<NodeView<'a>>)
    ensures
        pending(super::status_of(node)) == own(node),
{
}

#[verifier::rlimit(100)]
proof fn lemma_datatype<'a>(s: State<'a>, node: Option<NodeView<'a>>, delimiters: Delimiters)
    requires
        is_inside(s),
    ensures
        is_whole(own(node), s, s.datatype(node, delimiters)),
    decreases s.remaining(), 5nat,
{
    lemma_datatype_leads(s, node, delimiters);
    lemma_datatype_part(s, node, delimiters);
    let (after, _, result) = s.datatype(node, delimiters);
    let (s1, status, construct) = s.datatype_part(node, delimiters);
    if construct is Some && status is Exists {
        let left = construct->0;
        lemma_sum_none(of(left));
        let (s2, middle) = s1.advance();
        lemma_pending(middle);
        if middle is Some && token::precedence_of(middle->0.token.1) is Some {
            lemma_operators_behind(own(node), of(left), s, s1);
            let precedence = token::precedence_of(middle->0.token.1)->0;
            let (s3, right, operators) = s2.datatype_operators(middle->0, precedence);
            if super::is_kind(right, |t: Token| t is SemiColon) {
                assert(!is_quiet(s, after));
            } else {
                lemma_datatype_operation(s3, right, left, precedence, operators, delimiters);
                lemma_operation_leads(s3, right, left, precedence, operators, delimiters);
                lemma_read_twice(s, s3, after);
                lemma_sum(own(node), read(s, s3), read(s3, after));
            }
        } else {
            lemma_nothing_behind(own(node), of(left), s, s1);
        }
    }
}

#[verifier::rlimit(100)]
proof fn lemma_datatype_operation<'a>(
    s: State<'a>,
    node: Option<NodeView<'a>>,
    last_datatype: ConstructView<'a>,
    last_precedence: usize,
    last_operators: Seq<NodeView<'a>>,
    delimiters: Delimiters,
)
    requires
        is_inside(s),
    ensures
        is_whole(
            of(last_datatype) + kept(order::node_tokens(last_operators)) + own(node),
            s,
            s.datatype_operation(
                node,
                last_datatype,
                last_precedence,
                last_operators,
                delimiters,
            ),
        ),
    decreases s.remaining(), 5nat,
{
    lemma_datatype_leads(s, node, delimiters);
    lemma_datatype_part(s, node, delimiters);
    let base = of(last_datatype) + kept(order::node_tokens(last_operators));
    let front = base + own(node);
    let (after, _, result) = s.datatype_operation(
        node,
        last_datatype,
        last_precedence,
        last_operators,
        delimiters,
    );
    let (s1, status, construct) = s.datatype_part(node, delimiters);
    let so_far = super::datatype::math(last_datatype, last_operators, construct);
    lemma_math(last_datatype, last_operators, construct);
    if is_quiet(s, s1) {
        lemma_sum(base, own(node), read(s, s1));
        lemma_sum(base, of(construct->0), pending(status));
        assert(front + read(s, s1) == of(so_far) + pending(status));
    }
    if construct is Some && status is Exists {
        let left = construct->0;
        lemma_sum_none(of(so_far));
        let (s2, middle) = s1.advance();
        lemma_pending(middle);
        if middle is Some && token::precedence_of(middle->0.token.1) is Some {
            lemma_operators_behind(front, of(so_far), s, s1);
            let precedence = token::precedence_of(middle->0.token.1)->0;
            let (s3, right, operators) = s2.datatype_operators(middle->0, precedence);
            let ops = kept(order::node_tokens(operators));
            if super::is_kind(right, |t: Token| t is SemiColon) {
                assert(!is_quiet(s, after));
            } else if precedence > last_precedence {
                lemma_datatype_operation(s3, right, left, precedence, operators, delimiters);
                lemma_operation_leads(s3, right, left, precedence, operators, delimiters);
                let (s4, status, inner) = s3.datatype_operation(
                    right,
                    left,
                    precedence,
                    operators,
                    delimiters,
                );
                lemma_read_twice(s, s3, s4);
                lemma_math(last_datatype, last_operators, inner);
                if is_quiet(s, s4) {
                    let rest = of(left) + ops + own(right);
                    lemma_sum(front, read(s, s3), read(s3, s4));
                    lemma_sum(base, of(left), ops);
                    lemma_sum(base, of(left) + ops, own(right));
                    assert(of(so_far) + ops + own(right) == base + rest);
                    lemma_sum(base, rest, read(s3, s4));
                    lemma_sum(base, of(inner->0), pending(status));
                }
            } else {
                lemma_datatype_operation(s3, right, so_far, precedence, operators, delimiters);
                lemma_operation_leads(s3, right, so_far, precedence, operators, delimiters);
                lemma_read_twice(s, s3, after);
                lemma_sum(front, read(s, s3), read(s3, after));
            }
        } else {
            lemma_nothing_behind(front, of(so_far), s, s1);
        }
    }
}

#[verifier::rlimit(100)]
proof fn lemma_datatype_part<'a>(s: State<'a>, node: Option<NodeView<'a>>, delimiters: Delimiters)
    requires
        is_inside(s),
    ensures
        is_whole(own(node), s, s.datatype_part(node, delimiters)),
    decreases s.remaining(), 4nat,
{
    broadcast use {lemma_kept, lemma_kept_one};

    report::lemma_datatype_part(s, node, delimiters, s);
    super::lemma_optional_kind_else_advance_until(s, node, TokenSet::Datatype, delimiters);
    report::lemma_kind_else_advance_until(s, node, TokenSet::Datatype, delimiters, s);
    lemma_kind_else_advance_until(s, node, TokenSet::Datatype, delimiters);
    let (after, status, construct) = s.datatype_part(node, delimiters);
    match s.optional_kind_else_advance_until(node, TokenSet::Datatype, delimiters) {
        (s1, Some(Ok(found))) => {
            if s1 == s {
                lemma_node(found);
                lemma_read_none(s, s);
                match found.token.1 {
                    Token::Identifier(_) => {
                        lemma_annotated_table(s, found);
                    },
                    Token::ParensOpen => {
                        lemma_table_body(s, found);
                        assert(own(node) + read(s, after) =~= read(s, after));
                    },
                    Token::EnumKeyword => {
                        lemma_enum_datatype(s, found);
                    },
                    Token::MacroCallIdentifier(_) => {
                        lemma_macro_call_body(s, found);
                    },
                    Token::OpSub => {
                        super::lemma_advance_without_flags(s);
                        lemma_advance(s);
                        let (s2, next) = s.advance();
                        if next is Some {
                            lemma_datatype_part(s2, next, delimiters);
                            report::lemma_datatype_part(s2, next, delimiters, s);
                            let (s3, status, operand) = s2.datatype_part(next, delimiters);
                            lemma_read_twice(s, s2, s3);
                            if is_quiet(s, s3) {
                                assert(construct->0 == ConstructView::UnaryMinus {
                                    operator: found,
                                    operand: Box::new(operand->0),
                                });
                                assert(of(construct->0) =~= one(found.token) + of(operand->0));
                                assert(own(node) + read(s, s3) =~= one(found.token) + (own(next)
                                    + read(s2, s3)));
                                assert(own(node) + read(s, s3) =~= of(construct->0) + pending(
                                    status,
                                ));
                            }
                        } else {
                            assert(!is_quiet(s, after));
                        }
                    },
                    Token::StringMulti(string) => {
                        assert(own(node) + read(s, s) =~= one(found.token) + pending(
                            StatusView::Exists,
                        ));
                    },
                    _ => {
                        assert(own(node) + read(s, s) =~= one(found.token) + pending(
                            StatusView::Exists,
                        ));
                    },
                }
            } else {
                assert(!is_quiet(s, s1));
                lemma_part_is_loud(s1, found, delimiters);
                assert(origin::leads_to(s, s1));
            }
        },
        _ => {},
    }
}

/// What is read behind a token only adds diagnostics.
proof fn lemma_part_is_loud<'a>(s: State<'a>, node: NodeView<'a>, delimiters: Delimiters)
    ensures
        node.token.1 is Identifier ==> origin::leads_to(s, s.annotated_table(node).0),
        node.token.1 is ParensOpen ==> origin::leads_to(s, s.table_body(node).0),
        node.token.1 is EnumKeyword ==> origin::leads_to(s, s.enum_datatype(node).0),
        origin::leads_to(s, s.macro_call_body(node).0),
        origin::leads_to(s, s.advance().0),
        origin::leads_to(
            s.advance().0,
            s.advance().0.datatype_part(s.advance().1, delimiters).0,
        ),
{
    report::lemma_annotated_table(s, node, s);
    report::lemma_table_body(s, node, s);
    report::lemma_enum_datatype(s, node, s);
    report::lemma_macro_call_body(s, node, s);
    origin::lemma_advance(s);
    report::lemma_datatype_part(s.advance().0, s.advance().1, delimiters, s);
}

proof fn lemma_of_push<'a>(content: Seq<ConstructView<'a>>, c: ConstructView<'a>)
    ensures
        of_all(content.push(c)) == of_all(content) + of(c),
{
    broadcast use lemma_kept;

    assert(content.push(c).drop_last() =~= content);
}

proof fn lemma_of_none<'a>()
    ensures
        of_all(Seq::<ConstructView<'a>>::empty()) == Seq::<SpannedToken<'a>>::empty(),
{
    assert(order::all_tokens_of(Seq::<ConstructView<'a>>::empty()) =~= Seq::empty());
}

#[verifier::rlimit(60)]
proof fn lemma_table_arg<'a>(
    s: State<'a>,
    this: Option<NodeView<'a>>,
    group: ConstructView<'a>,
    groups: Seq<ConstructView<'a>>,
)
    requires
        is_inside(s),
    ensures
        ({
            let (after, all, next) = s.table_arg(this, group, groups);
            &&& origin::leads_to(s, after)
            &&& is_inside(after)
            &&& is_quiet(s, after) ==> of_all(groups) + of(group) + own(this) + read(s, after)
                == of_all(all) + (match next {
                Some(Ok(node)) => one(node.token),
                _ => Seq::empty(),
            })
            &&& is_quiet(s, after) && next is Some && next->0 is Ok ==> after.position > s.position
            &&& next matches Some(Err(node)) ==> node.token.1 is ParensClose
        }),
{
    report::lemma_table_arg(s, this, group, groups, s);
    lemma_advance(s);
    lemma_read_none(s, s);
    lemma_of_push(groups, group);
    let (after, all, next) = s.table_arg(this, group, groups);
    let front = of_all(groups) + of(group);
    match this {
        None => {
            assert(front + own(this) + read(s, after) =~= of_all(all));
        },
        Some(this_node) => {
            lemma_node(this_node);
            lemma_of_push(groups.push(group), ConstructView::Node { node: this_node });
            match this_node.token.1 {
                Token::Comma => {
                    if let (s1, Some(node)) = s.advance() {
                        if !(node.token.1 is ParensClose) && is_quiet(s, after) {
                            assert(front + own(this) + read(s, after) =~= of_all(all) + one(
                                node.token,
                            ));
                        }
                    } else if is_quiet(s, after) {
                        assert(front + own(this) + read(s, after) =~= of_all(all));
                    }
                },
                Token::ParensClose => {
                    assert(front + own(this) + read(s, after) =~= of_all(all));
                },
                _ => {},
            }
        },
    }
}

proof fn lemma_consume<'a>(s: State<'a>, status: StatusView<'a>)
    requires
        is_inside(s),
    ensures
        origin::leads_to(s, s.consume(status).0),
        is_inside(s.consume(status).0),
        is_quiet(s, s.consume(status).0) ==> pending(status) + read(s, s.consume(status).0) == own(
            s.consume(status).1,
        ),
{
    lemma_advance(s);
    lemma_read_none(s, s);
    let (after, node) = s.consume(status);
    if is_quiet(s, after) {
        assert(pending(status) + read(s, after) =~= own(node));
    }
}

#[verifier::rlimit(100)]
proof fn lemma_table_args<'a>(s: State<'a>, node: NodeView<'a>)
    requires
        is_inside(s),
    ensures
        ({
            let (after, close, groups) = s.table_args(node);
            is_quiet(s, after) && super::is_kind(close, |t: Token| t is ParensClose)
                ==> groups is Some && one(node.token) + read(s, after) == of_all(groups->0)
        }),
    decreases s.remaining(), 6nat,
{
    report::lemma_datatype(s, Some(node), Delimiters::InsideParens, s);
    lemma_datatype(s, Some(node), Delimiters::InsideParens);
    report::lemma_table_args(s, node, s);
    lemma_of_none();
    let (after, close, all) = s.table_args(node);
    let (s1, status, group) = s.datatype(Some(node), Delimiters::InsideParens);
    if let Some(group) = group {
        lemma_consume(s1, status);
        let (s2, this) = s1.consume(status);
        lemma_read_twice(s, s1, s2);
        lemma_table_arg(s2, this, group, seq![]);
        let (s3, groups, next) = s2.table_arg(this, group, seq![]);
        lemma_read_twice(s, s2, s3);
        let rest = match next {
            Some(Ok(node)) => one(node.token),
            _ => Seq::empty(),
        };
        let first = one(node.token);
        lemma_sum(first, read(s, s1), read(s1, s2));
        lemma_sum(of(group), pending(status), read(s1, s2));
        lemma_sum_none(of(group));
        lemma_sum(first, read(s, s2), read(s2, s3));
        lemma_sum_none(of_all(groups));
        if is_quiet(s, s3) {
            assert(first + read(s, s2) == of(group) + own(this));
            assert(first + read(s, s3) == of_all(groups) + rest);
        }
        if let Some(Ok(node1)) = next {
            if s3.remaining() < s.remaining() {
                lemma_table_args_rest(s3, node1, groups);
                report::lemma_table_args_rest(s3, node1, groups, s);
                lemma_read_twice(s, s3, after);
                lemma_sum(first, read(s, s3), read(s3, after));
            }
        }
    }
}

#[verifier::rlimit(100)]
proof fn lemma_table_args_rest<'a>(
    s: State<'a>,
    node: NodeView<'a>,
    before: Seq<ConstructView<'a>>,
)
    requires
        is_inside(s),
    ensures
        ({
            let (after, close, groups) = s.table_args_rest(node, before);
            is_quiet(s, after) && super::is_kind(close, |t: Token| t is ParensClose)
                ==> groups is Some && of_all(before) + one(node.token) + read(s, after) == of_all(
                groups->0,
            )
        }),
    decreases s.remaining(), 6nat,
{
    report::lemma_datatype(s, Some(node), Delimiters::InsideParens, s);
    lemma_datatype(s, Some(node), Delimiters::InsideParens);
    report::lemma_table_args_rest(s, node, before, s);
    let (after, close, all) = s.table_args_rest(node, before);
    let (s1, status, group) = s.datatype(Some(node), Delimiters::InsideParens);
    lemma_consume(s1, status);
    let (s2, this) = s1.consume(status);
    lemma_read_twice(s, s1, s2);
    if let Some(group) = group {
        lemma_table_arg(s2, this, group, before);
        let (s3, groups, next) = s2.table_arg(this, group, before);
        lemma_read_twice(s, s2, s3);
        let rest = match next {
            Some(Ok(node)) => one(node.token),
            _ => Seq::empty(),
        };
        let first = one(node.token);
        let front = of_all(before) + first;
        lemma_sum(first, read(s, s1), read(s1, s2));
        lemma_sum(of(group), pending(status), read(s1, s2));
        lemma_sum(of_all(before), first, read(s, s2));
        lemma_sum(of_all(before), of(group), own(this));
        lemma_sum(front, read(s, s2), read(s2, s3));
        lemma_sum_none(of_all(groups));
        if is_quiet(s, s3) {
            assert(first + read(s, s2) == of(group) + own(this));
            assert(front + read(s, s3) == of_all(groups) + rest);
        }
        if let Some(Ok(node1)) = next {
            if s3.remaining() < s.remaining() {
                lemma_table_args_rest(s3, node1, groups);
                report::lemma_table_args_rest(s3, node1, groups, s);
                lemma_read_twice(s, s3, after);
                lemma_sum(front, read(s, s3), read(s3, after));
            }
        }
    }
}

/// The tokens between round brackets that count.
proof fn lemma_of_table<'a>(
    open: NodeView<'a>,
    groups: Option<Seq<ConstructView<'a>>>,
    close: NodeView<'a>,
)
    requires
        open.token.1 is ParensOpen,
        close.token.1 is ParensClose,
    ensures
        kept(
            order::delimited_tokens(
                DelimitedView { left: open, content: groups, right: Some(close) },
            ),
        ) == (match groups {
            Some(groups) => of_all(groups),
            None => Seq::empty(),
        }),
{
    broadcast use {lemma_kept, lemma_kept_one};

    let body = DelimitedView { left: open, content: groups, right: Some(close) };
    let inside = match groups {
        Some(groups) => order::all_tokens_of(groups),
        None => Seq::empty(),
    };
    assert(order::delimited_tokens(body) == seq![open.token] + (inside + seq![close.token]));
    assert(kept(order::delimited_tokens(body)) =~= kept(inside));
}

#[verifier::rlimit(60)]
proof fn lemma_table_body<'a>(s: State<'a>, open: NodeView<'a>)
    requires
        is_inside(s),
        open.token.1 is ParensOpen,
    ensures
        ({
            let (after, status, body) = s.table_body(open);
            is_quiet(s, after) ==> read(s, after) == of(ConstructView::Table { body }) + pending(
                status,
            ) && kept(order::delimited_tokens(body)) == of(ConstructView::Table { body })
        }),
    decreases s.remaining(), 2nat,
{
    reveal_with_fuel(order::tokens_of, 3);
    super::lemma_advance_without_flags(s);
    lemma_advance(s);
    let (after, status, body) = s.table_body(open);
    if let (s1, Some(node)) = s.advance() {
        if node.token.1 is ParensClose {
            lemma_of_table(open, None, node);
            if is_quiet(s, after) {
                assert(read(s, after) =~= of(ConstructView::Table { body }) + pending(status));
            }
        } else {
            lemma_table_args(s1, node);
            report::lemma_table_args(s1, node, s);
            let (s2, close, groups) = s1.table_args(node);
            lemma_read_twice(s, s1, s2);
            if super::is_kind(close, |t: Token| t is ParensClose) {
                lemma_of_table(open, groups, close->0);
                if is_quiet(s, after) {
                    assert(read(s, after) =~= of(ConstructView::Table { body }) + pending(status));
                }
            }
        }
    }
}

#[verifier::rlimit(60)]
proof fn lemma_annotated_table<'a>(s: State<'a>, annotation: NodeView<'a>)
    requires
        is_inside(s),
    ensures
        is_whole(one(annotation.token), s, s.annotated_table(annotation)),
    decreases s.remaining(), 3nat,
{
    broadcast use {lemma_kept, lemma_kept_one};

    reveal_with_fuel(order::tokens_of, 4);
    super::lemma_advance_without_flags(s);
    lemma_advance(s);
    let (after, status, construct) = s.annotated_table(annotation);
    if let (s1, Some(node)) = s.advance() {
        if node.token.1 is ParensOpen {
            lemma_table_body(s1, node);
            report::lemma_table_body(s1, node, s);
            let (s2, status, body) = s1.table_body(node);
            lemma_read_twice(s, s1, s2);
            if is_quiet(s, s2) {
                assert(of(construct->0) =~= one(annotation.token) + kept(
                    order::delimited_tokens(body),
                ));
                assert(read(s, s2) =~= read(s1, s2));
                assert(one(annotation.token) + read(s, s2) =~= of(construct->0) + pending(status));
            }
        }
    }
}

#[verifier::rlimit(60)]
proof fn lemma_enum_datatype<'a>(s: State<'a>, keyword: NodeView<'a>)
    requires
        is_inside(s),
    ensures
        is_whole(one(keyword.token), s, s.enum_datatype(keyword)),
{
    broadcast use {lemma_kept, lemma_kept_one, lemma_kept_optional};

    reveal(State::enum_datatype);
    lemma_advance_until(s, TokenSet::EnumPart, Delimiters::Construct);
    let (after, status, construct) = s.enum_datatype(keyword);
    if let (s1, Some(Ok(name))) = s.advance_until(TokenSet::EnumPart, Delimiters::Construct) {
        lemma_advance_until(s1, TokenSet::EnumPart, Delimiters::Construct);
        let (s2, found) = s1.advance_until(TokenSet::EnumPart, Delimiters::Construct);
        lemma_read_twice(s, s1, s2);
        if let Some(Ok(variant)) = found {
            lemma_advance(s2);
            let (s3, next) = s2.advance();
            lemma_read_twice(s, s2, s3);
            if is_quiet(s, s3) {
                assert(of(construct->0) =~= one(keyword.token) + (one(name.token) + one(
                    variant.token,
                )));
                assert(one(keyword.token) + read(s, s3) =~= of(construct->0) + own(next));
            }
        }
    }
}

#[verifier::rlimit(60)]
proof fn lemma_macro_call_content<'a>(
    s: State<'a>,
    nestedness: nat,
    content: Seq<ConstructView<'a>>,
)
    requires
        is_inside(s),
    ensures
        ({
            let (after, all, close) = s.macro_call_content(nestedness, content);
            is_quiet(s, after) && close is Some ==> of_all(content) + read(s, after) == of_all(all)
        }),
    decreases s.remaining(),
{
    reveal_with_fuel(State::macro_call_content, 2);
    super::lemma_advance_without_flags(s);
    lemma_advance(s);
    let (after, all, close) = s.macro_call_content(nestedness, content);
    if let (s1, Some(node)) = s.advance() {
        match node.token.1 {
            Token::ParensOpen => {
                lemma_macro_call_content(s1, nestedness + 1, content);
                report::lemma_macro_call_content(s1, nestedness + 1, content);
                lemma_read_twice(s, s1, after);
                if is_quiet(s, after) {
                    assert(read(s, after) =~= read(s1, after));
                }
            },
            Token::ParensClose => if nestedness != 0 {
                lemma_macro_call_content(s1, (nestedness - 1) as nat, content);
                report::lemma_macro_call_content(s1, (nestedness - 1) as nat, content);
                lemma_read_twice(s, s1, after);
                if is_quiet(s, after) {
                    assert(read(s, after) =~= read(s1, after));
                }
            } else {
                if is_quiet(s, after) {
                    assert(of_all(content) + read(s, after) =~= of_all(content));
                }
            },
            _ => {
                let more = content.push(ConstructView::Node { node });
                lemma_node(node);
                lemma_of_push(content, ConstructView::Node { node });
                lemma_macro_call_content(s1, nestedness, more);
                report::lemma_macro_call_content(s1, nestedness, more);
                lemma_read_twice(s, s1, after);
                if is_quiet(s, after) {
                    assert(of_all(content) + read(s, after) =~= of_all(more) + read(s1, after));
                }
            },
        }
    }
}

/// Whether a construct was read from a token and those behind it, with the next token, or
/// something was reported. Without a next token the document is at its end.
spec fn is_part<'a>(
    node: NodeView<'a>,
    s: State<'a>,
    part: (State<'a>, Option<NodeView<'a>>, Option<ConstructView<'a>>),
) -> bool {
    is_quiet(s, part.0) ==> {
        &&& one(node.token) + read(s, part.0) == of_read(part.2) + own(part.1)
        &&& part.1 is None ==> part.0.remaining() == 0
        &&& part.1 is Some ==> part.0.position > s.position || part == (
            s,
            Some(node),
            None::<ConstructView<'a>>,
        )
    }
}

#[verifier::rlimit(60)]
proof fn lemma_macro_call_body<'a>(s: State<'a>, name: NodeView<'a>)
    requires
        is_inside(s),
    ensures
        is_part(name, s, s.macro_call_body(name)),
        s.macro_call_body(name).2 is Some,
{
    broadcast use {lemma_kept, lemma_kept_one, lemma_kept_optional};

    reveal_with_fuel(order::tokens_of, 4);
    reveal(State::macro_call_body);
    report::lemma_advance_until(s, TokenSet::ParensOpen, Delimiters::Construct, s);
    lemma_advance_until(s, TokenSet::ParensOpen, Delimiters::Construct);
    let (after, next, construct) = s.macro_call_body(name);
    if let (s1, Some(Ok(open))) = s.advance_until(TokenSet::ParensOpen, Delimiters::Construct) {
        lemma_macro_call_content(s1, 0, seq![]);
        report::lemma_macro_call_content(s1, 0, seq![]);
        lemma_of_none();
        let (s2, content, close) = s1.macro_call_content(0, seq![]);
        lemma_read_twice(s, s1, s2);
        if close is Some {
            lemma_advance_until(s2, TokenSet::SemiColon, Delimiters::Construct);
            let (s3, found) = s2.advance_until(TokenSet::SemiColon, Delimiters::Construct);
            lemma_read_twice(s, s2, s3);
            if let Some(Ok(terminator)) = found {
                lemma_advance(s3);
                lemma_read_twice(s, s3, after);
                if is_quiet(s, after) {
                    lemma_of_table(open, Some(content), close->0);
                    assert(of(construct->0) =~= one(name.token) + (of_all(content) + one(
                        terminator.token,
                    )));
                    assert(read(s, s1) =~= Seq::empty());
                    assert(of_all(seq![]) + read(s1, s2) =~= read(s1, s2));
                    assert(read(s, s2) =~= of_all(content));
                    assert(one(name.token) + read(s, after) =~= of(construct->0) + own(next));
                }
            }
        }
    }
}

/// Whether a construct was read from some tokens and those behind them, with the next token, or
/// something was reported.
spec fn is_ended<'a>(
    front: Seq<SpannedToken<'a>>,
    s: State<'a>,
    part: (State<'a>, Option<NodeView<'a>>, Option<ConstructView<'a>>),
) -> bool {
    is_quiet(s, part.0) ==> {
        &&& front + read(s, part.0) == of_read(part.2) + own(part.1)
        &&& part.1 is None ==> part.0.remaining() == 0
        &&& part.1 is Some ==> part.0.position > s.position
    }
}

proof fn lemma_datatype_behind<'a>(s: State<'a>)
    requires
        is_inside(s),
    ensures
        ({
            let (after, status, body) = s.datatype_behind();
            &&& origin::leads_to(s, after)
            &&& is_inside(after)
            &&& !(status is Exists)
            &&& is_quiet(s, after) ==> body is Some && read(s, after) == of(body->0) + pending(
                status,
            )
        }),
{
    reveal(State::datatype_behind);
    report::lemma_datatype_behind(s, s);
    lemma_advance(s);
    let (s1, node) = s.advance_without_flags();
    let s2 = s1.advanced();
    assert(origin::leads_to(s, s2));
    lemma_datatype(s2, node, Delimiters::Construct);
    lemma_datatype_leads(s2, node, Delimiters::Construct);
    let (after, _, _) = s2.datatype(node, Delimiters::Construct);
    lemma_read_twice(s, s2, after);
    assert(read(s, s2) == read(s, s.advance().0));
}

proof fn lemma_terminate<'a>(s: State<'a>, status: StatusView<'a>, at: usize)
    requires
        !(status is Exists),
    ensures
        origin::leads_to(s, s.terminate(status, at).0),
        is_quiet(s, s.terminate(status, at).0) ==> s.terminate(status, at).0 == s && s.terminate(
            status,
            at,
        ).1 is Ok && status == StatusView::Stopped(s.terminate(status, at).1->Ok_0),
{
    reveal(State::terminate);
    report::lemma_terminate(s, status, at, s);
}

/// What follows the value of a construct: the semicolon and the next token.
#[verifier::rlimit(60)]
proof fn lemma_value_and_terminator<'a>(s: State<'a>, at: usize)
    requires
        is_inside(s),
    ensures
        ({
            let (s1, status, body) = s.datatype_behind();
            let (s2, terminator) = s1.terminate(status, at);
            let (after, next) = s2.advance();
            &&& origin::leads_to(s, s2)
            &&& is_quiet(s, s2) ==> terminator is Ok && body is Some
            &&& is_quiet(s, after) ==> read(s, after) == of(body->0) + one(terminator->Ok_0.token)
                + own(next)
            &&& is_quiet(s, after) && next is None ==> after.remaining() == 0
            &&& next is Some ==> after.position > s.position
        }),
{
    lemma_datatype_behind(s);
    let (s1, status, body) = s.datatype_behind();
    lemma_terminate(s1, status, at);
    let (s2, terminator) = s1.terminate(status, at);
    lemma_read_twice(s, s1, s2);
    lemma_advance(s2);
    let (after, next) = s2.advance();
    lemma_read_twice(s, s2, after);
    lemma_read_none(s1, s1);
    if is_quiet(s, after) {
        lemma_sum_none(read(s, s1));
        assert(read(s, s2) =~= read(s, s1));
    }
}

#[verifier::rlimit(60)]
proof fn lemma_declaration<'a>(s: State<'a>, node: NodeView<'a>, kind: DeclarationKind)
    requires
        is_inside(s),
    ensures
        is_part(node, s, s.declaration(node, kind)),
{
    broadcast use {lemma_kept, lemma_kept_one, lemma_kept_optional};

    reveal(State::declaration);
    reveal_with_fuel(order::tokens_of, 3);
    let (after, next, construct) = s.declaration(node, kind);
    let (s1, status, body) = s.datatype_behind();
    let at = super::declared(kind, node, body, None).end();
    lemma_value_and_terminator(s, at);
    lemma_read_none(s, s);
    lemma_sum_none(one(node.token));
    if construct is Some {
        if let (s2, Ok(terminator)) = s1.terminate(status, at) {
            if is_quiet(s, after) {
                origin::lemma_advance(s2);
                assert(is_quiet(s, s2));
                assert(of(construct->0) =~= one(node.token) + (of(body->0) + one(
                    terminator.token,
                )));
                assert(one(node.token) + read(s, after) =~= of(construct->0) + own(next));
            }
        }
    }
}

#[verifier::rlimit(60)]
proof fn lemma_tween<'a>(s: State<'a>, node: NodeView<'a>)
    requires
        is_inside(s),
    ensures
        is_part(node, s, s.tween(node)),
{
    broadcast use {lemma_kept, lemma_kept_one, lemma_kept_optional};

    reveal(State::tween);
    reveal_with_fuel(order::tokens_of, 3);
    lemma_read_none(s, s);
    lemma_sum_none(one(node.token));
    lemma_advance_until(s, TokenSet::TweenName, Delimiters::Construct);
    let (after, next, construct) = s.tween(node);
    if construct is Some {
        if let (s1, Some(Ok(name))) = s.advance_until(TokenSet::TweenName, Delimiters::Construct) {
            let (s2, status, body) = s1.datatype_behind();
            let at = super::scope::tweened(node, Some(name), body, None).end();
            lemma_value_and_terminator(s1, at);
            if let (s3, Ok(terminator)) = s2.terminate(status, at) {
                origin::lemma_advance(s3);
                lemma_read_twice(s, s1, after);
                if is_quiet(s, after) {
                    assert(is_quiet(s1, s3));
                    assert(of(construct->0) =~= one(node.token) + (one(name.token) + (of(body->0)
                        + one(terminator.token))));
                    assert(one(node.token) + read(s, after) =~= of(construct->0) + own(next));
                }
            }
        }
    }
}

#[verifier::rlimit(60)]
proof fn lemma_assigned_value<'a>(s: State<'a>, left: NodeView<'a>, middle: NodeView<'a>)
    requires
        is_inside(s),
    ensures
        is_ended(one(left.token) + one(middle.token), s, s.assigned_value(left, middle)),
        origin::leads_to(s, s.assigned_value(left, middle).0),
{
    broadcast use {lemma_kept, lemma_kept_one, lemma_kept_optional};

    reveal(State::assigned_value);
    reveal_with_fuel(order::tokens_of, 3);
    let (after, next, construct) = s.assigned_value(left, middle);
    let (s1, status, body) = s.datatype_behind();
    let at = super::scope::assigned(left, middle, body, None).end();
    lemma_value_and_terminator(s, at);
    let (s2, found) = s1.terminate(status, at);
    origin::lemma_advance(s2);
    if let Ok(terminator) = found {
        if is_quiet(s, after) {
            assert(is_quiet(s, s2));
            assert(of(construct->0) =~= one(left.token) + (one(middle.token) + (of(body->0) + one(
                terminator.token,
            ))));
            assert(one(left.token) + one(middle.token) + read(s, after) =~= of(construct->0) + own(
                next,
            ));
        }
    }
}

#[verifier::rlimit(60)]
proof fn lemma_assignment<'a>(s: State<'a>, left: NodeView<'a>)
    requires
        is_inside(s),
    ensures
        is_part(left, s, s.assignment(left)),
{
    reveal(State::assignment);
    lemma_advance_until(s, TokenSet::Equals, Delimiters::Construct);
    let (after, next, construct) = s.assignment(left);
    if let (s1, Some(Ok(middle))) = s.advance_until(TokenSet::Equals, Delimiters::Construct) {
        lemma_assigned_value(s1, left, middle);
        lemma_read_twice(s, s1, after);
        lemma_sum(one(left.token), one(middle.token), read(s1, after));
    }
}

#[verifier::rlimit(60)]
proof fn lemma_part<'a>(s: State<'a>, node: NodeView<'a>, part: Part, scope: Scope)
    requires
        is_inside(s),
    ensures
        is_part(node, s, s.part(node, part, scope)),
    decreases s.remaining(), 2nat, 0nat,
{
    broadcast use lemma_kept_one;

    lemma_read_none(s, s);
    lemma_sum_none(one(node.token));
    match part {
        Part::Macro => {
            lemma_macro_declaration(s, node);
        },
        Part::MacroCall => {
            lemma_macro_call_body(s, node);
        },
        Part::Derive => {
            lemma_declaration(s, node, DeclarationKind::Derive);
        },
        Part::Priority => {
            lemma_declaration(s, node, DeclarationKind::Priority);
        },
        Part::Name => {
            lemma_declaration(s, node, DeclarationKind::Name);
        },
        Part::Tween => {
            lemma_tween(s, node);
        },
        Part::StaticTokenAssignment => {
            lemma_assignment(s, node);
        },
        Part::TokenAssignment => {
            lemma_assignment(s, node);
        },
        Part::PropertyOrRule => {
            lemma_property_or_rule(s, node);
        },
        Part::SelectorBegin => {
            lemma_selector_begin(s, node);
        },
        Part::InvalidDeclaration => {
            lemma_invalid_declaration(s, node);
        },
        Part::Absent => {
            lemma_advance(s);
            let (after, next) = s.advance();
            if node.token.1 is Absent && is_quiet(s, after) {
                assert(of(ConstructView::Absent { node }) =~= Seq::empty());
                lemma_sum_none(own(next));
            }
        },
    }
}

proof fn lemma_invalid_declaration<'a>(s: State<'a>, node: NodeView<'a>)
    ensures
        !(node.token.1 is InvalidDeclaration) ==> s.invalid_declaration(node) == (s, Some(node)),
        node.token.1 is InvalidDeclaration ==> !is_quiet(s, s.invalid_declaration(node).0),
{
    reveal(State::invalid_declaration);
    report::lemma_invalid_declaration(s, node);
    if let Token::InvalidDeclaration(name) = node.token.1 {
        let span = (node.token.0, node.token.2);
        let closest = match name {
            Some(name) => crate::parser::error::closest(
                "@"@ + name@,
                super::scope::declaration_names(),
            ),
            None => None,
        };
        let failed = s.fail(
            crate::parser::error::ParseError::UnexpectedTokens {
                msg: Some(
                    crate::parser::error::ParseErrorMessage::Correction {
                        closest,
                        range: s.range(span),
                    },
                ),
            },
            span,
        );
        origin::lemma_advance(failed);
    }
}

/// Whether constructs were read behind others, from a token and those behind it, with the next
/// token, or something was reported.
spec fn is_step<'a>(
    content: Seq<ConstructView<'a>>,
    node: NodeView<'a>,
    s: State<'a>,
    step: (State<'a>, Seq<ConstructView<'a>>, Option<NodeView<'a>>),
) -> bool {
    is_quiet(s, step.0) ==> {
        &&& of_all(content) + one(node.token) + read(s, step.0) == of_all(step.1) + own(step.2)
        &&& step.2 is None ==> step.0.remaining() == 0
        &&& step.2 is Some ==> step.0.position > s.position || step == (s, content, Some(node))
    }
}

#[verifier::rlimit(100)]
proof fn lemma_step<'a>(
    s: State<'a>,
    node: NodeView<'a>,
    content: Seq<ConstructView<'a>>,
    part: Part,
    scope: Scope,
)
    requires
        is_inside(s),
    ensures
        is_step(content, node, s, s.step(node, content, part, scope)),
    decreases s.remaining(), 3nat, part.rank(),
{
    report::lemma_part(s, node, part, scope, s);
    lemma_part(s, node, part, scope);
    let (s1, next, construct) = s.part(node, part, scope);
    let (s2, put) = s1.put(construct, content, part, scope);
    assert(origin::leads_to(s1, s2));
    lemma_read_twice(s, s1, s2);
    lemma_read_none(s1, s2);
    lemma_sum_none(read(s, s1));
    if is_quiet(s, s2) {
        if let Some(construct) = construct {
            lemma_of_push(content, construct);
        } else {
            lemma_sum_none(of_all(content));
        }
        lemma_sum(of_all(content), one(node.token), read(s, s2));
        lemma_sum(of_all(content), of_read(construct), own(next));
        assert(of_all(content) + one(node.token) + read(s, s2) == of_all(put) + own(next));
    }
    if let (Some(next), Some(following)) = (next, part.following()) {
        if s2.remaining() <= s.remaining() {
            lemma_step(s2, next, put, following, scope);
            report::lemma_step(s2, next, put, following, scope, s);
            let (after, all, last) = s2.step(next, put, following, scope);
            lemma_read_twice(s, s2, after);
            lemma_sum(of_all(content) + one(node.token), read(s, s2), read(s2, after));
        }
    }
}

#[verifier::rlimit(100)]
proof fn lemma_scope_loop<'a>(
    s: State<'a>,
    node: NodeView<'a>,
    content: Seq<ConstructView<'a>>,
    scope: Scope,
    error_span: Option<(usize, usize)>,
)
    requires
        is_inside(s),
    ensures
        ({
            let (after, all, close) = s.scope_loop(node, content, scope, error_span);
            is_quiet(s, after) && close is Some ==> error_span is None && of_all(content) + one(
                node.token,
            ) + read(s, after) == of_all(all) + own(close)
        }),
    decreases s.remaining(), 4nat, 0nat,
{
    report::lemma_step(s, node, content, Part::Macro, scope, s);
    lemma_step(s, node, content, Part::Macro, scope);
    report::lemma_scope_loop(s, node, content, scope, error_span, s);
    let (after, all, close) = s.scope_loop(node, content, scope, error_span);
    let front = of_all(content) + one(node.token);
    let (s1, more, next) = s.step(node, content, Part::Macro, scope);
    if let Some(next) = next {
        let ends = next.token.1 is ScopeClose;
        if s1.did_advance {
            let s2 = (State { did_advance: false, ..s1 }).fail_if(error_span);
            assert(origin::leads_to(s1, s2));
            lemma_read_twice(s, s1, s2);
            lemma_read_none(s1, s2);
            lemma_sum_none(read(s, s1));
            if !ends && s2.remaining() < s.remaining() {
                lemma_scope_loop(s2, next, more, scope, error_span);
                report::lemma_scope_loop(s2, next, more, scope, error_span, s);
                lemma_read_twice(s, s2, after);
                lemma_sum(front, read(s, s2), read(s2, after));
            }
        } else if ends {
            let s2 = s1.fail_if(error_span);
            assert(origin::leads_to(s1, s2));
            lemma_read_twice(s, s1, s2);
            lemma_read_none(s1, s2);
            lemma_sum_none(read(s, s1));
        } else {
            let span = super::scope::widened(error_span, next.token);
            origin::lemma_advance(s1);
            lemma_read_twice(s, s1, s1);
            lemma_advance(s1);
            let (s2, following) = s1.accept();
            assert(origin::leads_to(s1, s2));
            if let Some(following) = following {
                if s2.remaining() < s.remaining() {
                    lemma_read_twice(s, s1, s2);
                    lemma_scope_loop(s2, following, more, scope, span);
                    report::lemma_scope_loop(s2, following, more, scope, span, s);
                    lemma_read_twice(s, s2, after);
                }
            }
        }
    }
}

proof fn lemma_of_braced<'a>(
    open: NodeView<'a>,
    content: Option<Seq<ConstructView<'a>>>,
    close: NodeView<'a>,
)
    ensures
        kept(
            order::delimited_tokens(
                DelimitedView { left: open, content, right: Some(close) },
            ),
        ) == one(open.token) + (match content {
            Some(content) => of_all(content),
            None => Seq::empty(),
        }) + one(close.token),
{
    broadcast use {lemma_kept, lemma_kept_one};

    let body = DelimitedView { left: open, content, right: Some(close) };
    let inside = match content {
        Some(content) => order::all_tokens_of(content),
        None => Seq::empty(),
    };
    assert(order::delimited_tokens(body) == seq![open.token] + (inside + seq![close.token]));
    assert(kept(order::delimited_tokens(body)) =~= one(open.token) + kept(inside) + one(
        close.token,
    ));
}

/// Whether a stretch between brackets was read from its opening bracket and the tokens behind
/// it, with the next token, or something was reported.
spec fn is_enclosed<'a>(
    open: NodeView<'a>,
    s: State<'a>,
    braced: (State<'a>, Option<NodeView<'a>>, DelimitedView<'a>),
) -> bool {
    is_quiet(s, braced.0) ==> {
        &&& one(open.token) + read(s, braced.0) == kept(order::delimited_tokens(braced.2)) + own(
            braced.1,
        )
        &&& braced.1 is None ==> braced.0.remaining() == 0
        &&& braced.1 is Some ==> braced.0.position > s.position
    }
}

#[verifier::rlimit(100)]
proof fn lemma_braced<'a>(s: State<'a>, open: NodeView<'a>, scope: Scope)
    requires
        is_inside(s),
    ensures
        is_enclosed(open, s, s.braced(open, scope)),
    decreases s.remaining(), 0nat, 0nat,
{
    super::lemma_advance_without_flags(s);
    lemma_advance(s);
    let (after, next, body) = s.braced(open, scope);
    if let (s1, Some(node)) = s.advance() {
        if node.token.1 is ScopeClose {
            lemma_advance(s1);
            lemma_read_twice(s, s1, after);
            lemma_of_braced(open, None, node);
            lemma_sum_none(one(open.token));
            lemma_sum(one(open.token), one(node.token), own(next));
        } else {
            let cleared = State { did_advance: false, ..s1 };
            assert(origin::leads_to(s1, cleared));
            lemma_read_twice(s, s1, cleared);
            lemma_scope_loop(cleared, node, seq![], scope, None);
            report::lemma_scope_loop(cleared, node, seq![], scope, None, s);
            lemma_of_none();
            let (s2, content, close) = s1.scope_content(node, scope);
            assert(origin::leads_to(cleared, s2));
            if let Some(close) = close {
                lemma_read_twice(s, cleared, s2);
                lemma_advance(s2);
                lemma_read_twice(s, s2, after);
                lemma_of_braced(open, Some(content), close);
                lemma_read_none(s1, cleared);
                lemma_sum_none(one(node.token));
                lemma_sum(one(open.token), of_all(content), one(close.token));
                lemma_sum(one(open.token), of_all(content) + one(close.token), own(next));
                if is_quiet(s, after) {
                    assert(read(s, s2) == of_all(content) + one(close.token));
                }
            } else {
                let s3 = s2.fail(super::missing("\"}\""), super::clamped(body.end()));
                origin::lemma_advance(s3);
                assert(!is_quiet(s, after));
            }
        }
    }
}

proof fn lemma_of_rule<'a>(selectors: Option<Seq<NodeView<'a>>>, body: DelimitedView<'a>)
    ensures
        of(super::scope::ruled(selectors, Some(body))) == (match selectors {
            Some(selectors) => kept(order::node_tokens(selectors)),
            None => Seq::empty(),
        }) + kept(order::delimited_tokens(body)),
{
    broadcast use lemma_kept;

    reveal_with_fuel(order::tokens_of, 3);
    let none = Seq::<SpannedToken>::empty();
    assert(kept(none) =~= none);
}

#[verifier::rlimit(60)]
proof fn lemma_rule_body<'a>(
    s: State<'a>,
    open: NodeView<'a>,
    selectors: Option<Seq<NodeView<'a>>>,
)
    requires
        is_inside(s),
    ensures
        is_ended(
            (match selectors {
                Some(selectors) => kept(order::node_tokens(selectors)),
                None => Seq::empty(),
            }) + one(open.token),
            s,
            s.rule_body(open, selectors),
        ),
    decreases s.remaining(), 0nat, 1nat,
{
    lemma_braced(s, open, Scope::Rule);
    let (after, next, body) = s.braced(open, Scope::Rule);
    lemma_of_rule(selectors, body);
    let head = match selectors {
        Some(selectors) => kept(order::node_tokens(selectors)),
        None => Seq::empty(),
    };
    lemma_sum(head, one(open.token), read(s, after));
    lemma_sum(head, kept(order::delimited_tokens(body)), own(next));
}

#[verifier::rlimit(60)]
proof fn lemma_selector_parts<'a>(s: State<'a>, parts: Seq<ConstructView<'a>>)
    requires
        is_inside(s),
    ensures
        ({
            let (after, all, close) = s.selector_parts(parts);
            is_quiet(s, after) ==> close is Ok && of_all(parts) + read(s, after) == of_all(all)
                + one(close->Ok_0.token)
        }),
    decreases s.remaining(),
{
    super::lemma_advance_until(s, TokenSet::MacroSelectorPart, Delimiters::Construct);
    lemma_advance_until(s, TokenSet::MacroSelectorPart, Delimiters::Construct);
    let (after, all, close) = s.selector_parts(parts);
    if let (s1, Some(Ok(node))) = s.advance_until(
        TokenSet::MacroSelectorPart,
        Delimiters::Construct,
    ) {
        if !(node.token.1 is ScopeClose) {
            let more = parts.push(ConstructView::Node { node });
            lemma_node(node);
            lemma_of_push(parts, ConstructView::Node { node });
            lemma_selector_parts(s1, more);
            report::lemma_selector_parts(s1, more, s);
            lemma_read_twice(s, s1, after);
            lemma_sum(of_all(parts), one(node.token), read(s1, after));
        }
    }
}

#[verifier::rlimit(60)]
proof fn lemma_braced_selector<'a>(s: State<'a>, open: NodeView<'a>)
    requires
        is_inside(s),
    ensures
        is_enclosed(open, s, s.braced_selector(open)),
{
    reveal(State::braced_selector);
    lemma_selector_parts(s, seq![]);
    report::lemma_selector_parts(s, seq![], s);
    lemma_of_none();
    let (after, next, body) = s.braced_selector(open);
    let (s1, parts, close) = s.selector_parts(seq![]);
    lemma_read_twice(s, s1, s1);
    if let Ok(close) = close {
        lemma_advance(s1);
        lemma_read_twice(s, s1, after);
        lemma_of_braced(open, Some(parts), close);
        if is_quiet(s, after) {
            assert(of_all(seq![]) + read(s, s1) =~= read(s, s1));
            assert(one(open.token) + read(s, after) =~= one(open.token) + of_all(parts) + one(
                close.token,
            ) + own(next));
        }
    }
}

#[verifier::rlimit(100)]
proof fn lemma_braced_datatype<'a>(s: State<'a>, open: NodeView<'a>)
    requires
        is_inside(s),
    ensures
        is_enclosed(open, s, s.braced_datatype(open)),
{
    reveal(State::braced_datatype);
    reveal(State::close);
    lemma_advance(s);
    let (after, next, body) = s.braced_datatype(open);
    if let (s1, Some(node)) = s.advance() {
        if node.token.1 is ScopeClose {
            lemma_advance(s1);
            lemma_read_twice(s, s1, after);
            lemma_of_braced(open, None, node);
            lemma_sum_none(one(open.token));
            lemma_sum(one(open.token), one(node.token), own(next));
        } else {
            lemma_datatype(s1, Some(node), Delimiters::Construct);
            report::lemma_datatype(s1, Some(node), Delimiters::Construct, s);
            let (s2, status, value) = s1.datatype(Some(node), Delimiters::Construct);
            lemma_read_twice(s, s1, s2);
            let content = match value {
                Some(value) => Some(seq![value]),
                None => None,
            };
            let at = (DelimitedView { left: open, content, right: None }).end();
            report::lemma_close(s2, status, at, s);
            let (s3, found) = s2.close(status, at);
            if let Ok(close) = found {
                lemma_advance(s2);
                lemma_read_twice(s, s2, after);
                if is_quiet(s, after) {
                    let value = value->0;
                    lemma_of_braced(open, content, close);
                    lemma_of_none();
                    lemma_of_push(seq![], value);
                    assert(seq![].push(value) =~= seq![value]);
                    lemma_sum_none(of(value));
                    assert(of_all(seq![value]) == of(value));
                    assert(read(s, s2) == of(value) + one(close.token));
                    assert(one(open.token) + read(s, after) =~= one(open.token) + of(value) + one(
                        close.token,
                    ) + own(next));
                }
            } else {
                assert(!is_quiet(s, after));
            }
        }
    }
}

/// The tokens of a macro in front of its body that count.
spec fn head<'a>(
    declaration: NodeView<'a>,
    name: NodeView<'a>,
    args: Option<DelimitedView<'a>>,
    return_type: Option<(NodeView<'a>, Option<NodeView<'a>>)>,
) -> Seq<SpannedToken<'a>> {
    one(declaration.token) + one(name.token) + kept(order::optional_tokens_of(args)) + (
    match return_type {
        Some((arrow, ident)) => one(arrow.token) + own(ident),
        None => Seq::empty(),
    })
}

proof fn lemma_of_macro<'a>(
    declaration: NodeView<'a>,
    name: NodeView<'a>,
    args: Option<DelimitedView<'a>>,
    return_type: Option<(NodeView<'a>, Option<NodeView<'a>>)>,
    body: DelimitedView<'a>,
)
    ensures
        of(super::scope::macro_of(declaration, Some(name), args, return_type, Some(body))) == head(
            declaration,
            name,
            args,
            return_type,
        ) + kept(order::delimited_tokens(body)),
{
    reveal_with_fuel(order::tokens_of, 3);
    let none = Seq::<SpannedToken>::empty();
    assert(kept(none) =~= none);
    let first = seq![declaration.token];
    let second = order::optional_token(Some(name));
    let third = order::optional_tokens_of(args);
    let fourth = match return_type {
        Some((arrow, ident)) => seq![arrow.token] + order::optional_token(ident),
        None => Seq::empty(),
    };
    let fifth = order::delimited_tokens(body);
    let construct = super::scope::macro_of(
        declaration,
        Some(name),
        args,
        return_type,
        Some(body),
    );
    assert(order::tokens_of(construct) == first + (second + (third + (fourth + fifth))));
    lemma_kept(first, second + (third + (fourth + fifth)));
    lemma_kept(second, third + (fourth + fifth));
    lemma_kept(third, fourth + fifth);
    lemma_kept(fourth, fifth);
    lemma_kept_one(declaration.token);
    lemma_kept_optional(Some(name));
    if let Some((arrow, ident)) = return_type {
        lemma_kept(seq![arrow.token], order::optional_token(ident));
        lemma_kept_one(arrow.token);
        lemma_kept_optional(ident);
    }
    let (d, n, t, r, k) = (
        one(declaration.token),
        one(name.token),
        kept(third),
        kept(fourth),
        kept(fifth),
    );
    assert(head(declaration, name, args, return_type) == d + n + t + r);
    lemma_sum(d + n + t, r, k);
    lemma_sum(d + n, t, r + k);
    lemma_sum(d, n, t + (r + k));
}

#[verifier::rlimit(60)]
proof fn lemma_macro_body<'a>(
    s: State<'a>,
    open: NodeView<'a>,
    declaration: NodeView<'a>,
    name: NodeView<'a>,
    args: Option<DelimitedView<'a>>,
    return_type: Option<(NodeView<'a>, Option<NodeView<'a>>)>,
    context: MacroContext,
)
    requires
        is_inside(s),
    ensures
        is_ended(
            head(declaration, name, args, return_type) + one(open.token),
            s,
            s.macro_body(open, declaration, Some(name), args, return_type, context),
        ),
    decreases s.remaining(), 0nat, 1nat,
{
    let (after, next, body) = match context {
        MacroContext::Construct => s.braced(open, Scope::Macro),
        MacroContext::Selector => s.braced_selector(open),
        MacroContext::Assignment => s.braced_datatype(open),
    };
    match context {
        MacroContext::Construct => {
            lemma_braced(s, open, Scope::Macro);
        },
        MacroContext::Selector => {
            lemma_braced_selector(s, open);
        },
        MacroContext::Assignment => {
            lemma_braced_datatype(s, open);
        },
    }
    let front = head(declaration, name, args, return_type);
    lemma_of_macro(declaration, name, args, return_type, body);
    lemma_sum(front, one(open.token), read(s, after));
    lemma_sum(front, kept(order::delimited_tokens(body)), own(next));
}

#[verifier::rlimit(100)]
proof fn lemma_macro_context<'a>(
    s: State<'a>,
    arrow: NodeView<'a>,
    declaration: NodeView<'a>,
    name: NodeView<'a>,
    args: Option<DelimitedView<'a>>,
)
    requires
        is_inside(s),
        args is Some ==> args->0.right is Some,
    ensures
        is_ended(
            head(declaration, name, args, None) + one(arrow.token),
            s,
            s.macro_context(arrow, declaration, Some(name), args),
        ),
    decreases s.remaining(), 0nat, 2nat,
{
    super::lemma_advance_until(s, TokenSet::MacroContext, Delimiters::Construct);
    lemma_advance_until(s, TokenSet::MacroContext, Delimiters::Construct);
    let (after, next, construct) = s.macro_context(arrow, declaration, Some(name), args);
    if let (s1, Some(Ok(ident))) = s.advance_until(TokenSet::MacroContext, Delimiters::Construct) {
        let s2 = s1.check_context(ident.token);
        assert(origin::leads_to(s1, s2));
        lemma_read_twice(s, s1, s2);
        super::lemma_advance_until(s2, TokenSet::ScopeOpen, Delimiters::Construct);
        lemma_advance_until(s2, TokenSet::ScopeOpen, Delimiters::Construct);
        let (s3, found) = s2.advance_until(TokenSet::ScopeOpen, Delimiters::Construct);
        lemma_read_twice(s, s2, s3);
        if let Some(Ok(open)) = found {
            let return_type = Some((arrow, Some(ident)));
            let context = super::scope::context_of(return_type);
            lemma_macro_body(s3, open, declaration, name, args, return_type, context);
            report::lemma_macro_body(
                s3,
                open,
                declaration,
                name,
                args,
                return_type,
                context,
                s,
            );
            lemma_read_twice(s, s3, after);
            if is_quiet(s, after) {
                lemma_read_none(s1, s2);
                let front = one(declaration.token) + one(name.token) + kept(
                    order::optional_tokens_of(args),
                );
                let (a, i, o) = (one(arrow.token), one(ident.token), one(open.token));
                lemma_sum_none(front);
                lemma_sum_none(i);
                lemma_sum(front, a, i);
                lemma_sum(front + a, i, o);
                lemma_sum(front + a, i + o, read(s3, after));
            }
        }
    }
}

proof fn lemma_macro_rest<'a>(
    s: State<'a>,
    start: NodeView<'a>,
    declaration: NodeView<'a>,
    name: NodeView<'a>,
    args: Option<DelimitedView<'a>>,
)
    requires
        is_inside(s),
        args is Some ==> args->0.right is Some,
    ensures
        is_ended(
            head(declaration, name, args, None) + one(start.token),
            s,
            s.macro_rest(start, declaration, Some(name), args),
        ),
    decreases s.remaining(), 0nat, 3nat,
{
    lemma_macro_context(s, start, declaration, name, args);
    lemma_macro_body(s, start, declaration, name, args, None, MacroContext::Construct);
}

#[verifier::rlimit(100)]
proof fn lemma_rule_selector<'a>(
    s: State<'a>,
    last: SpannedToken<'a>,
    selectors: Seq<NodeView<'a>>,
    comma_allowed: bool,
)
    requires
        is_inside(s),
    ensures
        is_ended(
            kept(order::node_tokens(selectors)),
            s,
            s.rule_selector(last, selectors, comma_allowed),
        ),
    decreases s.remaining(), 0nat, 2nat,
{
    let allow = if comma_allowed {
        TokenSet::SelectorPartOrComma
    } else {
        TokenSet::SelectorPart
    };
    super::lemma_advance_until(s, allow, Delimiters::Construct);
    lemma_advance_until(s, allow, Delimiters::Construct);
    let (after, next, construct) = s.rule_selector(last, selectors, comma_allowed);
    let front = kept(order::node_tokens(selectors));
    if let (s1, Some(Ok(node))) = s.advance_until(allow, Delimiters::Construct) {
        let s2 = s1.check_hierarchy(last, node.token);
        assert(origin::leads_to(s1, s2));
        lemma_read_twice(s, s1, s2);
        lemma_read_none(s1, s2);
        lemma_sum_none(read(s, s1));
        if node.token.1 is ScopeOpen {
            let s3 = if !comma_allowed && last.1 is Comma {
                s2.fail(super::misplaced(), (last.0, last.2))
            } else {
                s2
            };
            assert(origin::leads_to(s2, s3));
            lemma_read_twice(s, s2, s3);
            lemma_read_none(s2, s3);
            lemma_rule_body(s3, node, Some(selectors));
            report::lemma_rule_body(s3, node, Some(selectors), s);
            lemma_read_twice(s, s3, after);
            if is_quiet(s, after) {
                lemma_sum_none(read(s, s2));
                lemma_sum(front, one(node.token), read(s3, after));
            }
        } else {
            let more = selectors.push(node);
            let allowed = !(comma_allowed && node.token.1 is Comma);
            lemma_node_tokens_push(selectors, node);
            lemma_rule_selector(s2, node.token, more, allowed);
            report::lemma_rule_selector(s2, node.token, more, allowed, s);
            lemma_read_twice(s, s2, after);
            lemma_sum(front, one(node.token), read(s2, after));
        }
    }
}

proof fn lemma_one_node<'a>(node: NodeView<'a>)
    ensures
        kept(order::node_tokens(seq![node])) == one(node.token),
{
    broadcast use lemma_kept_one;

    assert(order::node_tokens(seq![node]) =~= seq![node.token]);
}

proof fn lemma_selector_begin<'a>(s: State<'a>, node: NodeView<'a>)
    requires
        is_inside(s),
    ensures
        is_part(node, s, s.selector_begin(node)),
    decreases s.remaining(), 1nat, 0nat,
{
    lemma_one_node(node);
    lemma_read_none(s, s);
    lemma_sum_none(one(node.token));
    lemma_rule_selector(s, node.token, seq![node], true);
    lemma_rule_body(s, node, None);
}

#[verifier::rlimit(100)]
proof fn lemma_property_or_rule<'a>(s: State<'a>, node: NodeView<'a>)
    requires
        is_inside(s),
    ensures
        is_part(node, s, s.property_or_rule(node)),
    decreases s.remaining(), 1nat, 0nat,
{
    lemma_read_none(s, s);
    lemma_sum_none(one(node.token));
    super::lemma_advance_until(s, TokenSet::PropertyOrSelector, Delimiters::Construct);
    lemma_advance_until(s, TokenSet::PropertyOrSelector, Delimiters::Construct);
    report::lemma_property_or_rule(s, node, s);
    let (after, next, construct) = s.property_or_rule(node);
    if node.token.1 is Identifier {
        if let (s1, Some(Ok(middle))) = s.advance_until(
            TokenSet::PropertyOrSelector,
            Delimiters::Construct,
        ) {
            lemma_one_node(node);
            lemma_node_tokens_push(seq![node], middle);
            assert(seq![node].push(middle) =~= seq![node, middle]);
            lemma_assigned_value(s1, node, middle);
            lemma_rule_body(s1, middle, Some(seq![node]));
            lemma_rule_selector(s1, middle.token, seq![node, middle], false);
            lemma_rule_selector(s1, middle.token, seq![node, middle], true);
            report::lemma_rule_body(s1, middle, Some(seq![node]), s);
            report::lemma_rule_selector(s1, middle.token, seq![node, middle], false, s);
            report::lemma_rule_selector(s1, middle.token, seq![node, middle], true, s);
            assert(origin::leads_to(s1, after));
            lemma_read_twice(s, s1, after);
            lemma_sum(one(node.token), one(middle.token), read(s1, after));
        }
    }
}

#[verifier::rlimit(100)]
proof fn lemma_macro_declaration<'a>(s: State<'a>, node: NodeView<'a>)
    requires
        is_inside(s),
    ensures
        is_part(node, s, s.macro_declaration(node)),
    decreases s.remaining(), 1nat, 0nat,
{
    lemma_read_none(s, s);
    lemma_sum_none(one(node.token));
    super::lemma_advance_until(s, TokenSet::MacroName, Delimiters::Construct);
    lemma_advance_until(s, TokenSet::MacroName, Delimiters::Construct);
    let (after, next, construct) = s.macro_declaration(node);
    if node.token.1 is MacroDeclaration {
        match s.advance_until(TokenSet::MacroName, Delimiters::Construct) {
            (s1, Some(Ok(name))) => {
                super::lemma_advance_until(s1, TokenSet::MacroArgsOrBody, Delimiters::Construct);
                lemma_advance_until(s1, TokenSet::MacroArgsOrBody, Delimiters::Construct);
                report::lemma_advance_until(
                    s1,
                    TokenSet::MacroArgsOrBody,
                    Delimiters::Construct,
                    s,
                );
                let (s2, found) = s1.advance_until(
                    TokenSet::MacroArgsOrBody,
                    Delimiters::Construct,
                );
                lemma_read_twice(s, s1, s2);
                if let Some(Ok(open)) = found {
                    let front = head(node, name, None, None);
                    assert(front =~= one(node.token) + one(name.token)) by {
                        assert(kept(Seq::<SpannedToken>::empty()) =~= Seq::empty());
                    }
                    if open.token.1 is ParensOpen {
                        lemma_macro_args(s2, open, node, name);
                        report::lemma_macro_args(s2, open, node, name, s);
                        lemma_read_twice(s, s2, after);
                        if is_quiet(s, after) {
                            assert(one(node.token) + read(s, after) =~= front + read(s2, after));
                        }
                    } else {
                        lemma_macro_rest(s2, open, node, name, None);
                        report::lemma_macro_rest(s2, open, node, name, None, s);
                        lemma_read_twice(s, s2, after);
                        if is_quiet(s, after) {
                            assert(one(node.token) + read(s, after) =~= front + one(open.token)
                                + read(s2, after));
                        }
                    }
                }
            },
            (s1, Some(Err(_))) => {},
            (s1, None) => {
                origin::lemma_advance(s1);
            },
        }
    }
}

#[verifier::rlimit(60)]
proof fn lemma_macro_args<'a>(
    s: State<'a>,
    open: NodeView<'a>,
    declaration: NodeView<'a>,
    name: NodeView<'a>,
)
    requires
        is_inside(s),
        open.token.1 is ParensOpen,
    ensures
        is_ended(
            head(declaration, name, None, None),
            s,
            s.macro_args(open, declaration, Some(name)),
        ),
    decreases s.remaining(), 0nat, 0nat,
{
    super::lemma_advance_until(s, TokenSet::MacroArg, Delimiters::InsideParens);
    lemma_advance_until(s, TokenSet::MacroArg, Delimiters::InsideParens);
    let (after, next, construct) = s.macro_args(open, declaration, Some(name));
    let front = head(declaration, name, None, None);
    if let (s1, Some(Ok(node))) = s.advance_until(TokenSet::MacroArg, Delimiters::InsideParens) {
        if node.token.1 is ParensClose {
            lemma_macro_body_open(s1, declaration, name, open, None, node);
            report::lemma_macro_body_open(s1, declaration, name, open, None, node, s);
            lemma_read_twice(s, s1, after);
            if is_quiet(s, after) {
                lemma_sum_none(read(s1, after));
                lemma_sum_none(front);
            }
        } else {
            let args = seq![ConstructView::Node { node }];
            lemma_macro_args_rest(s1, open, declaration, name, args, node.token);
            report::lemma_macro_args_rest(s1, open, declaration, name, args, node.token, s);
            lemma_read_twice(s, s1, after);
            lemma_node(node);
            lemma_of_none();
            lemma_of_push(seq![], ConstructView::Node { node });
            assert(seq![].push(ConstructView::Node { node }) =~= args);
            lemma_sum_none(one(node.token));
            lemma_sum(front, one(node.token), read(s1, after));
        }
    }
}

#[verifier::rlimit(60)]
proof fn lemma_macro_args_rest<'a>(
    s: State<'a>,
    open: NodeView<'a>,
    declaration: NodeView<'a>,
    name: NodeView<'a>,
    args: Seq<ConstructView<'a>>,
    last: SpannedToken<'a>,
)
    requires
        is_inside(s),
        open.token.1 is ParensOpen,
    ensures
        is_ended(
            head(declaration, name, None, None) + of_all(args),
            s,
            s.macro_args_rest(open, declaration, Some(name), args, last),
        ),
    decreases s.remaining(), 0nat, 0nat,
{
    let allow = if last.1 is Comma {
        TokenSet::MacroArgAfterComma
    } else {
        TokenSet::MacroArg
    };
    super::lemma_advance_until(s, allow, Delimiters::InsideParens);
    lemma_advance_until(s, allow, Delimiters::InsideParens);
    let (after, next, construct) = s.macro_args_rest(open, declaration, Some(name), args, last);
    let front = head(declaration, name, None, None);
    if let (s1, Some(Ok(node))) = s.advance_until(allow, Delimiters::InsideParens) {
        if node.token.1 is ParensClose {
            lemma_macro_body_open(s1, declaration, name, open, Some(args), node);
            report::lemma_macro_body_open(s1, declaration, name, open, Some(args), node, s);
            lemma_read_twice(s, s1, after);
            if is_quiet(s, after) {
                lemma_sum_none(read(s1, after));
            }
        } else {
            let s2 = if last.1 is MacroArgIdentifier && node.token.1 is MacroArgIdentifier {
                s1.fail(super::missing("\",\""), super::clamped(last.2))
            } else {
                s1
            };
            assert(origin::leads_to(s1, s2));
            lemma_read_twice(s, s1, s2);
            lemma_read_none(s1, s2);
            let more = args.push(ConstructView::Node { node });
            lemma_macro_args_rest(s2, open, declaration, name, more, node.token);
            report::lemma_macro_args_rest(s2, open, declaration, name, more, node.token, s);
            lemma_read_twice(s, s2, after);
            lemma_node(node);
            lemma_of_push(args, ConstructView::Node { node });
            if is_quiet(s, after) {
                lemma_sum_none(read(s, s1));
                lemma_sum(front, of_all(args), one(node.token));
                lemma_sum(front + of_all(args), one(node.token), read(s2, after));
            }
        }
    }
}

#[verifier::rlimit(60)]
proof fn lemma_macro_body_open<'a>(
    s: State<'a>,
    declaration: NodeView<'a>,
    name: NodeView<'a>,
    open: NodeView<'a>,
    args: Option<Seq<ConstructView<'a>>>,
    close: NodeView<'a>,
)
    requires
        is_inside(s),
        open.token.1 is ParensOpen,
        close.token.1 is ParensClose,
    ensures
        is_ended(
            head(declaration, name, None, None) + (match args {
                Some(args) => of_all(args),
                None => Seq::empty(),
            }),
            s,
            s.macro_body_open(declaration, Some(name), open, args, close),
        ),
    decreases s.remaining(), 0nat, 0nat,
{
    super::lemma_advance_until(s, TokenSet::MacroContextOrBody, Delimiters::Construct);
    lemma_advance_until(s, TokenSet::MacroContextOrBody, Delimiters::Construct);
    let (after, next, construct) = s.macro_body_open(declaration, Some(name), open, args, close);
    let front = head(declaration, name, None, None) + (match args {
        Some(args) => of_all(args),
        None => Seq::empty(),
    });
    lemma_of_table(open, args, close);
    let delimited = DelimitedView { left: open, content: args, right: Some(close) };
    assert(head(declaration, name, Some(delimited), None) =~= front) by {
        assert(kept(Seq::<SpannedToken>::empty()) =~= Seq::empty());
    }
    if let (s1, Some(Ok(start))) = s.advance_until(
        TokenSet::MacroContextOrBody,
        Delimiters::Construct,
    ) {
        lemma_macro_rest(s1, start, declaration, name, Some(delimited));
        report::lemma_macro_rest(s1, start, declaration, name, Some(delimited), s);
        lemma_read_twice(s, s1, after);
        lemma_sum(front, one(start.token), read(s1, after));
    }
}

#[verifier::rlimit(100)]
proof fn lemma_document_loop<'a>(
    s: State<'a>,
    node: NodeView<'a>,
    ast: Seq<ConstructView<'a>>,
    error_span: Option<(usize, usize)>,
)
    requires
        is_inside(s),
        !s.did_advance,
    ensures
        ({
            let (after, all) = s.document_loop(node, ast, error_span);
            is_quiet(s, after) ==> {
                &&& error_span is None
                &&& of_all(ast) + one(node.token) + read(s, after) == of_all(all)
                &&& after.remaining() == 0
            }
        }),
    decreases s.remaining(),
{
    report::lemma_step(s, node, ast, Part::Macro, Scope::Global, s);
    lemma_step(s, node, ast, Part::Macro, Scope::Global);
    report::lemma_document_loop(s, node, ast, error_span, s);
    let (after, all) = s.document_loop(node, ast, error_span);
    let front = of_all(ast) + one(node.token);
    let (s1, more, next) = s.step(node, ast, Part::Macro, Scope::Global);
    lemma_read_twice(s, s1, s1);
    match next {
        None => {
            assert(origin::leads_to(s1, after));
            lemma_read_twice(s, s1, after);
            lemma_read_none(s1, after);
            lemma_sum_none(read(s, s1));
            lemma_sum_none(of_all(more));
        },
        Some(next) => if s1.did_advance {
            let s2 = (State { did_advance: false, ..s1 }).fail_if(error_span);
            assert(origin::leads_to(s1, s2));
            lemma_read_twice(s, s1, s2);
            lemma_read_none(s1, s2);
            lemma_sum_none(read(s, s1));
            if s2.remaining() < s.remaining() {
                lemma_document_loop(s2, next, more, error_span);
                report::lemma_document_loop(s2, next, more, error_span, s);
                lemma_read_twice(s, s2, after);
                lemma_sum(front, read(s, s2), read(s2, after));
            }
        } else {
            let span = super::scope::widened(error_span, next.token);
            super::lemma_advance_without_flags(s1);
            lemma_advance(s1);
            let (s2, following) = s1.accept();
            lemma_read_twice(s, s1, s2);
            match following {
                Some(following) => {
                    lemma_document_loop(s2, following, more, span);
                    report::lemma_document_loop(s2, following, more, span, s);
                    lemma_read_twice(s, s2, after);
                },
                None => {
                    assert(origin::leads_to(s2, s2.fail_if(span)));
                    assert(!is_quiet(s, after));
                },
            }
        },
    }
}

/// In a document without diagnostics each token, but for comments and round brackets, stands in
/// one of its constructs, once, and in the order of the document: nothing is left out, added,
/// repeated or moved. It is read to its end, and its comments are closed.
pub proof fn lemma_nothing_is_left_out(tokens: Seq<SpannedToken>, text: Seq<char>)
    requires
        super::scope::start_of(tokens, text).document().0.errors.len() == 0,
    ensures
        kept(order::all_tokens_of(super::scope::start_of(tokens, text).document().1)) == kept(
            tokens,
        ),
        super::scope::start_of(tokens, text).document().0.position == tokens.len(),
        forall|i: int| 0 <= i < tokens.len() ==> origin::is_closed(#[trigger] tokens[i]),
{
    origin::lemma_clean_document_has_closed_comments(tokens, text);
    let start = super::scope::start_of(tokens, text);
    let (end, ast) = start.document();
    super::lemma_advance_without_flags(start);
    lemma_advance(start);
    lemma_of_none();
    let (s, node) = start.accept();
    match node {
        Some(node) => {
            lemma_document_loop(s, node, seq![], None);
            report::lemma_document_loop(s, node, seq![], None, s);
            lemma_read_twice(start, s, end);
            assert(of_all(seq![]) + one(node.token) + read(s, end) =~= one(node.token) + read(
                s,
                end,
            ));
            assert(of_all(ast) == read(start, end));
        },
        None => {
            assert(of_all(ast) == read(start, end));
        },
    }
    assert(end.position == tokens.len());
    assert(tokens.subrange(0, tokens.len() as int) =~= tokens);
}

} // verus!
