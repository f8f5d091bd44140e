//! How operations are grouped.

use super::State;
use crate::parser::construct::{ConstructView, NodeView};
use crate::parser::token;
use crate::parser::token::{Delimiters, Token, TokenSet, ADD_SUB_PRECEDENCE};
use vstd::prelude::*;

verus! {

/// Whether a token adds or subtracts.
pub open spec fn is_sum_sign(token: Token) -> bool {
    token is OpAdd || token is OpSub
}

/// Whether a token multiplies, divides or raises to a power.
pub open spec fn is_product_sign(token: Token) -> bool {
    token is OpDiv || token is OpFloorDiv || token is OpMod || token is OpMult || token is OpPow
}

/// Whether a construct is a sum or difference.
pub open spec fn is_sum(construct: ConstructView) -> bool {
    construct matches ConstructView::MathOperation { operators, .. } && operators.len() > 0
        && is_sum_sign(operators[0].token.1)
}

/// Whether a construct is an operation whose first operation is a product.
pub open spec fn starts_with_product(construct: ConstructView) -> bool
    decreases construct,
{
    match construct {
        ConstructView::MathOperation { left, operators, .. } => if *left is MathOperation {
            starts_with_product(*left)
        } else {
            operators.len() > 0 && is_product_sign(operators[0].token.1)
        },
        _ => false,
    }
}

/// Whether operations are grouped as their signs ask for: a product takes no sum as an operand,
/// and no other operation as its right one; a sum takes an operation as its right operand only
/// where that starts with a product. Signs follow one another in sums alone.
pub open spec fn is_grouped(construct: ConstructView) -> bool
    decreases construct,
{
    match construct {
        ConstructView::MathOperation { left, operators, right } => {
            &&& is_grouped(*left)
            &&& match right {
                Some(right) => is_grouped(*right),
                None => true,
            }
            &&& operators.len() > 0
            &&& if is_sum_sign(operators[0].token.1) {
                &&& forall|i: int|
                    0 <= i < operators.len() ==> is_sum_sign((#[trigger] operators[i]).token.1)
                &&& match right {
                    Some(right) => *right is MathOperation ==> starts_with_product(*right),
                    None => true,
                }
            } else {
                &&& operators.len() == 1
                &&& is_product_sign(operators[0].token.1)
                &&& !is_sum(*left)
                &&& match right {
                    Some(right) => !(*right is MathOperation),
                    None => true,
                }
            }
        },
        _ => true,
    }
}

/// Whether operators are of a precedence.
spec fn are_of(operators: Seq<NodeView>, precedence: usize) -> bool {
    &&& operators.len() > 0
    &&& forall|i: int|
        0 <= i < operators.len() ==> token::precedence_of((#[trigger] operators[i]).token.1)
            == Some(precedence)
    &&& precedence != ADD_SUB_PRECEDENCE ==> operators.len() == 1
}

proof fn lemma_operator_chain<'a>(s: State<'a>, operators: Seq<NodeView<'a>>)
    requires
        are_of(operators, ADD_SUB_PRECEDENCE),
    ensures
        are_of(s.operator_chain(operators).2, ADD_SUB_PRECEDENCE),
    decreases s.remaining(),
{
    super::lemma_advance_without_flags(s);
    if let (s1, Some(node)) = s.advance() {
        if let Some(precedence) = token::precedence_of(node.token.1) {
            if precedence == ADD_SUB_PRECEDENCE {
                lemma_operator_chain(s1, operators.push(node));
            } else {
                lemma_operator_chain(
                    s1.fail(super::misplaced(), super::clamped(node.token.2)),
                    operators,
                );
            }
        }
    }
}

proof fn lemma_operators<'a>(s: State<'a>, first: NodeView<'a>, precedence: usize)
    requires
        token::precedence_of(first.token.1) == Some(precedence),
    ensures
        are_of(s.datatype_operators(first, precedence).2, precedence),
{
    reveal(State::datatype_operators);
    if precedence == ADD_SUB_PRECEDENCE {
        lemma_operator_chain(s, seq![first]);
    }
}

proof fn lemma_part_is_no_operation<'a>(
    s: State<'a>,
    node: Option<NodeView<'a>>,
    delimiters: Delimiters,
)
    ensures
        s.datatype_part(node, delimiters).2 matches Some(c) ==> !(c is MathOperation),
{
    reveal(State::enum_datatype);
    reveal(State::macro_call_body);
    if let (s1, Some(Ok(found))) = s.optional_kind_else_advance_until(
        node,
        TokenSet::Datatype,
        delimiters,
    ) {
        assert(s1.annotated_table(found).2 matches Some(c) ==> c is AnnotatedTable);
    }
}

proof fn lemma_math<'a>(
    left: ConstructView<'a>,
    operators: Seq<NodeView<'a>>,
    precedence: usize,
    right: Option<ConstructView<'a>>,
)
    requires
        are_of(operators, precedence),
        is_grouped(left),
        right is Some ==> is_grouped(right->0),
        precedence != ADD_SUB_PRECEDENCE ==> !is_sum(left) && (right is Some ==> !(
        right->0 is MathOperation)),
        right is Some && right->0 is MathOperation ==> starts_with_product(right->0),
    ensures
        is_grouped(super::datatype::math(left, operators, right)),
        precedence != ADD_SUB_PRECEDENCE ==> !is_sum(
            super::datatype::math(left, operators, right),
        ),
        left is MathOperation ==> starts_with_product(left) == starts_with_product(
            super::datatype::math(left, operators, right),
        ),
        !(left is MathOperation) ==> starts_with_product(
            super::datatype::math(left, operators, right),
        ) == (precedence != ADD_SUB_PRECEDENCE),
{
    reveal_with_fuel(is_grouped, 2);
    reveal_with_fuel(starts_with_product, 2);
    assert(token::precedence_of(operators[0].token.1) == Some(precedence));
    assert forall|i: int| 0 <= i < operators.len() && precedence == ADD_SUB_PRECEDENCE implies
        is_sum_sign((#[trigger] operators[i]).token.1) by {
        assert(token::precedence_of(operators[i].token.1) == Some(precedence));
    }
}

proof fn lemma_datatype_operation<'a>(
    s: State<'a>,
    node: Option<NodeView<'a>>,
    last_datatype: ConstructView<'a>,
    last_precedence: usize,
    last_operators: Seq<NodeView<'a>>,
    delimiters: Delimiters,
)
    requires
        is_grouped(last_datatype),
        are_of(last_operators, last_precedence),
        last_precedence != ADD_SUB_PRECEDENCE ==> !is_sum(last_datatype),
    ensures
        ({
            let result = s.datatype_operation(
                node,
                last_datatype,
                last_precedence,
                last_operators,
                delimiters,
            ).2;
            &&& result is Some
            &&& is_grouped(result->0)
            &&& (if last_datatype is MathOperation {
                starts_with_product(last_datatype)
            } else {
                last_precedence != ADD_SUB_PRECEDENCE
            }) ==> starts_with_product(result->0)
        }),
    decreases s.remaining(), 5nat,
{
    lemma_part_is_no_operation(s, node, delimiters);
    let (s1, status, construct) = s.datatype_part(node, delimiters);
    let so_far = super::datatype::math(last_datatype, last_operators, construct);
    lemma_math(last_datatype, last_operators, last_precedence, construct);
    if construct is Some && status is Exists {
        let left = construct->0;
        let (s2, middle) = s1.advance();
        if middle is Some && token::precedence_of(middle->0.token.1) is Some {
            let precedence = token::precedence_of(middle->0.token.1)->0;
            lemma_operators(s2, middle->0, precedence);
            let (s3, right, operators) = s2.datatype_operators(middle->0, precedence);
            assert(token::precedence_of(last_operators[0].token.1) == Some(last_precedence));
            if super::is_kind(right, |t: Token| t is SemiColon) {
                if precedence > last_precedence {
                    lemma_math(left, operators, precedence, None);
                    let inner = super::datatype::math(left, operators, None);
                    lemma_math(last_datatype, last_operators, last_precedence, Some(inner));
                } else {
                    lemma_math(so_far, operators, precedence, None);
                }
            } else if s3.remaining() >= s.remaining() {
            } else if precedence > last_precedence {
                lemma_datatype_operation(s3, right, left, precedence, operators, delimiters);
                let inner = s3.datatype_operation(
                    right,
                    left,
                    precedence,
                    operators,
                    delimiters,
                ).2;
                lemma_math(last_datatype, last_operators, last_precedence, inner);
            } else {
                lemma_datatype_operation(s3, right, so_far, precedence, operators, delimiters);
            }
        }
    }
}

/// The operations of a datatype are grouped as their signs ask for: products bind tighter than
/// sums, and what is of the same kind is grouped from the left.
pub proof fn lemma_datatype_is_grouped<'a>(
    s: State<'a>,
    node: Option<NodeView<'a>>,
    delimiters: Delimiters,
)
    ensures
        s.datatype(node, delimiters).2 matches Some(c) ==> is_grouped(c),
{
    lemma_part_is_no_operation(s, node, delimiters);
    let (s1, status, construct) = s.datatype_part(node, delimiters);
    if construct is Some && status is Exists {
        let left = construct->0;
        let (s2, middle) = s1.advance();
        if middle is Some && token::precedence_of(middle->0.token.1) is Some {
            let precedence = token::precedence_of(middle->0.token.1)->0;
            lemma_operators(s2, middle->0, precedence);
            let (s3, right, operators) = s2.datatype_operators(middle->0, precedence);
            if super::is_kind(right, |t: Token| t is SemiColon) {
                lemma_math(left, operators, precedence, None);
            } else if s3.remaining() < s.remaining() {
                lemma_datatype_operation(s3, right, left, precedence, operators, delimiters);
            }
        }
    }
}

} // verus!
