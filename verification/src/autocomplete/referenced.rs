//! The references to tokens in a value are all defined, and nothing else is.

use super::tokens;
use crate::parser::construct::{ConstructView, DelimitedView, NodeView};
use crate::parser::order;
use crate::parser::token::{SpannedToken, Token};
use crate::typechecker::definitions::DefinitionView;
use crate::typechecker::frame;
use vstd::prelude::*;

verus! {

pub open spec fn is_reference(token: Token) -> bool {
    token is TokenIdentifier || token is StaticTokenIdentifier
}

pub open spec fn is_no_reference(node: Option<NodeView>) -> bool {
    match node {
        Some(node) => !is_reference(node.token.1),
        None => true,
    }
}

/// Whether a construct is a value, in which references stand for values alone: no operator,
/// bracket or name of a table or macro is one.
pub open spec fn is_value(construct: ConstructView) -> bool
    decreases construct,
{
    match construct {
        ConstructView::Node { .. } => true,
        ConstructView::MathOperation { left, operators, right } => {
            &&& is_value(*left)
            &&& forall|i: int|
                0 <= i < operators.len() ==> !is_reference((#[trigger] operators[i]).token.1)
            &&& match right {
                Some(right) => is_value(*right),
                None => true,
            }
        },
        ConstructView::UnaryMinus { operator, operand } => {
            &&& !is_reference(operator.token.1)
            &&& is_value(*operand)
        },
        ConstructView::Table { body } => is_list(body),
        ConstructView::AnnotatedTable { annotation, body } => {
            &&& !is_reference(annotation.token.1)
            &&& match body {
                Some(body) => is_list(body),
                None => true,
            }
        },
        ConstructView::MacroCall { name, body, terminator } => {
            &&& !is_reference(name.token.1)
            &&& match body {
                Some(body) => is_list(body),
                None => true,
            }
            &&& is_no_reference(terminator)
        },
        ConstructView::Enum { keyword, name, variant } => {
            &&& !is_reference(keyword.token.1)
            &&& is_no_reference(name)
            &&& is_no_reference(variant)
        },
        _ => false,
    }
}

/// Whether values stand between brackets.
pub open spec fn is_list(delimited: DelimitedView) -> bool
    decreases delimited,
{
    &&& !is_reference(delimited.left.token.1)
    &&& match delimited.content {
        Some(content) => are_values(content),
        None => true,
    }
    &&& is_no_reference(delimited.right)
}

pub open spec fn are_values(content: Seq<ConstructView>) -> bool
    decreases content,
{
    forall|i: int| 0 <= i < content.len() ==> is_value(#[trigger] content[i])
}

/// Whether the bytes of a reference know the name of the token, and whether it is static.
pub open spec fn is_referenced(token: SpannedToken, after: Map<usize, DefinitionView>) -> bool {
    match token.1 {
        Token::TokenIdentifier(name) => frame::holds(
            after,
            token.0,
            token.2,
            DefinitionView::Token { name: name@, is_static: false },
        ),
        Token::StaticTokenIdentifier(name) => frame::holds(
            after,
            token.0,
            token.2,
            DefinitionView::Token { name: name@, is_static: true },
        ),
        _ => true,
    }
}

pub open spec fn all_referenced(
    tokens: Seq<SpannedToken>,
    after: Map<usize, DefinitionView>,
) -> bool {
    forall|i: int| 0 <= i < tokens.len() ==> is_referenced(#[trigger] tokens[i], after)
}

/// Whether a byte belongs to a reference.
pub open spec fn is_covered(tokens: Seq<SpannedToken>, byte: usize) -> bool {
    exists|i: int|
        0 <= i < tokens.len() && is_reference((#[trigger] tokens[i]).1) && tokens[i].0 <= byte
            <= tokens[i].2
}

/// Whether definitions differ only where references stand.
pub open spec fn differs_at_references(
    before: Map<usize, DefinitionView>,
    after: Map<usize, DefinitionView>,
    tokens: Seq<SpannedToken>,
) -> bool {
    forall|byte: usize| #[trigger]
        frame::same_at(before, after, byte) || is_covered(tokens, byte)
}

broadcast proof fn lemma_covered(a: Seq<SpannedToken>, b: Seq<SpannedToken>, byte: usize)
    requires
        is_covered(a, byte) || is_covered(b, byte),
    ensures
        #[trigger] is_covered(a + b, byte),
{
    if is_covered(a, byte) {
        let i = choose|i: int|
            0 <= i < a.len() && is_reference((#[trigger] a[i]).1) && a[i].0 <= byte <= a[i].2;
        assert((a + b)[i] == a[i]);
    } else {
        let i = choose|i: int|
            0 <= i < b.len() && is_reference((#[trigger] b[i]).1) && b[i].0 <= byte <= b[i].2;
        assert((a + b)[a.len() + i] == b[i]);
    }
}

broadcast proof fn lemma_differs_wider(
    before: Map<usize, DefinitionView>,
    after: Map<usize, DefinitionView>,
    a: Seq<SpannedToken>,
    b: Seq<SpannedToken>,
)
    requires
        differs_at_references(before, after, a) || differs_at_references(before, after, b),
    ensures
        #[trigger] differs_at_references(before, after, a + b),
{
    broadcast use lemma_covered;

}

proof fn lemma_differs_twice(
    first: Map<usize, DefinitionView>,
    second: Map<usize, DefinitionView>,
    third: Map<usize, DefinitionView>,
    tokens: Seq<SpannedToken>,
)
    requires
        differs_at_references(first, second, tokens),
        differs_at_references(second, third, tokens),
    ensures
        differs_at_references(first, third, tokens),
{
    assert forall|byte: usize| #[trigger]
        frame::same_at(first, third, byte) || is_covered(tokens, byte) by {
        assert(frame::same_at(first, second, byte) || is_covered(tokens, byte));
        assert(frame::same_at(second, third, byte) || is_covered(tokens, byte));
    }
}

broadcast proof fn lemma_all_referenced(
    a: Seq<SpannedToken>,
    b: Seq<SpannedToken>,
    after: Map<usize, DefinitionView>,
)
    requires
        all_referenced(a, after),
        all_referenced(b, after),
    ensures
        #[trigger] all_referenced(a + b, after),
{
    assert forall|i: int| 0 <= i < (a + b).len() implies is_referenced(
        #[trigger] (a + b)[i],
        after,
    ) by {
        if i < a.len() {
            assert((a + b)[i] == a[i]);
        } else {
            assert((a + b)[i] == b[i - a.len()]);
        }
    }
}

proof fn lemma_stays_referenced(
    token: SpannedToken,
    before: Map<usize, DefinitionView>,
    after: Map<usize, DefinitionView>,
)
    requires
        is_referenced(token, before),
        forall|byte: usize|
            token.0 <= byte < token.2 ==> #[trigger] frame::same_at(before, after, byte),
    ensures
        is_referenced(token, after),
{
    if let Some(kind) = tokens::reference_view(token.1) {
        assert forall|byte: usize| token.0 <= byte < token.2 implies #[trigger] after.dom().contains(
            byte,
        ) && after[byte] == kind by {
            assert(before.dom().contains(byte));
            assert(frame::same_at(before, after, byte));
        }
    }
}

/// References in front of tokens that are defined later keep their definitions.
proof fn lemma_stay_referenced(
    a: Seq<SpannedToken>,
    b: Seq<SpannedToken>,
    before: Map<usize, DefinitionView>,
    after: Map<usize, DefinitionView>,
)
    requires
        order::is_ordered(a + b),
        all_referenced(a, before),
        differs_at_references(before, after, b),
    ensures
        all_referenced(a, after),
{
    assert forall|i: int| 0 <= i < a.len() implies is_referenced(#[trigger] a[i], after) by {
        assert(is_referenced(a[i], before));
        assert((a + b)[i] == a[i]);
        assert forall|byte: usize| a[i].0 <= byte < a[i].2 implies #[trigger] frame::same_at(
            before,
            after,
            byte,
        ) by {
            assert(frame::same_at(before, after, byte) || is_covered(b, byte));
            if is_covered(b, byte) {
                let j = choose|j: int|
                    0 <= j < b.len() && is_reference((#[trigger] b[j]).1) && b[j].0 <= byte
                        <= b[j].2;
                assert((a + b)[a.len() + j] == b[j]);
                assert((a + b)[i].2 <= (a + b)[a.len() + j].0);
            }
        }
        lemma_stays_referenced(a[i], before, after);
    }
}

proof fn lemma_none_referenced(tokens: Seq<SpannedToken>, after: Map<usize, DefinitionView>)
    requires
        forall|i: int| 0 <= i < tokens.len() ==> !is_reference((#[trigger] tokens[i]).1),
    ensures
        all_referenced(tokens, after),
{
}

proof fn lemma_differs<'a>(value: ConstructView<'a>, before: Map<usize, DefinitionView>)
    ensures
        differs_at_references(before, tokens::walked(value, before), order::tokens_of(value)),
    decreases value,
{
    broadcast use lemma_differs_wider;

    reveal_with_fuel(tokens::walked, 3);
    reveal_with_fuel(order::tokens_of, 4);
    let all = order::tokens_of(value);
    let after = tokens::walked(value, before);
    match value {
        ConstructView::Node { node } => {
            assert(all[0] == node.token);
        },
        ConstructView::MathOperation { left, operators, right } => {
            lemma_differs(*left, before);
            let s = tokens::walked(*left, before);
            assert(differs_at_references(before, s, all));
            if let Some(right) = right {
                lemma_differs(*right, s);
                assert(differs_at_references(
                    s,
                    after,
                    order::node_tokens(operators) + order::tokens_of(*right),
                ));
                assert(differs_at_references(s, after, all));
                lemma_differs_twice(before, s, after, all);
            }
        },
        ConstructView::UnaryMinus { operand, .. } => {
            lemma_differs(*operand, before);
        },
        ConstructView::Table { body } => {
            lemma_list_differs(body, before);
        },
        ConstructView::AnnotatedTable { body: Some(body), .. } => {
            lemma_list_differs(body, before);
        },
        ConstructView::MacroCall { body: Some(body), terminator, .. } => {
            lemma_list_differs(body, before);
            assert(differs_at_references(
                before,
                after,
                order::delimited_tokens(body) + order::optional_token(terminator),
            ));
        },
        _ => {},
    }
}

/// The definitions with those of the references between brackets.
spec fn list_walked(body: DelimitedView, before: Map<usize, DefinitionView>) -> Map<
    usize,
    DefinitionView,
> {
    match body.content {
        Some(content) => tokens::all_walked(content, before),
        None => before,
    }
}

proof fn lemma_list_differs<'a>(body: DelimitedView<'a>, before: Map<usize, DefinitionView>)
    ensures
        differs_at_references(before, list_walked(body, before), order::delimited_tokens(body)),
    decreases body,
{
    broadcast use lemma_differs_wider;

    if let Some(content) = body.content {
        assert(decreases_to!(body => body.content));
        assert(decreases_to!(body.content => content));
        lemma_all_differ(content, before);
        assert(differs_at_references(
            before,
            list_walked(body, before),
            order::all_tokens_of(content) + order::optional_token(body.right),
        ));
    }
}

proof fn lemma_all_differ<'a>(content: Seq<ConstructView<'a>>, before: Map<usize, DefinitionView>)
    ensures
        differs_at_references(
            before,
            tokens::all_walked(content, before),
            order::all_tokens_of(content),
        ),
    decreases content,
{
    broadcast use lemma_differs_wider;

    if content.len() > 0 {
        assert(decreases_to!(content => content[content.len() - 1]));
        let front = content.drop_last();
        let all = order::all_tokens_of(content);
        let s = tokens::all_walked(front, before);
        lemma_all_differ(front, before);
        lemma_differs(content[content.len() - 1], s);
        assert(differs_at_references(before, s, all));
        lemma_differs_twice(before, s, tokens::all_walked(content, before), all);
    }
}

proof fn lemma_value<'a>(value: ConstructView<'a>, before: Map<usize, DefinitionView>)
    requires
        is_value(value),
        order::is_ordered(order::tokens_of(value)),
    ensures
        all_referenced(order::tokens_of(value), tokens::walked(value, before)),
    decreases value,
{
    broadcast use lemma_all_referenced;

    reveal_with_fuel(tokens::walked, 3);
    reveal_with_fuel(order::tokens_of, 4);
    let all = order::tokens_of(value);
    let after = tokens::walked(value, before);
    match value {
        ConstructView::Node { node } => {
            assert(all.len() == 1 && all[0] == node.token);
            assert(is_referenced(node.token, after));
        },
        ConstructView::MathOperation { left, operators, right } => {
            let first = order::tokens_of(*left);
            let middle = order::node_tokens(operators);
            let last = order::boxed_tokens_of(right);
            let s = tokens::walked(*left, before);
            frame::lemma_parts_are_ordered(first, middle + last);
            frame::lemma_parts_are_ordered(middle, last);
            lemma_value(*left, before);
            assert forall|i: int| 0 <= i < middle.len() implies !is_reference(
                (#[trigger] middle[i]).1,
            ) by {
                assert(middle[i] == operators[i].token);
            }
            lemma_none_referenced(middle, after);
            if let Some(right) = right {
                lemma_value(*right, s);
                lemma_differs(*right, s);
                lemma_differs_wider(s, after, middle, last);
                lemma_stay_referenced(first, middle + last, s, after);
            }
            assert(all_referenced(middle + last, after));
        },
        ConstructView::UnaryMinus { operator, operand } => {
            frame::lemma_parts_are_ordered(seq![operator.token], order::tokens_of(*operand));
            lemma_value(*operand, before);
            lemma_none_referenced(seq![operator.token], after);
        },
        ConstructView::Table { body } => {
            lemma_list(body, before);
        },
        ConstructView::AnnotatedTable { annotation, body } => {
            lemma_none_referenced(seq![annotation.token], after);
            if let Some(body) = body {
                frame::lemma_parts_are_ordered(
                    seq![annotation.token],
                    order::delimited_tokens(body),
                );
                lemma_list(body, before);
            }
        },
        ConstructView::MacroCall { name, body, terminator } => {
            let end = order::optional_token(terminator);
            lemma_none_referenced(seq![name.token], after);
            lemma_none_referenced(end, after);
            if let Some(body) = body {
                frame::lemma_parts_are_ordered(
                    seq![name.token],
                    order::delimited_tokens(body) + end,
                );
                frame::lemma_parts_are_ordered(order::delimited_tokens(body), end);
                lemma_list(body, before);
            }
            assert(all_referenced(order::optional_tokens_of(body) + end, after));
        },
        ConstructView::Enum { keyword, name, variant } => {
            lemma_none_referenced(seq![keyword.token], after);
            lemma_none_referenced(order::optional_token(name), after);
            lemma_none_referenced(order::optional_token(variant), after);
            assert(all_referenced(
                order::optional_token(name) + order::optional_token(variant),
                after,
            ));
        },
        _ => {},
    }
}

proof fn lemma_list<'a>(body: DelimitedView<'a>, before: Map<usize, DefinitionView>)
    requires
        is_list(body),
        order::is_ordered(order::delimited_tokens(body)),
    ensures
        all_referenced(order::delimited_tokens(body), list_walked(body, before)),
    decreases body,
{
    broadcast use lemma_all_referenced;

    let after = list_walked(body, before);
    let close = order::optional_token(body.right);
    lemma_none_referenced(seq![body.left.token], after);
    lemma_none_referenced(close, after);
    if let Some(content) = body.content {
        assert(decreases_to!(body => body.content));
        assert(decreases_to!(body.content => content));
        let inner = order::all_tokens_of(content);
        frame::lemma_parts_are_ordered(seq![body.left.token], inner + close);
        frame::lemma_parts_are_ordered(inner, close);
        lemma_list_content(content, before);
        assert(all_referenced(inner + close, after));
    } else {
        assert(all_referenced(Seq::<SpannedToken>::empty() + close, after));
    }
}

proof fn lemma_list_content<'a>(
    content: Seq<ConstructView<'a>>,
    before: Map<usize, DefinitionView>,
)
    requires
        are_values(content),
        order::is_ordered(order::all_tokens_of(content)),
    ensures
        all_referenced(order::all_tokens_of(content), tokens::all_walked(content, before)),
    decreases content,
{
    broadcast use lemma_all_referenced;

    if content.len() > 0 {
        assert(decreases_to!(content => content[content.len() - 1]));
        let front = content.drop_last();
        let last = content[content.len() - 1];
        let s = tokens::all_walked(front, before);
        let after = tokens::all_walked(content, before);
        assert(forall|i: int| 0 <= i < front.len() ==> #[trigger] front[i] == content[i]);
        frame::lemma_parts_are_ordered(order::all_tokens_of(front), order::tokens_of(last));
        lemma_list_content(front, before);
        lemma_value(last, s);
        lemma_differs(last, s);
        lemma_stay_referenced(order::all_tokens_of(front), order::tokens_of(last), s, after);
    }
}

/// Each reference to a token in a value, at any depth, is defined with the name of the token
/// and whether it is static. All other bytes keep their definitions.
pub proof fn lemma_references_are_defined(
    value: ConstructView,
    before: Map<usize, DefinitionView>,
)
    requires
        is_value(value),
        order::is_ordered(order::tokens_of(value)),
    ensures
        all_referenced(order::tokens_of(value), tokens::walked(value, before)),
        differs_at_references(before, tokens::walked(value, before), order::tokens_of(value)),
{
    lemma_value(value, before);
    lemma_differs(value, before);
}

} // verus!
