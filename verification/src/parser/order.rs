//! The order of the tokens of a construct.

use super::construct::{ConstructView, DelimitedView, NodeView};
use super::token::SpannedToken;
use vstd::prelude::*;

verus! {

/// The token of a node, where there is one.
pub open spec fn optional_token<'a>(node: Option<NodeView<'a>>) -> Seq<SpannedToken<'a>> {
    match node {
        Some(node) => seq![node.token],
        None => Seq::empty(),
    }
}

/// The tokens of nodes.
pub open spec fn node_tokens<'a>(nodes: Seq<NodeView<'a>>) -> Seq<SpannedToken<'a>> {
    Seq::new(nodes.len(), |i: int| nodes[i].token)
}

/// The tokens of a construct, from the first to the last.
pub open spec fn tokens_of<'a>(construct: ConstructView<'a>) -> Seq<SpannedToken<'a>>
    decreases construct,
{
    match construct {
        ConstructView::Macro { declaration, name, args, return_type, body } => seq![
            declaration.token,
        ] + (optional_token(name) + (optional_tokens_of(args) + (match return_type {
            Some((arrow, ident)) => seq![arrow.token] + optional_token(ident),
            None => Seq::empty(),
        } + optional_tokens_of(body)))),
        ConstructView::MacroCall { name, body, terminator } => seq![name.token] + (
        optional_tokens_of(body) + optional_token(terminator)),
        ConstructView::Derive { declaration, body, terminator } => seq![declaration.token] + (
        boxed_tokens_of(body) + optional_token(terminator)),
        ConstructView::Priority { declaration, body, terminator } => seq![declaration.token] + (
        boxed_tokens_of(body) + optional_token(terminator)),
        ConstructView::Name { declaration, body, terminator } => seq![declaration.token] + (
        boxed_tokens_of(body) + optional_token(terminator)),
        ConstructView::Tween { declaration, name, body, terminator } => seq![declaration.token] + (
        optional_token(name) + (boxed_tokens_of(body) + optional_token(terminator))),
        ConstructView::Rule { selectors, body } => (match selectors {
            Some(selectors) => node_tokens(selectors),
            None => Seq::empty(),
        }) + optional_tokens_of(body),
        ConstructView::Assignment { left, middle, right, terminator } => seq![left.token] + (
        optional_token(middle) + (boxed_tokens_of(right) + optional_token(terminator))),
        ConstructView::MathOperation { left, operators, right } => tokens_of(*left) + (node_tokens(
            operators,
        ) + boxed_tokens_of(right)),
        ConstructView::UnaryMinus { operator, operand } => seq![operator.token] + tokens_of(
            *operand,
        ),
        ConstructView::AnnotatedTable { annotation, body } => seq![annotation.token]
            + optional_tokens_of(body),
        ConstructView::Table { body } => delimited_tokens(body),
        ConstructView::Enum { keyword, name, variant } => seq![keyword.token] + (optional_token(
            name,
        ) + optional_token(variant)),
        ConstructView::Node { node } => seq![node.token],
        ConstructView::Absent { node } => seq![node.token],
    }
}

pub open spec fn boxed_tokens_of<'a>(construct: Option<Box<ConstructView<'a>>>) -> Seq<
    SpannedToken<'a>,
>
    decreases construct,
{
    match construct {
        Some(construct) => tokens_of(*construct),
        None => Seq::empty(),
    }
}

pub open spec fn delimited_tokens<'a>(delimited: DelimitedView<'a>) -> Seq<SpannedToken<'a>>
    decreases delimited,
{
    seq![delimited.left.token] + (match delimited.content {
        Some(content) => all_tokens_of(content),
        None => Seq::empty(),
    } + optional_token(delimited.right))
}

pub open spec fn optional_tokens_of<'a>(delimited: Option<DelimitedView<'a>>) -> Seq<
    SpannedToken<'a>,
>
    decreases delimited,
{
    match delimited {
        Some(delimited) => delimited_tokens(delimited),
        None => Seq::empty(),
    }
}

pub open spec fn all_tokens_of<'a>(constructs: Seq<ConstructView<'a>>) -> Seq<SpannedToken<'a>>
    decreases constructs,
{
    if constructs.len() == 0 {
        Seq::empty()
    } else {
        all_tokens_of(constructs.drop_last()) + tokens_of(constructs[constructs.len() - 1])
    }
}

/// Whether all rules in a construct have a body.
pub open spec fn rules_have_bodies(construct: ConstructView) -> bool
    decreases construct,
{
    match construct {
        ConstructView::Macro { args, body, .. } => optional_has_bodies(args)
            && optional_has_bodies(body),
        ConstructView::MacroCall { body, .. } => optional_has_bodies(body),
        ConstructView::Derive { body, .. } => boxed_has_bodies(body),
        ConstructView::Priority { body, .. } => boxed_has_bodies(body),
        ConstructView::Name { body, .. } => boxed_has_bodies(body),
        ConstructView::Tween { body, .. } => boxed_has_bodies(body),
        ConstructView::Rule { body, .. } => body is Some && optional_has_bodies(body),
        ConstructView::Assignment { right, .. } => boxed_has_bodies(right),
        ConstructView::MathOperation { left, right, .. } => rules_have_bodies(*left)
            && boxed_has_bodies(right),
        ConstructView::UnaryMinus { operand, .. } => rules_have_bodies(*operand),
        ConstructView::AnnotatedTable { body, .. } => optional_has_bodies(body),
        ConstructView::Table { body } => delimited_has_bodies(body),
        ConstructView::Enum { .. } => true,
        ConstructView::Node { .. } => true,
        ConstructView::Absent { .. } => true,
    }
}

pub open spec fn boxed_has_bodies(construct: Option<Box<ConstructView>>) -> bool
    decreases construct,
{
    match construct {
        Some(construct) => rules_have_bodies(*construct),
        None => true,
    }
}

pub open spec fn delimited_has_bodies(delimited: DelimitedView) -> bool
    decreases delimited,
{
    match delimited.content {
        Some(content) => all_have_bodies(content),
        None => true,
    }
}

pub open spec fn optional_has_bodies(delimited: Option<DelimitedView>) -> bool
    decreases delimited,
{
    match delimited {
        Some(delimited) => delimited_has_bodies(delimited),
        None => true,
    }
}

pub open spec fn all_have_bodies(constructs: Seq<ConstructView>) -> bool
    decreases constructs,
{
    forall|i: int| 0 <= i < constructs.len() ==> rules_have_bodies(#[trigger] constructs[i])
}

/// Whether no token ends before it starts, and each starts no earlier than those in front of
/// it end.
pub open spec fn is_ordered(tokens: Seq<SpannedToken>) -> bool {
    &&& forall|i: int| 0 <= i < tokens.len() ==> (#[trigger] tokens[i]).0 <= tokens[i].2
    &&& forall|i: int, j: int|
        0 <= i < j < tokens.len() ==> (#[trigger] tokens[i]).2 <= (#[trigger] tokens[j]).0
}

/// Whether one of the tokens ends at the given byte.
pub open spec fn ends_at(tokens: Seq<SpannedToken>, end: usize) -> bool {
    exists|i: int| 0 <= i < tokens.len() && (#[trigger] tokens[i]).2 == end
}

/// Whether the last of the tokens ends at the given byte.
spec fn ends_with(tokens: Seq<SpannedToken>, end: usize) -> bool {
    tokens.len() > 0 && tokens[tokens.len() - 1].2 == end
}

broadcast proof fn lemma_ends_in_front(a: Seq<SpannedToken>, b: Seq<SpannedToken>, end: usize)
    requires
        ends_with(a, end),
        b.len() == 0,
    ensures
        #[trigger] ends_with(a + b, end),
{
}

broadcast proof fn lemma_ends_behind(a: Seq<SpannedToken>, b: Seq<SpannedToken>, end: usize)
    requires
        ends_with(b, end),
    ensures
        #[trigger] ends_with(a + b, end),
{
}

broadcast proof fn lemma_ends_at_token(token: SpannedToken)
    ensures
        #[trigger] ends_with(seq![token], token.2),
{
}

/// What stands between brackets starts with the opening one and ends where the
/// last token does.
pub proof fn lemma_delimited(delimited: DelimitedView)
    requires
        delimited_has_bodies(delimited),
    ensures
        delimited_tokens(delimited).len() > 0,
        delimited_tokens(delimited)[0].0 == delimited.start(),
        ends_at(delimited_tokens(delimited), delimited.end()),
        delimited_tokens(delimited).last().2 == delimited.end(),
    decreases delimited,
{
    broadcast use {lemma_ends_in_front, lemma_ends_behind, lemma_ends_at_token};

    if let Some(content) = delimited.content {
        if content.len() > 0 {
            assert(decreases_to!(delimited => delimited.content));
            assert(decreases_to!(delimited.content => content));
            assert(decreases_to!(content => content[content.len() - 1]));
            lemma_construct(content[content.len() - 1]);
            assert(ends_with(all_tokens_of(content), content[content.len() - 1].end()));
        }
    }
    assert(ends_with(delimited_tokens(delimited), delimited.end()));
    let tokens = delimited_tokens(delimited);
    assert(tokens[tokens.len() - 1].2 == delimited.end());
}

/// A construct starts where its first token does and ends where its last one does.
pub proof fn lemma_construct(construct: ConstructView)
    requires
        rules_have_bodies(construct),
    ensures
        tokens_of(construct).len() > 0,
        tokens_of(construct)[0].0 == construct.start(),
        tokens_of(construct).last().2 == construct.end(),
        ends_at(tokens_of(construct), construct.end()),
    decreases construct,
{
    broadcast use {lemma_ends_in_front, lemma_ends_behind, lemma_ends_at_token};

    reveal_with_fuel(tokens_of, 3);
    reveal_with_fuel(rules_have_bodies, 3);
    match construct {
        ConstructView::Macro { args, body, .. } => {
            if let Some(args) = args {
                lemma_delimited(args);
            }
            if let Some(body) = body {
                lemma_delimited(body);
            }
        },
        ConstructView::MacroCall { body, .. } => {
            if let Some(body) = body {
                lemma_delimited(body);
            }
        },
        ConstructView::Derive { body, .. } => {
            if let Some(body) = body {
                lemma_construct(*body);
            }
        },
        ConstructView::Priority { body, .. } => {
            if let Some(body) = body {
                lemma_construct(*body);
            }
        },
        ConstructView::Name { body, .. } => {
            if let Some(body) = body {
                lemma_construct(*body);
            }
        },
        ConstructView::Tween { body, .. } => {
            if let Some(body) = body {
                lemma_construct(*body);
            }
        },
        ConstructView::Rule { body, .. } => {
            if let Some(body) = body {
                lemma_delimited(body);
            }
        },
        ConstructView::Assignment { right, .. } => {
            if let Some(right) = right {
                lemma_construct(*right);
            }
        },
        ConstructView::MathOperation { left, operators, right } => {
            lemma_construct(*left);
            if let Some(right) = right {
                lemma_construct(*right);
            } else if operators.len() > 0 {
                assert(node_tokens(operators)[operators.len() - 1].2
                    == operators[operators.len() - 1].token.2);
                assert(ends_with(node_tokens(operators), construct.end()));
            }
        },
        ConstructView::UnaryMinus { operand, .. } => {
            lemma_construct(*operand);
        },
        ConstructView::AnnotatedTable { body, .. } => {
            if let Some(body) = body {
                lemma_delimited(body);
            }
        },
        ConstructView::Table { body } => {
            lemma_delimited(body);
        },
        _ => {},
    }
    assert(ends_with(tokens_of(construct), construct.end()));
    assert(tokens_of(construct)[tokens_of(construct).len() - 1].2 == construct.end());
}

/// A construct whose tokens stand in order, and whose rules all have bodies, ends no earlier
/// than it starts, and its span says where.
pub proof fn lemma_span_is_forward(construct: ConstructView)
    requires
        is_ordered(tokens_of(construct)),
        rules_have_bodies(construct),
    ensures
        construct.span() == (construct.start(), construct.end()),
        construct.span().0 <= construct.span().1,
{
    lemma_construct(construct);
    let tokens = tokens_of(construct);
    let i = choose|i: int| 0 <= i < tokens.len() && (#[trigger] tokens[i]).2 == construct.end();
    assert(tokens[0].0 <= tokens[0].2);
    assert(tokens[i].0 <= tokens[i].2);
}

} // verus!
