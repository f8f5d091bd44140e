//! The references to tokens in a value.

use crate::parser::construct;
use crate::parser::construct::{Construct, ConstructView, Delimited};
use crate::parser::token::Token;
use crate::typechecker::definitions;
use crate::typechecker::definitions::{DefinitionKind, DefinitionView, Definitions};
use vstd::prelude::*;

verus! {

/// The definition of a reference to a token; nothing for other tokens.
pub open spec fn reference_view(token: Token) -> Option<DefinitionView> {
    match token {
        Token::TokenIdentifier(name) => Some(
            DefinitionView::Token { name: name@, is_static: false },
        ),
        Token::StaticTokenIdentifier(name) => Some(
            DefinitionView::Token { name: name@, is_static: true },
        ),
        _ => None,
    }
}

/// The definitions with those of the references in a value.
pub open spec fn walked(
    construct: ConstructView,
    before: Map<usize, DefinitionView>,
) -> Map<usize, DefinitionView>
    decreases construct,
{
    match construct {
        ConstructView::Node { node } => match reference_view(node.token.1) {
            Some(kind) => definitions::defined(before, node.token.0, node.token.2, kind),
            None => before,
        },
        ConstructView::MathOperation { left, right, .. } => {
            let s = walked(*left, before);
            match right {
                Some(right) => walked(*right, s),
                None => s,
            }
        },
        ConstructView::UnaryMinus { operand, .. } => walked(*operand, before),
        ConstructView::Table { body } => match body.content {
            Some(content) => all_walked(content, before),
            None => before,
        },
        ConstructView::AnnotatedTable { body, .. } => match body {
            Some(body) => match body.content {
                Some(content) => all_walked(content, before),
                None => before,
            },
            None => before,
        },
        ConstructView::MacroCall { body, .. } => match body {
            Some(body) => match body.content {
                Some(content) => all_walked(content, before),
                None => before,
            },
            None => before,
        },
        _ => before,
    }
}

/// The definitions with those of the references in several values.
pub open spec fn all_walked(
    content: Seq<ConstructView>,
    before: Map<usize, DefinitionView>,
) -> Map<usize, DefinitionView>
    decreases content,
{
    if content.len() == 0 {
        before
    } else {
        walked(content[content.len() - 1], all_walked(content.drop_last(), before))
    }
}

/// Defines the references to tokens in a value.
pub fn walk_construct(construct: &Construct, document: &mut Definitions)
    ensures
        final(document)@ == walked(construct.deep_view(), old(document)@),
    decreases construct,
{
    proof {
        reveal_with_fuel(construct::construct_view, 3);
    }
    match construct {
        Construct::Node { node } => {
            let kind = match node.token.value() {
                Token::TokenIdentifier(name) => DefinitionKind::Token {
                    name: name.to_owned(),
                    is_static: false,
                },
                Token::StaticTokenIdentifier(name) => DefinitionKind::Token {
                    name: name.to_owned(),
                    is_static: true,
                },
                _ => return,
            };
            document.insert(node.token.start(), node.token.end(), kind);
        },
        Construct::MathOperation { left, right, .. } => {
            walk_construct(left, document);
            if let Some(right) = right {
                walk_construct(right, document);
            }
        },
        Construct::UnaryMinus { operand, .. } => {
            walk_construct(operand, document);
        },
        Construct::Table { body } => {
            walk_delimited(body, document);
        },
        Construct::AnnotatedTable { body, .. } => {
            if let Some(body) = body {
                walk_delimited(body, document);
            }
        },
        Construct::MacroCall { body, .. } => {
            if let Some(body) = body {
                walk_delimited(body, document);
            }
        },
        _ => (),
    }
}

fn walk_delimited(delimited: &Delimited, document: &mut Definitions)
    ensures
        final(document)@ == (match delimited.deep_view().content {
            Some(content) => all_walked(content, old(document)@),
            None => old(document)@,
        }),
    decreases delimited,
{
    let content = match &delimited.content {
        Some(content) => content,
        None => return,
    };
    let ghost views = construct::constructs_view(content@);
    let ghost before = document@;
    assert(views.take(0) =~= Seq::empty());
    let mut i: usize = 0;
    while i < content.len()
        invariant
            i <= content@.len(),
            delimited.content == Some(*content),
            views == construct::constructs_view(content@),
            document@ == all_walked(views.take(i as int), before),
        decreases content@.len() - i,
    {
        assert(views.take(i + 1).drop_last() =~= views.take(i as int));
        assert(views.take(i + 1)[i as int] == construct::construct_view(content@[i as int]));
        proof {
            construct::lemma_content_is_smaller(Some(*delimited), i as int);
        }
        walk_construct(&content[i], document);
        i += 1;
    }
    assert(views.take(i as int) =~= views);
}

} // verus!
