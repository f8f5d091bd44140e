//! The check of rules.

use super::definitions;
use super::definitions::{clone_names, DefinitionKind, DefinitionView, Definitions};
use super::macro_check;
use super::macro_check::{typecheck_macro, validate_value, validate_values, MacroBody};
use super::selectors;
use super::selectors::{typecheck_selectors, CheckState};
use super::tween;
use super::tween::typecheck_tween;
use crate::autocomplete::tokens;
use crate::diagnostic::AstErrors;
use crate::parser::construct;
use crate::parser::construct::{Construct, ConstructView, Delimited, DelimitedView, Node, NodeView};
use crate::parser::token::Token;
use crate::reflection::{Reflection, ReflectionView};
use crate::text;
use ropey::Rope;
use vstd::prelude::*;

verus! {

impl CheckState {
    pub open spec fn define(self, start: usize, end: usize, kind: DefinitionView) -> CheckState {
        CheckState {
            definitions: definitions::defined(self.definitions, start, end, kind),
            ..self
        }
    }
}

/// The name that a part of an enum item holds.
pub open spec fn enum_part_name(token: Token) -> Option<&str> {
    match token {
        Token::TagSelectorOrEnumPart(name) => name,
        Token::StateSelectorOrEnumPart(name) => name,
        _ => None,
    }
}

/// The end of an assignment: that of its semicolon, its value or its equals sign.
pub open spec fn assignment_end(
    middle: NodeView,
    right: Option<Box<ConstructView>>,
    terminator: Option<NodeView>,
) -> usize {
    match terminator {
        Some(terminator) => terminator.token.2,
        None => match right {
            Some(right) => right.span().1,
            None => middle.token.2,
        },
    }
}

/// The definitions with that of a token, where one is declared with a value.
pub open spec fn with_declared_token(
    left: NodeView,
    right: Option<Box<ConstructView>>,
    before: Map<usize, DefinitionView>,
) -> Map<usize, DefinitionView> {
    match (tokens::reference_view(left.token.1), right) {
        (Some(kind), Some(_)) => definitions::defined(before, left.token.0, left.token.2, kind),
        _ => before,
    }
}

/// Checks an assignment: its value may not refer to an argument of a macro; a token is defined
/// where it is declared; the value of a property is
/// completed by the property's type, and the parts of an enum item by the enum's names.
pub open spec fn checked_assignment(
    left: NodeView,
    middle: Option<NodeView>,
    right: Option<Box<ConstructView>>,
    terminator: Option<NodeView>,
    classes: Seq<Seq<char>>,
    text: Seq<char>,
    before: CheckState,
) -> CheckState {
    let before = CheckState {
        errors: macro_check::checked_value(right, None, text, before.errors),
        ..before
    };
    match (left.token.1, middle) {
        (Token::Identifier(property_name), Some(middle)) => {
            let end = assignment_end(middle, right, terminator);
            let s = before.define(
                middle.token.0,
                end,
                DefinitionView::Assignment {
                    property_name: property_name@,
                    type_definition: classes,
                },
            );
            match right {
                Some(right) => match *right {
                    ConstructView::Enum { keyword, name, variant } => {
                        let s = s.define(
                            keyword.token.2,
                            construct::end_or(name, end),
                            DefinitionView::EnumName,
                        );
                        match name {
                            Some(name) => match enum_part_name(name.token.1) {
                                Some(enum_name) => s.define(
                                    name.token.2,
                                    construct::end_or(variant, end),
                                    DefinitionView::EnumVariant { enum_name: enum_name@ },
                                ),
                                None => s,
                            },
                            None => s,
                        }
                    },
                    _ => s,
                },
                None => s,
            }
        },
        _ => CheckState {
            definitions: with_declared_token(left, right, before.definitions),
            ..before
        },
    }
}

/// Checks a rule: its selector, then its body, whose rules are nested in it.
pub open spec fn checked_rule(
    selectors: Option<Seq<NodeView>>,
    body: Option<DelimitedView>,
    parent: Seq<Seq<char>>,
    text: Seq<char>,
    db: ReflectionView,
    before: CheckState,
) -> CheckState
    decreases body,
{
    let (classes, s) = match selectors {
        Some(selectors) => selectors::checked_selectors(selectors, parent, text, db, before),
        None => (parent, before),
    };
    match body {
        Some(body) => {
            let s = s.define(
                body.left.token.0,
                construct::end_or(body.right, body.left.token.2),
                DefinitionView::Scope { type_definition: classes },
            );
            match body.content {
                Some(content) => checked_content(content, classes, text, db, s),
                None => s,
            }
        },
        None => s,
    }
}

/// Checks the constructs of a rule's body, one after the other.
pub open spec fn checked_content(
    content: Seq<ConstructView>,
    classes: Seq<Seq<char>>,
    text: Seq<char>,
    db: ReflectionView,
    before: CheckState,
) -> CheckState
    decreases content,
{
    if content.len() == 0 {
        before
    } else {
        checked_construct(
            content[content.len() - 1],
            classes,
            text,
            db,
            checked_content(content.drop_last(), classes, text, db, before),
        )
    }
}

/// Checks a construct of a rule's body.
pub open spec fn checked_construct(
    construct: ConstructView,
    classes: Seq<Seq<char>>,
    text: Seq<char>,
    db: ReflectionView,
    before: CheckState,
) -> CheckState
    decreases construct,
{
    match construct {
        ConstructView::Rule { selectors, body } => checked_rule(
            selectors,
            body,
            classes,
            text,
            db,
            before,
        ),
        ConstructView::Assignment { left, middle, right, terminator } => checked_assignment(
            left,
            middle,
            right,
            terminator,
            classes,
            text,
            before,
        ),
        ConstructView::Tween { body: Some(body), .. } => CheckState {
            errors: tween::checked_tween(*body, text, before.errors),
            ..before
        },
        ConstructView::Macro { args, return_type, body, .. } => CheckState {
            errors: macro_check::checked_macro(
                args,
                macro_check::body_of(return_type, body),
                text,
                before.errors,
            ),
            ..before
        },
        _ => CheckState {
            errors: macro_check::checked_values(construct, None, text, before.errors),
            ..before
        },
    }
}

/// What the executable state of a check holds.
pub open spec fn check_state(errors: &AstErrors, document: &Definitions) -> CheckState {
    CheckState { errors: errors.0.deep_view(), definitions: document@ }
}

/// Defines a token where it is declared with a value.
pub fn define_token<'a>(
    left: &Node<'a>,
    right: &Option<Box<Construct<'a>>>,
    document: &mut Definitions,
)
    ensures
        final(document)@ == with_declared_token(
            left.deep_view(),
            construct::boxed_view(*right),
            old(document)@,
        ),
{
    proof {
        reveal_with_fuel(construct::boxed_view, 2);
    }
    if right.is_none() {
        return;
    }
    let kind = match left.token.value() {
        Token::TokenIdentifier(name) => DefinitionKind::Token {
            name: name.to_owned(),
            is_static: false,
        },
        Token::StaticTokenIdentifier(name) => DefinitionKind::Token {
            name: name.to_owned(),
            is_static: true,
        },
        _ => return,
    };
    document.insert(left.token.start(), left.token.end(), kind);
}

fn typecheck_assignment<'a>(
    left: &Node<'a>,
    middle: &Option<Node<'a>>,
    right: &Option<Box<Construct<'a>>>,
    terminator: &Option<Node<'a>>,
    classes: &Vec<String>,
    rope: &Rope,
    ast_errors: &mut AstErrors,
    document: &mut Definitions,
)
    ensures
        check_state(final(ast_errors), final(document)) == checked_assignment(
            left.deep_view(),
            middle.deep_view(),
            construct::boxed_view(*right),
            terminator.deep_view(),
            definitions::names_view(classes@),
            text::rope_text(rope),
            check_state(old(ast_errors), old(document)),
        ),
{
    validate_value(right, None, rope, ast_errors);
    let property_name = match left.token.value() {
        Token::Identifier(property_name) => property_name,
        _ => {
            define_token(left, right, document);
            return;
        },
    };
    let middle = match middle {
        Some(middle) => middle,
        None => return,
    };
    proof {
        reveal_with_fuel(construct::boxed_view, 3);
    }
    let assign_end: usize = match terminator {
        Some(terminator) => terminator.token.end(),
        None => match right {
            Some(right) => right.end(),
            None => middle.token.end(),
        },
    };
    assert(assign_end == assignment_end(
        middle.deep_view(),
        construct::boxed_view(*right),
        terminator.deep_view(),
    ));
    document.insert(
        middle.token.start(),
        assign_end,
        DefinitionKind::Assignment {
            property_name: property_name.to_owned(),
            type_definition: clone_names(classes),
        },
    );
    let right = match right {
        Some(right) => right,
        None => return,
    };
    if let Construct::Enum { keyword, name, variant } = &**right {
        let name_range_end: usize = match name {
            Some(name) => name.token.end(),
            None => assign_end,
        };
        document.insert(keyword.token.end(), name_range_end, DefinitionKind::EnumName);
        if let Some(name_node) = name {
            let enum_name = match name_node.token.value() {
                Token::TagSelectorOrEnumPart(Some(name)) => name,
                Token::StateSelectorOrEnumPart(Some(name)) => name,
                _ => return,
            };
            let variant_range_end: usize = match variant {
                Some(variant) => variant.token.end(),
                None => assign_end,
            };
            document.insert(
                name_node.token.end(),
                variant_range_end,
                DefinitionKind::EnumVariant { enum_name: enum_name.to_owned() },
            );
        }
    }
}

/// Checks a rule and what is nested in it.
pub fn typecheck_rule<'a>(
    selectors: &Option<Vec<Node<'a>>>,
    body: &Option<Delimited<'a>>,
    parent_classes: &Vec<String>,
    rope: &Rope,
    db: &Reflection,
    ast_errors: &mut AstErrors,
    document: &mut Definitions,
)
    ensures
        check_state(final(ast_errors), final(document)) == checked_rule(
            selectors.deep_view(),
            body.deep_view(),
            definitions::names_view(parent_classes@),
            text::rope_text(rope),
            db.deep_view(),
            check_state(old(ast_errors), old(document)),
        ),
    decreases body,
{
    let ghost start = check_state(ast_errors, document);
    let current_classes = match selectors {
        Some(selectors) => typecheck_selectors(
            selectors,
            parent_classes,
            rope,
            db,
            ast_errors,
            document,
        ),
        None => clone_names(parent_classes),
    };
    let delimited = match body {
        Some(delimited) => delimited,
        None => return,
    };
    let body_end: usize = match &delimited.right {
        Some(right) => right.token.end(),
        None => delimited.left.token.end(),
    };
    document.insert(
        delimited.left.token.start(),
        body_end,
        DefinitionKind::Scope { type_definition: clone_names(&current_classes) },
    );
    let content = match &delimited.content {
        Some(content) => content,
        None => return,
    };
    let ghost views = construct::constructs_view(content@);
    let ghost classes = definitions::names_view(current_classes@);
    let ghost text = text::rope_text(rope);
    let ghost before = check_state(ast_errors, document);
    assert(views.take(0) =~= Seq::empty());
    let mut i: usize = 0;
    while i < content.len()
        invariant
            i <= content@.len(),
            *body == Some(*delimited),
            delimited.content == Some(*content),
            views == construct::constructs_view(content@),
            classes == definitions::names_view(current_classes@),
            text == text::rope_text(rope),
            check_state(ast_errors, document) == checked_content(
                views.take(i as int),
                classes,
                text,
                db.deep_view(),
                before,
            ),
        decreases content@.len() - i,
    {
        let ghost so_far = check_state(ast_errors, document);
        assert(views.take(i + 1).drop_last() =~= views.take(i as int));
        assert(views.take(i + 1)[i as int] == construct::construct_view(content@[i as int]));
        proof {
            reveal_with_fuel(construct::construct_view, 3);
        }
        match &content[i] {
            Construct::Rule { selectors, body: inner } => {
                proof {
                    assert(construct::optional_delimited_view(*inner) == inner.deep_view());
                    construct::lemma_content_is_smaller(*body, i as int);
                    assert(decreases_to!(content@[i as int] => *inner));
                }
                typecheck_rule(selectors, inner, &current_classes, rope, db, ast_errors, document);
            },
            Construct::Assignment { left, middle, right, terminator } => {
                typecheck_assignment(
                    left,
                    middle,
                    right,
                    terminator,
                    &current_classes,
                    rope,
                    ast_errors,
                    document,
                );
            },
            Construct::Tween { body: Some(inner), .. } => {
                typecheck_tween(inner, rope, ast_errors);
            },
            Construct::Macro { args, return_type, body: inner, .. } => {
                proof {
                    assert(construct::optional_delimited_view(*args) == args.deep_view());
                    assert(construct::optional_delimited_view(*inner) == inner.deep_view());
                }
                typecheck_macro(args, &MacroBody::of(return_type, inner), rope, ast_errors);
            },
            construct => validate_values(construct, None, rope, ast_errors),
        }
        assert(check_state(ast_errors, document) == checked_construct(
            views[i as int],
            classes,
            text,
            db.deep_view(),
            so_far,
        ));
        i += 1;
    }
    assert(views.take(i as int) =~= views);
}

} // verus!
