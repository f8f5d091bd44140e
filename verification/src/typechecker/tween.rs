//! The check of tweens.

use super::type_error;
use super::type_error::{Datatype, PushTypeError, TypeError};
use crate::diagnostic::{AstErrors, DiagnosticView};
use crate::parser::construct;
use crate::parser::construct::{Construct, ConstructView, Delimited};
use crate::parser::token::Token;
use crate::strings::str_eq;
use crate::text;
use crate::text::Range;
use ropey::Rope;
use vstd::prelude::*;

verus! {

pub open spec fn is_number_view(c: ConstructView) -> bool {
    c matches ConstructView::Node { node } && node.token.1 is Number
}

pub open spec fn is_comma_view(c: ConstructView) -> bool {
    c matches ConstructView::Node { node } && node.token.1 is Comma
}

/// Whether a construct is an item of the enum, or one whose enum is left out.
pub open spec fn is_enum_view(c: ConstructView, expected_name: Seq<char>) -> bool {
    match c {
        ConstructView::Enum { name: Some(name), .. } => match name.token.1 {
            Token::StateSelectorOrEnumPart(Some(name)) => name@ == expected_name,
            Token::TagSelectorOrEnumPart(Some(name)) => name@ == expected_name,
            _ => false,
        },
        ConstructView::Node { node } => match node.token.1 {
            Token::StateSelectorOrEnumPart(name) => name is Some,
            _ => false,
        },
        _ => false,
    }
}

/// The elements of a table without the commas between them.
pub open spec fn elements<'a>(items: Seq<ConstructView<'a>>) -> Seq<ConstructView<'a>>
    decreases items.len(),
{
    if items.len() == 0 {
        Seq::empty()
    } else if is_comma_view(items.last()) {
        elements(items.drop_last())
    } else {
        elements(items.drop_last()).push(items.last())
    }
}

pub fn is_number(construct: &Construct) -> (r: bool)
    ensures
        r == is_number_view(construct.deep_view()),
{
    match construct {
        Construct::Node { node } => matches!(node.token.value(), Token::Number(_)),
        _ => false,
    }
}

pub fn is_comma(construct: &Construct) -> (r: bool)
    ensures
        r == is_comma_view(construct.deep_view()),
{
    match construct {
        Construct::Node { node } => matches!(node.token.value(), Token::Comma),
        _ => false,
    }
}

pub fn is_enum(construct: &Construct, expected_name: &str) -> (r: bool)
    ensures
        r == is_enum_view(construct.deep_view(), expected_name@),
{
    match construct {
        Construct::Enum { name: Some(name), .. } => match name.token.value() {
            Token::StateSelectorOrEnumPart(Some(name)) => str_eq(name, expected_name),
            Token::TagSelectorOrEnumPart(Some(name)) => str_eq(name, expected_name),
            _ => false,
        },
        Construct::Node { node } => matches!(
            node.token.value(),
            Token::StateSelectorOrEnumPart(Some(_))
        ),
        _ => false,
    }
}

/// The elements of a table.
pub fn collect_elements<'a, 'b>(items: &'b Vec<Construct<'a>>) -> (r: Vec<&'b Construct<'a>>)
    ensures
        r.deep_view() == elements(construct::constructs_view(items@)),
        forall|i: int| 0 <= i < r@.len() ==> items@.contains(*#[trigger] r@[i]),
{
    let ghost views = construct::constructs_view(items@);
    let mut out: Vec<&'b Construct<'a>> = Vec::new();
    let mut i: usize = 0;
    assert(views.take(0) =~= Seq::empty());
    assert(out.deep_view() =~= Seq::empty());
    while i < items.len()
        invariant
            i <= items@.len(),
            views == construct::constructs_view(items@),
            out.deep_view() == elements(views.take(i as int)),
            forall|j: int| 0 <= j < out@.len() ==> items@.contains(*#[trigger] out@[j]),
        decreases items@.len() - i,
    {
        assert(views.take(i + 1).drop_last() =~= views.take(i as int));
        assert(views.take(i + 1).last() == construct::construct_view(items@[i as int]));
        let ghost before = out;
        if !is_comma(&items[i]) {
            out.push(&items[i]);
            assert(out.deep_view() =~= before.deep_view().push(
                construct::construct_view(items@[i as int]),
            ));
        }
        i += 1;
    }
    assert(views.take(i as int) =~= views);
    out
}

/// The errors with one more.
pub open spec fn with_error(
    errors: Seq<DiagnosticView>,
    error: TypeError,
    text: Seq<char>,
    span: (usize, usize),
) -> Seq<DiagnosticView> {
    errors.push(
        type_error::type_diagnostic(
            error.code()@,
            error.text(),
            text::range_of(text, (span.0 as int, span.1 as int)),
        ),
    )
}

pub open spec fn not_a_tween() -> TypeError<'static> {
    TypeError::InvalidType { expected: Some(Datatype::Tween) }
}

/// The errors about the elements of a tween from `from` on, which are too many.
pub open spec fn surplus_errors(
    args: Seq<ConstructView>,
    n: int,
    text: Seq<char>,
    errors: Seq<DiagnosticView>,
) -> Seq<DiagnosticView>
    decreases n,
{
    if n <= 3 {
        errors
    } else {
        with_error(
            surplus_errors(args, n - 1, text, errors),
            not_a_tween(),
            text,
            args[n - 1].span(),
        )
    }
}

/// The errors about the elements of a tween: a number, then at most an easing style and an
/// easing direction.
pub open spec fn argument_errors(
    args: Seq<ConstructView>,
    text: Seq<char>,
    errors: Seq<DiagnosticView>,
) -> Seq<DiagnosticView> {
    let errors = if !is_number_view(args[0]) {
        with_error(
            errors,
            TypeError::InvalidTweenArg { expected: "number" },
            text,
            args[0].span(),
        )
    } else {
        errors
    };
    let errors = if args.len() > 1 && !is_enum_view(args[1], "EasingStyle"@) {
        with_error(
            errors,
            TypeError::InvalidTweenArg { expected: "Enum.EasingStyle" },
            text,
            args[1].span(),
        )
    } else {
        errors
    };
    let errors = if args.len() > 2 && !is_enum_view(args[2], "EasingDirection"@) {
        with_error(
            errors,
            TypeError::InvalidTweenArg { expected: "Enum.EasingDirection" },
            text,
            args[2].span(),
        )
    } else {
        errors
    };
    surplus_errors(args, args.len() as int, text, errors)
}

/// The errors about the body of a tween: a number, or a table of what describes it.
pub open spec fn checked_tween(
    body: ConstructView,
    text: Seq<char>,
    errors: Seq<DiagnosticView>,
) -> Seq<DiagnosticView> {
    if is_number_view(body) {
        errors
    } else {
        match body {
            ConstructView::Table { body: table } => match table.content {
                Some(items) => if elements(items).len() == 0 {
                    with_error(errors, not_a_tween(), text, body.span())
                } else {
                    argument_errors(elements(items), text, errors)
                },
                None => with_error(errors, not_a_tween(), text, body.span()),
            },
            _ => with_error(errors, not_a_tween(), text, body.span()),
        }
    }
}

fn report(ast_errors: &mut AstErrors, error: TypeError, rope: &Rope, span: (usize, usize))
    ensures
        final(ast_errors).0.deep_view() == with_error(
            old(ast_errors).0.deep_view(),
            error,
            text::rope_text(rope),
            span,
        ),
{
    let range = Range::from_span(rope, span);
    ast_errors.push_type_error(error, range);
}

/// Checks the body of a tween.
pub fn typecheck_tween(body: &Construct, rope: &Rope, ast_errors: &mut AstErrors)
    ensures
        final(ast_errors).0.deep_view() == checked_tween(
            body.deep_view(),
            text::rope_text(rope),
            old(ast_errors).0.deep_view(),
        ),
{
    if is_number(body) {
        return;
    }
    proof {
        reveal_with_fuel(construct::construct_view, 2);
    }
    let args = match body {
        Construct::Table { body: Delimited { content: Some(items), .. } } => collect_elements(items),
        _ => {
            report(
                ast_errors,
                TypeError::InvalidType { expected: Some(Datatype::Tween) },
                rope,
                body.span(),
            );
            return;
        },
    };
    if args.len() == 0 {
        report(
            ast_errors,
            TypeError::InvalidType { expected: Some(Datatype::Tween) },
            rope,
            body.span(),
        );
        return;
    }
    let ghost views = args.deep_view();
    let ghost text = text::rope_text(rope);
    assert forall|i: int| 0 <= i < args@.len() implies views[i] == (
    #[trigger] args@[i]).deep_view() by {}
    if !is_number(args[0]) {
        report(
            ast_errors,
            TypeError::InvalidTweenArg { expected: "number" },
            rope,
            args[0].span(),
        );
    }
    if args.len() > 1 && !is_enum(args[1], "EasingStyle") {
        report(
            ast_errors,
            TypeError::InvalidTweenArg { expected: "Enum.EasingStyle" },
            rope,
            args[1].span(),
        );
    }
    if args.len() > 2 && !is_enum(args[2], "EasingDirection") {
        report(
            ast_errors,
            TypeError::InvalidTweenArg { expected: "Enum.EasingDirection" },
            rope,
            args[2].span(),
        );
    }
    let ghost before = ast_errors.0.deep_view();
    let mut i: usize = 3;
    while i < args.len()
        invariant
            3 <= i,
            i <= args@.len() || i == 3,
            views == args.deep_view(),
            text == text::rope_text(rope),
            ast_errors.0.deep_view() == surplus_errors(views, i as int, text, before),
        decreases args@.len() - i,
    {
        report(
            ast_errors,
            TypeError::InvalidType { expected: Some(Datatype::Tween) },
            rope,
            args[i].span(),
        );
        i += 1;
    }
    proof {
        if views.len() < 3 {
            assert(surplus_errors(views, views.len() as int, text, before) == before);
        }
    }
}

} // verus!
