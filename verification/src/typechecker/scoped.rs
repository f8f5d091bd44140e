//! What the check of a rule finds and defines, at any depth.

use super::definitions;
use super::definitions::DefinitionView;
use super::frame;
use super::macro_check;
use super::references;
use super::rules;
use super::selectors;
use super::selectors::{CheckState, ConsumeView, SelectorState};
use super::tween;
use crate::diagnostic::DiagnosticView;
use crate::parser::construct;
use crate::parser::construct::{ConstructView, DelimitedView, NodeView};
use crate::parser::order;
use crate::parser::token::{SpannedToken, Token};
use crate::reflection::ReflectionView;
use vstd::prelude::*;

verus! {

/// Whether two checks of a selector stand at the same place, and one of them has some more
/// errors in front.
spec fn is_behind<'a>(
    s: SelectorState<'a>,
    t: SelectorState<'a>,
    errors: Seq<DiagnosticView>,
) -> bool {
    s == (SelectorState { errors: errors + t.errors, ..t })
}

proof fn lemma_fail_behind<'a>(
    s: SelectorState<'a>,
    t: SelectorState<'a>,
    errors: Seq<DiagnosticView>,
    message: Seq<char>,
    token: SpannedToken<'a>,
)
    requires
        is_behind(s, t, errors),
    ensures
        is_behind(s.fail(message, token), t.fail(message, token), errors),
{
    assert(s.fail(message, token).errors =~= errors + t.fail(message, token).errors);
}

proof fn lemma_validate_behind<'a>(
    s: SelectorState<'a>,
    t: SelectorState<'a>,
    errors: Seq<DiagnosticView>,
    name: Seq<char>,
    token: SpannedToken<'a>,
)
    requires
        is_behind(s, t, errors),
    ensures
        is_behind(s.validate_class(name, token).0, t.validate_class(name, token).0, errors),
        s.validate_class(name, token).1 == t.validate_class(name, token).1,
        is_behind(
            s.validate_pseudo_class(name, token).0,
            t.validate_pseudo_class(name, token).0,
            errors,
        ),
        s.validate_pseudo_class(name, token).1 == t.validate_pseudo_class(name, token).1,
        is_behind(s.validate_state(name, token), t.validate_state(name, token), errors),
{
    assert forall|message: Seq<char>| #[trigger]
        s.fail(message, token).errors == errors + t.fail(message, token).errors by {
        lemma_fail_behind(s, t, errors, message, token);
    }
    assert(s.validate_class(name, token).0.errors =~= errors + t.validate_class(
        name,
        token,
    ).0.errors);
    assert(s.validate_pseudo_class(name, token).0.errors =~= errors + t.validate_pseudo_class(
        name,
        token,
    ).0.errors);
    assert(s.validate_state(name, token).errors =~= errors + t.validate_state(
        name,
        token,
    ).errors);
}

proof fn lemma_consume_behind<'a>(
    s: SelectorState<'a>,
    t: SelectorState<'a>,
    errors: Seq<DiagnosticView>,
)
    requires
        is_behind(s, t, errors),
    ensures
        is_behind(s.consume().0, t.consume().0, errors),
        s.consume().1 == t.consume().1,
    decreases t.remaining(),
{
    match t.next() {
        (t1, Some(part)) => {
            let s1 = s.next().0;
            let token = part.token.1;
            if token is PseudoSelector || token is StateSelectorOrEnumPart || token is Comma
                || token is ChildrenSelector || token is DescendantsSelector {
            } else if token is TagSelectorOrEnumPart || token is NameSelector {
                lemma_consume_behind(s1, t1, errors);
            } else {
                let message = selectors::misplaced_part(token);
                lemma_fail_behind(s1, t1, errors, message, part.token);
                lemma_consume_behind(
                    s1.fail(message, part.token),
                    t1.fail(message, part.token),
                    errors,
                );
            }
        },
        (_, None) => {},
    }
}

proof fn lemma_begin_behind<'a>(
    s: SelectorState<'a>,
    t: SelectorState<'a>,
    errors: Seq<DiagnosticView>,
    part: NodeView<'a>,
)
    requires
        is_behind(s, t, errors),
    ensures
        is_behind(s.begin_iteration(part), t.begin_iteration(part), errors),
    decreases t.remaining(), 2nat,
{
    if t.parent.len() == 0 {
        lemma_new_behind(s, t, errors, part);
    } else {
        lemma_parent_behind(s, t, errors, part, false);
    }
}

proof fn lemma_comma_behind<'a>(
    s: SelectorState<'a>,
    t: SelectorState<'a>,
    errors: Seq<DiagnosticView>,
)
    requires
        is_behind(s, t, errors),
    ensures
        is_behind(s.consume_past_comma(), t.consume_past_comma(), errors),
    decreases t.remaining(), 0nat,
{
    if let (t1, Some(part)) = t.next() {
        if part.token.1 is Comma {
            if let (t2, Some(next)) = t1.next() {
                lemma_begin_behind(s.next().0.next().0, t2, errors, next);
            }
        }
    }
}

proof fn lemma_new_behind<'a>(
    s: SelectorState<'a>,
    t: SelectorState<'a>,
    errors: Seq<DiagnosticView>,
    part: NodeView<'a>,
)
    requires
        is_behind(s, t, errors),
    ensures
        is_behind(s.from_new(part), t.from_new(part), errors),
    decreases t.remaining(), 1nat,
{
    match part.token.1 {
        Token::TagSelectorOrEnumPart(_) => {
            lemma_comma_behind(s.selects("Instance"@), t.selects("Instance"@), errors);
        },
        Token::NameSelector(_) => {
            lemma_comma_behind(s.selects("Instance"@), t.selects("Instance"@), errors);
        },
        Token::Identifier(class) => {
            lemma_validate_behind(s, t, errors, class@, part.token);
            let (s1, validated) = s.validate_class(class@, part.token);
            let (t1, _) = t.validate_class(class@, part.token);
            selectors::lemma_consume(t1);
            lemma_consume_behind(s1, t1, errors);
            let s2 = s1.consume().0;
            let t2 = t1.consume().0;
            match t1.consume().1 {
                ConsumeView::Found(part) => match part.token.1 {
                    Token::PseudoSelector(class) => {
                        lemma_validate_behind(s2, t2, errors, class@, part.token);
                    },
                    Token::StateSelectorOrEnumPart(Some(state)) => {
                        lemma_validate_behind(
                            s2.selects(validated),
                            t2.selects(validated),
                            errors,
                            state@,
                            part.token,
                        );
                    },
                    _ => {},
                },
                ConsumeView::Delimiter(delimiter) => {
                    let s3 = if delimiter.token.1 is Comma {
                        s2.selects(validated)
                    } else {
                        s2
                    };
                    let t3 = if delimiter.token.1 is Comma {
                        t2.selects(validated)
                    } else {
                        t2
                    };
                    if let (t4, Some(part)) = t3.next() {
                        lemma_begin_behind(s3.next().0, t4, errors, part);
                    }
                },
                ConsumeView::Absent => {},
            }
        },
        _ => {},
    }
}

proof fn lemma_parent_behind<'a>(
    s: SelectorState<'a>,
    t: SelectorState<'a>,
    errors: Seq<DiagnosticView>,
    part: NodeView<'a>,
    after_combinator: bool,
)
    requires
        is_behind(s, t, errors),
    ensures
        is_behind(
            s.from_parent(part, after_combinator),
            t.from_parent(part, after_combinator),
            errors,
        ),
    decreases t.remaining(), 1nat,
{
    match part.token.1 {
        Token::Identifier(class) => {
            let message =
                "Class Selectors can't be nested inside another selector without a children (>) or descendants selector."@;
            lemma_fail_behind(s, t, errors, message, part.token);
            let s0 = if after_combinator {
                s
            } else {
                s.fail(message, part.token)
            };
            let t0 = if after_combinator {
                t
            } else {
                t.fail(message, part.token)
            };
            lemma_validate_behind(s0, t0, errors, class@, part.token);
            let (s1, validated) = s0.validate_class(class@, part.token);
            let (t1, _) = t0.validate_class(class@, part.token);
            let s2 = s1.selects(validated);
            let t2 = t1.selects(validated);
            selectors::lemma_consume(t2);
            lemma_consume_behind(s2, t2, errors);
            let s3 = s2.consume().0;
            let t3 = t2.consume().0;
            match t2.consume().1 {
                ConsumeView::Found(part) => match part.token.1 {
                    Token::PseudoSelector(class) => {
                        lemma_validate_behind(
                            SelectorState { classes: selectors::without_last(s3.classes), ..s3 },
                            SelectorState { classes: selectors::without_last(t3.classes), ..t3 },
                            errors,
                            class@,
                            part.token,
                        );
                    },
                    Token::StateSelectorOrEnumPart(Some(state)) => {
                        lemma_validate_behind(s3, t3, errors, state@, part.token);
                    },
                    _ => {},
                },
                ConsumeView::Delimiter(_) => {
                    if let (t4, Some(part)) = t3.next() {
                        lemma_begin_behind(s3.next().0, t4, errors, part);
                    }
                },
                ConsumeView::Absent => {},
            }
        },
        Token::PseudoSelector(class) => {
            lemma_validate_behind(s, t, errors, class@, part.token);
        },
        Token::StateSelectorOrEnumPart(Some(state)) => {
            lemma_validate_behind(
                SelectorState { classes: selectors::with_names(s.classes, s.parent), ..s },
                SelectorState { classes: selectors::with_names(t.classes, t.parent), ..t },
                errors,
                state@,
                part.token,
            );
        },
        Token::TagSelectorOrEnumPart(_) => {
            lemma_comma_behind(s.selects("Instance"@), t.selects("Instance"@), errors);
        },
        Token::NameSelector(_) => {
            lemma_comma_behind(s.selects("Instance"@), t.selects("Instance"@), errors);
        },
        Token::ChildrenSelector => {
            if let (t1, Some(next)) = t.next() {
                lemma_parent_behind(s.next().0, t1, errors, next, true);
            }
        },
        Token::DescendantsSelector => {
            if let (t1, Some(next)) = t.next() {
                lemma_parent_behind(s.next().0, t1, errors, next, true);
            }
        },
        _ => {},
    }
}

/// A check that has found nothing yet.
pub open spec fn nothing_found() -> CheckState {
    CheckState { errors: Seq::empty(), definitions: Map::empty() }
}

/// The classes that the rule selects: those of the selector, or those of the rule around it
/// where it has none.
pub open spec fn rule_classes(
    selectors: Option<Seq<NodeView>>,
    parent: Seq<Seq<char>>,
    text: Seq<char>,
    db: ReflectionView,
) -> Seq<Seq<char>> {
    match selectors {
        Some(selectors) => selectors::checked_selectors(
            selectors,
            parent,
            text,
            db,
            nothing_found(),
        ).0,
        None => parent,
    }
}

/// The errors in a rule's selector.
pub open spec fn selector_errors(
    selectors: Option<Seq<NodeView>>,
    parent: Seq<Seq<char>>,
    text: Seq<char>,
    db: ReflectionView,
) -> Seq<DiagnosticView> {
    match selectors {
        Some(selectors) => selectors::checked_selectors(
            selectors,
            parent,
            text,
            db,
            nothing_found(),
        ).1.errors,
        None => Seq::empty(),
    }
}

/// What a selector selects does not depend on what was found before, and its errors are added
/// to those before it.
pub proof fn lemma_selector_stands_alone(
    nodes: Seq<NodeView>,
    parent: Seq<Seq<char>>,
    text: Seq<char>,
    db: ReflectionView,
    before: CheckState,
)
    ensures
        ({
            let (classes, after) = selectors::checked_selectors(nodes, parent, text, db, before);
            &&& classes == rule_classes(Some(nodes), parent, text, db)
            &&& after.errors == before.errors + selector_errors(Some(nodes), parent, text, db)
        }),
{
    if nodes.len() > 0 {
        let t = SelectorState {
            nodes,
            position: 1,
            parent,
            classes: Seq::empty(),
            errors: Seq::empty(),
            text,
            db,
        };
        let s = SelectorState { errors: before.errors, ..t };
        assert(before.errors =~= before.errors + t.errors);
        lemma_begin_behind(s, t, before.errors, nodes[0]);
    } else {
        assert(before.errors =~= before.errors + Seq::<DiagnosticView>::empty());
    }
}

/// Whether all of some errors are among others.
pub open spec fn has_all(errors: Seq<DiagnosticView>, some: Seq<DiagnosticView>) -> bool {
    forall|i: int| 0 <= i < some.len() ==> errors.contains(#[trigger] some[i])
}

/// Whether each reference to an argument of a macro, in a value outside of any macro, is
/// reported.
pub open spec fn strays_are_reported(
    value: ConstructView,
    text: Seq<char>,
    errors: Seq<DiagnosticView>,
) -> bool {
    references::is_datatype(value) ==> has_all(
        errors,
        references::stray_errors(references::tokens_outside_calls(value), None, text),
    )
}

/// Whether what is wrong with a construct is reported: with its values, and with a rule's
/// selector and all that is in the rule.
pub open spec fn is_checked(
    construct: ConstructView,
    classes: Seq<Seq<char>>,
    text: Seq<char>,
    db: ReflectionView,
    errors: Seq<DiagnosticView>,
) -> bool
    decreases construct,
{
    match construct {
        ConstructView::Rule { selectors, body } => {
            &&& has_all(errors, selector_errors(selectors, classes, text, db))
            &&& body_is_checked(
                body,
                rule_classes(selectors, classes, text, db),
                text,
                db,
                errors,
            )
        },
        ConstructView::Assignment { right: Some(value), .. } => strays_are_reported(
            *value,
            text,
            errors,
        ),
        ConstructView::Priority { body: Some(value), .. } => strays_are_reported(
            *value,
            text,
            errors,
        ),
        ConstructView::Name { body: Some(value), .. } => strays_are_reported(*value, text, errors),
        ConstructView::Tween { body: Some(value), .. } => has_all(
            errors,
            tween::checked_tween(*value, text, Seq::empty()),
        ),
        ConstructView::Macro { args, return_type, body, .. } => has_all(
            errors,
            macro_check::checked_macro(
                args,
                macro_check::body_of(return_type, body),
                text,
                Seq::empty(),
            ),
        ),
        _ => true,
    }
}

pub open spec fn body_is_checked(
    body: Option<DelimitedView>,
    classes: Seq<Seq<char>>,
    text: Seq<char>,
    db: ReflectionView,
    errors: Seq<DiagnosticView>,
) -> bool
    decreases body,
{
    match body {
        Some(body) => match body.content {
            Some(content) => all_checked(content, classes, text, db, errors),
            None => true,
        },
        None => true,
    }
}

pub open spec fn all_checked(
    content: Seq<ConstructView>,
    classes: Seq<Seq<char>>,
    text: Seq<char>,
    db: ReflectionView,
    errors: Seq<DiagnosticView>,
) -> bool
    decreases content,
{
    forall|i: int|
        0 <= i < content.len() ==> is_checked(#[trigger] content[i], classes, text, db, errors)
}

pub(super) proof fn lemma_has_more(
    errors: Seq<DiagnosticView>,
    more: Seq<DiagnosticView>,
    some: Seq<DiagnosticView>,
)
    requires
        has_all(errors, some),
        has_all(more, errors),
    ensures
        has_all(more, some),
{
    assert forall|i: int| 0 <= i < some.len() implies more.contains(#[trigger] some[i]) by {
        let k = choose|k: int| 0 <= k < errors.len() && errors[k] == some[i];
        assert(more.contains(errors[k]));
    }
}

pub(super) proof fn lemma_has_sum(a: Seq<DiagnosticView>, b: Seq<DiagnosticView>)
    ensures
        has_all(a + b, a),
        has_all(a + b, b),
{
    assert forall|i: int| 0 <= i < a.len() implies (a + b).contains(#[trigger] a[i]) by {
        assert((a + b)[i] == a[i]);
    }
    assert forall|i: int| 0 <= i < b.len() implies (a + b).contains(#[trigger] b[i]) by {
        assert((a + b)[a.len() + i] == b[i]);
    }
}

/// What is reported stays reported where errors are added.
pub(super) proof fn lemma_stays_checked<'a>(
    c: ConstructView<'a>,
    classes: Seq<Seq<char>>,
    text: Seq<char>,
    db: ReflectionView,
    errors: Seq<DiagnosticView>,
    more: Seq<DiagnosticView>,
)
    requires
        is_checked(c, classes, text, db, errors),
        has_all(more, errors),
    ensures
        is_checked(c, classes, text, db, more),
    decreases c,
{
    reveal_with_fuel(is_checked, 4);
    match c {
        ConstructView::Rule { selectors, body } => {
            lemma_has_more(errors, more, selector_errors(selectors, classes, text, db));
            if let Some(body) = body {
                if let Some(content) = body.content {
                    let inner = rule_classes(selectors, classes, text, db);
                    assert(decreases_to!(body => body.content));
                    assert(decreases_to!(body.content => content));
                    assert forall|i: int| 0 <= i < content.len() implies is_checked(
                        #[trigger] content[i],
                        inner,
                        text,
                        db,
                        more,
                    ) by {
                        assert(decreases_to!(content => content[i]));
                        lemma_stays_checked(content[i], inner, text, db, errors, more);
                    }
                }
            }
        },
        ConstructView::Assignment { right: Some(value), .. } => {
            lemma_stays_reported(*value, text, errors, more);
        },
        ConstructView::Priority { body: Some(value), .. } => {
            lemma_stays_reported(*value, text, errors, more);
        },
        ConstructView::Name { body: Some(value), .. } => {
            lemma_stays_reported(*value, text, errors, more);
        },
        ConstructView::Tween { body: Some(value), .. } => {
            lemma_has_more(errors, more, tween::checked_tween(*value, text, Seq::empty()));
        },
        ConstructView::Macro { args, return_type, body, .. } => {
            lemma_has_more(
                errors,
                more,
                macro_check::checked_macro(
                    args,
                    macro_check::body_of(return_type, body),
                    text,
                    Seq::empty(),
                ),
            );
        },
        _ => {},
    }
}

proof fn lemma_stays_reported<'a>(
    value: ConstructView<'a>,
    text: Seq<char>,
    errors: Seq<DiagnosticView>,
    more: Seq<DiagnosticView>,
)
    requires
        strays_are_reported(value, text, errors),
        has_all(more, errors),
    ensures
        strays_are_reported(value, text, more),
{
    if references::is_datatype(value) {
        lemma_has_more(
            errors,
            more,
            references::stray_errors(references::tokens_outside_calls(value), None, text),
        );
    }
}

proof fn lemma_references_add<'a>(
    c: ConstructView<'a>,
    known: Option<Seq<&str>>,
    text: Seq<char>,
    errors: Seq<DiagnosticView>,
)
    ensures
        macro_check::checked_references(c, known, text, errors) == errors
            + macro_check::checked_references(c, known, text, Seq::empty()),
    decreases c,
{
    reveal_with_fuel(macro_check::checked_references, 3);
    let none = Seq::<DiagnosticView>::empty();
    assert(errors =~= errors + none);
    match c {
        ConstructView::Node { node } => {
            assert(macro_check::checked_reference(node.token, known, text, errors) =~= errors
                + macro_check::checked_reference(node.token, known, text, none));
        },
        ConstructView::MathOperation { left, right, .. } => {
            lemma_references_add(*left, known, text, errors);
            let first = macro_check::checked_references(*left, known, text, none);
            if let Some(right) = right {
                lemma_references_add(*right, known, text, errors + first);
                lemma_references_add(*right, known, text, first);
                let second = macro_check::checked_references(*right, known, text, none);
                assert((errors + first) + second =~= errors + (first + second));
            }
        },
        ConstructView::UnaryMinus { operand, .. } => {
            lemma_references_add(*operand, known, text, errors);
        },
        ConstructView::Table { body } => {
            if let Some(content) = body.content {
                assert(decreases_to!(body => body.content));
                assert(decreases_to!(body.content => content));
                lemma_all_references_add(content, known, text, errors);
            }
        },
        ConstructView::AnnotatedTable { body: Some(body), .. } => {
            if let Some(content) = body.content {
                assert(decreases_to!(body => body.content));
                assert(decreases_to!(body.content => content));
                lemma_all_references_add(content, known, text, errors);
            }
        },
        _ => {},
    }
}

proof fn lemma_all_references_add<'a>(
    content: Seq<ConstructView<'a>>,
    known: Option<Seq<&str>>,
    text: Seq<char>,
    errors: Seq<DiagnosticView>,
)
    ensures
        macro_check::all_checked_references(content, known, text, errors) == errors
            + macro_check::all_checked_references(content, known, text, Seq::empty()),
    decreases content,
{
    let none = Seq::<DiagnosticView>::empty();
    if content.len() == 0 {
        assert(errors =~= errors + none);
    } else {
        let front = content.drop_last();
        let last = content[content.len() - 1];
        assert(decreases_to!(content => content[content.len() - 1]));
        lemma_all_references_add(front, known, text, errors);
        let first = macro_check::all_checked_references(front, known, text, none);
        lemma_references_add(last, known, text, errors + first);
        lemma_references_add(last, known, text, first);
        let second = macro_check::checked_references(last, known, text, none);
        assert((errors + first) + second =~= errors + (first + second));
    }
}

proof fn lemma_value_adds<'a>(
    value: Option<Box<ConstructView<'a>>>,
    known: Option<Seq<&str>>,
    text: Seq<char>,
    errors: Seq<DiagnosticView>,
)
    ensures
        macro_check::checked_value(value, known, text, errors) == errors
            + macro_check::checked_value(value, known, text, Seq::empty()),
{
    assert(errors =~= errors + Seq::<DiagnosticView>::empty());
    if let Some(value) = value {
        lemma_references_add(*value, known, text, errors);
    }
}

proof fn lemma_values_add<'a>(
    c: ConstructView<'a>,
    known: Option<Seq<&str>>,
    text: Seq<char>,
    errors: Seq<DiagnosticView>,
)
    ensures
        macro_check::checked_values(c, known, text, errors) == errors
            + macro_check::checked_values(c, known, text, Seq::empty()),
{
    assert(errors =~= errors + Seq::<DiagnosticView>::empty());
    match c {
        ConstructView::Assignment { right, .. } => {
            lemma_value_adds(right, known, text, errors);
        },
        ConstructView::Priority { body, .. } => {
            lemma_value_adds(body, known, text, errors);
        },
        ConstructView::Name { body, .. } => {
            lemma_value_adds(body, known, text, errors);
        },
        _ => {},
    }
}

proof fn lemma_surplus_adds<'a>(
    args: Seq<ConstructView<'a>>,
    n: int,
    text: Seq<char>,
    errors: Seq<DiagnosticView>,
    more: Seq<DiagnosticView>,
)
    ensures
        tween::surplus_errors(args, n, text, errors + more) == errors + tween::surplus_errors(
            args,
            n,
            text,
            more,
        ),
    decreases n,
{
    if n > 3 {
        lemma_surplus_adds(args, n - 1, text, errors, more);
        assert(tween::surplus_errors(args, n, text, errors + more) =~= errors
            + tween::surplus_errors(args, n, text, more));
    }
}

proof fn lemma_error_adds(
    errors: Seq<DiagnosticView>,
    more: Seq<DiagnosticView>,
    error: super::type_error::TypeError,
    text: Seq<char>,
    span: (usize, usize),
)
    ensures
        tween::with_error(errors + more, error, text, span) == errors + tween::with_error(
            more,
            error,
            text,
            span,
        ),
{
    assert(tween::with_error(errors + more, error, text, span) =~= errors + tween::with_error(
        more,
        error,
        text,
        span,
    ));
}

pub(super) proof fn lemma_tween_adds<'a>(
    body: ConstructView<'a>,
    text: Seq<char>,
    errors: Seq<DiagnosticView>,
)
    ensures
        tween::checked_tween(body, text, errors) == errors + tween::checked_tween(
            body,
            text,
            Seq::empty(),
        ),
{
    let none = Seq::<DiagnosticView>::empty();
    assert(errors =~= errors + none);
    lemma_error_adds(errors, none, tween::not_a_tween(), text, body.span());
    if let ConstructView::Table { body: table } = body {
        if let Some(items) = table.content {
            let args = tween::elements(items);
            if args.len() > 0 {
                let error = super::type_error::TypeError::InvalidTweenArg { expected: "number" };
                lemma_error_adds(errors, none, error, text, args[0].span());
                let e1 = if !tween::is_number_view(args[0]) {
                    tween::with_error(none, error, text, args[0].span())
                } else {
                    none
                };
                let error = super::type_error::TypeError::InvalidTweenArg {
                    expected: "Enum.EasingStyle",
                };
                lemma_error_adds(errors, e1, error, text, args[1].span());
                let e2 = if args.len() > 1 && !tween::is_enum_view(args[1], "EasingStyle"@) {
                    tween::with_error(e1, error, text, args[1].span())
                } else {
                    e1
                };
                let error = super::type_error::TypeError::InvalidTweenArg {
                    expected: "Enum.EasingDirection",
                };
                lemma_error_adds(errors, e2, error, text, args[2].span());
                let e3 = if args.len() > 2 && !tween::is_enum_view(args[2], "EasingDirection"@) {
                    tween::with_error(e2, error, text, args[2].span())
                } else {
                    e2
                };
                lemma_surplus_adds(args, args.len() as int, text, errors, e3);
            }
        }
    }
}

proof fn lemma_body_construct_adds<'a>(
    c: ConstructView<'a>,
    args: Seq<&str>,
    text: Seq<char>,
    errors: Seq<DiagnosticView>,
)
    ensures
        macro_check::checked_body_construct(c, args, text, errors) == errors
            + macro_check::checked_body_construct(c, args, text, Seq::empty()),
    decreases c,
{
    reveal_with_fuel(macro_check::checked_body_construct, 3);
    assert(errors =~= errors + Seq::<DiagnosticView>::empty());
    match c {
        ConstructView::Tween { body, .. } => {
            lemma_value_adds(body, Some(args), text, errors);
        },
        ConstructView::Rule { body: Some(body), .. } => {
            if let Some(content) = body.content {
                assert(decreases_to!(body => body.content));
                assert(decreases_to!(body.content => content));
                lemma_body_adds(content, args, text, errors);
            }
        },
        _ => {
            lemma_values_add(c, Some(args), text, errors);
        },
    }
}

proof fn lemma_body_adds<'a>(
    content: Seq<ConstructView<'a>>,
    args: Seq<&str>,
    text: Seq<char>,
    errors: Seq<DiagnosticView>,
)
    ensures
        macro_check::checked_body(content, args, text, errors) == errors
            + macro_check::checked_body(content, args, text, Seq::empty()),
    decreases content,
{
    let none = Seq::<DiagnosticView>::empty();
    if content.len() == 0 {
        assert(errors =~= errors + none);
    } else {
        let front = content.drop_last();
        let last = content[content.len() - 1];
        assert(decreases_to!(content => content[content.len() - 1]));
        lemma_body_adds(front, args, text, errors);
        let first = macro_check::checked_body(front, args, text, none);
        lemma_body_construct_adds(last, args, text, errors + first);
        lemma_body_construct_adds(last, args, text, first);
        let second = macro_check::checked_body_construct(last, args, text, none);
        assert((errors + first) + second =~= errors + (first + second));
    }
}

pub(super) proof fn lemma_macro_adds<'a>(
    args: Option<DelimitedView<'a>>,
    body: Option<macro_check::MacroBodyView<'a>>,
    text: Seq<char>,
    errors: Seq<DiagnosticView>,
)
    ensures
        macro_check::checked_macro(args, body, text, errors) == errors
            + macro_check::checked_macro(args, body, text, Seq::empty()),
{
    let names = macro_check::macro_arg_names(args);
    assert(errors =~= errors + Seq::<DiagnosticView>::empty());
    match body {
        Some(macro_check::MacroBodyView::Construct(Some(content))) => {
            lemma_body_adds(content, names, text, errors);
        },
        Some(macro_check::MacroBodyView::Assignment(Some(value))) => {
            lemma_references_add(value, Some(names), text, errors);
        },
        _ => {},
    }
}

pub(super) proof fn lemma_value_is_reported<'a>(
    value: ConstructView<'a>,
    text: Seq<char>,
    errors: Seq<DiagnosticView>,
)
    ensures
        strays_are_reported(
            value,
            text,
            macro_check::checked_references(value, None, text, errors),
        ),
        has_all(macro_check::checked_references(value, None, text, errors), errors),
{
    lemma_references_add(value, None, text, errors);
    lemma_has_sum(errors, macro_check::checked_references(value, None, text, Seq::empty()));
    if references::is_datatype(value) {
        references::lemma_stray_references_are_reported(value, None, text, errors);
        lemma_has_sum(
            errors,
            references::stray_errors(references::tokens_outside_calls(value), None, text),
        );
    }
}

pub(super) proof fn lemma_has_itself(errors: Seq<DiagnosticView>)
    ensures
        has_all(errors, errors),
{
    assert forall|i: int| 0 <= i < errors.len() implies errors.contains(#[trigger] errors[i]) by {}
}

/// The check of a construct reports what is wrong with it, and keeps the errors before it.
proof fn lemma_construct_is_checked<'a>(
    c: ConstructView<'a>,
    classes: Seq<Seq<char>>,
    text: Seq<char>,
    db: ReflectionView,
    before: CheckState,
)
    ensures
        is_checked(
            c,
            classes,
            text,
            db,
            rules::checked_construct(c, classes, text, db, before).errors,
        ),
        has_all(
            rules::checked_construct(c, classes, text, db, before).errors,
            before.errors,
        ),
    decreases c,
{
    reveal_with_fuel(is_checked, 3);
    reveal_with_fuel(rules::checked_construct, 3);
    lemma_has_itself(before.errors);
    let after = rules::checked_construct(c, classes, text, db, before);
    match c {
        ConstructView::Rule { selectors, body } => {
            lemma_rule_is_checked(selectors, body, classes, text, db, before);
        },
        ConstructView::Assignment { right, .. } => {
            if let Some(value) = right {
                lemma_value_is_reported(*value, text, before.errors);
            }
        },
        ConstructView::Tween { body: Some(value), .. } => {
            lemma_tween_adds(*value, text, before.errors);
            lemma_has_sum(before.errors, tween::checked_tween(*value, text, Seq::empty()));
        },
        ConstructView::Macro { args, return_type, body, .. } => {
            let body = macro_check::body_of(return_type, body);
            lemma_macro_adds(args, body, text, before.errors);
            lemma_has_sum(
                before.errors,
                macro_check::checked_macro(args, body, text, Seq::empty()),
            );
        },
        ConstructView::Priority { body: Some(value), .. } => {
            lemma_value_is_reported(*value, text, before.errors);
        },
        ConstructView::Name { body: Some(value), .. } => {
            lemma_value_is_reported(*value, text, before.errors);
        },
        _ => {},
    }
}

proof fn lemma_rule_is_checked<'a>(
    selectors: Option<Seq<NodeView<'a>>>,
    body: Option<DelimitedView<'a>>,
    parent: Seq<Seq<char>>,
    text: Seq<char>,
    db: ReflectionView,
    before: CheckState,
)
    ensures
        ({
            let after = rules::checked_rule(selectors, body, parent, text, db, before);
            &&& has_all(after.errors, selector_errors(selectors, parent, text, db))
            &&& body_is_checked(
                body,
                rule_classes(selectors, parent, text, db),
                text,
                db,
                after.errors,
            )
            &&& has_all(after.errors, before.errors)
        }),
    decreases body,
{
    let classes = rule_classes(selectors, parent, text, db);
    let own = selector_errors(selectors, parent, text, db);
    let s = match selectors {
        Some(selectors) => selectors::checked_selectors(selectors, parent, text, db, before).1,
        None => before,
    };
    if let Some(selectors) = selectors {
        lemma_selector_stands_alone(selectors, parent, text, db, before);
    }
    assert(before.errors + Seq::<DiagnosticView>::empty() =~= before.errors);
    assert(s.errors == before.errors + own);
    lemma_has_sum(before.errors, own);
    if let Some(body) = body {
        if let Some(content) = body.content {
            assert(decreases_to!(body => body.content));
            assert(decreases_to!(body.content => content));
            let s1 = s.define(
                body.left.token.0,
                construct::end_or(body.right, body.left.token.2),
                DefinitionView::Scope { type_definition: classes },
            );
            lemma_content_is_checked(content, classes, text, db, s1);
            let after = rules::checked_content(content, classes, text, db, s1);
            lemma_has_more(s.errors, after.errors, own);
            lemma_has_more(s.errors, after.errors, before.errors);
        }
    }
}

proof fn lemma_content_is_checked<'a>(
    content: Seq<ConstructView<'a>>,
    classes: Seq<Seq<char>>,
    text: Seq<char>,
    db: ReflectionView,
    before: CheckState,
)
    ensures
        all_checked(
            content,
            classes,
            text,
            db,
            rules::checked_content(content, classes, text, db, before).errors,
        ),
        has_all(
            rules::checked_content(content, classes, text, db, before).errors,
            before.errors,
        ),
    decreases content,
{
    lemma_has_itself(before.errors);
    if content.len() > 0 {
        let front = content.drop_last();
        let last = content[content.len() - 1];
        assert(decreases_to!(content => content[content.len() - 1]));
        let s = rules::checked_content(front, classes, text, db, before);
        let after = rules::checked_construct(last, classes, text, db, s);
        lemma_content_is_checked(front, classes, text, db, before);
        lemma_construct_is_checked(last, classes, text, db, s);
        lemma_has_more(s.errors, after.errors, before.errors);
        assert forall|i: int| 0 <= i < content.len() implies is_checked(
            #[trigger] content[i],
            classes,
            text,
            db,
            after.errors,
        ) by {
            if i < front.len() {
                assert(front[i] == content[i]);
                lemma_stays_checked(content[i], classes, text, db, s.errors, after.errors);
            }
        }
    }
}

/// The check of a rule reports what is wrong with its selector, and with the values, the
/// selectors, the tweens and the macros in it and in the rules nested in it, at any depth. It
/// keeps the errors before it.
pub proof fn lemma_rule_errors_are_reported(
    selectors: Option<Seq<NodeView>>,
    body: Option<DelimitedView>,
    parent: Seq<Seq<char>>,
    text: Seq<char>,
    db: ReflectionView,
    before: CheckState,
)
    ensures
        is_checked(
            ConstructView::Rule { selectors, body },
            parent,
            text,
            db,
            rules::checked_rule(selectors, body, parent, text, db, before).errors,
        ),
        has_all(
            rules::checked_rule(selectors, body, parent, text, db, before).errors,
            before.errors,
        ),
{
    reveal_with_fuel(is_checked, 2);
    lemma_rule_is_checked(selectors, body, parent, text, db, before);
}

/// Whether a byte lies in none of some constructs.
pub open spec fn is_blank(content: Option<Seq<ConstructView>>, byte: usize) -> bool {
    match content {
        Some(content) => is_outside(content, byte),
        None => true,
    }
}

pub open spec fn is_outside(content: Seq<ConstructView>, byte: usize) -> bool {
    forall|i: int| 0 <= i < content.len() ==> !is_within(#[trigger] content[i], byte)
}

/// Whether a byte lies between the first and the last token of a construct.
pub open spec fn is_within(construct: ConstructView, byte: usize) -> bool {
    let tokens = order::tokens_of(construct);
    frame::started(tokens, byte) && frame::ended(tokens, byte)
}

/// Whether the bytes of a body that lie in none of its constructs know the classes of the rule.
pub open spec fn is_scope(
    body: DelimitedView,
    classes: Seq<Seq<char>>,
    after: Map<usize, DefinitionView>,
) -> bool {
    blanks_hold(
        after,
        body.left.token.0,
        construct::end_or(body.right, body.left.token.2),
        body.content,
        DefinitionView::Scope { type_definition: classes },
    )
}

/// Whether the bytes in front of `to`, from `from` on, that lie in none of the constructs have a
/// definition.
pub open spec fn blanks_hold(
    after: Map<usize, DefinitionView>,
    from: usize,
    to: usize,
    content: Option<Seq<ConstructView>>,
    kind: DefinitionView,
) -> bool {
    forall|byte: usize|
        from <= byte < to && is_blank(content, byte) ==> #[trigger] after.dom().contains(byte)
            && after[byte] == kind
}

proof fn lemma_blanks_stay(
    before: Map<usize, DefinitionView>,
    after: Map<usize, DefinitionView>,
    from: usize,
    to: usize,
    content: Option<Seq<ConstructView>>,
    kind: DefinitionView,
    end: usize,
)
    requires
        blanks_hold(before, from, to, content, kind),
        to <= end,
        forall|byte: usize| byte < end ==> #[trigger] frame::same_at(before, after, byte),
    ensures
        blanks_hold(after, from, to, content, kind),
{
    assert forall|byte: usize| from <= byte < to && is_blank(content, byte) implies
        #[trigger] after.dom().contains(byte) && after[byte] == kind by {
        assert(frame::same_at(before, after, byte));
        assert(before.dom().contains(byte));
    }
}

/// Whether a construct in a rule is defined by the classes of the rule, with those in the rules
/// nested in it: a selector by what it selects, the blanks of a body by the same, the equals
/// sign of an assignment by the property and the classes, and a declared token by its name.
pub open spec fn is_scoped(
    construct: ConstructView,
    classes: Seq<Seq<char>>,
    text: Seq<char>,
    db: ReflectionView,
    after: Map<usize, DefinitionView>,
) -> bool
    decreases construct,
{
    match construct {
        ConstructView::Rule { selectors, body } => {
            let inner = rule_classes(selectors, classes, text, db);
            &&& selectors is Some && selectors->0.len() > 0 ==> frame::holds(
                after,
                selectors->0[0].token.0,
                selectors->0[0].token.2,
                definitions::selector_view(inner),
            )
            &&& body_is_scoped(body, inner, text, db, after)
        },
        ConstructView::Assignment { left, middle, right, .. } => match (left.token.1, middle) {
            (Token::Identifier(property), Some(middle)) => frame::holds(
                after,
                middle.token.0,
                middle.token.2,
                DefinitionView::Assignment {
                    property_name: property@,
                    type_definition: classes,
                },
            ),
            (Token::TokenIdentifier(name), _) => right is Some ==> frame::holds(
                after,
                left.token.0,
                left.token.2,
                DefinitionView::Token { name: name@, is_static: false },
            ),
            (Token::StaticTokenIdentifier(name), _) => right is Some ==> frame::holds(
                after,
                left.token.0,
                left.token.2,
                DefinitionView::Token { name: name@, is_static: true },
            ),
            _ => true,
        },
        _ => true,
    }
}

pub open spec fn body_is_scoped(
    body: Option<DelimitedView>,
    classes: Seq<Seq<char>>,
    text: Seq<char>,
    db: ReflectionView,
    after: Map<usize, DefinitionView>,
) -> bool
    decreases body,
{
    match body {
        Some(body) => {
            &&& is_scope(body, classes, after)
            &&& match body.content {
                Some(content) => all_scoped(content, classes, text, db, after),
                None => true,
            }
        },
        None => true,
    }
}

pub open spec fn all_scoped(
    content: Seq<ConstructView>,
    classes: Seq<Seq<char>>,
    text: Seq<char>,
    db: ReflectionView,
    after: Map<usize, DefinitionView>,
) -> bool
    decreases content,
{
    forall|i: int|
        0 <= i < content.len() ==> is_scoped(#[trigger] content[i], classes, text, db, after)
}

proof fn lemma_selector_keeps<'a>(
    nodes: Seq<NodeView<'a>>,
    parent: Seq<Seq<char>>,
    text: Seq<char>,
    db: ReflectionView,
    before: CheckState,
)
    requires
        order::is_ordered(order::node_tokens(nodes)),
    ensures
        ({
            let after = selectors::checked_selectors(nodes, parent, text, db, before).1;
            &&& frame::keeps(before.definitions, after.definitions, order::node_tokens(nodes))
            &&& nodes.len() > 0 ==> frame::holds(
                after.definitions,
                nodes[0].token.0,
                nodes[0].token.2,
                definitions::selector_view(rule_classes(Some(nodes), parent, text, db)),
            )
        }),
{
    let tokens = order::node_tokens(nodes);
    lemma_selector_stands_alone(nodes, parent, text, db, before);
    if nodes.len() > 0 {
        let s = SelectorState {
            nodes,
            position: 1,
            parent,
            classes: Seq::empty(),
            errors: before.errors,
            text,
            db,
        };
        selectors::lemma_begin_leads(s, nodes[0]);
        let t = s.begin_iteration(nodes[0]);
        let last = t.position - 1;
        assert(tokens[0] == nodes[0].token);
        assert(tokens[last] == nodes[last].token);
        assert(frame::started(tokens, nodes[0].token.0));
        assert(frame::ended(tokens, nodes[last].token.2));
        frame::lemma_defined(
            before.definitions,
            nodes[0].token.0,
            nodes[last].token.2,
            definitions::selector_view(t.classes),
            tokens,
        );
        if last > 0 {
            assert(tokens[0].2 <= tokens[last].0);
            assert(tokens[last].0 <= tokens[last].2);
        }
    }
}

#[verifier::rlimit(60)]
proof fn lemma_assignment_keeps<'a>(
    c: ConstructView<'a>,
    classes: Seq<Seq<char>>,
    text: Seq<char>,
    db: ReflectionView,
    before: CheckState,
)
    requires
        c is Assignment,
        order::is_ordered(order::tokens_of(c)),
        order::rules_have_bodies(c),
    ensures
        frame::keeps(
            before.definitions,
            rules::checked_construct(c, classes, text, db, before).definitions,
            order::tokens_of(c),
        ),
        is_scoped(
            c,
            classes,
            text,
            db,
            rules::checked_construct(c, classes, text, db, before).definitions,
        ),
{
    broadcast use {
        frame::lemma_started,
        frame::lemma_ended,
        frame::lemma_started_one,
        frame::lemma_ended_one,
    };

    reveal_with_fuel(order::tokens_of, 4);
    reveal_with_fuel(order::rules_have_bodies, 4);
    let all = order::tokens_of(c);
    let after = rules::checked_construct(c, classes, text, db, before);
    if let ConstructView::Assignment { left, middle, right, terminator } = c {
        let behind = order::boxed_tokens_of(right) + order::optional_token(terminator);
        assert(all == seq![left.token] + (order::optional_token(middle) + behind));
        assert(all[0] == left.token);
        assert(all[0].0 <= all[0].2);
        match (left.token.1, middle) {
            (Token::Identifier(property_name), Some(middle)) => {
                let start = before.definitions;
                let end = rules::assignment_end(middle, right, terminator);
                frame::lemma_parts_are_ordered(seq![left.token], seq![middle.token] + behind);
                frame::lemma_parts_are_ordered(seq![middle.token], behind);
                frame::lemma_parts_are_ordered(
                    order::boxed_tokens_of(right),
                    order::optional_token(terminator),
                );
                assert(seq![middle.token][0] == middle.token);
                if let Some(right) = right {
                    order::lemma_construct(*right);
                    frame::lemma_ends_at(order::tokens_of(*right), right.end());
                }
                assert(frame::ended(all, end));
                assert(middle.token.2 <= end) by {
                    match terminator {
                        Some(terminator) => {
                            let last = behind.len() - 1;
                            assert(behind[last] == terminator.token);
                            assert(behind[last].0 <= behind[last].2);
                        },
                        None => {
                            if let Some(right) = right {
                                let inner = order::tokens_of(*right);
                                let k = inner.len() - 1;
                                assert(behind[k] == inner[k]);
                                assert(behind[k].0 <= behind[k].2);
                            }
                        },
                    }
                }
                let kind = DefinitionView::Assignment {
                    property_name: property_name@,
                    type_definition: classes,
                };
                let s = definitions::defined(start, middle.token.0, end, kind);
                assert(frame::started(all, middle.token.0));
                frame::lemma_defined(start, middle.token.0, end, kind, all);
                assert(frame::holds(s, middle.token.0, middle.token.2, kind));
                if let Some(right) = right {
                    if let ConstructView::Enum { keyword, name, variant } = *right {
                        let inner = order::tokens_of(*right);
                        assert(inner[0] == keyword.token);
                        assert(behind[0] == inner[0]);
                        assert(inner[0].0 <= inner[0].2);
                        assert(frame::started(inner, keyword.token.2));
                        if let Some(name) = name {
                            assert(inner[1] == name.token);
                            assert(inner[0].2 <= inner[1].0 && inner[1].0 <= inner[1].2);
                            assert(frame::started(inner, name.token.2));
                            assert(frame::ended(inner, name.token.2));
                        }
                        if let Some(variant) = variant {
                            assert(frame::ended(inner, variant.token.2));
                        }
                        let name_end = construct::end_or(name, end);
                        let u = definitions::defined(
                            s,
                            keyword.token.2,
                            name_end,
                            DefinitionView::EnumName,
                        );
                        frame::lemma_defined(
                            s,
                            keyword.token.2,
                            name_end,
                            DefinitionView::EnumName,
                            all,
                        );
                        frame::lemma_keeps_twice(start, s, u, all);
                        assert(frame::holds(u, middle.token.0, middle.token.2, kind)) by {
                            assert forall|byte: usize|
                                middle.token.0 <= byte < middle.token.2 implies
                                #[trigger] u.dom().contains(byte) && u[byte] == kind by {
                                assert(s.dom().contains(byte));
                            }
                        }
                        if let Some(name) = name {
                            if let Some(enum_name) = rules::enum_part_name(name.token.1) {
                                let variant_end = construct::end_or(variant, end);
                                let item = DefinitionView::EnumVariant { enum_name: enum_name@ };
                                let v = definitions::defined(
                                    u,
                                    name.token.2,
                                    variant_end,
                                    item,
                                );
                                frame::lemma_defined(u, name.token.2, variant_end, item, all);
                                frame::lemma_keeps_twice(start, u, v, all);
                                assert(after.definitions == v);
                                assert forall|byte: usize|
                                    middle.token.0 <= byte < middle.token.2 implies
                                    #[trigger] v.dom().contains(byte) && v[byte] == kind by {
                                    assert(u.dom().contains(byte));
                                }
                            }
                        }
                    }
                }
            },
            _ => {
                if let Some(kind) = crate::autocomplete::tokens::reference_view(left.token.1) {
                    if right is Some {
                        frame::lemma_defined(
                            before.definitions,
                            left.token.0,
                            left.token.2,
                            kind,
                            all,
                        );
                    }
                }
            },
        }
    }
}

/// What is scoped stays so where the bytes of the construct do not change.
proof fn lemma_stays_scoped<'a>(
    c: ConstructView<'a>,
    classes: Seq<Seq<char>>,
    text: Seq<char>,
    db: ReflectionView,
    before: Map<usize, DefinitionView>,
    after: Map<usize, DefinitionView>,
    end: usize,
)
    requires
        is_scoped(c, classes, text, db, before),
        frame::end_by(order::tokens_of(c), end),
        forall|byte: usize| byte < end ==> #[trigger] frame::same_at(before, after, byte),
    ensures
        is_scoped(c, classes, text, db, after),
    decreases c,
{
    broadcast use {frame::lemma_end_by, frame::lemma_end_by_one};

    reveal_with_fuel(order::tokens_of, 4);
    reveal_with_fuel(is_scoped, 4);
    assert forall|byte: usize| byte < end implies (#[trigger] after.dom().contains(byte)
        <==> before.dom().contains(byte)) && (before.dom().contains(byte) ==> before[byte]
        == after[byte]) by {
        assert(frame::same_at(before, after, byte));
    }
    if let ConstructView::Rule { selectors, body } = c {
        let inner = rule_classes(selectors, classes, text, db);
        let head = match selectors {
            Some(selectors) => order::node_tokens(selectors),
            None => Seq::empty(),
        };
        assert(order::tokens_of(c) == head + order::optional_tokens_of(body));
        if let Some(selectors) = selectors {
            if selectors.len() > 0 {
                assert(head[0] == selectors[0].token);
            }
        }
        if let Some(body) = body {
            let inside = match body.content {
                Some(content) => order::all_tokens_of(content),
                None => Seq::empty(),
            };
            assert(frame::end_by(order::delimited_tokens(body), end));
            assert(frame::end_by(seq![body.left.token], end));
            assert(frame::end_by(inside + order::optional_token(body.right), end));
            assert(frame::end_by(order::optional_token(body.right), end));
            assert(construct::end_or(body.right, body.left.token.2) <= end);
            lemma_blanks_stay(
                before,
                after,
                body.left.token.0,
                construct::end_or(body.right, body.left.token.2),
                body.content,
                DefinitionView::Scope { type_definition: inner },
                end,
            );
            assert(is_scope(body, inner, after));
            if let Some(content) = body.content {
                assert(decreases_to!(body => body.content));
                assert(decreases_to!(body.content => content));
                assert forall|i: int| 0 <= i < content.len() implies is_scoped(
                    #[trigger] content[i],
                    inner,
                    text,
                    db,
                    after,
                ) by {
                    assert(decreases_to!(content => content[i]));
                    frame::lemma_items_end_by(content, i, end);
                    lemma_stays_scoped(content[i], inner, text, db, before, after, end);
                }
            }
        }
    }
}

proof fn lemma_construct_is_scoped<'a>(
    c: ConstructView<'a>,
    classes: Seq<Seq<char>>,
    text: Seq<char>,
    db: ReflectionView,
    before: CheckState,
)
    requires
        order::is_ordered(order::tokens_of(c)),
        order::rules_have_bodies(c),
    ensures
        frame::keeps(
            before.definitions,
            rules::checked_construct(c, classes, text, db, before).definitions,
            order::tokens_of(c),
        ),
        is_scoped(
            c,
            classes,
            text,
            db,
            rules::checked_construct(c, classes, text, db, before).definitions,
        ),
    decreases c,
{
    match c {
        ConstructView::Rule { selectors, body } => {
            reveal_with_fuel(is_scoped, 2);
            reveal_with_fuel(order::rules_have_bodies, 3);
            lemma_rule_is_scoped(selectors, body->0, classes, text, db, before);
        },
        ConstructView::Assignment { .. } => {
            lemma_assignment_keeps(c, classes, text, db, before);
        },
        _ => {},
    }
}

proof fn lemma_rule_is_scoped<'a>(
    selectors: Option<Seq<NodeView<'a>>>,
    body: DelimitedView<'a>,
    parent: Seq<Seq<char>>,
    text: Seq<char>,
    db: ReflectionView,
    before: CheckState,
)
    requires
        order::is_ordered(
            order::tokens_of(ConstructView::Rule { selectors, body: Some(body) }),
        ),
        order::delimited_has_bodies(body),
    ensures
        ({
            let after = rules::checked_rule(selectors, Some(body), parent, text, db, before);
            let inner = rule_classes(selectors, parent, text, db);
            &&& frame::keeps(
                before.definitions,
                after.definitions,
                order::tokens_of(ConstructView::Rule { selectors, body: Some(body) }),
            )
            &&& selectors is Some && selectors->0.len() > 0 ==> frame::holds(
                after.definitions,
                selectors->0[0].token.0,
                selectors->0[0].token.2,
                definitions::selector_view(inner),
            )
            &&& body_is_scoped(Some(body), inner, text, db, after.definitions)
        }),
    decreases body,
{
    broadcast use {
        frame::lemma_keeps_wider,
        frame::lemma_started,
        frame::lemma_ended,
        frame::lemma_started_one,
        frame::lemma_ended_one,
    };

    reveal_with_fuel(order::tokens_of, 4);
    let all = order::tokens_of(ConstructView::Rule { selectors, body: Some(body) });
    let head = match selectors {
        Some(selectors) => order::node_tokens(selectors),
        None => Seq::empty(),
    };
    let classes = rule_classes(selectors, parent, text, db);
    let inside = match body.content {
        Some(content) => order::all_tokens_of(content),
        None => Seq::empty(),
    };
    let close = order::optional_token(body.right);
    let between = order::delimited_tokens(body);
    assert(all == head + between);
    assert(between == seq![body.left.token] + (inside + close));
    frame::lemma_parts_are_ordered(head, between);
    frame::lemma_parts_are_ordered(seq![body.left.token], inside + close);
    frame::lemma_parts_are_ordered(inside, close);
    assert(between[0] == body.left.token);
    assert(seq![body.left.token][0] == body.left.token);
    assert(between[0].0 <= between[0].2);
    let s = match selectors {
        Some(selectors) => selectors::checked_selectors(selectors, parent, text, db, before).1,
        None => before,
    };
    if let Some(selectors) = selectors {
        lemma_selector_keeps(selectors, parent, text, db, before);
        lemma_selector_stands_alone(selectors, parent, text, db, before);
    }
    assert(frame::keeps(before.definitions, s.definitions, all));
    let start = body.left.token.0;
    let end = construct::end_or(body.right, body.left.token.2);
    let kind = DefinitionView::Scope { type_definition: classes };
    let s1 = s.define(start, end, kind);
    assert(frame::started(all, start));
    assert(frame::ended(all, end));
    frame::lemma_defined(s.definitions, start, end, kind, all);
    frame::lemma_keeps_twice(before.definitions, s.definitions, s1.definitions, all);
    let after = match body.content {
        Some(content) => rules::checked_content(content, classes, text, db, s1),
        None => s1,
    };
    if let Some(content) = body.content {
        assert(decreases_to!(body => body.content));
        assert(decreases_to!(body.content => content));
        lemma_content_is_scoped(content, classes, text, db, s1);
        assert(frame::keeps(s1.definitions, after.definitions, inside + close));
        assert(frame::keeps(s1.definitions, after.definitions, between));
        assert(frame::keeps(s1.definitions, after.definitions, all));
        frame::lemma_keeps_twice(
            before.definitions,
            s1.definitions,
            after.definitions,
            all,
        );
    }
    assert forall|byte: usize| start <= byte < end && is_blank(body.content, byte) implies
        #[trigger] after.definitions.dom().contains(byte) && after.definitions[byte] == kind by {
        assert(s1.definitions.dom().contains(byte));
        if body.content is Some {
            assert(frame::same_at(s1.definitions, after.definitions, byte) || !is_blank(
                body.content,
                byte,
            ));
        }
    }
    assert(is_scope(body, classes, after.definitions));
    if let Some(selectors) = selectors {
        if selectors.len() > 0 {
            let first = selectors[0].token;
            assert(head[0] == first);
            assert(head[0].2 <= between[0].0);
            assert forall|byte: usize| first.0 <= byte < first.2 implies
                #[trigger] after.definitions.dom().contains(byte) && after.definitions[byte]
                == definitions::selector_view(classes) by {
                assert(s.definitions.dom().contains(byte));
                assert(s1.definitions.dom().contains(byte));
                assert(frame::same_at(s1.definitions, after.definitions, byte)
                    || frame::started(inside, byte));
                if frame::started(inside, byte) {
                    let k = choose|k: int|
                        0 <= k < inside.len() && (#[trigger] inside[k]).0 <= byte;
                    assert((inside + close)[k] == inside[k]);
                    assert(seq![body.left.token][0].2 <= (inside + close)[k].0);
                }
            }
        }
    }
}

proof fn lemma_content_is_scoped<'a>(
    content: Seq<ConstructView<'a>>,
    classes: Seq<Seq<char>>,
    text: Seq<char>,
    db: ReflectionView,
    before: CheckState,
)
    requires
        order::is_ordered(order::all_tokens_of(content)),
        order::all_have_bodies(content),
    ensures
        ({
            let after = rules::checked_content(content, classes, text, db, before);
            &&& frame::keeps(
                before.definitions,
                after.definitions,
                order::all_tokens_of(content),
            )
            &&& forall|byte: usize| #[trigger]
                frame::same_at(before.definitions, after.definitions, byte) || !is_outside(
                    content,
                    byte,
                )
            &&& all_scoped(content, classes, text, db, after.definitions)
        }),
    decreases content,
{
    broadcast use frame::lemma_keeps_wider;

    if content.len() > 0 {
        let front = content.drop_last();
        let n = content.len() - 1;
        let last = content[n];
        assert(decreases_to!(content => content[content.len() - 1]));
        assert(forall|i: int| 0 <= i < front.len() ==> #[trigger] front[i] == content[i]);
        let first_tokens = order::all_tokens_of(front);
        let last_tokens = order::tokens_of(last);
        let all = order::all_tokens_of(content);
        frame::lemma_parts_are_ordered(first_tokens, last_tokens);
        let s = rules::checked_content(front, classes, text, db, before);
        let after = rules::checked_content(content, classes, text, db, before);
        lemma_content_is_scoped(front, classes, text, db, before);
        lemma_construct_is_scoped(last, classes, text, db, s);
        assert(frame::keeps(before.definitions, s.definitions, all));
        assert(frame::keeps(s.definitions, after.definitions, all));
        frame::lemma_keeps_twice(before.definitions, s.definitions, after.definitions, all);
        assert forall|byte: usize| #[trigger]
            frame::same_at(before.definitions, after.definitions, byte) || !is_outside(
                content,
                byte,
            ) by {
            assert(frame::same_at(before.definitions, s.definitions, byte) || !is_outside(
                front,
                byte,
            ));
            assert(frame::same_at(s.definitions, after.definitions, byte) || is_within(
                content[n],
                byte,
            ));
            if !is_outside(front, byte) {
                let k = choose|k: int|
                    0 <= k < front.len() && is_within(#[trigger] front[k], byte);
                assert(is_within(content[k], byte));
            }
        }
        order::lemma_construct(last);
        let end = last_tokens[0].0;
        assert forall|byte: usize| byte < end implies #[trigger] frame::same_at(
            s.definitions,
            after.definitions,
            byte,
        ) by {
            if frame::started(last_tokens, byte) {
                let k = choose|k: int|
                    0 <= k < last_tokens.len() && (#[trigger] last_tokens[k]).0 <= byte;
                if k > 0 {
                    assert(last_tokens[0].2 <= last_tokens[k].0);
                    assert(last_tokens[0].0 <= last_tokens[0].2);
                }
            }
        }
        assert(frame::end_by(first_tokens, end));
        assert forall|i: int| 0 <= i < content.len() implies is_scoped(
            #[trigger] content[i],
            classes,
            text,
            db,
            after.definitions,
        ) by {
            if i < front.len() {
                assert(front[i] == content[i]);
                frame::lemma_items_end_by(front, i, end);
                lemma_stays_scoped(
                    content[i],
                    classes,
                    text,
                    db,
                    s.definitions,
                    after.definitions,
                    end,
                );
            }
        }
    }
}

/// The check of a rule defines its bytes by what it selects: its selector, the blanks of its
/// body and the assignments to properties in it, and so for the rules nested in it, at any
/// depth. The bytes around the rule keep their definitions.
pub proof fn lemma_rule_defines_scopes(
    selectors: Option<Seq<NodeView>>,
    body: DelimitedView,
    parent: Seq<Seq<char>>,
    text: Seq<char>,
    db: ReflectionView,
    before: CheckState,
)
    requires
        order::is_ordered(
            order::tokens_of(ConstructView::Rule { selectors, body: Some(body) }),
        ),
        order::delimited_has_bodies(body),
    ensures
        ({
            let rule = ConstructView::Rule { selectors, body: Some(body) };
            let after = rules::checked_rule(
                selectors,
                Some(body),
                parent,
                text,
                db,
                before,
            ).definitions;
            &&& is_scoped(rule, parent, text, db, after)
            &&& forall|byte: usize|
                !is_within(rule, byte) ==> #[trigger] frame::same_at(
                    before.definitions,
                    after,
                    byte,
                )
        }),
{
    reveal_with_fuel(is_scoped, 2);
    lemma_rule_is_scoped(selectors, body, parent, text, db, before);
}

} // verus!
