//! What the check of references to macro arguments reports.

use super::macro_check;
use super::macro_check::MacroBodyView;
use crate::diagnostic::{DiagnosticView, Severity};
use crate::parser::construct::{ConstructView, DelimitedView, NodeView};
use crate::parser::order;
use crate::parser::token::{SpannedToken, Token};
use crate::strings;
use crate::text;
use vstd::prelude::*;

verus! {

/// Whether a token refers to an argument, and to none that is known.
pub open spec fn is_stray(token: SpannedToken, known: Option<Seq<&str>>) -> bool {
    match token.1 {
        Token::MacroArgIdentifier(Some(name)) => match known {
            Some(known) => forall|i: int| 0 <= i < known.len() ==> (#[trigger] known[i])@ != name@,
            None => true,
        },
        Token::MacroArgIdentifier(None) => true,
        _ => false,
    }
}

/// The error about a token that refers to no known argument: it stands at the token and names
/// what the token names.
pub open spec fn stray_error(token: SpannedToken, text: Seq<char>) -> DiagnosticView {
    DiagnosticView {
        range: text::range_of(text, (token.0 as int, token.2 as int)),
        severity: Severity::Error,
        code: "TYPE_ERROR(INVALID_MACRO_ARG)"@,
        source: "RSML LSP"@,
        message: "Type Error (Invalid Macro Argument): "@ + (match token.1 {
            Token::MacroArgIdentifier(Some(name)) => "No macro argument named \""@ + name@
                + "\" exists."@,
            _ => "Missing macro argument name."@,
        }),
        data: None,
    }
}

/// An error for each token that refers to no known argument, in the order of the tokens.
pub open spec fn stray_errors(
    tokens: Seq<SpannedToken>,
    known: Option<Seq<&str>>,
    text: Seq<char>,
) -> Seq<DiagnosticView>
    decreases tokens.len(),
{
    if tokens.len() == 0 {
        Seq::empty()
    } else {
        let before = stray_errors(tokens.drop_last(), known, text);
        if is_stray(tokens.last(), known) {
            before.push(stray_error(tokens.last(), text))
        } else {
            before
        }
    }
}

proof fn lemma_stray_errors_of_sum(
    a: Seq<SpannedToken>,
    b: Seq<SpannedToken>,
    known: Option<Seq<&str>>,
    text: Seq<char>,
)
    ensures
        stray_errors(a + b, known, text) == stray_errors(a, known, text) + stray_errors(
            b,
            known,
            text,
        ),
    decreases b.len(),
{
    if b.len() == 0 {
        assert(a + b =~= a);
        assert(stray_errors(a, known, text) + stray_errors(b, known, text) =~= stray_errors(
            a,
            known,
            text,
        ));
    } else {
        lemma_stray_errors_of_sum(a, b.drop_last(), known, text);
        assert((a + b).drop_last() =~= a + b.drop_last());
        assert((a + b).last() == b.last());
        assert(stray_errors(a + b, known, text) =~= stray_errors(a, known, text) + stray_errors(
            b,
            known,
            text,
        ));
    }
}

proof fn lemma_no_stray_errors(
    tokens: Seq<SpannedToken>,
    known: Option<Seq<&str>>,
    text: Seq<char>,
)
    requires
        forall|i: int| 0 <= i < tokens.len() ==> !((#[trigger] tokens[i]).1 is MacroArgIdentifier),
    ensures
        stray_errors(tokens, known, text) == Seq::<DiagnosticView>::empty(),
    decreases tokens.len(),
{
    if tokens.len() > 0 {
        assert(!(tokens[tokens.len() - 1].1 is MacroArgIdentifier));
        lemma_no_stray_errors(tokens.drop_last(), known, text);
    }
}

pub open spec fn is_no_argument(node: Option<NodeView>) -> bool {
    match node {
        Some(node) => !(node.token.1 is MacroArgIdentifier),
        None => true,
    }
}

/// Whether a construct can stand as a value: arguments stand in it as operands and elements
/// only, not for operators, brackets or names.
pub open spec fn is_datatype(c: ConstructView) -> bool
    decreases c,
{
    match c {
        ConstructView::Node { .. } => true,
        ConstructView::MathOperation { left, operators, right } => {
            &&& is_datatype(*left)
            &&& forall|i: int|
                0 <= i < operators.len() ==> !((
                #[trigger] operators[i]).token.1 is MacroArgIdentifier)
            &&& match right {
                Some(right) => is_datatype(*right),
                None => true,
            }
        },
        ConstructView::UnaryMinus { operator, operand } => !(operator.token.1 is MacroArgIdentifier)
            && is_datatype(*operand),
        ConstructView::Table { body } => is_table(body),
        ConstructView::AnnotatedTable { annotation, body } => {
            &&& !(annotation.token.1 is MacroArgIdentifier)
            &&& match body {
                Some(body) => is_table(body),
                None => true,
            }
        },
        ConstructView::Enum { keyword, name, variant } => {
            &&& !(keyword.token.1 is MacroArgIdentifier)
            &&& is_no_argument(name)
            &&& is_no_argument(variant)
        },
        ConstructView::MacroCall { .. } => true,
        _ => false,
    }
}

pub open spec fn is_table(body: DelimitedView) -> bool
    decreases body,
{
    &&& !(body.left.token.1 is MacroArgIdentifier)
    &&& match body.content {
        Some(content) => are_datatypes(content),
        None => true,
    }
    &&& is_no_argument(body.right)
}

pub open spec fn are_datatypes(content: Seq<ConstructView>) -> bool
    decreases content,
{
    forall|i: int| 0 <= i < content.len() ==> is_datatype(#[trigger] content[i])
}

/// The tokens of a value, without those of the macro calls in it.
pub open spec fn tokens_outside_calls<'a>(c: ConstructView<'a>) -> Seq<SpannedToken<'a>>
    decreases c,
{
    match c {
        ConstructView::MathOperation { left, operators, right } => tokens_outside_calls(*left) + (
        order::node_tokens(operators) + (match right {
            Some(right) => tokens_outside_calls(*right),
            None => Seq::empty(),
        })),
        ConstructView::UnaryMinus { operator, operand } => seq![operator.token]
            + tokens_outside_calls(*operand),
        ConstructView::Table { body } => table_tokens(body),
        ConstructView::AnnotatedTable { annotation, body } => seq![annotation.token] + (match body {
            Some(body) => table_tokens(body),
            None => Seq::empty(),
        }),
        ConstructView::MacroCall { .. } => Seq::empty(),
        _ => order::tokens_of(c),
    }
}

pub open spec fn table_tokens<'a>(body: DelimitedView<'a>) -> Seq<SpannedToken<'a>>
    decreases body,
{
    seq![body.left.token] + (match body.content {
        Some(content) => all_tokens_outside_calls(content),
        None => Seq::empty(),
    } + order::optional_token(body.right))
}

pub open spec fn all_tokens_outside_calls<'a>(content: Seq<ConstructView<'a>>) -> Seq<
    SpannedToken<'a>,
>
    decreases content,
{
    if content.len() == 0 {
        Seq::empty()
    } else {
        all_tokens_outside_calls(content.drop_last()) + tokens_outside_calls(
            content[content.len() - 1],
        )
    }
}

/// Whether a value has a macro call in it.
pub open spec fn has_call(c: ConstructView) -> bool
    decreases c,
{
    match c {
        ConstructView::MathOperation { left, right, .. } => has_call(*left) || (match right {
            Some(right) => has_call(*right),
            None => false,
        }),
        ConstructView::UnaryMinus { operand, .. } => has_call(*operand),
        ConstructView::Table { body } => table_has_call(body),
        ConstructView::AnnotatedTable { body, .. } => match body {
            Some(body) => table_has_call(body),
            None => false,
        },
        ConstructView::MacroCall { .. } => true,
        _ => false,
    }
}

pub open spec fn table_has_call(body: DelimitedView) -> bool
    decreases body,
{
    match body.content {
        Some(content) => any_has_call(content),
        None => false,
    }
}

pub open spec fn any_has_call(content: Seq<ConstructView>) -> bool
    decreases content,
{
    if content.len() == 0 {
        false
    } else {
        any_has_call(content.drop_last()) || has_call(content[content.len() - 1])
    }
}

proof fn lemma_table_tokens(body: DelimitedView)
    requires
        !table_has_call(body),
    ensures
        table_tokens(body) == order::delimited_tokens(body),
    decreases body, 1nat,
{
    if let Some(content) = body.content {
        assert(decreases_to!(body => body.content));
        assert(decreases_to!(body.content => content));
        lemma_all_tokens(content);
    }
}

proof fn lemma_all_tokens(content: Seq<ConstructView>)
    requires
        !any_has_call(content),
    ensures
        all_tokens_outside_calls(content) == order::all_tokens_of(content),
    decreases content, 0nat,
{
    if content.len() > 0 {
        lemma_all_tokens(content.drop_last());
        assert(decreases_to!(content => content[content.len() - 1]));
        lemma_tokens_without_calls(content[content.len() - 1]);
    }
}

/// Without macro calls, the tokens outside of them are all tokens.
pub proof fn lemma_tokens_without_calls(c: ConstructView)
    requires
        !has_call(c),
    ensures
        tokens_outside_calls(c) == order::tokens_of(c),
    decreases c, 2nat,
{
    reveal_with_fuel(order::tokens_of, 3);
    match c {
        ConstructView::MathOperation { left, right, .. } => {
            lemma_tokens_without_calls(*left);
            if let Some(right) = right {
                lemma_tokens_without_calls(*right);
            }
        },
        ConstructView::UnaryMinus { operand, .. } => {
            lemma_tokens_without_calls(*operand);
        },
        ConstructView::Table { body } => {
            lemma_table_tokens(body);
        },
        ConstructView::AnnotatedTable { body, .. } => {
            if let Some(body) = body {
                lemma_table_tokens(body);
            }
        },
        _ => {},
    }
}

proof fn lemma_node_tokens_are_quiet(
    nodes: Seq<NodeView>,
    known: Option<Seq<&str>>,
    text: Seq<char>,
)
    requires
        forall|i: int|
            0 <= i < nodes.len() ==> !((#[trigger] nodes[i]).token.1 is MacroArgIdentifier),
    ensures
        stray_errors(order::node_tokens(nodes), known, text) == Seq::<DiagnosticView>::empty(),
{
    let tokens = order::node_tokens(nodes);
    assert forall|i: int| 0 <= i < tokens.len() implies !((
    #[trigger] tokens[i]).1 is MacroArgIdentifier) by {
        assert(!(nodes[i].token.1 is MacroArgIdentifier));
    }
    lemma_no_stray_errors(tokens, known, text);
}

proof fn lemma_optional_is_quiet(
    node: Option<NodeView>,
    known: Option<Seq<&str>>,
    text: Seq<char>,
)
    requires
        is_no_argument(node),
    ensures
        stray_errors(order::optional_token(node), known, text) == Seq::<DiagnosticView>::empty(),
{
    lemma_no_stray_errors(order::optional_token(node), known, text);
}

proof fn lemma_stray_token(token: SpannedToken, known: Option<Seq<&str>>, text: Seq<char>)
    ensures
        stray_errors(seq![token], known, text) == (if is_stray(token, known) {
            seq![stray_error(token, text)]
        } else {
            Seq::empty()
        }),
{
    reveal_with_fuel(stray_errors, 2);
    assert(seq![token].drop_last() =~= Seq::empty());
    assert(stray_errors(seq![token], known, text) =~= (if is_stray(token, known) {
        seq![stray_error(token, text)]
    } else {
        Seq::empty()
    }));
}

proof fn lemma_table(
    body: DelimitedView,
    known: Option<Seq<&str>>,
    text: Seq<char>,
    errors: Seq<DiagnosticView>,
)
    requires
        is_table(body),
    ensures
        (match body.content {
            Some(content) => macro_check::all_checked_references(content, known, text, errors),
            None => errors,
        }) == errors + stray_errors(table_tokens(body), known, text),
    decreases body, 1nat,
{
    let inner = match body.content {
        Some(content) => all_tokens_outside_calls(content),
        None => Seq::empty(),
    };
    let close = order::optional_token(body.right);
    lemma_stray_token(body.left.token, known, text);
    lemma_optional_is_quiet(body.right, known, text);
    lemma_stray_errors_of_sum(inner, close, known, text);
    lemma_stray_errors_of_sum(seq![body.left.token], inner + close, known, text);
    assert(stray_errors(table_tokens(body), known, text) =~= stray_errors(inner, known, text));
    if let Some(content) = body.content {
        assert(decreases_to!(body => body.content));
        assert(decreases_to!(body.content => content));
        lemma_elements(content, known, text, errors);
    } else {
        assert(errors + stray_errors(inner, known, text) =~= errors);
    }
}

proof fn lemma_elements(
    content: Seq<ConstructView>,
    known: Option<Seq<&str>>,
    text: Seq<char>,
    errors: Seq<DiagnosticView>,
)
    requires
        are_datatypes(content),
    ensures
        macro_check::all_checked_references(content, known, text, errors) == errors + stray_errors(
            all_tokens_outside_calls(content),
            known,
            text,
        ),
    decreases content, 0nat,
{
    if content.len() == 0 {
        assert(errors + stray_errors(all_tokens_outside_calls(content), known, text) =~= errors);
    } else {
        let front = content.drop_last();
        let last = content[content.len() - 1];
        assert(forall|i: int| 0 <= i < front.len() ==> #[trigger] front[i] == content[i]);
        lemma_elements(front, known, text, errors);
        assert(decreases_to!(content => content[content.len() - 1]));
        let before = macro_check::all_checked_references(front, known, text, errors);
        lemma_stray_references_are_reported(last, known, text, before);
        lemma_stray_errors_of_sum(
            all_tokens_outside_calls(front),
            tokens_outside_calls(last),
            known,
            text,
        );
        assert(macro_check::all_checked_references(content, known, text, errors) =~= errors
            + stray_errors(all_tokens_outside_calls(content), known, text));
    }
}

/// The check of a value adds exactly one error for each token of the value, outside of macro
/// calls, that refers to no known argument, in the order of the tokens.
pub proof fn lemma_stray_references_are_reported(
    c: ConstructView,
    known: Option<Seq<&str>>,
    text: Seq<char>,
    errors: Seq<DiagnosticView>,
)
    requires
        is_datatype(c),
    ensures
        macro_check::checked_references(c, known, text, errors) == errors + stray_errors(
            tokens_outside_calls(c),
            known,
            text,
        ),
    decreases c, 2nat,
{
    reveal_with_fuel(order::tokens_of, 3);
    match c {
        ConstructView::Node { node } => {
            lemma_stray_token(node.token, known, text);
            assert(macro_check::checked_references(c, known, text, errors) =~= errors
                + stray_errors(seq![node.token], known, text));
        },
        ConstructView::MathOperation { left, operators, right } => {
            let ops = order::node_tokens(operators);
            let behind = match right {
                Some(right) => tokens_outside_calls(*right),
                None => Seq::empty(),
            };
            lemma_stray_references_are_reported(*left, known, text, errors);
            lemma_node_tokens_are_quiet(operators, known, text);
            lemma_stray_errors_of_sum(ops, behind, known, text);
            lemma_stray_errors_of_sum(tokens_outside_calls(*left), ops + behind, known, text);
            if let Some(right) = right {
                let before = macro_check::checked_references(*left, known, text, errors);
                lemma_stray_references_are_reported(*right, known, text, before);
            }
            assert(macro_check::checked_references(c, known, text, errors) =~= errors
                + stray_errors(tokens_outside_calls(c), known, text));
        },
        ConstructView::UnaryMinus { operator, operand } => {
            lemma_stray_token(operator.token, known, text);
            lemma_stray_references_are_reported(*operand, known, text, errors);
            lemma_stray_errors_of_sum(
                seq![operator.token],
                tokens_outside_calls(*operand),
                known,
                text,
            );
            assert(macro_check::checked_references(c, known, text, errors) =~= errors
                + stray_errors(tokens_outside_calls(c), known, text));
        },
        ConstructView::Table { body } => {
            lemma_table(body, known, text, errors);
        },
        ConstructView::AnnotatedTable { annotation, body } => {
            let inner = match body {
                Some(body) => table_tokens(body),
                None => Seq::empty(),
            };
            lemma_stray_token(annotation.token, known, text);
            lemma_stray_errors_of_sum(seq![annotation.token], inner, known, text);
            if let Some(body) = body {
                lemma_table(body, known, text, errors);
            }
            assert(macro_check::checked_references(c, known, text, errors) =~= errors
                + stray_errors(tokens_outside_calls(c), known, text));
        },
        ConstructView::Enum { keyword, name, variant } => {
            lemma_stray_token(keyword.token, known, text);
            lemma_optional_is_quiet(name, known, text);
            lemma_optional_is_quiet(variant, known, text);
            let names = order::optional_token(name) + order::optional_token(variant);
            lemma_stray_errors_of_sum(
                order::optional_token(name),
                order::optional_token(variant),
                known,
                text,
            );
            lemma_stray_errors_of_sum(seq![keyword.token], names, known, text);
            assert(macro_check::checked_references(c, known, text, errors) =~= errors
                + stray_errors(tokens_outside_calls(c), known, text));
        },
        _ => {
            assert(macro_check::checked_references(c, known, text, errors) =~= errors
                + stray_errors(tokens_outside_calls(c), known, text));
        },
    }
}

proof fn lemma_no_error_means_known(
    tokens: Seq<SpannedToken>,
    known: Option<Seq<&str>>,
    text: Seq<char>,
)
    ensures
        stray_errors(tokens, known, text).len() == 0 <==> forall|i: int|
            0 <= i < tokens.len() ==> !is_stray(#[trigger] tokens[i], known),
    decreases tokens.len(),
{
    if tokens.len() > 0 {
        let front = tokens.drop_last();
        lemma_no_error_means_known(front, known, text);
        assert(tokens[tokens.len() - 1] == tokens.last());
        assert(forall|i: int| 0 <= i < front.len() ==> #[trigger] front[i] == tokens[i]);
        if stray_errors(tokens, known, text).len() == 0 {
            assert forall|i: int| 0 <= i < tokens.len() implies !is_stray(
                #[trigger] tokens[i],
                known,
            ) by {
                if i < front.len() {
                    assert(front[i] == tokens[i]);
                }
            }
        }
        if forall|i: int| 0 <= i < tokens.len() ==> !is_stray(#[trigger] tokens[i], known) {
            assert forall|i: int| 0 <= i < front.len() implies !is_stray(
                #[trigger] front[i],
                known,
            ) by {
                assert(!is_stray(tokens[i], known));
            }
        }
    }
}

/// A value without macro calls is accepted exactly where each reference in it, wherever it
/// stands, is to a known argument.
pub proof fn lemma_accepted_references_are_known(
    c: ConstructView,
    known: Option<Seq<&str>>,
    text: Seq<char>,
    errors: Seq<DiagnosticView>,
)
    requires
        is_datatype(c),
        !has_call(c),
    ensures
        macro_check::checked_references(c, known, text, errors) == errors <==> forall|i: int|
            0 <= i < order::tokens_of(c).len() ==> !is_stray(
                #[trigger] order::tokens_of(c)[i],
                known,
            ),
{
    lemma_stray_references_are_reported(c, known, text, errors);
    lemma_tokens_without_calls(c);
    lemma_no_error_means_known(order::tokens_of(c), known, text);
    let added = stray_errors(order::tokens_of(c), known, text);
    if added.len() == 0 {
        assert(errors + added =~= errors);
    } else {
        assert((errors + added).len() > errors.len());
    }
}

/// The tokens of the values that are given in a construct, at any depth of rules.
pub open spec fn value_tokens<'a>(c: ConstructView<'a>) -> Seq<SpannedToken<'a>>
    decreases c,
{
    match c {
        ConstructView::Assignment { right, .. } => boxed_value_tokens(right),
        ConstructView::Priority { body, .. } => boxed_value_tokens(body),
        ConstructView::Name { body, .. } => boxed_value_tokens(body),
        ConstructView::Tween { body, .. } => boxed_value_tokens(body),
        ConstructView::Rule { body: Some(body), .. } => match body.content {
            Some(content) => all_value_tokens(content),
            None => Seq::empty(),
        },
        _ => Seq::empty(),
    }
}

pub open spec fn boxed_value_tokens<'a>(value: Option<Box<ConstructView<'a>>>) -> Seq<
    SpannedToken<'a>,
> {
    match value {
        Some(value) => tokens_outside_calls(*value),
        None => Seq::empty(),
    }
}

pub open spec fn all_value_tokens<'a>(content: Seq<ConstructView<'a>>) -> Seq<SpannedToken<'a>>
    decreases content,
{
    if content.len() == 0 {
        Seq::empty()
    } else {
        all_value_tokens(content.drop_last()) + value_tokens(content[content.len() - 1])
    }
}

/// Whether the values that are given in a construct can stand as such.
pub open spec fn has_values(c: ConstructView) -> bool
    decreases c,
{
    match c {
        ConstructView::Assignment { right: Some(right), .. } => is_datatype(*right),
        ConstructView::Priority { body: Some(body), .. } => is_datatype(*body),
        ConstructView::Name { body: Some(body), .. } => is_datatype(*body),
        ConstructView::Tween { body: Some(body), .. } => is_datatype(*body),
        ConstructView::Rule { body: Some(body), .. } => match body.content {
            Some(content) => have_values(content),
            None => true,
        },
        _ => true,
    }
}

pub open spec fn have_values(content: Seq<ConstructView>) -> bool
    decreases content,
{
    forall|i: int| 0 <= i < content.len() ==> has_values(#[trigger] content[i])
}

proof fn lemma_value(
    value: Option<Box<ConstructView>>,
    known: Option<Seq<&str>>,
    text: Seq<char>,
    errors: Seq<DiagnosticView>,
)
    requires
        value is Some ==> is_datatype(*value->0),
    ensures
        macro_check::checked_value(value, known, text, errors) == errors + stray_errors(
            boxed_value_tokens(value),
            known,
            text,
        ),
{
    match value {
        Some(value) => {
            lemma_stray_references_are_reported(*value, known, text, errors);
        },
        None => {
            assert(errors + stray_errors(boxed_value_tokens(value), known, text) =~= errors);
        },
    }
}

proof fn lemma_body_construct(
    c: ConstructView,
    known: Seq<&str>,
    text: Seq<char>,
    errors: Seq<DiagnosticView>,
)
    requires
        has_values(c),
    ensures
        macro_check::checked_body_construct(c, known, text, errors) == errors + stray_errors(
            value_tokens(c),
            Some(known),
            text,
        ),
    decreases c, 1nat,
{
    assert(errors + Seq::<DiagnosticView>::empty() =~= errors);
    match c {
        ConstructView::Assignment { right, .. } => {
            lemma_value(right, Some(known), text, errors);
        },
        ConstructView::Priority { body, .. } => {
            lemma_value(body, Some(known), text, errors);
        },
        ConstructView::Name { body, .. } => {
            lemma_value(body, Some(known), text, errors);
        },
        ConstructView::Tween { body, .. } => {
            lemma_value(body, Some(known), text, errors);
        },
        ConstructView::Rule { body, .. } => {
            if let Some(inner) = body {
                if let Some(content) = inner.content {
                    assert(decreases_to!(c => body));
                    assert(decreases_to!(body => inner));
                    assert(decreases_to!(inner => inner.content));
                    assert(decreases_to!(inner.content => content));
                    lemma_body(content, known, text, errors);
                }
            }
        },
        _ => {},
    }
}

proof fn lemma_body(
    content: Seq<ConstructView>,
    known: Seq<&str>,
    text: Seq<char>,
    errors: Seq<DiagnosticView>,
)
    requires
        have_values(content),
    ensures
        macro_check::checked_body(content, known, text, errors) == errors + stray_errors(
            all_value_tokens(content),
            Some(known),
            text,
        ),
    decreases content, 0nat,
{
    if content.len() == 0 {
        assert(errors + stray_errors(all_value_tokens(content), Some(known), text) =~= errors);
    } else {
        let front = content.drop_last();
        let last = content[content.len() - 1];
        assert(forall|i: int| 0 <= i < front.len() ==> #[trigger] front[i] == content[i]);
        lemma_body(front, known, text, errors);
        assert(decreases_to!(content => content[content.len() - 1]));
        let before = macro_check::checked_body(front, known, text, errors);
        lemma_body_construct(last, known, text, before);
        lemma_stray_errors_of_sum(all_value_tokens(front), value_tokens(last), Some(known), text);
        assert(macro_check::checked_body(content, known, text, errors) =~= errors + stray_errors(
            all_value_tokens(content),
            Some(known),
            text,
        ));
    }
}

/// Whether a macro declares an argument of the given name.
pub open spec fn is_declared(args: Option<DelimitedView>, name: Seq<char>) -> bool {
    args matches Some(args) && args.content matches Some(content) && exists|i: int|
        0 <= i < content.len() && is_argument_named(#[trigger] content[i], name)
}

pub open spec fn is_argument_named(c: ConstructView, name: Seq<char>) -> bool {
    c matches ConstructView::Node { node } && node.token.1 matches Token::MacroArgIdentifier(
        Some(written),
    ) && written@ == name
}

proof fn lemma_arg_names(content: Seq<ConstructView>, name: Seq<char>)
    ensures
        (exists|i: int|
            0 <= i < macro_check::arg_names(content).len() && (
            #[trigger] macro_check::arg_names(content)[i])@ == name) <==> exists|i: int|
            0 <= i < content.len() && is_argument_named(#[trigger] content[i], name),
    decreases content.len(),
{
    if content.len() > 0 {
        let front = content.drop_last();
        let before = macro_check::arg_names(front);
        let names = macro_check::arg_names(content);
        lemma_arg_names(front, name);
        assert(forall|i: int| 0 <= i < front.len() ==> #[trigger] front[i] == content[i]);
        assert(content[content.len() - 1] == content.last());
        assert(forall|i: int| 0 <= i < before.len() ==> #[trigger] names[i] == before[i]);
        if exists|i: int| 0 <= i < names.len() && (#[trigger] names[i])@ == name {
            let i = choose|i: int| 0 <= i < names.len() && (#[trigger] names[i])@ == name;
            if i < before.len() {
                assert(before[i]@ == name);
                let k = choose|k: int|
                    0 <= k < front.len() && is_argument_named(#[trigger] front[k], name);
                assert(is_argument_named(content[k], name));
            } else {
                assert(is_argument_named(content[content.len() - 1], name));
            }
        }
        if exists|i: int| 0 <= i < content.len() && is_argument_named(#[trigger] content[i], name) {
            let i = choose|i: int|
                0 <= i < content.len() && is_argument_named(#[trigger] content[i], name);
            if i < front.len() {
                assert(is_argument_named(front[i], name));
                let k = choose|k: int| 0 <= k < before.len() && (#[trigger] before[k])@ == name;
                assert(names[k]@ == name);
            } else {
                assert(names[before.len() as int]@ == name);
            }
        }
    }
}

/// The names that a macro's body may refer to are those of the arguments that it declares.
pub proof fn lemma_known_names_are_declared(args: Option<DelimitedView>, name: Seq<char>)
    ensures
        strings::holds(macro_check::macro_arg_names(args), name) <==> is_declared(args, name),
{
    if let Some(args) = args {
        if let Some(content) = args.content {
            lemma_arg_names(content, name);
        }
    }
}

/// The values in the body of a macro: those of the constructs at any depth, or the one that it
/// stands for.
pub open spec fn macro_tokens<'a>(body: MacroBodyView<'a>) -> Seq<SpannedToken<'a>> {
    match body {
        MacroBodyView::Construct(Some(content)) => all_value_tokens(content),
        MacroBodyView::Assignment(Some(value)) => tokens_outside_calls(value),
        _ => Seq::empty(),
    }
}

pub open spec fn macro_has_values(body: MacroBodyView) -> bool {
    match body {
        MacroBodyView::Construct(Some(content)) => have_values(content),
        MacroBodyView::Assignment(Some(value)) => is_datatype(value),
        _ => true,
    }
}

/// The check of a macro adds exactly one error for each token among the values of its body
/// that refers to none of the declared arguments, in the order of the tokens.
pub proof fn lemma_macro_body_refers_to_its_arguments(
    args: Option<DelimitedView>,
    body: MacroBodyView,
    text: Seq<char>,
    errors: Seq<DiagnosticView>,
)
    requires
        macro_has_values(body),
    ensures
        exists|known: Seq<&str>|
            #![trigger stray_errors(macro_tokens(body), Some(known), text)]
            (forall|name: Seq<char>|
                strings::holds(known, name) <==> #[trigger] is_declared(args, name))
                && macro_check::checked_macro(args, Some(body), text, errors) == errors
                + stray_errors(macro_tokens(body), Some(known), text),
{
    let known = macro_check::macro_arg_names(args);
    assert forall|name: Seq<char>|
        strings::holds(known, name) <==> #[trigger] is_declared(args, name) by {
        lemma_known_names_are_declared(args, name);
    }
    assert(errors + Seq::<DiagnosticView>::empty() =~= errors);
    match body {
        MacroBodyView::Construct(Some(content)) => {
            lemma_body(content, known, text, errors);
        },
        MacroBodyView::Assignment(Some(value)) => {
            lemma_stray_references_are_reported(value, Some(known), text, errors);
        },
        _ => {},
    }
    assert(macro_check::checked_macro(args, Some(body), text, errors) == errors + stray_errors(
        macro_tokens(body),
        Some(known),
        text,
    ));
}

} // verus!
