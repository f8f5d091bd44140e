//! The check of the arguments that a macro's body refers to.

use super::type_error;
use super::type_error::{PushTypeError, TypeError};
use crate::diagnostic::{AstErrors, DiagnosticView};
use crate::parser::construct;
use crate::parser::construct::{Construct, ConstructView, Delimited, DelimitedView, Node, NodeView};
use crate::parser::declaration::context_of;
use crate::parser::grammar::{scope, MacroContext};
use crate::parser::token::{SpannedToken, Token};
use crate::strings;
use crate::strings::{is_one_of, join3};
use crate::text;
use crate::text::Range;
use ropey::Rope;
use vstd::prelude::*;

verus! {

/// What a macro expands to.
#[derive(Debug, Clone, Copy)]
pub enum MacroBodyContent<'a, 'b> {
    Construct(Option<&'b Vec<Construct<'a>>>),
    Assignment(Option<&'b Construct<'a>>),
    Selector(Option<&'b Vec<Construct<'a>>>),
}

/// The body of a macro.
#[derive(Debug, Clone, Copy)]
pub struct MacroBody<'a, 'b> {
    pub content: MacroBodyContent<'a, 'b>,
}

/// What a [`MacroBody`] holds.
pub enum MacroBodyView<'a> {
    Construct(Option<Seq<ConstructView<'a>>>),
    Assignment(Option<ConstructView<'a>>),
    Selector(Option<Seq<ConstructView<'a>>>),
}

impl<'a, 'b> DeepView for MacroBody<'a, 'b> {
    type V = MacroBodyView<'a>;

    open spec fn deep_view(&self) -> MacroBodyView<'a> {
        match self.content {
            MacroBodyContent::Construct(content) => MacroBodyView::Construct(
                match content {
                    Some(content) => Some(construct::constructs_view(content@)),
                    None => None,
                },
            ),
            MacroBodyContent::Assignment(value) => MacroBodyView::Assignment(
                match value {
                    Some(value) => Some(construct::construct_view(*value)),
                    None => None,
                },
            ),
            MacroBodyContent::Selector(parts) => MacroBodyView::Selector(
                match parts {
                    Some(parts) => Some(construct::constructs_view(parts@)),
                    None => None,
                },
            ),
        }
    }
}

/// The body of a macro, as its context has it.
pub open spec fn body_in_context<'a>(
    context: MacroContext,
    content: Option<Seq<ConstructView<'a>>>,
) -> MacroBodyView<'a> {
    match context {
        MacroContext::Construct => MacroBodyView::Construct(content),
        MacroContext::Selector => MacroBodyView::Selector(content),
        MacroContext::Assignment => MacroBodyView::Assignment(
            match content {
                Some(content) => if content.len() > 0 {
                    Some(content[0])
                } else {
                    None
                },
                None => None,
            },
        ),
    }
}

/// The body of a macro that was declared with the given context.
pub open spec fn body_of<'a>(
    return_type: Option<(NodeView<'a>, Option<NodeView<'a>>)>,
    body: Option<DelimitedView<'a>>,
) -> Option<MacroBodyView<'a>> {
    match body {
        Some(body) => Some(body_in_context(scope::context_of(return_type), body.content)),
        None => None,
    }
}

impl<'a, 'b> MacroBody<'a, 'b> {
    /// Reads the body of a macro as its context has it.
    pub fn of(
        return_type: &Option<(Node<'a>, Option<Node<'a>>)>,
        body: &'b Option<Delimited<'a>>,
    ) -> (r: Option<Self>)
        ensures
            r.deep_view() == body_of(return_type.deep_view(), body.deep_view()),
    {
        let body = match body {
            Some(body) => body,
            None => return None,
        };
        proof {
            reveal_with_fuel(construct::delimited_view, 2);
        }
        let content = match context_of(return_type) {
            MacroContext::Construct => MacroBodyContent::Construct(body.content.as_ref()),
            MacroContext::Selector => MacroBodyContent::Selector(body.content.as_ref()),
            MacroContext::Assignment => MacroBodyContent::Assignment(
                match &body.content {
                    Some(content) => if content.len() > 0 {
                        Some(&content[0])
                    } else {
                        None
                    },
                    None => None,
                },
            ),
        };
        Some(MacroBody { content })
    }
}

/// The names of a macro's arguments.
pub open spec fn arg_names(content: Seq<ConstructView>) -> Seq<&str>
    decreases content.len(),
{
    if content.len() == 0 {
        Seq::empty()
    } else {
        let before = arg_names(content.drop_last());
        match content.last() {
            ConstructView::Node { node } => match node.token.1 {
                Token::MacroArgIdentifier(Some(name)) => before.push(name),
                _ => before,
            },
            _ => before,
        }
    }
}

pub open spec fn macro_arg_names(args: Option<DelimitedView>) -> Seq<&str> {
    match args {
        Some(args) => match args.content {
            Some(content) => arg_names(content),
            None => Seq::empty(),
        },
        None => Seq::empty(),
    }
}

/// The message about a reference to an argument that does not exist.
pub open spec fn unknown_argument(name: Option<&str>) -> Seq<char> {
    match name {
        Some(name) => "No macro argument named \""@ + name@ + "\" exists."@,
        None => "Missing macro argument name."@,
    }
}

/// The errors after a token was checked. Outside of a macro there are no arguments to refer
/// to.
pub open spec fn checked_reference(
    token: SpannedToken,
    macro_args: Option<Seq<&str>>,
    text: Seq<char>,
    errors: Seq<DiagnosticView>,
) -> Seq<DiagnosticView> {
    match token.1 {
        Token::MacroArgIdentifier(name) => if macro_args is Some && name is Some
            && strings::holds(macro_args->0, name->0@) {
            errors
        } else {
            errors.push(
                type_error::type_diagnostic(
                    "TYPE_ERROR(INVALID_MACRO_ARG)"@,
                    "Type Error (Invalid Macro Argument): "@ + unknown_argument(name),
                    text::range_of(text, (token.0 as int, token.2 as int)),
                ),
            )
        },
        _ => errors,
    }
}

/// The errors after a datatype was checked.
pub open spec fn checked_references(
    construct: ConstructView,
    macro_args: Option<Seq<&str>>,
    text: Seq<char>,
    errors: Seq<DiagnosticView>,
) -> Seq<DiagnosticView>
    decreases construct,
{
    match construct {
        ConstructView::Node { node } => checked_reference(node.token, macro_args, text, errors),
        ConstructView::MathOperation { left, right, .. } => {
            let errors = checked_references(*left, macro_args, text, errors);
            match right {
                Some(right) => checked_references(*right, macro_args, text, errors),
                None => errors,
            }
        },
        ConstructView::UnaryMinus { operand, .. } => checked_references(
            *operand,
            macro_args,
            text,
            errors,
        ),
        ConstructView::Table { body } => match body.content {
            Some(content) => all_checked_references(content, macro_args, text, errors),
            None => errors,
        },
        ConstructView::AnnotatedTable { body, .. } => match body {
            Some(body) => match body.content {
                Some(content) => all_checked_references(content, macro_args, text, errors),
                None => errors,
            },
            None => errors,
        },
        _ => errors,
    }
}

/// The errors after the value of an assignment or a declaration was checked.
pub open spec fn checked_value(
    value: Option<Box<ConstructView>>,
    macro_args: Option<Seq<&str>>,
    text: Seq<char>,
    errors: Seq<DiagnosticView>,
) -> Seq<DiagnosticView> {
    match value {
        Some(value) => checked_references(*value, macro_args, text, errors),
        None => errors,
    }
}

/// The errors after the values of a construct were checked, where nothing else is checked of
/// them.
pub open spec fn checked_values(
    construct: ConstructView,
    macro_args: Option<Seq<&str>>,
    text: Seq<char>,
    errors: Seq<DiagnosticView>,
) -> Seq<DiagnosticView> {
    match construct {
        ConstructView::Assignment { right, .. } => checked_value(right, macro_args, text, errors),
        ConstructView::Priority { body, .. } => checked_value(body, macro_args, text, errors),
        ConstructView::Name { body, .. } => checked_value(body, macro_args, text, errors),
        _ => errors,
    }
}

/// The errors after several datatypes were checked.
pub open spec fn all_checked_references(
    items: Seq<ConstructView>,
    macro_args: Option<Seq<&str>>,
    text: Seq<char>,
    errors: Seq<DiagnosticView>,
) -> Seq<DiagnosticView>
    decreases items,
{
    if items.len() == 0 {
        errors
    } else {
        checked_references(
            items[items.len() - 1],
            macro_args,
            text,
            all_checked_references(items.drop_last(), macro_args, text, errors),
        )
    }
}

/// The errors after the constructs of a macro's body were checked.
pub open spec fn checked_body(
    content: Seq<ConstructView>,
    macro_args: Seq<&str>,
    text: Seq<char>,
    errors: Seq<DiagnosticView>,
) -> Seq<DiagnosticView>
    decreases content,
{
    if content.len() == 0 {
        errors
    } else {
        checked_body_construct(
            content[content.len() - 1],
            macro_args,
            text,
            checked_body(content.drop_last(), macro_args, text, errors),
        )
    }
}

/// The errors after a construct of a macro's body was checked.
pub open spec fn checked_body_construct(
    construct: ConstructView,
    macro_args: Seq<&str>,
    text: Seq<char>,
    errors: Seq<DiagnosticView>,
) -> Seq<DiagnosticView>
    decreases construct,
{
    match construct {
        ConstructView::Tween { body, .. } => checked_value(body, Some(macro_args), text, errors),
        ConstructView::Rule { body, .. } => match body {
            Some(body) => match body.content {
                Some(content) => checked_body(content, macro_args, text, errors),
                None => errors,
            },
            None => errors,
        },
        _ => checked_values(construct, Some(macro_args), text, errors),
    }
}

/// The errors after a macro was checked.
pub open spec fn checked_macro(
    args: Option<DelimitedView>,
    body: Option<MacroBodyView>,
    text: Seq<char>,
    errors: Seq<DiagnosticView>,
) -> Seq<DiagnosticView> {
    match body {
        Some(MacroBodyView::Construct(Some(content))) => checked_body(
            content,
            macro_arg_names(args),
            text,
            errors,
        ),
        Some(MacroBodyView::Assignment(Some(value))) => checked_references(
            value,
            Some(macro_arg_names(args)),
            text,
            errors,
        ),
        _ => errors,
    }
}

/// Collects the names of a macro's arguments.
pub fn collect_macro_arg_names<'a>(args: &Option<Delimited<'a>>) -> (r: Vec<&'a str>)
    ensures
        r@ == macro_arg_names(args.deep_view()),
{
    let mut names: Vec<&'a str> = Vec::new();
    let content = match args {
        Some(Delimited { content: Some(content), .. }) => content,
        _ => return names,
    };
    let ghost views = construct::constructs_view(content@);
    assert(views.take(0) =~= Seq::empty());
    let mut i: usize = 0;
    while i < content.len()
        invariant
            i <= content@.len(),
            views == construct::constructs_view(content@),
            names@ == arg_names(views.take(i as int)),
        decreases content@.len() - i,
    {
        assert(views.take(i + 1).drop_last() =~= views.take(i as int));
        assert(views.take(i + 1).last() == construct::construct_view(content@[i as int]));
        if let Construct::Node { node } = &content[i] {
            if let Token::MacroArgIdentifier(Some(name)) = node.token.value() {
                names.push(name);
            }
        }
        i += 1;
    }
    assert(views.take(i as int) =~= views);
    names
}

fn validate_reference(
    token: &SpannedToken,
    macro_args: Option<&Vec<&str>>,
    rope: &Rope,
    ast_errors: &mut AstErrors,
)
    ensures
        final(ast_errors).0.deep_view() == checked_reference(
            *token,
            match macro_args {
                Some(names) => Some(names@),
                None => None,
            },
            text::rope_text(rope),
            old(ast_errors).0.deep_view(),
        ),
{
    let name = match token.value() {
        Token::MacroArgIdentifier(name) => name,
        _ => return,
    };
    let is_valid = match (macro_args, name) {
        (Some(names), Some(name)) => is_one_of(name, names.as_slice()),
        _ => false,
    };
    if is_valid {
        return;
    }
    let range = Range::from_span(rope, token.span());
    let message = match name {
        Some(name) => join3("No macro argument named \"", name, "\" exists."),
        None => "Missing macro argument name.".to_owned(),
    };
    ast_errors.push_type_error(TypeError::InvalidMacroArg { msg: message.as_str() }, range);
}

/// Checks the references in a datatype.
pub fn validate_macro_arg_refs(
    construct: &Construct,
    macro_args: Option<&Vec<&str>>,
    rope: &Rope,
    ast_errors: &mut AstErrors,
)
    ensures
        final(ast_errors).0.deep_view() == checked_references(
            construct.deep_view(),
            match macro_args {
                Some(names) => Some(names@),
                None => None,
            },
            text::rope_text(rope),
            old(ast_errors).0.deep_view(),
        ),
    decreases construct, 0nat,
{
    proof {
        reveal_with_fuel(construct::construct_view, 3);
    }
    match construct {
        Construct::Node { node } => validate_reference(&node.token, macro_args, rope, ast_errors),
        Construct::MathOperation { left, right, .. } => {
            validate_macro_arg_refs(left, macro_args, rope, ast_errors);
            if let Some(right) = right {
                validate_macro_arg_refs(right, macro_args, rope, ast_errors);
            }
        },
        Construct::UnaryMinus { operand, .. } => {
            validate_macro_arg_refs(operand, macro_args, rope, ast_errors);
        },
        Construct::Table { body } => {
            validate_delimited(body, macro_args, rope, ast_errors);
        },
        Construct::AnnotatedTable { body, .. } => {
            if let Some(body) = body {
                validate_delimited(body, macro_args, rope, ast_errors);
            }
        },
        _ => (),
    }
}

/// Checks the value of an assignment or a declaration.
pub fn validate_value(
    value: &Option<Box<Construct>>,
    macro_args: Option<&Vec<&str>>,
    rope: &Rope,
    ast_errors: &mut AstErrors,
)
    ensures
        final(ast_errors).0.deep_view() == checked_value(
            construct::boxed_view(*value),
            match macro_args {
                Some(names) => Some(names@),
                None => None,
            },
            text::rope_text(rope),
            old(ast_errors).0.deep_view(),
        ),
{
    proof {
        reveal_with_fuel(construct::boxed_view, 2);
    }
    if let Some(value) = value {
        validate_macro_arg_refs(value, macro_args, rope, ast_errors);
    }
}

/// Checks the values of a construct, where nothing else is checked of them.
pub fn validate_values(
    construct: &Construct,
    macro_args: Option<&Vec<&str>>,
    rope: &Rope,
    ast_errors: &mut AstErrors,
)
    ensures
        final(ast_errors).0.deep_view() == checked_values(
            construct.deep_view(),
            match macro_args {
                Some(names) => Some(names@),
                None => None,
            },
            text::rope_text(rope),
            old(ast_errors).0.deep_view(),
        ),
{
    proof {
        reveal_with_fuel(construct::construct_view, 3);
    }
    match construct {
        Construct::Assignment { right, .. } => validate_value(right, macro_args, rope, ast_errors),
        Construct::Priority { body, .. } => validate_value(body, macro_args, rope, ast_errors),
        Construct::Name { body, .. } => validate_value(body, macro_args, rope, ast_errors),
        _ => (),
    }
}

fn validate_delimited(
    body: &Delimited,
    macro_args: Option<&Vec<&str>>,
    rope: &Rope,
    ast_errors: &mut AstErrors,
)
    ensures
        final(ast_errors).0.deep_view() == (match body.deep_view().content {
            Some(content) => all_checked_references(
                content,
                match macro_args {
                    Some(names) => Some(names@),
                    None => None,
                },
                text::rope_text(rope),
                old(ast_errors).0.deep_view(),
            ),
            None => old(ast_errors).0.deep_view(),
        }),
    decreases body, 0nat,
{
    let content = match &body.content {
        Some(content) => content,
        None => return,
    };
    let ghost views = construct::constructs_view(content@);
    let ghost names = match macro_args {
        Some(names) => Some(names@),
        None => None,
    };
    let ghost text = text::rope_text(rope);
    let ghost before = ast_errors.0.deep_view();
    assert(views.take(0) =~= Seq::empty());
    let mut i: usize = 0;
    while i < content.len()
        invariant
            i <= content@.len(),
            body.content == Some(*content),
            views == construct::constructs_view(content@),
            names == (match macro_args {
                Some(names) => Some(names@),
                None => None,
            }),
            text == text::rope_text(rope),
            ast_errors.0.deep_view() == all_checked_references(
                views.take(i as int),
                names,
                text,
                before,
            ),
        decreases content@.len() - i,
    {
        assert(views.take(i + 1).drop_last() =~= views.take(i as int));
        assert(views.take(i + 1)[i as int] == construct::construct_view(content@[i as int]));
        proof {
            construct::lemma_content_is_smaller(Some(*body), i as int);
        }
        validate_macro_arg_refs(&content[i], macro_args, rope, ast_errors);
        i += 1;
    }
    assert(views.take(i as int) =~= views);
}

fn typecheck_macro_body_content(
    content: &Vec<Construct>,
    macro_args: &Vec<&str>,
    rope: &Rope,
    ast_errors: &mut AstErrors,
)
    ensures
        final(ast_errors).0.deep_view() == checked_body(
            construct::constructs_view(content@),
            macro_args@,
            text::rope_text(rope),
            old(ast_errors).0.deep_view(),
        ),
    decreases content,
{
    let ghost views = construct::constructs_view(content@);
    let ghost text = text::rope_text(rope);
    let ghost before = ast_errors.0.deep_view();
    assert(views.take(0) =~= Seq::empty());
    let mut i: usize = 0;
    while i < content.len()
        invariant
            i <= content@.len(),
            views == construct::constructs_view(content@),
            text == text::rope_text(rope),
            ast_errors.0.deep_view() == checked_body(
                views.take(i as int),
                macro_args@,
                text,
                before,
            ),
        decreases content@.len() - i,
    {
        let ghost so_far = ast_errors.0.deep_view();
        assert(views.take(i + 1).drop_last() =~= views.take(i as int));
        assert(views.take(i + 1)[i as int] == construct::construct_view(content@[i as int]));
        proof {
            reveal_with_fuel(construct::construct_view, 4);
            assert(decreases_to!(*content => content@));
            assert(decreases_to!(content@ => content@[i as int]));
        }
        match &content[i] {
            Construct::Rule { body, .. } => {
                if let Some(inner) = body {
                    if let Some(inner_content) = &inner.content {
                        proof {
                            assert(decreases_to!(content@[i as int] => *body));
                            assert(decreases_to!(*body => body->0));
                            assert(decreases_to!(body->0 => body->0.content));
                            assert(decreases_to!(body->0.content => body->0.content->0));
                        }
                        typecheck_macro_body_content(inner_content, macro_args, rope, ast_errors);
                    }
                }
            },
            Construct::Tween { body, .. } => {
                validate_value(body, Some(macro_args), rope, ast_errors);
            },
            construct => validate_values(construct, Some(macro_args), rope, ast_errors),
        }
        assert(ast_errors.0.deep_view() == checked_body_construct(
            views[i as int],
            macro_args@,
            text,
            so_far,
        ));
        i += 1;
    }
    assert(views.take(i as int) =~= views);
}

/// Checks a macro: its body may only refer to its arguments.
pub fn typecheck_macro(
    args: &Option<Delimited>,
    body: &Option<MacroBody>,
    rope: &Rope,
    ast_errors: &mut AstErrors,
)
    ensures
        final(ast_errors).0.deep_view() == checked_macro(
            args.deep_view(),
            body.deep_view(),
            text::rope_text(rope),
            old(ast_errors).0.deep_view(),
        ),
{
    let macro_args = collect_macro_arg_names(args);
    let body = match body {
        Some(body) => body,
        None => return,
    };
    match body.content {
        MacroBodyContent::Construct(Some(content)) => typecheck_macro_body_content(
            content,
            &macro_args,
            rope,
            ast_errors,
        ),
        MacroBodyContent::Assignment(Some(content)) => validate_macro_arg_refs(
            content,
            Some(&macro_args),
            rope,
            ast_errors,
        ),
        _ => (),
    }
}

} // verus!
