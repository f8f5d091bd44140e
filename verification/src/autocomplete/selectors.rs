//! What can be completed in the body of a rule.

use super::lookup;
use super::lookup::enum_name_in;
use super::tokens;
use super::tokens::walk_construct;
use super::tween;
use super::tween::build_tween_definitions;
use crate::parser::construct;
use crate::parser::construct::{Construct, ConstructView, Delimited, DelimitedView, Node, NodeView};
use crate::parser::token::Token;
use crate::reflection::{Reflection, ReflectionView};
use crate::typechecker::definitions;
use crate::typechecker::definitions::{clone_names, DefinitionKind, DefinitionView, Definitions};
use crate::typechecker::rules;
use vstd::prelude::*;

verus! {

/// The end of a construct. A rule without a body, which stray punctuation is parsed as,
/// ends with its last selector.
pub open spec fn last_end(c: ConstructView) -> usize {
    match c {
        ConstructView::Rule { selectors: Some(selectors), body: None } => if selectors.len() > 0 {
            selectors.last().token.2
        } else {
            c.span().1
        },
        _ => c.span().1,
    }
}

/// The construct behind the one at `i`.
pub open spec fn next_of<'a>(content: Seq<ConstructView<'a>>, i: int) -> Option<ConstructView<'a>> {
    if i + 1 < content.len() {
        Some(content[i + 1])
    } else {
        None
    }
}

/// The end of the stretch in which the value of an assignment is completed. A missing value
/// takes in what follows, and so do all values a rule without a body that follows.
pub open spec fn value_end(
    middle: NodeView,
    right: Option<Box<ConstructView>>,
    terminator: Option<NodeView>,
    next: Option<ConstructView>,
    close_start: Option<usize>,
) -> usize {
    let end = match terminator {
        Some(terminator) => terminator.token.2,
        None => match right {
            Some(right) => right.span().1,
            None => match next {
                Some(next) => last_end(next),
                None => match close_start {
                    Some(start) => if start > 0 {
                        (start - 1) as usize
                    } else {
                        0
                    },
                    None => middle.token.2,
                },
            },
        },
    };
    match next {
        Some(ConstructView::Rule { body: None, .. }) => {
            let phantom_end = last_end(next->0);
            if end < phantom_end {
                phantom_end
            } else {
                end
            }
        },
        _ => end,
    }
}

/// The definitions with those of a value that is an item of an enum. The enum of the
/// property comes before the one that is written.
pub open spec fn with_enum_value(
    keyword: NodeView,
    name: Option<NodeView>,
    variant: Option<NodeView>,
    end: usize,
    property_enum: Option<Seq<char>>,
    before: Map<usize, DefinitionView>,
) -> Map<usize, DefinitionView> {
    let s = definitions::defined(
        before,
        keyword.token.2,
        construct::end_or(name, end),
        match property_enum {
            Some(enum_name) => DefinitionView::FilteredEnumName { enum_name },
            None => DefinitionView::EnumName,
        },
    );
    match name {
        Some(name) => match rules::enum_part_name(name.token.1) {
            Some(typed) => definitions::defined(
                s,
                name.token.2,
                construct::end_or(variant, end),
                DefinitionView::EnumVariant {
                    enum_name: match property_enum {
                        Some(enum_name) => enum_name,
                        None => typed@,
                    },
                },
            ),
            None => s,
        },
        None => s,
    }
}

/// The definitions with those of an assignment to a property.
pub open spec fn with_assignment(
    left: NodeView,
    middle: Option<NodeView>,
    right: Option<Box<ConstructView>>,
    terminator: Option<NodeView>,
    next: Option<ConstructView>,
    close_start: Option<usize>,
    classes: Seq<Seq<char>>,
    db: ReflectionView,
    before: Map<usize, DefinitionView>,
) -> Map<usize, DefinitionView> {
    match (left.token.1, middle) {
        (Token::Identifier(property_name), Some(middle)) => {
            let end = value_end(middle, right, terminator, next, close_start);
            let s = definitions::defined(
                before,
                middle.token.0,
                end,
                DefinitionView::Assignment {
                    property_name: property_name@,
                    type_definition: classes,
                },
            );
            match right {
                Some(right) => {
                    let s = tokens::walked(*right, s);
                    match *right {
                        ConstructView::Enum { keyword, name, variant } => with_enum_value(
                            keyword,
                            name,
                            variant,
                            end,
                            lookup::enum_of_property(db, classes, property_name@),
                            s,
                        ),
                        _ => s,
                    }
                },
                None => s,
            }
        },
        _ => before,
    }
}

/// The end of a macro's head.
pub open spec fn macro_head_end(
    declaration: NodeView,
    name: Option<NodeView>,
    args: Option<DelimitedView>,
    return_type: Option<(NodeView, Option<NodeView>)>,
) -> usize {
    match return_type {
        Some((arrow, context)) => construct::end_or(context, arrow.token.2),
        None => match args {
            Some(args) => construct::end_or(args.right, args.left.token.2),
            None => construct::end_or(name, declaration.token.2),
        },
    }
}

/// The classes that the bytes from `start` on are in the scope of.
pub open spec fn scope_classes(document: Map<usize, DefinitionView>, start: usize) -> Seq<
    Seq<char>,
> {
    if document.dom().contains(start) {
        match document[start] {
            DefinitionView::Scope { type_definition } => type_definition,
            _ => Seq::empty(),
        }
    } else {
        Seq::empty()
    }
}

/// The definitions with those of the body of a rule.
pub open spec fn with_rule_body(
    body: Option<DelimitedView>,
    db: ReflectionView,
    before: Map<usize, DefinitionView>,
) -> Map<usize, DefinitionView>
    decreases body, 0int,
{
    match body {
        Some(body) => match body.content {
            Some(content) => with_content(
                content,
                content.len() as int,
                scope_classes(before, body.left.token.0),
                match body.right {
                    Some(right) => Some(right.token.0),
                    None => None,
                },
                db,
                before,
            ),
            None => before,
        },
        None => before,
    }
}

/// The definitions with those of the first `n` constructs of a rule's body.
pub open spec fn with_content(
    content: Seq<ConstructView>,
    n: int,
    classes: Seq<Seq<char>>,
    close_start: Option<usize>,
    db: ReflectionView,
    before: Map<usize, DefinitionView>,
) -> Map<usize, DefinitionView>
    decreases content, n,
{
    if 0 < n <= content.len() {
        with_construct(
            content,
            n - 1,
            classes,
            close_start,
            db,
            with_content(content, n - 1, classes, close_start, db, before),
        )
    } else {
        before
    }
}

/// The definitions with those of one construct of a rule's body.
pub open spec fn with_construct(
    content: Seq<ConstructView>,
    i: int,
    classes: Seq<Seq<char>>,
    close_start: Option<usize>,
    db: ReflectionView,
    before: Map<usize, DefinitionView>,
) -> Map<usize, DefinitionView>
    decreases content, i,
{
    if 0 <= i < content.len() {
        let c = content[i];
        let span = c.span();
        match c {
            ConstructView::Rule { body, .. } => {
                proof {
                    assert(decreases_to!(content => content[i]));
                    assert(decreases_to!(content[i] => body));
                }
                with_rule_body(body, db, before)
            },
            ConstructView::Assignment { left, middle, right, terminator } => with_assignment(
                left,
                middle,
                right,
                terminator,
                next_of(content, i),
                close_start,
                classes,
                db,
                before,
            ),
            ConstructView::Tween { body: Some(body), .. } => tween::with_tween(
                *body,
                definitions::defined(before, span.0, span.1, DefinitionView::Declaration),
            ),
            ConstructView::Derive { .. } => definitions::defined(
                before,
                span.0,
                span.1,
                DefinitionView::Declaration,
            ),
            ConstructView::Priority { .. } => definitions::defined(
                before,
                span.0,
                span.1,
                DefinitionView::Declaration,
            ),
            ConstructView::MacroCall { .. } => definitions::defined(
                before,
                span.0,
                span.1,
                DefinitionView::Declaration,
            ),
            ConstructView::Macro { declaration, name, args, return_type, .. } => definitions::defined(
                before,
                declaration.token.0,
                macro_head_end(declaration, name, args, return_type),
                DefinitionView::Declaration,
            ),
            _ => before,
        }
    } else {
        before
    }
}

fn construct_end(c: &Construct) -> (r: usize)
    ensures
        r == last_end(c.deep_view()),
{
    proof {
        reveal_with_fuel(construct::construct_view, 3);
    }
    if let Construct::Rule { selectors: Some(selectors), body: None } = c {
        if selectors.len() > 0 {
            return selectors[selectors.len() - 1].token.end();
        }
    }
    c.end()
}

fn build_enum_value_definitions(
    keyword: &Node,
    name: &Option<Node>,
    variant: &Option<Node>,
    assign_end: usize,
    property_enum: Option<String>,
    document: &mut Definitions,
)
    ensures
        final(document)@ == with_enum_value(
            keyword.deep_view(),
            name.deep_view(),
            variant.deep_view(),
            assign_end,
            property_enum.deep_view(),
            old(document)@,
        ),
{
    let name_range_end: usize = match name {
        Some(name) => name.token.end(),
        None => assign_end,
    };
    let name_range_kind = match &property_enum {
        Some(enum_name) => DefinitionKind::FilteredEnumName { enum_name: enum_name.clone() },
        None => DefinitionKind::EnumName,
    };
    document.insert(keyword.token.end(), name_range_end, name_range_kind);
    let name_node = match name {
        Some(name_node) => name_node,
        None => return,
    };
    let typed_name = match name_node.token.value() {
        Token::TagSelectorOrEnumPart(Some(name)) => name,
        Token::StateSelectorOrEnumPart(Some(name)) => name,
        _ => return,
    };
    let enum_name = match property_enum {
        Some(enum_name) => enum_name,
        None => typed_name.to_owned(),
    };
    let variant_range_end: usize = match variant {
        Some(variant) => variant.token.end(),
        None => assign_end,
    };
    document.insert(
        name_node.token.end(),
        variant_range_end,
        DefinitionKind::EnumVariant { enum_name },
    );
}

fn find_value_end(
    middle: &Node,
    right: &Option<Box<Construct>>,
    terminator: &Option<Node>,
    next: Option<&Construct>,
    close_start: Option<usize>,
) -> (r: usize)
    ensures
        r == value_end(
            middle.deep_view(),
            construct::boxed_view(*right),
            terminator.deep_view(),
            next.deep_view(),
            close_start,
        ),
{
    proof {
        reveal_with_fuel(construct::boxed_view, 3);
        reveal_with_fuel(construct::construct_view, 3);
    }
    let end: usize = match terminator {
        Some(terminator) => terminator.token.end(),
        None => match right {
            Some(right) => right.end(),
            None => match next {
                Some(next) => construct_end(next),
                None => match close_start {
                    Some(start) => if start > 0 {
                        start - 1
                    } else {
                        0
                    },
                    None => middle.token.end(),
                },
            },
        },
    };
    if let Some(next) = next {
        if let Construct::Rule { body: None, .. } = next {
            let phantom_end: usize = construct_end(next);
            if end < phantom_end {
                return phantom_end;
            }
        }
    }
    end
}

fn build_assignment_definitions(
    left: &Node,
    middle: &Option<Node>,
    right: &Option<Box<Construct>>,
    terminator: &Option<Node>,
    next: Option<&Construct>,
    close_start: Option<usize>,
    classes: &Vec<String>,
    db: &Reflection,
    document: &mut Definitions,
)
    ensures
        final(document)@ == with_assignment(
            left.deep_view(),
            middle.deep_view(),
            construct::boxed_view(*right),
            terminator.deep_view(),
            next.deep_view(),
            close_start,
            definitions::names_view(classes@),
            db.deep_view(),
            old(document)@,
        ),
{
    let property_name = match left.token.value() {
        Token::Identifier(property_name) => property_name,
        _ => return,
    };
    let middle = match middle {
        Some(middle) => middle,
        None => return,
    };
    let assign_end: usize = find_value_end(middle, right, terminator, next, close_start);
    document.insert(
        middle.token.start(),
        assign_end,
        DefinitionKind::Assignment {
            property_name: property_name.to_owned(),
            type_definition: clone_names(classes),
        },
    );
    proof {
        reveal_with_fuel(construct::boxed_view, 3);
        reveal_with_fuel(construct::construct_view, 3);
    }
    let right = match right {
        Some(right) => right,
        None => return,
    };
    walk_construct(right, document);
    if let Construct::Enum { keyword, name, variant } = &**right {
        let property_enum = enum_name_in(db, classes, property_name);
        build_enum_value_definitions(keyword, name, variant, assign_end, property_enum, document);
    }
}

fn find_macro_head_end(
    declaration: &Node,
    name: &Option<Node>,
    args: &Option<Delimited>,
    return_type: &Option<(Node, Option<Node>)>,
) -> (r: usize)
    ensures
        r == macro_head_end(
            declaration.deep_view(),
            name.deep_view(),
            args.deep_view(),
            return_type.deep_view(),
        ),
{
    match return_type {
        Some((arrow, context)) => match context {
            Some(context) => context.token.end(),
            None => arrow.token.end(),
        },
        None => match args {
            Some(args) => match &args.right {
                Some(right) => right.token.end(),
                None => args.left.token.end(),
            },
            None => match name {
                Some(name) => name.token.end(),
                None => declaration.token.end(),
            },
        },
    }
}

fn find_scope_classes(document: &Definitions, start: usize) -> (r: Vec<String>)
    ensures
        definitions::names_view(r@) == scope_classes(document@, start),
{
    let classes = match document.get(start) {
        Some(DefinitionKind::Scope { type_definition }) => clone_names(type_definition),
        _ => Vec::new(),
    };
    assert(definitions::names_view(classes@) =~= scope_classes(document@, start));
    classes
}

/// Defines what can be completed in the body of a rule and in the rules nested in it.
pub fn build_rule_body_definitions(
    body: &Option<Delimited>,
    db: &Reflection,
    document: &mut Definitions,
)
    ensures
        final(document)@ == with_rule_body(body.deep_view(), db.deep_view(), old(document)@),
    decreases body,
{
    let delimited = match body {
        Some(delimited) => delimited,
        None => return,
    };
    let content = match &delimited.content {
        Some(content) => content,
        None => return,
    };
    let current_classes = find_scope_classes(document, delimited.left.token.start());
    let close_start: Option<usize> = match &delimited.right {
        Some(right) => Some(right.token.start()),
        None => None,
    };
    let ghost views = construct::constructs_view(content@);
    let ghost classes = definitions::names_view(current_classes@);
    let ghost before = document@;
    let mut i: usize = 0;
    while i < content.len()
        invariant
            i <= content@.len(),
            *body == Some(*delimited),
            delimited.content == Some(*content),
            views == construct::constructs_view(content@),
            classes == definitions::names_view(current_classes@),
            document@ == with_content(
                views,
                i as int,
                classes,
                close_start,
                db.deep_view(),
                before,
            ),
        decreases content@.len() - i,
    {
        let ghost so_far = document@;
        let ghost view = views[i as int];
        assert(view == construct::construct_view(content@[i as int]));
        proof {
            reveal_with_fuel(construct::construct_view, 3);
        }
        let item = &content[i];
        match item {
            Construct::Rule { body: inner, .. } => {
                proof {
                    assert(construct::optional_delimited_view(*inner) == inner.deep_view());
                    construct::lemma_content_is_smaller(*body, i as int);
                    assert(decreases_to!(content@[i as int] => *inner));
                }
                build_rule_body_definitions(inner, db, document);
            },
            Construct::Assignment { left, middle, right, terminator } => {
                let next: Option<&Construct> = if content.len() - i > 1 {
                    Some(&content[i + 1])
                } else {
                    None
                };
                assert(next.deep_view() == next_of(views, i as int));
                build_assignment_definitions(
                    left,
                    middle,
                    right,
                    terminator,
                    next,
                    close_start,
                    &current_classes,
                    db,
                    document,
                );
            },
            Construct::Tween { body: Some(inner), .. } => {
                let span = item.span();
                document.insert(span.0, span.1, DefinitionKind::Declaration);
                build_tween_definitions(inner, document);
            },
            Construct::Derive { .. } | Construct::Priority { .. } | Construct::MacroCall { .. } => {
                let span = item.span();
                document.insert(span.0, span.1, DefinitionKind::Declaration);
            },
            Construct::Macro { declaration, name, args, return_type, .. } => {
                proof {
                    assert(construct::optional_delimited_view(*args) == args.deep_view());
                }
                let head_end: usize = find_macro_head_end(declaration, name, args, return_type);
                document.insert(declaration.token.start(), head_end, DefinitionKind::Declaration);
            },
            _ => (),
        }
        assert(document@ == with_construct(
            views,
            i as int,
            classes,
            close_start,
            db.deep_view(),
            so_far,
        ));
        i += 1;
    }
}

} // verus!
