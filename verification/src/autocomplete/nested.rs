//! What is defined in the body of a rule, at any depth.

use super::lookup;
use super::selectors;
use super::tokens;
use super::tween;
use crate::parser::construct;
use crate::parser::construct::{ConstructView, DelimitedView, NodeView};
use crate::parser::order;
use crate::parser::token::{SpannedToken, Token};
use crate::reflection::ReflectionView;
use crate::typechecker;
use crate::typechecker::definitions;
use crate::typechecker::definitions::DefinitionView;
use crate::typechecker::frame;
use crate::typechecker::rules;
use vstd::prelude::*;

verus! {

/// A rule that is alone in the body of another defines what its own body defines.
pub proof fn lemma_nesting_changes_nothing<'a>(
    left: NodeView<'a>,
    selectors: Option<Seq<NodeView<'a>>>,
    body: Option<DelimitedView<'a>>,
    right: Option<NodeView<'a>>,
    db: ReflectionView,
    before: Map<usize, DefinitionView>,
)
    ensures
        selectors::with_rule_body(
            Some(
                DelimitedView {
                    left,
                    content: Some(seq![ConstructView::Rule { selectors, body }]),
                    right,
                },
            ),
            db,
            before,
        ) == selectors::with_rule_body(body, db, before),
{
    let content = seq![ConstructView::Rule { selectors, body }];
    let close_start = match right {
        Some(right) => Some(right.token.0),
        None => None,
    };
    let classes = selectors::scope_classes(before, left.token.0);
    assert(selectors::with_content(content, 0, classes, close_start, db, before) == before);
    assert(selectors::with_construct(content, 0, classes, close_start, db, before)
        == selectors::with_rule_body(body, db, before));
    assert(selectors::with_content(content, 1, classes, close_start, db, before)
        == selectors::with_construct(content, 0, classes, close_start, db, before));
}

proof fn lemma_walked<'a>(value: ConstructView<'a>, before: Map<usize, DefinitionView>)
    ensures
        frame::keeps(before, tokens::walked(value, before), order::tokens_of(value)),
    decreases value,
{
    broadcast use {frame::lemma_keeps_wider, frame::lemma_started_one, frame::lemma_ended_one};

    reveal_with_fuel(tokens::walked, 3);
    reveal_with_fuel(order::tokens_of, 4);
    let all = order::tokens_of(value);
    let after = tokens::walked(value, before);
    match value {
        ConstructView::Node { node } => {
            if let Some(kind) = tokens::reference_view(node.token.1) {
                if node.token.0 <= node.token.2 {
                    frame::lemma_defined(before, node.token.0, node.token.2, kind, all);
                } else {
                    assert forall|byte: usize| #[trigger] frame::same_at(before, after, byte) by {}
                }
            }
        },
        ConstructView::MathOperation { left, operators, right } => {
            lemma_walked(*left, before);
            let s = tokens::walked(*left, before);
            assert(frame::keeps(before, s, all));
            if let Some(right) = right {
                lemma_walked(*right, s);
                assert(frame::keeps(
                    s,
                    tokens::walked(*right, s),
                    order::node_tokens(operators) + order::tokens_of(*right),
                ));
                assert(frame::keeps(s, tokens::walked(*right, s), all));
                frame::lemma_keeps_twice(before, s, tokens::walked(*right, s), all);
            }
        },
        ConstructView::UnaryMinus { operand, .. } => {
            lemma_walked(*operand, before);
        },
        ConstructView::Table { body } => {
            lemma_delimited_walked(body, before);
        },
        ConstructView::AnnotatedTable { body: Some(body), .. } => {
            lemma_delimited_walked(body, before);
        },
        ConstructView::MacroCall { name, body: Some(body), terminator } => {
            lemma_delimited_walked(body, before);
            assert(frame::keeps(
                before,
                after,
                order::delimited_tokens(body) + order::optional_token(terminator),
            ));
        },
        _ => {},
    }
}

proof fn lemma_delimited_walked<'a>(body: DelimitedView<'a>, before: Map<usize, DefinitionView>)
    ensures
        frame::keeps(
            before,
            match body.content {
                Some(content) => tokens::all_walked(content, before),
                None => before,
            },
            order::delimited_tokens(body),
        ),
    decreases body,
{
    broadcast use frame::lemma_keeps_wider;

    if let Some(content) = body.content {
        assert(decreases_to!(body => body.content));
        assert(decreases_to!(body.content => content));
        lemma_all_walked(content, before);
        assert(frame::keeps(
            before,
            tokens::all_walked(content, before),
            order::all_tokens_of(content) + order::optional_token(body.right),
        ));
    }
}

proof fn lemma_all_walked<'a>(
    content: Seq<ConstructView<'a>>,
    before: Map<usize, DefinitionView>,
)
    ensures
        frame::keeps(before, tokens::all_walked(content, before), order::all_tokens_of(content)),
    decreases content,
{
    broadcast use frame::lemma_keeps_wider;

    if content.len() > 0 {
        assert(decreases_to!(content => content[content.len() - 1]));
        let front = content.drop_last();
        lemma_all_walked(front, before);
        let s = tokens::all_walked(front, before);
        lemma_walked(content[content.len() - 1], s);
        assert(frame::keeps(before, s, order::all_tokens_of(content)));
        frame::lemma_keeps_twice(
            before,
            s,
            tokens::all_walked(content, before),
            order::all_tokens_of(content),
        );
    }
}

/// The elements of a table are items of it.
proof fn lemma_element<'a>(items: Seq<ConstructView<'a>>, i: int) -> (j: int)
    requires
        0 <= i < typechecker::tween::elements(items).len(),
    ensures
        0 <= j < items.len(),
        typechecker::tween::elements(items)[i] == items[j],
    decreases items.len(),
{
    let front = items.drop_last();
    if i < typechecker::tween::elements(front).len() {
        lemma_element(front, i)
    } else {
        items.len() - 1
    }
}

proof fn lemma_enum_arg<'a>(
    items: Seq<ConstructView<'a>>,
    i: int,
    enum_name: Seq<char>,
    slot_end: usize,
    before: Map<usize, DefinitionView>,
    tokens: Seq<SpannedToken<'a>>,
)
    requires
        0 <= i < items.len(),
        order::is_ordered(order::all_tokens_of(items)),
        order::all_have_bodies(items),
        frame::ended(tokens, slot_end),
        forall|byte: usize| #[trigger]
            frame::started(order::all_tokens_of(items), byte) ==> frame::started(tokens, byte),
        forall|byte: usize| #[trigger]
            frame::ended(order::all_tokens_of(items), byte) ==> frame::ended(tokens, byte),
    ensures
        frame::keeps(before, tween::with_enum_arg(items[i], enum_name, slot_end, before), tokens),
{
    broadcast use {
        frame::lemma_started,
        frame::lemma_ended,
        frame::lemma_started_one,
        frame::lemma_ended_one,
    };

    let arg = items[i];
    let after = tween::with_enum_arg(arg, enum_name, slot_end, before);
    let all = order::tokens_of(arg);
    frame::lemma_item(items, i, slot_end);
    order::lemma_construct(arg);
    match arg {
        ConstructView::Enum { keyword, name, variant } => {
            assert(all[0] == keyword.token);
            assert(all[0].0 <= all[0].2);
            frame::lemma_item(items, i, keyword.token.2);
            assert(frame::started(all, keyword.token.2));
            let end = construct::end_or(name, slot_end);
            if let Some(name) = name {
                assert(all[1] == name.token);
                assert(all[1].0 <= all[1].2);
                frame::lemma_item(items, i, name.token.2);
                assert(frame::ended(all, name.token.2));
                assert(frame::started(all, name.token.2));
            }
            let kind = DefinitionView::FilteredEnumName { enum_name };
            let s = definitions::defined(before, keyword.token.2, end, kind);
            frame::lemma_defined(before, keyword.token.2, end, kind, tokens);
            if let Some(name) = name {
                if tween::has_enum_name(name.token.1) {
                    let end = construct::end_or(variant, slot_end);
                    if let Some(variant) = variant {
                        frame::lemma_item(items, i, variant.token.2);
                        assert(frame::ended(all, variant.token.2));
                    }
                    frame::lemma_defined(
                        s,
                        name.token.2,
                        end,
                        DefinitionView::EnumVariant { enum_name },
                        tokens,
                    );
                    frame::lemma_keeps_twice(before, s, after, tokens);
                }
            }
        },
        _ => {
            let span = arg.span();
            frame::lemma_item(items, i, span.0);
            frame::lemma_item(items, i, span.1);
            frame::lemma_ends_at(all, span.1);
            assert(all[0].0 <= span.0);
            frame::lemma_defined(
                before,
                span.0,
                span.1,
                DefinitionView::EnumVariant { enum_name },
                tokens,
            );
        },
    }
}

proof fn lemma_tween<'a>(body: ConstructView<'a>, before: Map<usize, DefinitionView>)
    requires
        order::is_ordered(order::tokens_of(body)),
        order::rules_have_bodies(body),
    ensures
        frame::keeps(before, tween::with_tween(body, before), order::tokens_of(body)),
{
    broadcast use {frame::lemma_started, frame::lemma_ended};

    reveal_with_fuel(order::tokens_of, 4);
    reveal_with_fuel(order::rules_have_bodies, 4);
    let all = order::tokens_of(body);
    if let ConstructView::Table { body: table } = body {
        if let Some(items) = table.content {
            let inner = order::all_tokens_of(items);
            assert(all == seq![table.left.token] + (inner + order::optional_token(table.right)));
            frame::lemma_parts_are_ordered(
                seq![table.left.token],
                inner + order::optional_token(table.right),
            );
            frame::lemma_parts_are_ordered(inner, order::optional_token(table.right));
            assert forall|byte: usize| #[trigger] frame::started(inner, byte) implies frame::started(all, byte) by {}
            assert forall|byte: usize| #[trigger] frame::ended(inner, byte) implies frame::ended(all, byte) by {}
            order::lemma_construct(body);
            let args = typechecker::tween::elements(items);
            let tuple_end = body.span().1;
            frame::lemma_ends_at(all, tuple_end);
            if args.len() > 1 {
                let first = lemma_element(items, 1);
                let slot_end = if args.len() > 2 {
                    args[2].span().0
                } else {
                    tuple_end
                };
                if args.len() > 2 {
                    let second = lemma_element(items, 2);
                    let arg = items[second];
                    order::lemma_construct(arg);
                    frame::lemma_item(items, second, slot_end);
                    assert(order::tokens_of(arg)[0].0 <= order::tokens_of(arg)[0].2);
                    assert(frame::ended(order::tokens_of(arg), slot_end));
                }
                lemma_enum_arg(items, first, "EasingStyle"@, slot_end, before, all);
                let s = tween::with_enum_arg(args[1], "EasingStyle"@, slot_end, before);
                if args.len() > 2 {
                    let second = lemma_element(items, 2);
                    lemma_enum_arg(items, second, "EasingDirection"@, tuple_end, s, all);
                    frame::lemma_keeps_twice(
                        before,
                        s,
                        tween::with_enum_arg(args[2], "EasingDirection"@, tuple_end, s),
                        all,
                    );
                }
            }
        }
    }
}

/// Whether each assignment has a value or a terminator, and each rule starts with a selector
/// that is not empty, in the rules of the construct too.
pub open spec fn is_settled(construct: ConstructView) -> bool
    decreases construct,
{
    match construct {
        ConstructView::Assignment { right, terminator, .. } => right is Some || terminator is Some,
        ConstructView::Rule { selectors, body } => {
            &&& selectors is Some && selectors->0.len() > 0
            &&& selectors->0[0].token.0 < selectors->0[0].token.2
            &&& body_is_settled(body)
        },
        _ => true,
    }
}

pub open spec fn body_is_settled(body: Option<DelimitedView>) -> bool
    decreases body,
{
    match body {
        Some(body) => match body.content {
            Some(content) => all_settled(content),
            None => true,
        },
        None => true,
    }
}

pub open spec fn all_settled(content: Seq<ConstructView>) -> bool
    decreases content,
{
    forall|i: int| 0 <= i < content.len() ==> is_settled(#[trigger] content[i])
}

proof fn lemma_assignment_keeps<'a>(
    c: ConstructView<'a>,
    next: Option<ConstructView<'a>>,
    close_start: Option<usize>,
    classes: Seq<Seq<char>>,
    db: ReflectionView,
    before: Map<usize, DefinitionView>,
)
    requires
        c is Assignment,
        is_settled(c),
        order::is_ordered(order::tokens_of(c)),
        order::rules_have_bodies(c),
        next is Some ==> order::rules_have_bodies(next->0),
    ensures
        c matches ConstructView::Assignment { left, middle, right, terminator } ==> frame::keeps(
            before,
            selectors::with_assignment(
                left,
                middle,
                right,
                terminator,
                next,
                close_start,
                classes,
                db,
                before,
            ),
            order::tokens_of(c),
        ),
{
    broadcast use {
        frame::lemma_started,
        frame::lemma_ended,
        frame::lemma_started_one,
        frame::lemma_ended_one,
    };

    reveal_with_fuel(order::tokens_of, 4);
    reveal_with_fuel(order::rules_have_bodies, 4);
    let all = order::tokens_of(c);
    if let ConstructView::Assignment { left, middle, right, terminator } = c {
        if let (Token::Identifier(property_name), Some(middle)) = (left.token.1, middle) {
            let end = selectors::value_end(middle, right, terminator, next, close_start);
            let behind = order::boxed_tokens_of(right) + order::optional_token(terminator);
            assert(all == seq![left.token] + (seq![middle.token] + behind));
            frame::lemma_parts_are_ordered(seq![left.token], seq![middle.token] + behind);
            frame::lemma_parts_are_ordered(seq![middle.token], behind);
            frame::lemma_parts_are_ordered(
                order::boxed_tokens_of(right),
                order::optional_token(terminator),
            );
            if let Some(right) = right {
                order::lemma_construct(*right);
                frame::lemma_ends_at(order::tokens_of(*right), right.end());
            }
            assert(frame::ended(behind, end));
            assert(frame::ended(all, end));
            assert(frame::started(all, middle.token.0));
            let kind = DefinitionView::Assignment {
                property_name: property_name@,
                type_definition: classes,
            };
            let s = definitions::defined(before, middle.token.0, end, kind);
            frame::lemma_defined(before, middle.token.0, end, kind, all);
            if let Some(right) = right {
                let inner = order::tokens_of(*right);
                lemma_walked(*right, s);
                let t = tokens::walked(*right, s);
                assert forall|byte: usize| #[trigger]
                    frame::same_at(s, t, byte) || (frame::started(all, byte) && frame::ended(all, byte)) by {
                    assert(frame::same_at(s, t, byte) || (frame::started(inner, byte) && frame::ended(inner, byte)));
                }
                frame::lemma_keeps_twice(before, s, t, all);
                if let ConstructView::Enum { keyword, name, variant } = *right {
                    assert(inner[0] == keyword.token);
                    assert(inner[0].0 <= inner[0].2);
                    assert(frame::started(inner, keyword.token.2));
                    if let Some(name) = name {
                        assert(inner[1] == name.token);
                        assert(inner[1].0 <= inner[1].2);
                        assert(frame::started(inner, name.token.2));
                        assert(frame::ended(inner, name.token.2));
                    }
                    if let Some(variant) = variant {
                        assert(frame::ended(inner, variant.token.2));
                    }
                    let property_enum = lookup::enum_of_property(db, classes, property_name@);
                    let kind = match property_enum {
                        Some(enum_name) => DefinitionView::FilteredEnumName { enum_name },
                        None => DefinitionView::EnumName,
                    };
                    let name_end = construct::end_or(name, end);
                    let u = definitions::defined(t, keyword.token.2, name_end, kind);
                    frame::lemma_defined(t, keyword.token.2, name_end, kind, all);
                    frame::lemma_keeps_twice(before, t, u, all);
                    if let Some(name) = name {
                        if let Some(typed) = rules::enum_part_name(name.token.1) {
                            let kind = DefinitionView::EnumVariant {
                                enum_name: match property_enum {
                                    Some(enum_name) => enum_name,
                                    None => typed@,
                                },
                            };
                            let variant_end = construct::end_or(variant, end);
                            let v = definitions::defined(u, name.token.2, variant_end, kind);
                            frame::lemma_defined(u, name.token.2, variant_end, kind, all);
                            frame::lemma_keeps_twice(before, u, v, all);
                        }
                    }
                }
            }
        }
    }
}

proof fn lemma_construct_keeps<'a>(
    content: Seq<ConstructView<'a>>,
    i: int,
    classes: Seq<Seq<char>>,
    close_start: Option<usize>,
    db: ReflectionView,
    before: Map<usize, DefinitionView>,
)
    requires
        0 <= i < content.len(),
        all_settled(content),
        order::all_have_bodies(content),
        order::is_ordered(order::tokens_of(content[i])),
    ensures
        frame::keeps(
            before,
            selectors::with_construct(content, i, classes, close_start, db, before),
            order::tokens_of(content[i]),
        ),
    decreases content, i,
{
    broadcast use {
        frame::lemma_keeps_wider,
        frame::lemma_started,
        frame::lemma_ended,
        frame::lemma_started_one,
        frame::lemma_ended_one,
    };

    reveal_with_fuel(order::tokens_of, 4);
    reveal_with_fuel(order::rules_have_bodies, 4);
    let c = content[i];
    let all = order::tokens_of(c);
    let span = c.span();
    let after = selectors::with_construct(content, i, classes, close_start, db, before);
    order::lemma_construct(c);
    assert(all[0].0 <= span.0);
    assert(frame::started(all, span.0));
    frame::lemma_ends_at(all, span.1);
    match c {
        ConstructView::Rule { selectors, body } => {
            assert(decreases_to!(content => content[i]));
            assert(decreases_to!(content[i] => body));
            if let Some(body) = body {
                frame::lemma_parts_are_ordered(
                    order::node_tokens(selectors->0),
                    order::delimited_tokens(body),
                );
                lemma_body_keeps(body, db, before);
            }
            assert(frame::keeps(before, after, all));
        },
        ConstructView::Assignment { left, middle, right, terminator } => {
            lemma_assignment_keeps(
                c,
                selectors::next_of(content, i),
                close_start,
                classes,
                db,
                before,
            );
        },
        ConstructView::Tween { declaration, name, body, terminator } => {
            if let Some(body) = body {
                let s = definitions::defined(before, span.0, span.1, DefinitionView::Declaration);
                frame::lemma_defined(before, span.0, span.1, DefinitionView::Declaration, all);
                let behind = order::tokens_of(*body) + order::optional_token(terminator);
                frame::lemma_parts_are_ordered(
                    seq![declaration.token],
                    order::optional_token(name) + behind,
                );
                frame::lemma_parts_are_ordered(order::optional_token(name), behind);
                frame::lemma_parts_are_ordered(
                    order::tokens_of(*body),
                    order::optional_token(terminator),
                );
                lemma_tween(*body, s);
                assert(frame::keeps(s, after, behind));
                assert(frame::keeps(s, after, order::optional_token(name) + behind));
                assert(frame::keeps(s, after, all));
                frame::lemma_keeps_twice(before, s, after, all);
            }
        },
        ConstructView::Derive { .. } => {
            frame::lemma_defined(before, span.0, span.1, DefinitionView::Declaration, all);
        },
        ConstructView::Priority { .. } => {
            frame::lemma_defined(before, span.0, span.1, DefinitionView::Declaration, all);
        },
        ConstructView::MacroCall { .. } => {
            frame::lemma_defined(before, span.0, span.1, DefinitionView::Declaration, all);
        },
        ConstructView::Macro { declaration, name, args, return_type, body } => {
            let end = selectors::macro_head_end(declaration, name, args, return_type);
            assert(frame::ended(all, end));
            frame::lemma_defined(before, declaration.token.0, end, DefinitionView::Declaration, all);
        },
        _ => {},
    }
}

proof fn lemma_body_keeps<'a>(
    body: DelimitedView<'a>,
    db: ReflectionView,
    before: Map<usize, DefinitionView>,
)
    requires
        body_is_settled(Some(body)),
        order::delimited_has_bodies(body),
        order::is_ordered(order::delimited_tokens(body)),
    ensures
        frame::keeps(
            before,
            selectors::with_rule_body(Some(body), db, before),
            order::delimited_tokens(body),
        ),
    decreases body, 0int,
{
    broadcast use frame::lemma_keeps_wider;

    if let Some(content) = body.content {
        let close_start = match body.right {
            Some(right) => Some(right.token.0),
            None => None,
        };
        let classes = selectors::scope_classes(before, body.left.token.0);
        let behind = order::all_tokens_of(content) + order::optional_token(body.right);
        frame::lemma_parts_are_ordered(seq![body.left.token], behind);
        frame::lemma_parts_are_ordered(
            order::all_tokens_of(content),
            order::optional_token(body.right),
        );
        assert(decreases_to!(body => body.content));
        assert(decreases_to!(body.content => content));
        lemma_content_keeps(
            content,
            0,
            content.len() as int,
            classes,
            close_start,
            db,
            before,
        );
        assert(content.subrange(0, content.len() as int) =~= content);
        assert(frame::keeps(before, selectors::with_rule_body(Some(body), db, before), behind));
    }
}

/// Between two places in the body of a rule, the definitions change only where the tokens
/// between them are.
proof fn lemma_content_keeps<'a>(
    content: Seq<ConstructView<'a>>,
    from: int,
    to: int,
    classes: Seq<Seq<char>>,
    close_start: Option<usize>,
    db: ReflectionView,
    before: Map<usize, DefinitionView>,
)
    requires
        0 <= from <= to <= content.len(),
        all_settled(content),
        order::all_have_bodies(content),
        order::is_ordered(order::all_tokens_of(content)),
    ensures
        frame::keeps(
            selectors::with_content(content, from, classes, close_start, db, before),
            selectors::with_content(content, to, classes, close_start, db, before),
            order::all_tokens_of(content.subrange(from, to)),
        ),
    decreases content, to,
{
    broadcast use frame::lemma_keeps_wider;

    let first = selectors::with_content(content, from, classes, close_start, db, before);
    let third = selectors::with_content(content, to, classes, close_start, db, before);
    if from < to {
        let tokens = order::all_tokens_of(content.subrange(from, to));
        let second = selectors::with_content(content, to - 1, classes, close_start, db, before);
        lemma_content_keeps(content, from, to - 1, classes, close_start, db, before);
        frame::lemma_item(content, to - 1, 0);
        assert(content.subrange(from, to).drop_last() =~= content.subrange(from, to - 1));
        lemma_construct_keeps(content, to - 1, classes, close_start, db, second);
        assert(frame::keeps(first, second, tokens));
        assert(frame::keeps(second, third, tokens));
        frame::lemma_keeps_twice(first, second, third, tokens);
    }
}

/// Whether a value is defined as one of a property: the enum's name is completed behind the
/// keyword, and its items behind the name; where the property has an enum, it is that one and
/// no other. A reference to a token is defined as one.
pub open spec fn value_is_defined(
    value: ConstructView,
    property_enum: Option<Seq<char>>,
    after: Map<usize, DefinitionView>,
) -> bool {
    match value {
        ConstructView::Enum { keyword, name: Some(name), variant } => {
            &&& frame::holds(
                after,
                keyword.token.2,
                name.token.2,
                match property_enum {
                    Some(enum_name) => DefinitionView::FilteredEnumName { enum_name },
                    None => DefinitionView::EnumName,
                },
            )
            &&& match (rules::enum_part_name(name.token.1), variant) {
                (Some(typed), Some(variant)) => frame::holds(
                    after,
                    name.token.2,
                    variant.token.2,
                    DefinitionView::EnumVariant {
                        enum_name: match property_enum {
                            Some(enum_name) => enum_name,
                            None => typed@,
                        },
                    },
                ),
                _ => true,
            }
        },
        ConstructView::Node { node } => match node.token.1 {
            Token::TokenIdentifier(name) => frame::holds(
                after,
                node.token.0,
                node.token.2,
                DefinitionView::Token { name: name@, is_static: false },
            ),
            Token::StaticTokenIdentifier(name) => frame::holds(
                after,
                node.token.0,
                node.token.2,
                DefinitionView::Token { name: name@, is_static: true },
            ),
            _ => true,
        },
        _ => true,
    }
}

/// Whether a construct of a rule's body is defined, with those in the rules nested in it. The
/// equals sign of an assignment to a property knows the property and the classes of the scope
/// that it is in, and the value is defined by them.
pub open spec fn is_defined(
    construct: ConstructView,
    classes: Seq<Seq<char>>,
    db: ReflectionView,
    before: Map<usize, DefinitionView>,
    after: Map<usize, DefinitionView>,
) -> bool
    decreases construct,
{
    match construct {
        ConstructView::Rule { body, .. } => body_is_defined(body, db, before, after),
        ConstructView::Assignment { left, middle, right, .. } => match (left.token.1, middle) {
            (Token::Identifier(property), Some(middle)) => {
                &&& frame::holds(
                    after,
                    middle.token.0,
                    middle.token.2,
                    DefinitionView::Assignment {
                        property_name: property@,
                        type_definition: classes,
                    },
                )
                &&& match right {
                    Some(right) => value_is_defined(
                        *right,
                        lookup::enum_of_property(db, classes, property@),
                        after,
                    ),
                    None => true,
                }
            },
            _ => true,
        },
        ConstructView::Derive { declaration, .. } => frame::holds(
            after,
            declaration.token.0,
            declaration.token.2,
            DefinitionView::Declaration,
        ),
        ConstructView::Priority { declaration, .. } => frame::holds(
            after,
            declaration.token.0,
            declaration.token.2,
            DefinitionView::Declaration,
        ),
        ConstructView::MacroCall { name, .. } => frame::holds(
            after,
            name.token.0,
            name.token.2,
            DefinitionView::Declaration,
        ),
        ConstructView::Macro { declaration, .. } => frame::holds(
            after,
            declaration.token.0,
            declaration.token.2,
            DefinitionView::Declaration,
        ),
        ConstructView::Tween { declaration, body: Some(_), .. } => frame::holds(
            after,
            declaration.token.0,
            declaration.token.2,
            DefinitionView::Declaration,
        ),
        _ => true,
    }
}

/// Whether the constructs of a rule's body are defined, each by the classes that were selected
/// for the innermost rule that it is in.
pub open spec fn body_is_defined(
    body: Option<DelimitedView>,
    db: ReflectionView,
    before: Map<usize, DefinitionView>,
    after: Map<usize, DefinitionView>,
) -> bool
    decreases body,
{
    match body {
        Some(body) => match body.content {
            Some(content) => all_defined(
                content,
                selectors::scope_classes(before, body.left.token.0),
                db,
                before,
                after,
            ),
            None => true,
        },
        None => true,
    }
}

pub open spec fn all_defined(
    content: Seq<ConstructView>,
    classes: Seq<Seq<char>>,
    db: ReflectionView,
    before: Map<usize, DefinitionView>,
    after: Map<usize, DefinitionView>,
) -> bool
    decreases content,
{
    forall|i: int|
        0 <= i < content.len() ==> is_defined(#[trigger] content[i], classes, db, before, after)
}

/// What is defined stays defined where the bytes of the construct do not change, and the scopes
/// in it are the same.
proof fn lemma_stays_defined<'a>(
    c: ConstructView<'a>,
    classes: Seq<Seq<char>>,
    db: ReflectionView,
    before: (Map<usize, DefinitionView>, Map<usize, DefinitionView>),
    after: (Map<usize, DefinitionView>, Map<usize, DefinitionView>),
    end: usize,
)
    requires
        is_defined(c, classes, db, before.0, after.0),
        order::is_ordered(order::tokens_of(c)),
        frame::end_by(order::tokens_of(c), end),
        forall|byte: usize| byte < end ==> #[trigger] frame::same_at(after.0, after.1, byte),
        c matches ConstructView::Rule { body: Some(body), .. } ==> forall|byte: usize|
            byte >= body.left.token.0 ==> #[trigger] frame::same_at(before.0, before.1, byte),
    ensures
        is_defined(c, classes, db, before.1, after.1),
    decreases c,
{
    broadcast use {frame::lemma_end_by, frame::lemma_end_by_one};

    reveal_with_fuel(order::tokens_of, 4);
    reveal_with_fuel(is_defined, 4);
    assert forall|byte: usize| byte < end implies (#[trigger] after.1.dom().contains(byte)
        <==> after.0.dom().contains(byte)) && (after.0.dom().contains(byte) ==> after.0[byte]
        == after.1[byte]) by {
        assert(frame::same_at(after.0, after.1, byte));
    }
    match c {
        ConstructView::Rule { selectors, body: Some(body) } => {
            let head = match selectors {
                Some(selectors) => order::node_tokens(selectors),
                None => Seq::empty(),
            };
            assert(order::tokens_of(c) == head + order::delimited_tokens(body));
            frame::lemma_parts_are_ordered(head, order::delimited_tokens(body));
            if let Some(content) = body.content {
                let inner = order::all_tokens_of(content);
                let behind = inner + order::optional_token(body.right);
                assert(order::delimited_tokens(body) == seq![body.left.token] + behind);
                frame::lemma_parts_are_ordered(seq![body.left.token], behind);
                frame::lemma_parts_are_ordered(inner, order::optional_token(body.right));
                let start = body.left.token.0;
                assert(seq![body.left.token][0] == body.left.token);
                assert(frame::same_at(before.0, before.1, start));
                let inner_classes = selectors::scope_classes(before.0, start);
                assert(inner_classes == selectors::scope_classes(before.1, start));
                assert(frame::end_by(inner, end));
                assert forall|j: int| 0 <= j < inner.len() implies body.left.token.2 <= (
                #[trigger] inner[j]).0 by {
                    assert(behind[j] == inner[j]);
                }
                assert(decreases_to!(body => body.content));
                assert(decreases_to!(body.content => content));
                assert forall|i: int| 0 <= i < content.len() implies is_defined(
                    #[trigger] content[i],
                    inner_classes,
                    db,
                    before.1,
                    after.1,
                ) by {
                    assert(decreases_to!(content => content[i]));
                    frame::lemma_item(content, i, 0);
                    frame::lemma_items_end_by(content, i, end);
                    if let ConstructView::Rule { body: Some(nested), .. } = content[i] {
                        lemma_starts_behind(content, i, nested, start, body.left.token.2);
                    }
                    lemma_stays_defined(content[i], inner_classes, db, before, after, end);
                }
            }
        },
        _ => {},
    }
}

/// The body of a rule starts behind what is in front of the constructs that the rule is among.
proof fn lemma_starts_behind<'a>(
    content: Seq<ConstructView<'a>>,
    i: int,
    body: DelimitedView<'a>,
    start: usize,
    end: usize,
)
    requires
        0 <= i < content.len(),
        content[i] matches ConstructView::Rule { body: b, .. } && b == Some(body),
        start <= end,
        forall|j: int|
            0 <= j < order::all_tokens_of(content).len() ==> end <= (
            #[trigger] order::all_tokens_of(content)[j]).0,
    ensures
        start <= body.left.token.0,
{
    broadcast use {frame::lemma_started, frame::lemma_started_one};

    reveal_with_fuel(order::tokens_of, 4);
    let byte = body.left.token.0;
    assert(frame::started(order::delimited_tokens(body), byte));
    assert(frame::started(order::tokens_of(content[i]), byte));
    frame::lemma_item(content, i, byte);
    let j = choose|j: int|
        0 <= j < order::all_tokens_of(content).len() && (#[trigger] order::all_tokens_of(
            content,
        )[j]).0 <= byte;
    assert(end <= order::all_tokens_of(content)[j].0);
}

proof fn lemma_assignment_is_defined<'a>(
    c: ConstructView<'a>,
    next: Option<ConstructView<'a>>,
    close_start: Option<usize>,
    classes: Seq<Seq<char>>,
    db: ReflectionView,
    before: Map<usize, DefinitionView>,
    start: Map<usize, DefinitionView>,
)
    requires
        c is Assignment,
        is_settled(c),
        order::is_ordered(order::tokens_of(c)),
        order::rules_have_bodies(c),
        next is Some ==> order::rules_have_bodies(next->0),
    ensures
        c matches ConstructView::Assignment { left, middle, right, terminator } ==> is_defined(
            c,
            classes,
            db,
            start,
            selectors::with_assignment(
                left,
                middle,
                right,
                terminator,
                next,
                close_start,
                classes,
                db,
                before,
            ),
        ),
{
    broadcast use {
        frame::lemma_started,
        frame::lemma_ended,
        frame::lemma_started_one,
        frame::lemma_ended_one,
    };

    reveal_with_fuel(order::tokens_of, 4);
    reveal_with_fuel(order::rules_have_bodies, 4);
    let all = order::tokens_of(c);
    if let ConstructView::Assignment { left, middle, right, terminator } = c {
        if let (Token::Identifier(property_name), Some(middle)) = (left.token.1, middle) {
            let end = selectors::value_end(middle, right, terminator, next, close_start);
            let behind = order::boxed_tokens_of(right) + order::optional_token(terminator);
            assert(all == seq![left.token] + (seq![middle.token] + behind));
            frame::lemma_parts_are_ordered(seq![left.token], seq![middle.token] + behind);
            frame::lemma_parts_are_ordered(seq![middle.token], behind);
            frame::lemma_parts_are_ordered(
                order::boxed_tokens_of(right),
                order::optional_token(terminator),
            );
            assert(seq![middle.token][0] == middle.token);
            assert(middle.token.2 <= end) by {
                match terminator {
                    Some(terminator) => {
                        let last = behind.len() - 1;
                        assert(behind[last] == terminator.token);
                        assert(behind[last].0 <= behind[last].2);
                    },
                    None => {
                        order::lemma_construct(*right->0);
                        let inner = order::tokens_of(*right->0);
                        let i = choose|i: int|
                            0 <= i < inner.len() && (#[trigger] inner[i]).2 == end;
                        assert(behind[i] == inner[i]);
                        assert(behind[i].0 <= behind[i].2);
                    },
                }
            }
            let kind = DefinitionView::Assignment {
                property_name: property_name@,
                type_definition: classes,
            };
            let s = definitions::defined(before, middle.token.0, end, kind);
            assert(frame::holds(s, middle.token.0, middle.token.2, kind));
            if let Some(right) = right {
                let inner = order::tokens_of(*right);
                let t = tokens::walked(*right, s);
                lemma_walked(*right, s);
                assert forall|i: int| 0 <= i < inner.len() implies middle.token.2 <= (
                #[trigger] inner[i]).0 by {
                    assert(behind[i] == inner[i]);
                }
                assert forall|byte: usize| middle.token.0 <= byte < middle.token.2 implies
                    #[trigger] t.dom().contains(byte) && t[byte] == kind by {
                    assert(frame::same_at(s, t, byte) || frame::started(inner, byte));
                    assert(s.dom().contains(byte));
                }
                let after = selectors::with_assignment(
                    left,
                    Some(middle),
                    Some(right),
                    terminator,
                    next,
                    close_start,
                    classes,
                    db,
                    before,
                );
                match *right {
                    ConstructView::Enum { keyword, name, variant } => {
                        assert(inner[0] == keyword.token);
                        assert(inner[0].0 <= inner[0].2);
                        if let Some(name) = name {
                            assert(inner[1] == name.token);
                            assert(inner[0].2 <= inner[1].0 && inner[1].0 <= inner[1].2);
                        }
                        assert forall|byte: usize| middle.token.0 <= byte < middle.token.2 implies
                            #[trigger] after.dom().contains(byte) && after[byte] == kind by {
                            assert(t.dom().contains(byte));
                        }
                    },
                    ConstructView::Node { node } => {
                        assert(after == t);
                        if let Some(reference) = tokens::reference_view(node.token.1) {
                            assert(frame::holds(t, node.token.0, node.token.2, reference));
                        }
                    },
                    _ => {
                        assert(after == t);
                    },
                }
            }
        }
    }
}

proof fn lemma_construct_is_defined<'a>(
    content: Seq<ConstructView<'a>>,
    i: int,
    classes: Seq<Seq<char>>,
    close_start: Option<usize>,
    db: ReflectionView,
    before: Map<usize, DefinitionView>,
)
    requires
        0 <= i < content.len(),
        all_settled(content),
        order::all_have_bodies(content),
        order::is_ordered(order::tokens_of(content[i])),
    ensures
        is_defined(
            content[i],
            classes,
            db,
            before,
            selectors::with_construct(content, i, classes, close_start, db, before),
        ),
    decreases content, i,
{
    broadcast use {
        frame::lemma_started,
        frame::lemma_ended,
        frame::lemma_started_one,
        frame::lemma_ended_one,
    };

    reveal_with_fuel(order::tokens_of, 4);
    reveal_with_fuel(order::rules_have_bodies, 4);
    reveal_with_fuel(is_defined, 3);
    let c = content[i];
    let all = order::tokens_of(c);
    let span = c.span();
    let after = selectors::with_construct(content, i, classes, close_start, db, before);
    order::lemma_construct(c);
    match c {
        ConstructView::Rule { selectors, body } => {
            assert(decreases_to!(content => content[i]));
            assert(decreases_to!(content[i] => body));
            if let Some(body) = body {
                frame::lemma_parts_are_ordered(
                    order::node_tokens(selectors->0),
                    order::delimited_tokens(body),
                );
                lemma_body_is_defined(body, db, before);
            }
        },
        ConstructView::Assignment { left, middle, right, terminator } => {
            lemma_assignment_is_defined(
                c,
                selectors::next_of(content, i),
                close_start,
                classes,
                db,
                before,
                before,
            );
        },
        ConstructView::Tween { declaration, name, body, terminator } => {
            frame::lemma_first_ends_early(all, span.1);
            if let Some(body) = body {
                let s = definitions::defined(before, span.0, span.1, DefinitionView::Declaration);
                let inner = order::tokens_of(*body);
                let behind = inner + order::optional_token(terminator);
                frame::lemma_parts_are_ordered(
                    seq![declaration.token],
                    order::optional_token(name) + behind,
                );
                frame::lemma_parts_are_ordered(order::optional_token(name), behind);
                frame::lemma_parts_are_ordered(inner, order::optional_token(terminator));
                lemma_tween(*body, s);
                let rest = order::optional_token(name) + behind;
                assert(seq![declaration.token][0] == declaration.token);
                assert forall|byte: usize|
                    declaration.token.0 <= byte < declaration.token.2 implies
                    #[trigger] after.dom().contains(byte) && after[byte]
                    == DefinitionView::Declaration by {
                    assert(frame::same_at(s, after, byte) || frame::started(inner, byte));
                    if frame::started(inner, byte) {
                        assert(frame::started(behind, byte));
                        assert(frame::started(rest, byte));
                        let k = choose|k: int|
                            0 <= k < rest.len() && (#[trigger] rest[k]).0 <= byte;
                        assert(seq![declaration.token][0].2 <= rest[k].0);
                    }
                    assert(s.dom().contains(byte));
                }
            }
        },
        ConstructView::Macro { declaration, name, args, return_type, body } => {
            let end = selectors::macro_head_end(declaration, name, args, return_type);
            assert(order::ends_at(all, end)) by {
                lemma_head_ends_at(c);
            }
            frame::lemma_first_ends_early(all, end);
        },
        _ => {
            frame::lemma_first_ends_early(all, span.1);
        },
    }
}

/// The head of a macro ends with one of its tokens.
proof fn lemma_head_ends_at<'a>(c: ConstructView<'a>)
    ensures
        c matches ConstructView::Macro { declaration, name, args, return_type, body }
            ==> order::ends_at(
            order::tokens_of(c),
            selectors::macro_head_end(declaration, name, args, return_type),
        ),
{
    reveal_with_fuel(order::tokens_of, 4);
    if let ConstructView::Macro { declaration, name, args, return_type, body } = c {
        let all = order::tokens_of(c);
        let a = order::optional_token(name);
        let b = order::optional_tokens_of(args);
        let r = match return_type {
            Some((arrow, ident)) => seq![arrow.token] + order::optional_token(ident),
            None => Seq::empty(),
        };
        let d = order::optional_tokens_of(body);
        assert(all == seq![declaration.token] + (a + (b + (r + d))));
        assert(all[0] == declaration.token);
        match return_type {
            Some((arrow, ident)) => {
                let k = 1 + a.len() + b.len() as int;
                assert(all[k] == r[0]);
                if ident is Some {
                    assert(all[k + 1] == r[1]);
                }
            },
            None => match args {
                Some(args) => {
                    let inner = order::delimited_tokens(args);
                    let k = 1 + a.len() as int;
                    assert(all[k] == inner[0]);
                    assert(inner[0] == args.left.token);
                    if let Some(right) = args.right {
                        assert(inner[inner.len() - 1] == right.token);
                        assert(all[k + inner.len() - 1] == inner[inner.len() - 1]);
                    }
                },
                None => {
                    if name is Some {
                        assert(all[1] == a[0]);
                    }
                },
            },
        }
    }
}

proof fn lemma_body_is_defined<'a>(
    body: DelimitedView<'a>,
    db: ReflectionView,
    before: Map<usize, DefinitionView>,
)
    requires
        body_is_settled(Some(body)),
        order::delimited_has_bodies(body),
        order::is_ordered(order::delimited_tokens(body)),
    ensures
        body_is_defined(
            Some(body),
            db,
            before,
            selectors::with_rule_body(Some(body), db, before),
        ),
    decreases body, 0int,
{
    if let Some(content) = body.content {
        let close_start = match body.right {
            Some(right) => Some(right.token.0),
            None => None,
        };
        let classes = selectors::scope_classes(before, body.left.token.0);
        let all = order::all_tokens_of(content);
        let n = content.len() as int;
        let after = selectors::with_content(content, n, classes, close_start, db, before);
        frame::lemma_parts_are_ordered(
            seq![body.left.token],
            all + order::optional_token(body.right),
        );
        frame::lemma_parts_are_ordered(all, order::optional_token(body.right));
        assert(decreases_to!(body => body.content));
        assert(decreases_to!(body.content => content));
        assert(selectors::with_content(content, 0, classes, close_start, db, before) == before);
        assert forall|i: int| 0 <= i < n implies is_defined(
            #[trigger] content[i],
            classes,
            db,
            before,
            after,
        ) by {
            let now = selectors::with_content(content, i, classes, close_start, db, before);
            let then = selectors::with_content(content, i + 1, classes, close_start, db, before);
            frame::lemma_item(content, i, 0);
            lemma_construct_is_defined(content, i, classes, close_start, db, now);
            assert(then == selectors::with_construct(
                content,
                i,
                classes,
                close_start,
                db,
                now,
            ));
            lemma_content_keeps(content, 0, i, classes, close_start, db, before);
            lemma_content_keeps(content, i + 1, n, classes, close_start, db, before);
            frame::lemma_split_at(content, i);
            let front = order::all_tokens_of(content.subrange(0, i));
            let own = order::tokens_of(content[i]);
            let rest = order::all_tokens_of(content.subrange(i + 1, n));
            frame::lemma_parts_are_ordered(front, own + rest);
            frame::lemma_parts_are_ordered(own, rest);
            order::lemma_construct(content[i]);
            let end = own[own.len() - 1].2;
            assert(frame::end_by(own, end)) by {
                assert forall|k: int| 0 <= k < own.len() implies (#[trigger] own[k]).2 <= end by {
                    if k < own.len() - 1 {
                        assert(own[k].2 <= own[own.len() - 1].0);
                        assert(own[own.len() - 1].0 <= own[own.len() - 1].2);
                    }
                }
            }
            assert forall|byte: usize| byte < end implies #[trigger] frame::same_at(
                then,
                after,
                byte,
            ) by {
                if frame::started(rest, byte) {
                    let k = choose|k: int| 0 <= k < rest.len() && (#[trigger] rest[k]).0 <= byte;
                    assert(own[own.len() - 1].2 <= rest[k].0);
                }
            }
            if let ConstructView::Rule { selectors, body: Some(nested) } = content[i] {
                assert forall|byte: usize| byte >= nested.left.token.0 implies #[trigger] frame::same_at(
                    now,
                    before,
                    byte,
                ) by {
                    assert(frame::same_at(before, now, byte) || frame::ended(front, byte));
                    if frame::ended(front, byte) {
                        lemma_rule_starts_behind(
                            content[i],
                            selectors->0,
                            nested,
                            front,
                            rest,
                            byte,
                        );
                    }
                }
            }
            lemma_stays_defined(content[i], classes, db, (now, before), (then, after), end);
        }
    }
}

/// No token in front of a rule reaches to the body of the rule.
proof fn lemma_rule_starts_behind<'a>(
    rule: ConstructView<'a>,
    selectors: Seq<NodeView<'a>>,
    body: DelimitedView<'a>,
    front: Seq<SpannedToken<'a>>,
    rest: Seq<SpannedToken<'a>>,
    byte: usize,
)
    requires
        rule == (ConstructView::Rule { selectors: Some(selectors), body: Some(body) }),
        is_settled(rule),
        order::is_ordered(front + (order::tokens_of(rule) + rest)),
        byte >= body.left.token.0,
    ensures
        !frame::ended(front, byte),
{
    reveal_with_fuel(order::tokens_of, 4);
    let own = order::tokens_of(rule);
    let head = order::node_tokens(selectors);
    let inner = order::delimited_tokens(body);
    frame::lemma_parts_are_ordered(front, own + rest);
    frame::lemma_parts_are_ordered(own, rest);
    assert(own == head + inner);
    frame::lemma_parts_are_ordered(head, inner);
    assert(head[0] == selectors[0].token);
    assert(inner[0] == body.left.token);
    assert(head[0].2 <= inner[0].0);
    assert((own + rest)[0] == head[0]);
    if frame::ended(front, byte) {
        let k = choose|k: int| 0 <= k < front.len() && byte <= (#[trigger] front[k]).2;
        assert(front[k].2 <= (own + rest)[0].0);
    }
}

/// Whatever rules are nested in each other, each assignment to a property in them is defined by
/// the classes of the innermost rule that it is in: where the property has an enum and the value
/// is an item, the enum's name is completed from the end of the keyword on, at any depth.
pub proof fn lemma_rule_body_is_defined(
    body: DelimitedView,
    db: ReflectionView,
    before: Map<usize, DefinitionView>,
)
    requires
        body_is_settled(Some(body)),
        order::delimited_has_bodies(body),
        order::is_ordered(order::delimited_tokens(body)),
    ensures
        body_is_defined(
            Some(body),
            db,
            before,
            selectors::with_rule_body(Some(body), db, before),
        ),
{
    lemma_body_is_defined(body, db, before);
}

} // verus!
