//! What is completed in a tween.

use super::tween;
use crate::parser::construct;
use crate::parser::construct::{ConstructView, DelimitedView, NodeView};
use crate::parser::order;
use crate::parser::token::Token;
use crate::typechecker;
use crate::typechecker::definitions;
use crate::typechecker::definitions::DefinitionView;
use crate::typechecker::frame;
use vstd::prelude::*;

verus! {

/// Whether an element that takes items of an enum completes to them: a full item to the enum's
/// name and then to its items, anything else to its items at once.
pub open spec fn is_eased(
    arg: ConstructView,
    enum_name: Seq<char>,
    after: Map<usize, DefinitionView>,
) -> bool {
    match arg {
        ConstructView::Enum { keyword, name, variant } => match name {
            Some(name) => {
                &&& frame::holds(
                    after,
                    keyword.token.2,
                    name.token.2,
                    DefinitionView::FilteredEnumName { enum_name },
                )
                &&& match (name.token.1, variant) {
                    (Token::TagSelectorOrEnumPart(Some(_)), Some(variant)) => frame::holds(
                        after,
                        name.token.2,
                        variant.token.2,
                        DefinitionView::EnumVariant { enum_name },
                    ),
                    (Token::StateSelectorOrEnumPart(Some(_)), Some(variant)) => frame::holds(
                        after,
                        name.token.2,
                        variant.token.2,
                        DefinitionView::EnumVariant { enum_name },
                    ),
                    _ => true,
                }
            },
            None => true,
        },
        _ => frame::holds(
            after,
            arg.start(),
            arg.end(),
            DefinitionView::EnumVariant { enum_name },
        ),
    }
}

proof fn lemma_enum_arg_is_eased<'a>(
    arg: ConstructView<'a>,
    enum_name: Seq<char>,
    slot_end: usize,
    before: Map<usize, DefinitionView>,
)
    requires
        order::is_ordered(order::tokens_of(arg)),
    ensures
        is_eased(arg, enum_name, tween::with_enum_arg(arg, enum_name, slot_end, before)),
{
    let after = tween::with_enum_arg(arg, enum_name, slot_end, before);
    match arg {
        ConstructView::Enum { keyword, name, variant } => {
            if let Some(name) = name {
                let end = construct::end_or(variant, slot_end);
                let s = definitions::defined(
                    before,
                    keyword.token.2,
                    name.token.2,
                    DefinitionView::FilteredEnumName { enum_name },
                );
                let (from, to) = (keyword.token.2, name.token.2);
                let kind = DefinitionView::FilteredEnumName { enum_name };
                assert forall|byte: usize| from <= byte < to implies
                    #[trigger] after.dom().contains(byte) && after[byte] == kind by {
                    assert(s.dom().contains(byte));
                }
                assert(frame::holds(after, from, to, kind));
                if let Some(variant) = variant {
                    if tween::has_enum_name(name.token.1) {
                        assert(frame::holds(
                            after,
                            name.token.2,
                            variant.token.2,
                            DefinitionView::EnumVariant { enum_name },
                        ));
                    }
                }
            }
        },
        _ => {
            assert(frame::holds(
                after,
                arg.start(),
                arg.end(),
                DefinitionView::EnumVariant { enum_name },
            ));
        },
    }
}

/// What is completed stays where nothing in front of `end` changes.
proof fn lemma_stays_eased<'a>(
    arg: ConstructView<'a>,
    enum_name: Seq<char>,
    before: Map<usize, DefinitionView>,
    after: Map<usize, DefinitionView>,
    end: usize,
)
    requires
        is_eased(arg, enum_name, before),
        order::rules_have_bodies(arg),
        frame::end_by(order::tokens_of(arg), end),
        forall|byte: usize| byte < end ==> #[trigger] frame::same_at(before, after, byte),
    ensures
        is_eased(arg, enum_name, after),
{
    broadcast use {frame::lemma_end_by, frame::lemma_end_by_one};

    order::lemma_construct(arg);
    let tokens = order::tokens_of(arg);
    assert(tokens[tokens.len() - 1].2 <= end);
    match arg {
        ConstructView::Enum { keyword, name: Some(name), variant } => {
            lemma_holds_on(
                before,
                after,
                keyword.token.2,
                name.token.2,
                DefinitionView::FilteredEnumName { enum_name },
                end,
            );
            if let Some(variant) = variant {
                if tween::has_enum_name(name.token.1) {
                    lemma_holds_on(
                        before,
                        after,
                        name.token.2,
                        variant.token.2,
                        DefinitionView::EnumVariant { enum_name },
                        end,
                    );
                }
            }
        },
        ConstructView::Enum { .. } => {},
        _ => {
            lemma_holds_on(
                before,
                after,
                arg.start(),
                arg.end(),
                DefinitionView::EnumVariant { enum_name },
                end,
            );
        },
    }
}

proof fn lemma_holds_on(
    before: Map<usize, DefinitionView>,
    after: Map<usize, DefinitionView>,
    from: usize,
    to: usize,
    kind: DefinitionView,
    end: usize,
)
    requires
        frame::holds(before, from, to, kind),
        to <= end,
        forall|byte: usize| byte < end ==> #[trigger] frame::same_at(before, after, byte),
    ensures
        frame::holds(after, from, to, kind),
{
    assert forall|byte: usize| from <= byte < to implies #[trigger] after.dom().contains(byte)
        && after[byte] == kind by {
        assert(frame::same_at(before, after, byte));
        assert(before.dom().contains(byte));
    }
}

/// In a tween of a number, an easing style and an easing direction, the second element completes
/// to easing styles and the third to easing directions.
pub proof fn lemma_tween_is_eased<'a>(
    open: NodeView<'a>,
    first: ConstructView<'a>,
    comma: NodeView<'a>,
    style: ConstructView<'a>,
    other_comma: NodeView<'a>,
    direction: ConstructView<'a>,
    close: Option<NodeView<'a>>,
    before: Map<usize, DefinitionView>,
)
    requires
        ({
            let items = seq![
                first,
                ConstructView::Node { node: comma },
                style,
                ConstructView::Node { node: other_comma },
                direction,
            ];
            let table = ConstructView::Table {
                body: DelimitedView { left: open, content: Some(items), right: close },
            };
            &&& order::is_ordered(order::tokens_of(table))
            &&& order::rules_have_bodies(table)
        }),
        comma.token.1 is Comma,
        other_comma.token.1 is Comma,
        !typechecker::tween::is_comma_view(first),
        !typechecker::tween::is_comma_view(style),
        !typechecker::tween::is_comma_view(direction),
    ensures
        ({
            let items = seq![
                first,
                ConstructView::Node { node: comma },
                style,
                ConstructView::Node { node: other_comma },
                direction,
            ];
            let table = ConstructView::Table {
                body: DelimitedView { left: open, content: Some(items), right: close },
            };
            let after = tween::with_tween(table, before);
            &&& is_eased(style, "EasingStyle"@, after)
            &&& is_eased(direction, "EasingDirection"@, after)
        }),
{
    reveal_with_fuel(order::tokens_of, 4);
    reveal_with_fuel(order::rules_have_bodies, 4);
    let items = seq![
        first,
        ConstructView::Node { node: comma },
        style,
        ConstructView::Node { node: other_comma },
        direction,
    ];
    let body = DelimitedView { left: open, content: Some(items), right: close };
    let table = ConstructView::Table { body };
    let inside = order::all_tokens_of(items);
    frame::lemma_parts_are_ordered(
        seq![open.token],
        inside + order::optional_token(close),
    );
    frame::lemma_parts_are_ordered(inside, order::optional_token(close));
    let args = typechecker::tween::elements(items);
    assert(args =~= seq![first, style, direction]) by {
        typechecker::tweened::lemma_elements_of_sum(
            seq![first] + seq![ConstructView::Node { node: comma }] + seq![style] + seq![
                ConstructView::Node { node: other_comma },
            ],
            seq![direction],
        );
        typechecker::tweened::lemma_elements_of_sum(
            seq![first] + seq![ConstructView::Node { node: comma }] + seq![style],
            seq![ConstructView::Node { node: other_comma }],
        );
        typechecker::tweened::lemma_elements_of_sum(
            seq![first] + seq![ConstructView::Node { node: comma }],
            seq![style],
        );
        typechecker::tweened::lemma_elements_of_sum(
            seq![first],
            seq![ConstructView::Node { node: comma }],
        );
        typechecker::tweened::lemma_element_of_one(first);
        typechecker::tweened::lemma_element_of_one(ConstructView::Node { node: comma });
        typechecker::tweened::lemma_element_of_one(style);
        typechecker::tweened::lemma_element_of_one(ConstructView::Node { node: other_comma });
        typechecker::tweened::lemma_element_of_one(direction);
        assert(items =~= seq![first] + seq![ConstructView::Node { node: comma }] + seq![style]
            + seq![ConstructView::Node { node: other_comma }] + seq![direction]);
    }
    assert(items[2] == style && items[4] == direction);
    frame::lemma_item(items, 2, 0);
    frame::lemma_item(items, 4, 0);
    let slot_end = direction.span().0;
    let tuple_end = table.span().1;
    let s = tween::with_enum_arg(style, "EasingStyle"@, slot_end, before);
    let after = tween::with_enum_arg(direction, "EasingDirection"@, tuple_end, s);
    assert(after == tween::with_tween(table, before));
    lemma_enum_arg_is_eased(style, "EasingStyle"@, slot_end, before);
    lemma_enum_arg_is_eased(direction, "EasingDirection"@, tuple_end, s);
    // Nothing in front of the direction changes behind the style.
    let own = order::tokens_of(direction);
    order::lemma_construct(direction);
    frame::lemma_split_at(items, 4);
    let front = items.subrange(0, 4);
    assert(items.subrange(5, 5) =~= Seq::empty());
    assert(inside == order::all_tokens_of(front) + (own + order::all_tokens_of(
        items.subrange(5, 5),
    )));
    frame::lemma_parts_are_ordered(
        order::all_tokens_of(front),
        own + order::all_tokens_of(items.subrange(5, 5)),
    );
    let end = own[0].0;
    assert((own + order::all_tokens_of(items.subrange(5, 5)))[0] == own[0]);
    assert(frame::end_by(order::all_tokens_of(front), end));
    assert(front[2] == style);
    frame::lemma_items_end_by(front, 2, end);
    assert forall|byte: usize| byte < end implies #[trigger] frame::same_at(s, after, byte) by {
        match direction {
            ConstructView::Enum { keyword, name, variant } => {
                assert(own[0] == keyword.token);
                assert(own[0].0 <= own[0].2);
                if let Some(name) = name {
                    assert(own[1] == name.token);
                    assert(own[0].2 <= own[1].0 && own[1].0 <= own[1].2);
                }
            },
            _ => {},
        }
    }
    lemma_stays_eased(style, "EasingStyle"@, s, after, end);
}

} // verus!
