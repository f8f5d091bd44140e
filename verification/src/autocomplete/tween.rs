//! What can be completed in a tween.

use crate::parser::construct;
use crate::parser::construct::{Construct, ConstructView, Delimited};
use crate::parser::token::Token;
use crate::typechecker::definitions;
use crate::typechecker::definitions::{DefinitionKind, DefinitionView, Definitions};
use crate::typechecker::tween;
use crate::typechecker::tween::collect_elements;
use vstd::prelude::*;

verus! {

pub open spec fn has_enum_name(token: Token) -> bool {
    match token {
        Token::TagSelectorOrEnumPart(name) => name is Some,
        Token::StateSelectorOrEnumPart(name) => name is Some,
        _ => false,
    }
}

/// The definitions with those of an argument that takes items of an enum. A full item
/// completes to the enum's name and then to its items; anything else to its items at once.
pub open spec fn with_enum_arg(
    arg: ConstructView,
    enum_name: Seq<char>,
    slot_end: usize,
    before: Map<usize, DefinitionView>,
) -> Map<usize, DefinitionView> {
    match arg {
        ConstructView::Enum { keyword, name, variant } => {
            let s = definitions::defined(
                before,
                keyword.token.2,
                construct::end_or(name, slot_end),
                DefinitionView::FilteredEnumName { enum_name },
            );
            match name {
                Some(name) => if has_enum_name(name.token.1) {
                    definitions::defined(
                        s,
                        name.token.2,
                        construct::end_or(variant, slot_end),
                        DefinitionView::EnumVariant { enum_name },
                    )
                } else {
                    s
                },
                None => s,
            }
        },
        _ => definitions::defined(
            before,
            arg.span().0,
            arg.span().1,
            DefinitionView::EnumVariant { enum_name },
        ),
    }
}

/// The definitions with those of a tween's body.
pub open spec fn with_tween(
    body: ConstructView,
    before: Map<usize, DefinitionView>,
) -> Map<usize, DefinitionView> {
    match body {
        ConstructView::Table { body: table } => match table.content {
            Some(items) => {
                let args = tween::elements(items);
                let tuple_end = body.span().1;
                let s = if args.len() > 1 {
                    with_enum_arg(
                        args[1],
                        "EasingStyle"@,
                        if args.len() > 2 {
                            args[2].span().0
                        } else {
                            tuple_end
                        },
                        before,
                    )
                } else {
                    before
                };
                if args.len() > 2 {
                    with_enum_arg(args[2], "EasingDirection"@, tuple_end, s)
                } else {
                    s
                }
            },
            None => before,
        },
        _ => before,
    }
}

fn register_enum_arg_definitions(
    arg: &Construct,
    enum_name: &str,
    slot_end: usize,
    document: &mut Definitions,
)
    ensures
        final(document)@ == with_enum_arg(arg.deep_view(), enum_name@, slot_end, old(document)@),
{
    match arg {
        Construct::Enum { keyword, name, variant } => {
            let name_range_end: usize = match name {
                Some(node) => node.token.end(),
                None => slot_end,
            };
            document.insert(
                keyword.token.end(),
                name_range_end,
                DefinitionKind::FilteredEnumName { enum_name: enum_name.to_owned() },
            );
            if let Some(name_node) = name {
                if matches!(
                    name_node.token.value(),
                    Token::TagSelectorOrEnumPart(Some(_)) | Token::StateSelectorOrEnumPart(Some(_))
                ) {
                    let variant_range_end: usize = match variant {
                        Some(node) => node.token.end(),
                        None => slot_end,
                    };
                    document.insert(
                        name_node.token.end(),
                        variant_range_end,
                        DefinitionKind::EnumVariant { enum_name: enum_name.to_owned() },
                    );
                }
            }
        },
        _ => {
            let span = arg.span();
            document.insert(
                span.0,
                span.1,
                DefinitionKind::EnumVariant { enum_name: enum_name.to_owned() },
            );
        },
    }
}

/// Defines what can be completed in the body of a tween.
pub fn build_tween_definitions(body: &Construct, document: &mut Definitions)
    ensures
        final(document)@ == with_tween(body.deep_view(), old(document)@),
{
    proof {
        reveal_with_fuel(construct::construct_view, 2);
    }
    let args = match body {
        Construct::Table { body: Delimited { content: Some(items), .. } } => collect_elements(items),
        _ => return,
    };
    let ghost views = args.deep_view();
    assert forall|i: int| 0 <= i < args@.len() implies views[i] == (
    #[trigger] args@[i]).deep_view() by {}
    let tuple_end: usize = body.end();
    if args.len() > 1 {
        let slot_end: usize = if args.len() > 2 {
            args[2].start()
        } else {
            tuple_end
        };
        register_enum_arg_definitions(args[1], "EasingStyle", slot_end, document);
    }
    if args.len() > 2 {
        register_enum_arg_definitions(args[2], "EasingDirection", tuple_end, document);
    }
}

} // verus!
