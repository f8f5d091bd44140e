//! Which tweens are accepted.

use super::tween;
use crate::diagnostic::DiagnosticView;
use crate::parser::construct::ConstructView;
use crate::parser::token::Token;
use vstd::prelude::*;

verus! {

/// The elements of two lists, one behind the other, are those of both.
pub proof fn lemma_elements_of_sum<'a>(a: Seq<ConstructView<'a>>, b: Seq<ConstructView<'a>>)
    ensures
        tween::elements(a + b) == tween::elements(a) + tween::elements(b),
    decreases b.len(),
{
    if b.len() == 0 {
        assert(a + b =~= a);
        assert(tween::elements(a) + tween::elements(b) =~= tween::elements(a));
    } else {
        assert((a + b).drop_last() =~= a + b.drop_last());
        lemma_elements_of_sum(a, b.drop_last());
        assert(tween::elements(a + b) =~= tween::elements(a) + tween::elements(b));
    }
}

/// A comma is no element, and everything else is one.
pub proof fn lemma_element_of_one<'a>(item: ConstructView<'a>)
    ensures
        tween::elements(seq![item]) == (match item {
            ConstructView::Node { node } => if node.token.1 is Comma {
                Seq::empty()
            } else {
                seq![item]
            },
            _ => seq![item],
        }),
{
    let items = seq![item];
    assert(items.drop_last() =~= Seq::empty());
    assert(tween::elements(items.drop_last()) =~= Seq::empty());
    assert(Seq::<ConstructView<'a>>::empty().push(item) =~= items);
}

/// Whether a construct is a number.
pub open spec fn is_number(construct: ConstructView) -> bool {
    construct matches ConstructView::Node { node } && node.token.1 is Number
}

/// Whether a construct is an item of the enum, with its name or with the enum left out.
pub open spec fn is_item_of(construct: ConstructView, enum_name: Seq<char>) -> bool {
    match construct {
        ConstructView::Enum { name: Some(name), .. } => match name.token.1 {
            Token::TagSelectorOrEnumPart(Some(written)) => written@ == enum_name,
            Token::StateSelectorOrEnumPart(Some(written)) => written@ == enum_name,
            _ => false,
        },
        ConstructView::Node { node } => match node.token.1 {
            Token::StateSelectorOrEnumPart(Some(_)) => true,
            _ => false,
        },
        _ => false,
    }
}

/// How many of the elements of a tween are wrong: the first has to be a number, the second an
/// easing style, the third an easing direction, and there is no fourth.
pub open spec fn faults(args: Seq<ConstructView>) -> int {
    (if is_number(args[0]) {
        0int
    } else {
        1
    }) + (if args.len() > 1 && !is_item_of(args[1], "EasingStyle"@) {
        1int
    } else {
        0
    }) + (if args.len() > 2 && !is_item_of(args[2], "EasingDirection"@) {
        1int
    } else {
        0
    }) + (if args.len() > 3 {
        args.len() - 3
    } else {
        0
    })
}

proof fn lemma_surplus<'a>(
    args: Seq<ConstructView<'a>>,
    n: int,
    text: Seq<char>,
    errors: Seq<DiagnosticView>,
)
    ensures
        tween::surplus_errors(args, n, text, errors).len() == errors.len() + (if n > 3 {
            n - 3
        } else {
            0
        }),
        errors.len() <= tween::surplus_errors(args, n, text, errors).len(),
        tween::surplus_errors(args, n, text, errors).take(errors.len() as int) == errors,
    decreases n,
{
    if n > 3 {
        lemma_surplus(args, n - 1, text, errors);
        let before = tween::surplus_errors(args, n - 1, text, errors);
        let after = tween::surplus_errors(args, n, text, errors);
        assert(after.take(errors.len() as int) =~= before.take(errors.len() as int));
    } else {
        assert(errors.take(errors.len() as int) =~= errors);
    }
}

/// A tween is accepted where it is a number, or a table of a number, an easing style and an
/// easing direction of which the last may be left out. Otherwise each wrong element is reported,
/// or the tween as a whole where it is no table or has no elements. The errors before it stay.
pub proof fn lemma_tween_is_accepted<'a>(
    body: ConstructView<'a>,
    text: Seq<char>,
    errors: Seq<DiagnosticView>,
)
    ensures
        ({
            let after = tween::checked_tween(body, text, errors);
            let expected = if is_number(body) {
                0int
            } else {
                match body {
                    ConstructView::Table { body: table } => match table.content {
                        Some(items) => if tween::elements(items).len() == 0 {
                            1
                        } else {
                            faults(tween::elements(items))
                        },
                        None => 1,
                    },
                    _ => 1,
                }
            };
            &&& after.len() == errors.len() + expected
            &&& after.take(errors.len() as int) == errors
        }),
{
    let after = tween::checked_tween(body, text, errors);
    assert(errors.take(errors.len() as int) =~= errors);
    if !is_number(body) {
        match body {
            ConstructView::Table { body: table } => {
                if table.content is Some && tween::elements(table.content->0).len() > 0 {
                    let args = tween::elements(table.content->0);
                    let n = args.len() as int;
                    let e1 = if !tween::is_number_view(args[0]) {
                        tween::with_error(
                            errors,
                            super::type_error::TypeError::InvalidTweenArg { expected: "number" },
                            text,
                            args[0].span(),
                        )
                    } else {
                        errors
                    };
                    let e2 = if args.len() > 1 && !tween::is_enum_view(args[1], "EasingStyle"@) {
                        tween::with_error(
                            e1,
                            super::type_error::TypeError::InvalidTweenArg {
                                expected: "Enum.EasingStyle",
                            },
                            text,
                            args[1].span(),
                        )
                    } else {
                        e1
                    };
                    let e3 = if args.len() > 2 && !tween::is_enum_view(
                        args[2],
                        "EasingDirection"@,
                    ) {
                        tween::with_error(
                            e2,
                            super::type_error::TypeError::InvalidTweenArg {
                                expected: "Enum.EasingDirection",
                            },
                            text,
                            args[2].span(),
                        )
                    } else {
                        e2
                    };
                    lemma_surplus(args, n, text, e3);
                    assert(after == tween::surplus_errors(args, n, text, e3));
                    assert(after.take(errors.len() as int) =~= after.take(e3.len() as int).take(
                        errors.len() as int,
                    ));
                    assert(e3.take(errors.len() as int) =~= errors);
                } else {
                    assert(after.take(errors.len() as int) =~= errors);
                }
            },
            _ => {
                assert(after.take(errors.len() as int) =~= errors);
            },
        }
    }
}

} // verus!
