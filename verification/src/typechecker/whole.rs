//! What the check of a whole document finds.

use super::derived;
use super::derive::DeriveState;
use super::macro_check;
use super::scoped;
use super::selectors::CheckState;
use super::tween;
use super::Checked;
use crate::autocomplete;
use crate::autocomplete::derive::LocatedView;
use crate::autocomplete::normalize_path::ComponentView;
use crate::parser::construct::ConstructView;
use crate::reflection::ReflectionView;
use vstd::prelude::*;

verus! {

/// What was found of the derives of a document.
pub open spec fn derive_part(checked: Checked) -> DeriveState {
    DeriveState {
        errors: checked.errors,
        dependencies: checked.dependencies,
        derives: checked.derives,
    }
}

/// Whether a construct at the top of a document is dealt with: the strings of a derive have led
/// to what was located for them, and what is wrong with another construct is reported.
pub open spec fn is_dealt_with(
    construct: ConstructView,
    located: Seq<LocatedView>,
    from: int,
    current: Seq<ComponentView>,
    text: Seq<char>,
    db: ReflectionView,
    after: Checked,
) -> bool {
    match construct {
        ConstructView::Derive { body: Some(body), .. } => derived::are_settled(
            autocomplete::derive::strings_in(*body),
            located,
            from,
            current,
            text,
            derive_part(after),
        ),
        _ => scoped::is_checked(construct, Seq::empty(), text, db, after.errors),
    }
}

/// Whether nothing that was found is lost.
spec fn goes_on(before: Checked, after: Checked) -> bool {
    &&& scoped::has_all(after.errors, before.errors)
    &&& forall|name: Seq<char>| #[trigger]
        before.dependencies.contains(name) ==> after.dependencies.contains(name)
    &&& forall|name: Seq<char>| #[trigger]
        derived::has_name(before.derives, name) ==> derived::has_name(after.derives, name)
}

proof fn lemma_top_level(
    c: ConstructView,
    located: Seq<LocatedView>,
    from: int,
    current: Seq<ComponentView>,
    text: Seq<char>,
    db: ReflectionView,
    before: Checked,
)
    requires
        from >= 0,
    ensures
        ({
            let after = super::checked_top_level(c, located, from, current, text, db, before);
            &&& is_dealt_with(c, located, from, current, text, db, after)
            &&& goes_on(before, after)
        }),
{
    reveal_with_fuel(scoped::is_checked, 3);
    scoped::lemma_has_itself(before.errors);
    match c {
        ConstructView::Derive { body: Some(body), .. } => {
            derived::lemma_derive_settles_strings(
                *body,
                located,
                from,
                current,
                text,
                derive_part(before),
            );
            let after = super::checked_top_level(c, located, from, current, text, db, before);
            let found = super::derive::checked_derive(
                *body,
                located,
                from,
                current,
                text,
                derive_part(before),
            );
            assert(derive_part(after) == found);
            assert forall|i: int| 0 <= i < before.errors.len() implies after.errors.contains(
                #[trigger] before.errors[i],
            ) by {
                assert(derive_part(before).errors[i] == before.errors[i]);
            }
            assert forall|name: Seq<char>| #[trigger]
                before.dependencies.contains(name) implies after.dependencies.contains(name) by {
                assert(derive_part(before).dependencies.contains(name));
            }
            assert forall|name: Seq<char>| #[trigger]
                derived::has_name(before.derives, name) implies derived::has_name(
                after.derives,
                name,
            ) by {
                assert(derived::has_name(derive_part(before).derives, name));
            }
        },
        ConstructView::Rule { selectors, body } => {
            scoped::lemma_rule_errors_are_reported(
                selectors,
                body,
                Seq::empty(),
                text,
                db,
                CheckState { errors: before.errors, definitions: before.definitions },
            );
        },
        ConstructView::Assignment { right: Some(value), .. } => {
            scoped::lemma_value_is_reported(*value, text, before.errors);
        },
        ConstructView::Priority { body: Some(value), .. } => {
            scoped::lemma_value_is_reported(*value, text, before.errors);
        },
        ConstructView::Name { body: Some(value), .. } => {
            scoped::lemma_value_is_reported(*value, text, before.errors);
        },
        ConstructView::Tween { body: Some(value), .. } => {
            scoped::lemma_tween_adds(*value, text, before.errors);
            scoped::lemma_has_sum(
                before.errors,
                tween::checked_tween(*value, text, Seq::empty()),
            );
        },
        ConstructView::Macro { args, return_type, body, .. } => {
            let body = macro_check::body_of(return_type, body);
            scoped::lemma_macro_adds(args, body, text, before.errors);
            scoped::lemma_has_sum(
                before.errors,
                macro_check::checked_macro(args, body, text, Seq::empty()),
            );
        },
        _ => {},
    }
}

proof fn lemma_stays_dealt_with(
    c: ConstructView,
    located: Seq<LocatedView>,
    from: int,
    current: Seq<ComponentView>,
    text: Seq<char>,
    db: ReflectionView,
    before: Checked,
    after: Checked,
)
    requires
        is_dealt_with(c, located, from, current, text, db, before),
        goes_on(before, after),
    ensures
        is_dealt_with(c, located, from, current, text, db, after),
{
    match c {
        ConstructView::Derive { body: Some(body), .. } => {
            let strings = autocomplete::derive::strings_in(*body);
            assert forall|i: int|
                0 <= i < strings.len() && 0 <= from + i < located.len() implies derived::is_settled(
                #[trigger] strings[i],
                located[from + i],
                current,
                text,
                derive_part(after),
            ) by {
                derived::lemma_stays_settled(
                    strings[i],
                    located[from + i],
                    current,
                    text,
                    derive_part(before),
                    derive_part(after),
                );
            }
        },
        _ => {
            scoped::lemma_stays_checked(
                c,
                Seq::empty(),
                text,
                db,
                before.errors,
                after.errors,
            );
        },
    }
}

/// The check of a document deals with each of its constructs: what is wrong with one, at any
/// depth, is among the errors, and each string of a derive has led to what was located for it,
/// in the order of the strings.
pub proof fn lemma_document_is_dealt_with(
    ast: Seq<ConstructView>,
    located: Seq<LocatedView>,
    current: Seq<ComponentView>,
    text: Seq<char>,
    db: ReflectionView,
    before: Checked,
)
    ensures
        forall|i: int|
            0 <= i < ast.len() ==> is_dealt_with(
                #[trigger] ast[i],
                located,
                autocomplete::strings_of(ast.take(i)).len() as int,
                current,
                text,
                db,
                super::checked_document(ast, located, current, text, db, before),
            ),
    decreases ast.len(),
{
    if ast.len() > 0 {
        let front = ast.drop_last();
        let n = ast.len() - 1;
        let s = super::checked_document(front, located, current, text, db, before);
        let after = super::checked_document(ast, located, current, text, db, before);
        let from = autocomplete::strings_of(front).len() as int;
        lemma_document_is_dealt_with(front, located, current, text, db, before);
        lemma_top_level(ast.last(), located, from, current, text, db, s);
        assert forall|i: int| 0 <= i < ast.len() implies is_dealt_with(
            #[trigger] ast[i],
            located,
            autocomplete::strings_of(ast.take(i)).len() as int,
            current,
            text,
            db,
            after,
        ) by {
            if i < n {
                assert(front[i] == ast[i]);
                assert(front.take(i) =~= ast.take(i));
                lemma_stays_dealt_with(
                    ast[i],
                    located,
                    autocomplete::strings_of(ast.take(i)).len() as int,
                    current,
                    text,
                    db,
                    s,
                    after,
                );
            } else {
                assert(ast.take(i) =~= front);
            }
        }
    }
}

} // verus!
