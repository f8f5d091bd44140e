//! The checks that need more than the grammar.

pub mod definitions;
pub mod derive;
pub mod derived;
pub mod frame;
pub mod macro_check;
pub mod references;
pub mod rules;
pub mod scoped;
pub mod selected;
pub mod selectors;
pub mod tween;
pub mod tweened;
pub mod type_error;
pub mod whole;

use crate::autocomplete;
use crate::autocomplete::derive::{derive_strings, Located, LocatedView};
use crate::autocomplete::normalize_path::{Component, ComponentView};
use crate::diagnostic::{AstErrors, DiagnosticView};
use crate::parser::construct;
use crate::parser::construct::{Construct, ConstructView};
use crate::parser::Parser;
use crate::reflection::{Reflection, ReflectionView};
use crate::server::document::Document;
use crate::text;
use definitions::DefinitionView;
use selectors::CheckState;
use vstd::prelude::*;

verus! {

/// A checked document.
pub struct Typechecker<'a> {
    pub parsed: Parser<'a>,
}

/// What the checks of a document find.
pub struct Checked {
    pub errors: Seq<DiagnosticView>,
    pub definitions: Map<usize, DefinitionView>,
    /// The paths of the files that are derived from, each once.
    pub dependencies: Seq<Seq<char>>,
    /// The same, each with where it was last named.
    pub derives: Seq<(Seq<char>, usize, usize)>,
}

/// Checks a construct at the top of a document. What was located for its strings, where it
/// is a derive, stands in `located` from `from` on.
pub open spec fn checked_top_level(
    c: ConstructView,
    located: Seq<LocatedView>,
    from: int,
    current: Seq<ComponentView>,
    text: Seq<char>,
    db: ReflectionView,
    before: Checked,
) -> Checked {
    match c {
        ConstructView::Derive { body: Some(body), .. } => {
            let after = derive::checked_derive(
                *body,
                located,
                from,
                current,
                text,
                derive::DeriveState {
                    errors: before.errors,
                    dependencies: before.dependencies,
                    derives: before.derives,
                },
            );
            Checked {
                errors: after.errors,
                dependencies: after.dependencies,
                derives: after.derives,
                ..before
            }
        },
        ConstructView::Rule { selectors, body } => {
            let after = rules::checked_rule(
                selectors,
                body,
                Seq::empty(),
                text,
                db,
                CheckState { errors: before.errors, definitions: before.definitions },
            );
            Checked { errors: after.errors, definitions: after.definitions, ..before }
        },
        ConstructView::Assignment { left, right, .. } => Checked {
            errors: macro_check::checked_value(right, None, text, before.errors),
            definitions: rules::with_declared_token(left, right, before.definitions),
            ..before
        },
        ConstructView::Tween { body: Some(body), .. } => Checked {
            errors: tween::checked_tween(*body, text, before.errors),
            ..before
        },
        ConstructView::Macro { args, return_type, body, .. } => Checked {
            errors: macro_check::checked_macro(
                args,
                macro_check::body_of(return_type, body),
                text,
                before.errors,
            ),
            ..before
        },
        _ => Checked {
            errors: macro_check::checked_values(c, None, text, before.errors),
            ..before
        },
    }
}

/// Checks the constructs of a document, one after the other. What was located for the strings
/// of its derives stands in `located`, in order.
pub open spec fn checked_document(
    ast: Seq<ConstructView>,
    located: Seq<LocatedView>,
    current: Seq<ComponentView>,
    text: Seq<char>,
    db: ReflectionView,
    before: Checked,
) -> Checked
    decreases ast.len(),
{
    if ast.len() == 0 {
        before
    } else {
        checked_top_level(
            ast.last(),
            located,
            autocomplete::strings_of(ast.drop_last()).len() as int,
            current,
            text,
            db,
            checked_document(ast.drop_last(), located, current, text, db, before),
        )
    }
}

/// What the executable state of the checks holds.
pub open spec fn checked_state(
    errors: &AstErrors,
    document: &Document,
    derives: &Vec<(String, usize, usize)>,
) -> Checked {
    Checked {
        errors: errors.0.deep_view(),
        definitions: document.definitions@,
        dependencies: document.dependencies.deep_view(),
        derives: derives.deep_view(),
    }
}

impl<'a> Typechecker<'a> {
    /// Checks a parsed document: adds the errors to those of the parser, says in `document`
    /// what the bytes stand for and what it depends on, and hands out where it names each
    /// file that it derives from.
    pub fn new(
        parsed: Parser<'a>,
        current_path: &Vec<Component>,
        located: &Vec<Located>,
        db: &Reflection,
        document: &mut Document,
    ) -> (r: (Self, Vec<(String, usize, usize)>))
        ensures
            ({
                let after = checked_document(
                    construct::constructs_view(parsed.ast@),
                    located.deep_view(),
                    current_path.deep_view(),
                    text::rope_text(&parsed.rope),
                    db.deep_view(),
                    (Checked {
                        errors: Seq::empty(),
                        definitions: old(document).definitions@,
                        dependencies: old(document).dependencies.deep_view(),
                        derives: Seq::empty(),
                    }),
                );
                &&& r.0.parsed.ast_errors.0.deep_view() == parsed.ast_errors.0.deep_view()
                    + after.errors
                &&& final(document).definitions@ == after.definitions
                &&& final(document).dependencies.deep_view() == after.dependencies
                &&& r.1.deep_view() == after.derives
            }),
            final(document).source == old(document).source,
            final(document).resolved_types == old(document).resolved_types,
            r.0.parsed.ast == parsed.ast,
            r.0.parsed.rope == parsed.rope,
    {
        let mut parsed = parsed;
        let mut ast_errors = AstErrors::new();
        let mut derives: Vec<(String, usize, usize)> = Vec::new();
        let parent_classes: Vec<String> = Vec::new();
        let located_len: usize = located.len();
        assert(definitions::names_view(parent_classes@) =~= Seq::empty());
        let ghost views = construct::constructs_view(parsed.ast@);
        let ghost text = text::rope_text(&parsed.rope);
        let ghost before = checked_state(&ast_errors, document, &derives);
        assert(before.derives =~= Seq::empty());
        assert(views.take(0) =~= Seq::empty());
        let mut from: usize = 0;
        let mut i: usize = 0;
        while i < parsed.ast.len()
            invariant
                i <= parsed.ast@.len(),
                views == construct::constructs_view(parsed.ast@),
                text == text::rope_text(&parsed.rope),
                definitions::names_view(parent_classes@) == Seq::<Seq<char>>::empty(),
                located_len == located@.len(),
                from == (if autocomplete::strings_of(views.take(i as int)).len() < located_len {
                    autocomplete::strings_of(views.take(i as int)).len()
                } else {
                    located_len as nat
                }),
                document.source == old(document).source,
                document.resolved_types == old(document).resolved_types,
                checked_state(&ast_errors, document, &derives) == checked_document(
                    views.take(i as int),
                    located.deep_view(),
                    current_path.deep_view(),
                    text,
                    db.deep_view(),
                    before,
                ),
            decreases parsed.ast@.len() - i,
        {
            let ghost so_far = checked_state(&ast_errors, document, &derives);
            assert(views.take(i + 1).drop_last() =~= views.take(i as int));
            assert(views.take(i + 1).last() == construct::construct_view(parsed.ast@[i as int]));
            proof {
                reveal_with_fuel(construct::construct_view, 3);
            }
            match &parsed.ast[i] {
                Construct::Derive { body: Some(body), .. } => {
                    proof {
                        derive::lemma_unlocated(
                            body.deep_view(),
                            located.deep_view(),
                            from as int,
                            autocomplete::strings_of(views.take(i as int)).len() as int,
                            current_path.deep_view(),
                            text,
                            derive::derive_state(&ast_errors, &document.dependencies, &derives),
                        );
                    }
                    derive::typecheck_derive(
                        body,
                        located,
                        from,
                        current_path,
                        &parsed.rope,
                        &mut ast_errors,
                        &mut document.dependencies,
                        &mut derives,
                    );
                    let count: usize = derive_strings(body).len();
                    assert(crate::autocomplete::derive::strings_in(body.deep_view()).len() == count);
                    from = if count < located_len - from {
                        from + count
                    } else {
                        located_len
                    };
                },
                Construct::Rule { selectors, body } => {
                    assert(construct::optional_delimited_view(*body) == body.deep_view());
                    rules::typecheck_rule(
                        selectors,
                        body,
                        &parent_classes,
                        &parsed.rope,
                        db,
                        &mut ast_errors,
                        &mut document.definitions,
                    );
                },
                Construct::Assignment { left, right, .. } => {
                    macro_check::validate_value(right, None, &parsed.rope, &mut ast_errors);
                    rules::define_token(left, right, &mut document.definitions);
                },
                Construct::Tween { body: Some(body), .. } => {
                    tween::typecheck_tween(body, &parsed.rope, &mut ast_errors);
                },
                Construct::Macro { args, return_type, body, .. } => {
                    assert(construct::optional_delimited_view(*args) == args.deep_view());
                    assert(construct::optional_delimited_view(*body) == body.deep_view());
                    macro_check::typecheck_macro(
                        args,
                        &macro_check::MacroBody::of(return_type, body),
                        &parsed.rope,
                        &mut ast_errors,
                    );
                },
                construct => macro_check::validate_values(
                    construct,
                    None,
                    &parsed.rope,
                    &mut ast_errors,
                ),
            }
            i += 1;
        }
        assert(views.take(i as int) =~= views);
        let ghost first = parsed.ast_errors.0;
        let ghost second = ast_errors.0;
        parsed.ast_errors.0.append(&mut ast_errors.0);
        assert(parsed.ast_errors.0.deep_view() =~= first.deep_view() + second.deep_view());
        (Typechecker { parsed }, derives)
    }
}

} // verus!
