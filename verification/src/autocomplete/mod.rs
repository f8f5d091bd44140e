//! What can be completed where.

pub mod derive;
pub mod eased;
pub mod inherited;
pub mod lookup;
pub mod nested;
pub mod normalize_path;
pub mod offers;
pub mod prefix;
pub mod properties;
pub mod referenced;
pub mod selectors;
pub mod tokens;
pub mod tween;
pub mod values;

use crate::parser::construct;
use crate::parser::construct::{Construct, ConstructView};
use crate::reflection::{Reflection, ReflectionView};
use crate::typechecker::definitions;
use crate::typechecker::definitions::{DefinitionKind, DefinitionView, Definitions};
use derive::{DeriveString, DeriveStringView, Located, LocatedView};
use normalize_path::{Component, ComponentView};
use vstd::prelude::*;

verus! {

/// The strings of a document's derives.
pub open spec fn strings_of(ast: Seq<ConstructView>) -> Seq<DeriveStringView>
    decreases ast.len(),
{
    if ast.len() == 0 {
        Seq::empty()
    } else {
        strings_of(ast.drop_last()) + construct_strings(ast.last())
    }
}

/// The strings of a construct that is a derive.
pub open spec fn construct_strings(c: ConstructView) -> Seq<DeriveStringView> {
    match c {
        ConstructView::Derive { body: Some(body), .. } => derive::strings_in(*body),
        _ => Seq::empty(),
    }
}

/// The definitions with those of a construct at the top of a document.
pub open spec fn with_top_level(
    c: ConstructView,
    db: ReflectionView,
    located: Seq<LocatedView>,
    from: int,
    current: Seq<ComponentView>,
    before: Map<usize, DefinitionView>,
) -> Map<usize, DefinitionView> {
    match c {
        ConstructView::Rule { body, .. } => selectors::with_rule_body(body, db, before),
        ConstructView::Derive { body: Some(body), .. } => {
            let strings = derive::strings_in(*body);
            derive::with_derives(strings, strings.len() as int, located, from, current, before)
        },
        ConstructView::Tween { body: Some(body), .. } => tween::with_tween(
            *body,
            definitions::defined(before, c.span().0, c.span().1, DefinitionView::Declaration),
        ),
        ConstructView::Assignment { right: Some(right), .. } => tokens::walked(*right, before),
        _ => before,
    }
}

/// The definitions with those of a document. What is found at the paths of its derives
/// stands in `located`, in order.
pub open spec fn with_document(
    ast: Seq<ConstructView>,
    db: ReflectionView,
    located: Seq<LocatedView>,
    current: Seq<ComponentView>,
    before: Map<usize, DefinitionView>,
) -> Map<usize, DefinitionView>
    decreases ast.len(),
{
    if ast.len() == 0 {
        before
    } else {
        with_top_level(
            ast.last(),
            db,
            located,
            strings_of(ast.drop_last()).len() as int,
            current,
            with_document(ast.drop_last(), db, located, current, before),
        )
    }
}

/// Collects the strings of a document's derives, in order.
pub fn document_derives<'a>(ast: &Vec<Construct<'a>>) -> (r: Vec<DeriveString<'a>>)
    ensures
        r.deep_view() == strings_of(construct::constructs_view(ast@)),
{
    let ghost views = construct::constructs_view(ast@);
    let mut out: Vec<DeriveString<'a>> = Vec::new();
    assert(views.take(0) =~= Seq::empty());
    assert(out.deep_view() =~= Seq::empty());
    let mut i: usize = 0;
    while i < ast.len()
        invariant
            i <= ast@.len(),
            views == construct::constructs_view(ast@),
            out.deep_view() == strings_of(views.take(i as int)),
        decreases ast@.len() - i,
    {
        assert(views.take(i + 1).drop_last() =~= views.take(i as int));
        assert(views.take(i + 1).last() == construct::construct_view(ast@[i as int]));
        proof {
            reveal_with_fuel(construct::construct_view, 3);
        }
        let ghost first = out;
        if let Construct::Derive { body: Some(body), .. } = &ast[i] {
            let mut inner = derive::derive_strings(body);
            let ghost second = inner;
            out.append(&mut inner);
            assert(out.deep_view() =~= first.deep_view() + second.deep_view());
        } else {
            assert(out.deep_view() =~= first.deep_view() + Seq::empty());
        }
        i += 1;
    }
    assert(views.take(i as int) =~= views);
    out
}

/// Defines what can be completed in a document, and where its derives lead to. `located`
/// holds what is at the path of each string of [`document_derives`].
pub fn build_definitions(
    ast: &Vec<Construct>,
    document: &mut Definitions,
    current_path: &Vec<Component>,
    located: &Vec<Located>,
    db: &Reflection,
)
    ensures
        final(document)@ == with_document(
            construct::constructs_view(ast@),
            db.deep_view(),
            located.deep_view(),
            current_path.deep_view(),
            old(document)@,
        ),
{
    let ghost views = construct::constructs_view(ast@);
    let ghost before = document@;
    let located_len: usize = located.len();
    assert(views.take(0) =~= Seq::empty());
    let mut from: usize = 0;
    let mut i: usize = 0;
    while i < ast.len()
        invariant
            i <= ast@.len(),
            located_len == located@.len(),
            views == construct::constructs_view(ast@),
            from == (if strings_of(views.take(i as int)).len() < located_len {
                strings_of(views.take(i as int)).len()
            } else {
                located_len as nat
            }),
            document@ == with_document(
                views.take(i as int),
                db.deep_view(),
                located.deep_view(),
                current_path.deep_view(),
                before,
            ),
        decreases ast@.len() - i,
    {
        assert(views.take(i + 1).drop_last() =~= views.take(i as int));
        assert(views.take(i + 1).last() == construct::construct_view(ast@[i as int]));
        proof {
            reveal_with_fuel(construct::construct_view, 3);
        }
        let ghost so_far = document@;
        let c = &ast[i];
        match c {
            Construct::Rule { body, .. } => {
                assert(construct::optional_delimited_view(*body) == body.deep_view());
                selectors::build_rule_body_definitions(body, db, document);
            },
            Construct::Derive { body: Some(body), .. } => {
                let strings = derive::derive_strings(body);
                derive::build_derive_definitions(&strings, located, from, current_path, document);
                proof {
                    lemma_unlocated(
                        strings.deep_view(),
                        strings@.len() as int,
                        located.deep_view(),
                        from as int,
                        strings_of(views.take(i as int)).len() as int,
                        current_path.deep_view(),
                        so_far,
                    );
                }
                let count: usize = strings.len();
                from = if count < located_len - from {
                    from + count
                } else {
                    located_len
                };
            },
            Construct::Tween { body: Some(body), .. } => {
                let span = c.span();
                document.insert(span.0, span.1, DefinitionKind::Declaration);
                tween::build_tween_definitions(body, document);
            },
            Construct::Assignment { right: Some(right), .. } => {
                tokens::walk_construct(right, document);
            },
            _ => (),
        }
        i += 1;
    }
    assert(views.take(i as int) =~= views);
}

/// Strings for which nothing was located define nothing, wherever the search for it starts.
proof fn lemma_unlocated(
    strings: Seq<DeriveStringView>,
    n: int,
    located: Seq<LocatedView>,
    a: int,
    b: int,
    current: Seq<ComponentView>,
    before: Map<usize, DefinitionView>,
)
    requires
        a == b || (a >= located.len() && b >= located.len()),
    ensures
        derive::with_derives(strings, n, located, a, current, before) == derive::with_derives(
            strings,
            n,
            located,
            b,
            current,
            before,
        ),
    decreases n,
{
    if 0 < n <= strings.len() {
        lemma_unlocated(strings, n - 1, located, a, b, current, before);
    }
}

} // verus!
