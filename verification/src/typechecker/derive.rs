//! The check of derives.

use super::type_error;
use super::type_error::{CyclicKind, Datatype, PushTypeError, TypeError};
use crate::autocomplete::derive::{derive_strings, same_path, Located, LocatedView};
use crate::autocomplete::normalize_path;
use crate::autocomplete::normalize_path::{Component, ComponentView};
use crate::diagnostic::{AstErrors, DiagnosticView};
use crate::parser::construct;
use crate::parser::construct::{Construct, ConstructView};
use crate::parser::token::Token;
use crate::strings::{has_string, str_eq};
use crate::text;
use crate::text::Range;
use ropey::Rope;
use vstd::prelude::*;

verus! {

/// What the check of derives finds.
pub struct DeriveState {
    pub errors: Seq<DiagnosticView>,
    /// The paths of the files that are derived from, each once.
    pub dependencies: Seq<Seq<char>>,
    /// The same, each with where it was last named.
    pub derives: Seq<(Seq<char>, usize, usize)>,
}

/// The entries with one for the given path, in place of the one that has been there.
pub open spec fn with_derive(
    derives: Seq<(Seq<char>, usize, usize)>,
    path: Seq<char>,
    start: usize,
    end: usize,
) -> Seq<(Seq<char>, usize, usize)>
    decreases derives.len(),
{
    if derives.len() == 0 {
        seq![(path, start, end)]
    } else if derives.last().0 == path {
        derives.drop_last().push((path, start, end))
    } else {
        with_derive(derives.drop_last(), path, start, end).push(derives.last())
    }
}

/// The paths with the given one.
pub open spec fn with_path(paths: Seq<Seq<char>>, path: Seq<char>) -> Seq<Seq<char>> {
    if paths.contains(path) {
        paths
    } else {
        paths.push(path)
    }
}

/// Checks a string that names a file. A document may not derive from itself, and the file
/// has to exist.
pub open spec fn checked_string(
    start: usize,
    end: usize,
    located: LocatedView,
    current: Seq<ComponentView>,
    text: Seq<char>,
    before: DeriveState,
) -> DeriveState {
    let range = text::range_of(text, (start as int, end as int));
    match located {
        LocatedView::Found { path, text: name } => if path == current {
            DeriveState {
                errors: before.errors.push(cyclic_diagnostic(range)),
                ..before
            }
        } else {
            DeriveState {
                dependencies: with_path(before.dependencies, name),
                derives: with_derive(before.derives, name, start, end),
                ..before
            }
        },
        LocatedView::Missing { absolute, .. } => DeriveState {
            errors: before.errors.push(unknown_diagnostic(absolute, range)),
            ..before
        },
    }
}

/// The error of a document that derives from itself.
pub open spec fn cyclic_diagnostic(range: Range) -> DiagnosticView {
    let error = TypeError::CyclicDerive { kind: CyclicKind::Internal };
    type_error::type_diagnostic(error.code()@, error.text(), range)
}

/// The error of a derive from a file that does not exist. It shows the path in its shortest
/// form.
pub open spec fn unknown_diagnostic(path: Seq<ComponentView>, range: Range) -> DiagnosticView {
    type_error::type_diagnostic(
        TypeError::UnknownDerive { path: None }.code()@,
        "Type Error (Unknown Derive): "@ + type_error::quoted_text(
            normalize_path::written(normalize_path::normalized(path)),
        ),
        range,
    )
}

/// The error of a derive from something that is no string.
pub open spec fn invalid_diagnostic(range: Range) -> DiagnosticView {
    let error = TypeError::InvalidType { expected: Some(Datatype::String) };
    type_error::type_diagnostic(error.code()@, error.text(), range)
}

/// Checks the body of a derive. What was located for its strings stands in `located` from
/// `from` on.
pub open spec fn checked_derive(
    body: ConstructView,
    located: Seq<LocatedView>,
    from: int,
    current: Seq<ComponentView>,
    text: Seq<char>,
    before: DeriveState,
) -> DeriveState
    decreases body, 0int,
{
    let span = body.span();
    let invalid = DeriveState {
        errors: before.errors.push(
            invalid_diagnostic(text::range_of(text, (span.0 as int, span.1 as int))),
        ),
        ..before
    };
    match body {
        ConstructView::Node { node } => if crate::autocomplete::derive::string_content(node.token.1) is Some {
            if 0 <= from < located.len() {
                checked_string(
                    node.token.0,
                    node.token.2,
                    located[from],
                    current,
                    text,
                    before,
                )
            } else {
                before
            }
        } else if node.token.1 is Comma {
            before
        } else {
            invalid
        },
        ConstructView::Table { body } => match body.content {
            Some(content) => checked_derives(
                content,
                content.len() as int,
                located,
                from,
                current,
                text,
                before,
            ),
            None => before,
        },
        _ => invalid,
    }
}

/// Whether a construct is a semicolon.
pub open spec fn is_semicolon(c: ConstructView) -> bool {
    match c {
        ConstructView::Node { node } => node.token.1 is SemiColon,
        _ => false,
    }
}

/// Checks the first `n` items of a table of derives.
pub open spec fn checked_derives(
    content: Seq<ConstructView>,
    n: int,
    located: Seq<LocatedView>,
    from: int,
    current: Seq<ComponentView>,
    text: Seq<char>,
    before: DeriveState,
) -> DeriveState
    decreases content, n,
{
    if 0 < n <= content.len() {
        let s = checked_derives(content, n - 1, located, from, current, text, before);
        if is_semicolon(content[n - 1]) {
            s
        } else {
            checked_derive(
                content[n - 1],
                located,
                from + crate::autocomplete::derive::strings_in_all(content.take(n - 1)).len(),
                current,
                text,
                s,
            )
        }
    } else {
        before
    }
}

/// What the executable state of the check holds.
pub open spec fn derive_state(
    errors: &AstErrors,
    dependencies: &Vec<String>,
    derives: &Vec<(String, usize, usize)>,
) -> DeriveState {
    DeriveState {
        errors: errors.0.deep_view(),
        dependencies: dependencies.deep_view(),
        derives: derives.deep_view(),
    }
}

fn add_path(paths: &mut Vec<String>, path: &str)
    ensures
        final(paths).deep_view() == with_path(old(paths).deep_view(), path@),
{
    let ghost views = paths.deep_view();
    if has_string(paths, path) {
        return;
    }
    paths.push(path.to_owned());
    assert(paths.deep_view() =~= views.push(path@));
}

proof fn lemma_with_derive(
    derives: Seq<(Seq<char>, usize, usize)>,
    path: Seq<char>,
    start: usize,
    end: usize,
    i: int,
)
    requires
        0 <= i < derives.len(),
        derives[i].0 == path,
        forall|j: int| i < j < derives.len() ==> (#[trigger] derives[j]).0 != path,
    ensures
        with_derive(derives, path, start, end) == derives.update(i, (path, start, end)),
    decreases derives.len(),
{
    if i == derives.len() - 1 {
        assert(derives.drop_last().push((path, start, end)) =~= derives.update(
            i,
            (path, start, end),
        ));
    } else {
        assert(derives[derives.len() - 1].0 != path);
        lemma_with_derive(derives.drop_last(), path, start, end, i);
        assert(derives.drop_last().update(i, (path, start, end)).push(derives.last())
            =~= derives.update(i, (path, start, end)));
    }
}

proof fn lemma_with_new_derive(
    derives: Seq<(Seq<char>, usize, usize)>,
    path: Seq<char>,
    start: usize,
    end: usize,
)
    requires
        forall|j: int| 0 <= j < derives.len() ==> (#[trigger] derives[j]).0 != path,
    ensures
        with_derive(derives, path, start, end) == seq![(path, start, end)] + derives,
    decreases derives.len(),
{
    if derives.len() > 0 {
        assert(derives[derives.len() - 1].0 != path);
        lemma_with_new_derive(derives.drop_last(), path, start, end);
        assert((seq![(path, start, end)] + derives.drop_last()).push(derives.last()) =~= seq![
            (path, start, end),
        ] + derives);
    } else {
        assert(seq![(path, start, end)] + derives =~= seq![(path, start, end)]);
    }
}

fn add_derive(derives: &mut Vec<(String, usize, usize)>, path: &str, start: usize, end: usize)
    ensures
        final(derives).deep_view() == with_derive(old(derives).deep_view(), path@, start, end),
{
    let ghost views = derives.deep_view();
    let mut i: usize = derives.len();
    while i > 0
        invariant
            i <= derives@.len(),
            *derives == *old(derives),
            views == derives.deep_view(),
            forall|j: int| i <= j < views.len() ==> (#[trigger] views[j]).0 != path@,
        decreases i,
    {
        if str_eq(derives[i - 1].0.as_str(), path) {
            proof {
                lemma_with_derive(views, path@, start, end, i - 1);
            }
            derives.set(i - 1, (path.to_owned(), start, end));
            assert(derives.deep_view() =~= views.update(i - 1, (path@, start, end)));
            return;
        }
        i -= 1;
    }
    proof {
        lemma_with_new_derive(views, path@, start, end);
    }
    derives.insert(0, (path.to_owned(), start, end));
    assert(derives.deep_view() =~= seq![(path@, start, end)] + views);
}

/// Checks the body of a derive.
pub fn typecheck_derive(
    body: &Construct,
    located: &Vec<Located>,
    from: usize,
    current_path: &Vec<Component>,
    rope: &Rope,
    ast_errors: &mut AstErrors,
    dependencies: &mut Vec<String>,
    derives: &mut Vec<(String, usize, usize)>,
)
    ensures
        derive_state(final(ast_errors), final(dependencies), final(derives)) == checked_derive(
            body.deep_view(),
            located.deep_view(),
            from as int,
            current_path.deep_view(),
            text::rope_text(rope),
            derive_state(old(ast_errors), old(dependencies), old(derives)),
        ),
    decreases body,
{
    proof {
        reveal_with_fuel(construct::construct_view, 3);
    }
    match body {
        Construct::Node { node } => {
            let (start, end): (usize, usize) = (node.token.start(), node.token.end());
            match node.token.value() {
                Token::StringSingle(_) | Token::StringMulti(_) => {
                    if from < located.len() {
                        assert(located.deep_view()[from as int]
                            == located@[from as int].deep_view());
                        match &located[from] {
                            Located::Found { path, text } => {
                                if same_path(path, current_path) {
                                    ast_errors.push_type_error(
                                        TypeError::CyclicDerive { kind: CyclicKind::Internal },
                                        Range::from_span(rope, (start, end)),
                                    );
                                } else {
                                    add_path(dependencies, text.as_str());
                                    add_derive(derives, text.as_str(), start, end);
                                }
                            },
                            Located::Missing { absolute, .. } => {
                                ast_errors.push_type_error(
                                    TypeError::UnknownDerive { path: Some(absolute) },
                                    Range::from_span(rope, (start, end)),
                                );
                            },
                        }
                    }
                },
                Token::Comma => (),
                _ => {
                    ast_errors.push_type_error(
                        TypeError::InvalidType { expected: Some(Datatype::String) },
                        Range::from_span(rope, body.span()),
                    );
                },
            }
        },
        Construct::Table { body: delimited } => {
            let content = match &delimited.content {
                Some(content) => content,
                None => return,
            };
            let ghost views = construct::constructs_view(content@);
            let ghost before = derive_state(ast_errors, dependencies, derives);
            let located_len: usize = located.len();
            let mut next: usize = from;
            let mut i: usize = 0;
            assert(views.take(0) =~= Seq::empty());
            while i < content.len()
                invariant
                    i <= content@.len(),
                    *body == (Construct::Table { body: *delimited }),
                    delimited.content == Some(*content),
                    views == construct::constructs_view(content@),
                    located_len == located@.len(),
                    next == from + crate::autocomplete::derive::strings_in_all(views.take(i as int)).len() || next
                        >= located_len && from + crate::autocomplete::derive::strings_in_all(
                        views.take(i as int),
                    ).len() >= located_len,
                    derive_state(ast_errors, dependencies, derives) == checked_derives(
                        views,
                        i as int,
                        located.deep_view(),
                        from as int,
                        current_path.deep_view(),
                        text::rope_text(rope),
                        before,
                    ),
                decreases content@.len() - i,
            {
                let ghost so_far = derive_state(ast_errors, dependencies, derives);
                let ghost exact = from + crate::autocomplete::derive::strings_in_all(views.take(i as int)).len();
                let ghost view = views[i as int];
                assert(view == construct::construct_view(content@[i as int]));
                assert(views.take(i + 1).drop_last() =~= views.take(i as int));
                assert(views.take(i + 1)[i as int] == view);
                let item = &content[i];
                let is_separator = match item {
                    Construct::Node { node } => matches!(node.token.value(), Token::SemiColon),
                    _ => false,
                };
                assert(is_separator == is_semicolon(view));
                if !is_separator {
                    proof {
                        construct::lemma_content_is_smaller(Some(*delimited), i as int);
                        assert(decreases_to!(*body => body->Table_body));
                        lemma_unlocated(
                            view,
                            located.deep_view(),
                            next as int,
                            exact,
                            current_path.deep_view(),
                            text::rope_text(rope),
                            so_far,
                        );
                    }
                    typecheck_derive(
                        item,
                        located,
                        next,
                        current_path,
                        rope,
                        ast_errors,
                        dependencies,
                        derives,
                    );
                }
                let count: usize = derive_strings(item).len();
                assert(crate::autocomplete::derive::strings_in(view).len() == count);
                next = if next < located_len && count < located_len - next {
                    next + count
                } else if next < located_len {
                    located_len
                } else {
                    next
                };
                i += 1;
            }
        },
        _ => {
            ast_errors.push_type_error(
                TypeError::InvalidType { expected: Some(Datatype::String) },
                Range::from_span(rope, body.span()),
            );
        },
    }
}

/// Where nothing was located for the strings, it does not matter where the search for it
/// starts.
pub proof fn lemma_unlocated(
    body: ConstructView,
    located: Seq<LocatedView>,
    a: int,
    b: int,
    current: Seq<ComponentView>,
    text: Seq<char>,
    before: DeriveState,
)
    requires
        a == b || a >= located.len() && b >= located.len(),
    ensures
        checked_derive(body, located, a, current, text, before) == checked_derive(
            body,
            located,
            b,
            current,
            text,
            before,
        ),
    decreases body, 0int,
{
    match body {
        ConstructView::Table { body: table } => match table.content {
            Some(content) => {
                lemma_all_unlocated(
                    content,
                    content.len() as int,
                    located,
                    a,
                    b,
                    current,
                    text,
                    before,
                );
            },
            None => {},
        },
        _ => {},
    }
}

proof fn lemma_all_unlocated(
    content: Seq<ConstructView>,
    n: int,
    located: Seq<LocatedView>,
    a: int,
    b: int,
    current: Seq<ComponentView>,
    text: Seq<char>,
    before: DeriveState,
)
    requires
        a == b || a >= located.len() && b >= located.len(),
    ensures
        checked_derives(content, n, located, a, current, text, before) == checked_derives(
            content,
            n,
            located,
            b,
            current,
            text,
            before,
        ),
    decreases content, n,
{
    if 0 < n <= content.len() {
        lemma_all_unlocated(content, n - 1, located, a, b, current, text, before);
        let s = checked_derives(content, n - 1, located, a, current, text, before);
        let k = crate::autocomplete::derive::strings_in_all(content.take(n - 1)).len();
        lemma_unlocated(content[n - 1], located, a + k, b + k, current, text, s);
    }
}

} // verus!
