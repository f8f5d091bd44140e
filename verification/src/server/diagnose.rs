//! How a document and what depends on it are diagnosed.

use super::document::Document;
use super::documents;
use super::documents::{gather_dependencies, DocumentView, Documents, GatheredDependencies};
use crate::autocomplete;
use crate::autocomplete::build_definitions;
use crate::autocomplete::derive::{same_path, Located, LocatedView};
use crate::autocomplete::normalize_path::{Component, ComponentView};
use crate::diagnostic::{AstErrors, DiagnosticView};
use crate::parser::construct;
use crate::parser::construct::ConstructView;
use crate::parser::Parser;
use crate::reflection::{Reflection, ReflectionView};
use crate::strings::{has_string, str_eq};
use crate::text;
use crate::text::{rope_from_str, Range};
use crate::typechecker;
use crate::typechecker::type_error;
use crate::typechecker::type_error::{CyclicKind, PushTypeError, TypeError};
use crate::typechecker::{Checked, Typechecker};
use vstd::prelude::*;

verus! {

/// What is found out about a document on its own.
pub struct Analysis {
    pub document: Document,
    /// The errors of the parser and of the checks.
    pub errors: AstErrors,
    /// The files that the document derives from, each with where it is named.
    pub derives: Vec<(String, usize, usize)>,
}

/// What the checks of a document find when nothing is known of it.
pub open spec fn checked_alone(
    ast: Seq<ConstructView>,
    located: Seq<LocatedView>,
    current: Seq<ComponentView>,
    text: Seq<char>,
    db: ReflectionView,
) -> Checked {
    typechecker::checked_document(
        ast,
        located,
        current,
        text,
        db,
        Checked {
            errors: Seq::empty(),
            definitions: Map::empty(),
            dependencies: Seq::empty(),
            derives: Seq::empty(),
        },
    )
}

/// Checks a parsed document, and defines what its bytes stand for.
pub fn analyze(
    parsed: Parser,
    source: String,
    current_path: &Vec<Component>,
    located: &Vec<Located>,
    db: &Reflection,
) -> (r: Analysis)
    ensures
        ({
            let ast = construct::constructs_view(parsed.ast@);
            let checked = checked_alone(
                ast,
                located.deep_view(),
                current_path.deep_view(),
                text::rope_text(&parsed.rope),
                db.deep_view(),
            );
            &&& r.errors.0.deep_view() == parsed.ast_errors.0.deep_view() + checked.errors
            &&& r.derives.deep_view() == checked.derives
            &&& r.document.dependencies.deep_view() == checked.dependencies
            &&& r.document.definitions@ == autocomplete::with_document(
                ast,
                db.deep_view(),
                located.deep_view(),
                current_path.deep_view(),
                checked.definitions,
            )
        }),
        r.document.source@ == source@,
        r.document.resolved_types.deep_view().tokens.len() == 0,
        r.document.resolved_types.deep_view().properties.len() == 0,
{
    let mut document = Document::new(source);
    assert(document.dependencies.deep_view() =~= Seq::empty());
    let (checked, derives) = Typechecker::new(parsed, current_path, located, db, &mut document);
    build_definitions(
        &checked.parsed.ast,
        &mut document.definitions,
        current_path,
        located,
        db,
    );
    Analysis { document, errors: checked.parsed.ast_errors, derives }
}

/// Where the document names a file.
pub open spec fn derive_span(derives: Seq<(Seq<char>, usize, usize)>, path: Seq<char>) -> Option<
    (usize, usize),
>
    decreases derives.len(),
{
    if derives.len() == 0 {
        None
    } else if derives[0].0 == path {
        Some((derives[0].1, derives[0].2))
    } else {
        derive_span(derives.drop_first(), path)
    }
}

/// The error of a derive that leads into a cycle, with the chain that closes it.
pub open spec fn cycle_diagnostic(chain: Seq<char>, range: Range) -> DiagnosticView {
    type_error::type_diagnostic(
        TypeError::CyclicDerive { kind: CyclicKind::Internal }.code()@,
        "Type Error (Cyclic Derive): "@ + chain,
        range,
    )
}

/// The errors of the derives that lead into cycles.
pub open spec fn cycle_errors(
    cycles: Seq<(Seq<char>, Seq<char>)>,
    derives: Seq<(Seq<char>, usize, usize)>,
    text: Seq<char>,
) -> Seq<DiagnosticView>
    decreases cycles.len(),
{
    if cycles.len() == 0 {
        Seq::empty()
    } else {
        let before = cycle_errors(cycles.drop_last(), derives, text);
        match derive_span(derives, cycles.last().0) {
            Some(span) => before.push(
                cycle_diagnostic(
                    cycles.last().1,
                    text::range_of(text, (span.0 as int, span.1 as int)),
                ),
            ),
            None => before,
        }
    }
}

proof fn lemma_span_skips(derives: Seq<(Seq<char>, usize, usize)>, path: Seq<char>, n: int)
    requires
        0 <= n <= derives.len(),
        forall|j: int| 0 <= j < n ==> (#[trigger] derives[j]).0 != path,
    ensures
        derive_span(derives, path) == derive_span(derives.skip(n), path),
    decreases n,
{
    if n == 0 {
        assert(derives.skip(0) =~= derives);
    } else {
        assert forall|j: int| 0 <= j < n - 1 implies (
        #[trigger] derives.drop_first()[j]).0 != path by {
            assert(derives[j + 1].0 != path);
        }
        assert(derives[0].0 != path);
        lemma_span_skips(derives.drop_first(), path, n - 1);
        assert(derives.drop_first().skip(n - 1) =~= derives.skip(n));
    }
}

fn find_span(derives: &Vec<(String, usize, usize)>, path: &str) -> (r: Option<(usize, usize)>)
    ensures
        r == derive_span(derives.deep_view(), path@),
{
    let ghost views = derives.deep_view();
    let mut i: usize = 0;
    while i < derives.len()
        invariant
            i <= derives@.len(),
            views == derives.deep_view(),
            forall|j: int| 0 <= j < i ==> (#[trigger] views[j]).0 != path@,
        decreases derives@.len() - i,
    {
        assert(views[i as int] == derives@[i as int].deep_view());
        if str_eq(derives[i].0.as_str(), path) {
            proof {
                lemma_span_skips(views, path@, i as int);
                assert(views.skip(i as int)[0] == views[i as int]);
            }
            return Some((derives[i].1, derives[i].2));
        }
        i += 1;
    }
    proof {
        lemma_span_skips(views, path@, i as int);
    }
    None
}

/// Adds the errors of the derives that lead into cycles.
pub fn report_cycles(
    gathered: &GatheredDependencies,
    derives: &Vec<(String, usize, usize)>,
    source: &str,
    errors: &mut AstErrors,
)
    ensures
        final(errors).0.deep_view() == old(errors).0.deep_view() + cycle_errors(
            gathered.cyclic_dependencies.deep_view(),
            derives.deep_view(),
            source@,
        ),
{
    let rope = rope_from_str(source);
    let cycles = &gathered.cyclic_dependencies;
    let ghost views = cycles.deep_view();
    let ghost before = errors.0.deep_view();
    let mut i: usize = 0;
    assert(views.take(0) =~= Seq::empty());
    assert(before + Seq::<DiagnosticView>::empty() =~= before);
    while i < cycles.len()
        invariant
            i <= cycles@.len(),
            views == cycles.deep_view(),
            text::rope_text(&rope) == source@,
            errors.0.deep_view() == before + cycle_errors(
                views.take(i as int),
                derives.deep_view(),
                source@,
            ),
        decreases cycles@.len() - i,
    {
        let ghost found = cycle_errors(views.take(i as int), derives.deep_view(), source@);
        let (path, chain) = &cycles[i];
        assert(views.take(i + 1).drop_last() =~= views.take(i as int));
        assert(views.take(i + 1).last() == (path@, chain@));
        if let Some(span) = find_span(derives, path.as_str()) {
            let range = Range::from_span(&rope, span);
            errors.push_type_error(
                TypeError::CyclicDerive { kind: CyclicKind::External(chain.as_str()) },
                range,
            );
            assert(before + found.push(cycle_diagnostic(chain@, range)) =~= (before + found).push(
                cycle_diagnostic(chain@, range),
            ));
        }
        i += 1;
    }
    assert(views.take(i as int) =~= views);
}

/// Whether a path is one that is not to be diagnosed again.
pub open spec fn is_skipped(path: Seq<char>, initiator: Option<Seq<char>>) -> bool {
    initiator == Some(path)
}

/// The documents to diagnose again when one has changed: those that it depends on or has
/// depended on, each once, but not the one that set this off.
pub open spec fn to_recheck(paths: Seq<Seq<char>>, initiator: Option<Seq<char>>) -> Seq<Seq<char>>
    decreases paths.len(),
{
    if paths.len() == 0 {
        Seq::empty()
    } else {
        let before = to_recheck(paths.drop_last(), initiator);
        if is_skipped(paths.last(), initiator) || before.contains(paths.last()) {
            before
        } else {
            before.push(paths.last())
        }
    }
}

fn add_to_recheck(paths: &Vec<String>, initiator: Option<&str>, out: &mut Vec<String>, done: Ghost<
    Seq<Seq<char>>,
>)
    requires
        old(out).deep_view() == to_recheck(done@, initiator.deep_view()),
    ensures
        final(out).deep_view() == to_recheck(done@ + paths.deep_view(), initiator.deep_view()),
{
    let ghost views = paths.deep_view();
    let ghost start = done@;
    let mut i: usize = 0;
    assert(start + views.take(0) =~= start);
    while i < paths.len()
        invariant
            i <= paths@.len(),
            views == paths.deep_view(),
            start == done@,
            out.deep_view() == to_recheck(start + views.take(i as int), initiator.deep_view()),
        decreases paths@.len() - i,
    {
        let path = paths[i].as_str();
        let ghost next = start + views.take(i + 1);
        assert(next.drop_last() =~= start + views.take(i as int));
        assert(next.last() == path@);
        let skipped = match initiator {
            Some(initiator) => str_eq(initiator, path),
            None => false,
        };
        assert(skipped == is_skipped(path@, initiator.deep_view()));
        if !skipped && !has_string(out, path) {
            let ghost before = out.deep_view();
            out.push(path.to_owned());
            assert(out.deep_view() =~= before.push(path@));
        }
        i += 1;
    }
    assert(views.take(i as int) =~= views);
}

/// The documents to diagnose again when one has changed.
pub fn documents_to_recheck(
    dependencies: &Vec<String>,
    old_dependencies: &Vec<String>,
    initiator: Option<&str>,
) -> (r: Vec<String>)
    ensures
        r.deep_view() == to_recheck(
            dependencies.deep_view() + old_dependencies.deep_view(),
            initiator.deep_view(),
        ),
{
    let mut out: Vec<String> = Vec::new();
    assert(out.deep_view() =~= Seq::empty());
    add_to_recheck(dependencies, initiator, &mut out, Ghost(Seq::empty()));
    assert(Seq::empty() + dependencies.deep_view() =~= dependencies.deep_view());
    add_to_recheck(old_dependencies, initiator, &mut out, Ghost(dependencies.deep_view()));
    out
}

/// Each document is diagnosed again exactly where it is one of the dependencies, old or new,
/// and did not set this off.
pub proof fn lemma_to_recheck(
    paths: Seq<Seq<char>>,
    initiator: Option<Seq<char>>,
    path: Seq<char>,
)
    ensures
        to_recheck(paths, initiator).contains(path) <==> paths.contains(path) && initiator != Some(
            path,
        ),
        to_recheck(paths, initiator).no_duplicates(),
    decreases paths.len(),
{
    if paths.len() > 0 {
        let shorter = paths.drop_last();
        lemma_to_recheck(shorter, initiator, path);
        let before = to_recheck(shorter, initiator);
        let after = to_recheck(paths, initiator);
        if paths.contains(path) && !shorter.contains(path) {
            let k = choose|k: int| 0 <= k < paths.len() && paths[k] == path;
            if k < shorter.len() {
                assert(shorter[k] == path);
            }
            assert(paths.last() == path);
        }
        if shorter.contains(path) {
            let k = choose|k: int| 0 <= k < shorter.len() && shorter[k] == path;
            assert(paths[k] == path);
        }
        if paths.last() == path {
            assert(paths[paths.len() - 1] == path);
        }
        if before.contains(path) {
            let k = choose|k: int| 0 <= k < before.len() && before[k] == path;
            assert(after[k] == path);
        }
        if after.contains(path) && !before.contains(path) {
            let k = choose|k: int| 0 <= k < after.len() && after[k] == path;
            if k < before.len() {
                assert(before[k] == path);
            }
            assert(paths.last() == path);
        }
        if paths.last() == path && !is_skipped(path, initiator) && !before.contains(path) {
            assert(after[before.len() as int] == path);
        }
    }
}

/// Whether the configuration of a document also holds for one that it depends on: both are
/// in the same workspace, or both in none.
pub fn shares_luaurc(root: Option<&Vec<Component>>, other: Option<&Vec<Component>>) -> (r: bool)
    ensures
        r == (root.deep_view() == other.deep_view()),
{
    match (root, other) {
        (Some(root), Some(other)) => same_path(root, other),
        (None, None) => true,
        _ => false,
    }
}

/// Puts a document in the place of its old self, and says which documents have to be
/// diagnosed again because of it.
pub fn begin_diagnosis(
    documents: &mut Documents,
    path: String,
    document: Document,
    initiator: Option<&str>,
) -> (r: Vec<String>)
    ensures
        final(documents)@ == old(documents)@.insert(path@, document@),
        r.deep_view() == to_recheck(
            document@.dependencies + documents::derived(old(documents)@, path@),
            initiator.deep_view(),
        ),
{
    let none: Vec<String> = Vec::new();
    assert(none.deep_view() =~= Seq::empty());
    let out = match documents.get(path.as_str()) {
        Some(old_document) => documents_to_recheck(
            &document.dependencies,
            &old_document.dependencies,
            initiator,
        ),
        None => documents_to_recheck(&document.dependencies, &none, initiator),
    };
    documents.insert(path, document);
    out
}

/// Whether the errors of derives are those of the cycles that a document leads into.
pub open spec fn are_cycle_errors(
    errors: Seq<DiagnosticView>,
    all: Map<Seq<char>, DocumentView>,
    path: Seq<char>,
    derives: Seq<(Seq<char>, usize, usize)>,
) -> bool {
    exists|reports: Seq<(Seq<char>, Seq<char>)>|
        {
            &&& errors == #[trigger] cycle_errors(reports, derives, all[path].source)
            &&& reports.no_duplicates()
            &&& forall|i: int|
                0 <= i < reports.len() ==> documents::is_report(all, path, #[trigger] reports[i])
            &&& forall|other: Seq<char>|
                other != path && #[trigger] documents::depends_on(all, path, other)
                    && documents::derived(all, other).contains(path) ==> documents::is_reported(
                    all,
                    path,
                    reports,
                    other,
                )
        }
}

/// Takes a document out again, and adds the errors of the derives that lead into cycles.
pub fn finish_diagnosis(
    documents: &mut Documents,
    path: &str,
    derives: &Vec<(String, usize, usize)>,
    errors: &mut AstErrors,
) -> (r: Option<Document>)
    ensures
        final(documents)@ == old(documents)@.remove(path@),
        match r {
            Some(document) => {
                &&& old(documents)@.dom().contains(path@)
                &&& document@ == old(documents)@[path@]
                &&& exists|found: Seq<DiagnosticView>|
                    final(errors).0.deep_view() == old(errors).0.deep_view() + found
                        && #[trigger] are_cycle_errors(
                        found,
                        old(documents)@,
                        path@,
                        derives.deep_view(),
                    )
            },
            None => !old(documents)@.dom().contains(path@) && *final(errors) == *old(errors),
        },
{
    let ghost all = documents@;
    let document = match documents.remove(path) {
        Some(document) => document,
        None => return None,
    };
    let gathered = gather_dependencies(path, &document, documents);
    assert(documents@.insert(path@, document@) =~= all);
    report_cycles(&gathered, derives, document.source.as_str(), errors);
    proof {
        let reports = gathered.cyclic_dependencies.deep_view();
        let found = cycle_errors(reports, derives.deep_view(), all[path@].source);
        assert(are_cycle_errors(found, all, path@, derives.deep_view()));
    }
    Some(document)
}

proof fn lemma_reports_are_errors(
    reports: Seq<(Seq<char>, Seq<char>)>,
    derives: Seq<(Seq<char>, usize, usize)>,
    text: Seq<char>,
    i: int,
)
    requires
        0 <= i < reports.len(),
        derive_span(derives, reports[i].0) is Some,
    ensures
        cycle_errors(reports, derives, text).len() > 0,
    decreases reports.len(),
{
    if i < reports.len() - 1 {
        assert(reports.drop_last()[i] == reports[i]);
        lemma_reports_are_errors(reports.drop_last(), derives, text, i);
    }
}

/// A document that derives from itself by way of another one gets an error for it, where it
/// is known of all files that it derives from where it names them.
pub proof fn lemma_cycle_is_reported(
    errors: Seq<DiagnosticView>,
    all: Map<Seq<char>, DocumentView>,
    path: Seq<char>,
    derives: Seq<(Seq<char>, usize, usize)>,
    other: Seq<char>,
)
    requires
        are_cycle_errors(errors, all, path, derives),
        forall|i: int|
            0 <= i < documents::derived(all, path).len() ==> derive_span(
                derives,
                #[trigger] documents::derived(all, path)[i],
            ) is Some,
        other != path,
        documents::depends_on(all, path, other),
        documents::derived(all, other).contains(path),
    ensures
        errors.len() > 0,
{
    let reports = choose|reports: Seq<(Seq<char>, Seq<char>)>|
        {
            &&& errors == #[trigger] cycle_errors(reports, derives, all[path].source)
            &&& reports.no_duplicates()
            &&& forall|i: int|
                0 <= i < reports.len() ==> documents::is_report(all, path, #[trigger] reports[i])
            &&& forall|other: Seq<char>|
                other != path && #[trigger] documents::depends_on(all, path, other)
                    && documents::derived(all, other).contains(path) ==> documents::is_reported(
                    all,
                    path,
                    reports,
                    other,
                )
        };
    assert(documents::is_reported(all, path, reports, other));
    let (i, chain) = choose|i: int, chain: Seq<Seq<char>>|
        0 <= i < reports.len() && #[trigger] documents::is_report_of(all, path, reports[i], chain)
            && chain.last() == other;
    let names = documents::derived(all, path);
    assert(names.contains(chain[1])) by {
        assert(documents::derived(all, chain[1 - 1]).contains(chain[1]));
    }
    let k = choose|k: int| 0 <= k < names.len() && names[k] == chain[1];
    assert(derive_span(derives, names[k]) is Some);
    lemma_reports_are_errors(reports, derives, all[path].source, i);
}

/// Whether it is known of exactly the dependencies where they are named.
pub open spec fn is_covered(dependencies: Seq<Seq<char>>, derives: Seq<(Seq<char>, usize, usize)>) -> bool {
    forall|path: Seq<char>| #[trigger]
        dependencies.contains(path) <==> derive_span(derives, path) is Some
}

proof fn lemma_derive_span(derives: Seq<(Seq<char>, usize, usize)>, path: Seq<char>)
    ensures
        derive_span(derives, path) is Some <==> exists|i: int|
            0 <= i < derives.len() && (#[trigger] derives[i]).0 == path,
    decreases derives.len(),
{
    if derives.len() > 0 {
        let rest = derives.drop_first();
        lemma_derive_span(rest, path);
        if derive_span(rest, path) is Some {
            let i = choose|i: int| 0 <= i < rest.len() && (#[trigger] rest[i]).0 == path;
            assert(derives[i + 1].0 == path);
        }
        if exists|i: int| 0 <= i < derives.len() && (#[trigger] derives[i]).0 == path {
            let i = choose|i: int| 0 <= i < derives.len() && (#[trigger] derives[i]).0 == path;
            if i > 0 {
                assert(rest[i - 1].0 == path);
            }
        }
    }
}

proof fn lemma_with_derive_names(
    derives: Seq<(Seq<char>, usize, usize)>,
    path: Seq<char>,
    start: usize,
    end: usize,
    other: Seq<char>,
)
    ensures
        derive_span(
            typechecker::derive::with_derive(derives, path, start, end),
            other,
        ) is Some <==> other == path || derive_span(derives, other) is Some,
    decreases derives.len(),
{
    let after = typechecker::derive::with_derive(derives, path, start, end);
    lemma_derive_span(after, other);
    lemma_derive_span(derives, other);
    if derives.len() == 0 {
        assert(after[0].0 == path);
    } else {
        let shorter = derives.drop_last();
        let before = typechecker::derive::with_derive(shorter, path, start, end);
        lemma_with_derive_names(shorter, path, start, end, other);
        lemma_derive_span(before, other);
        lemma_derive_span(shorter, other);
        let last = derives.len() - 1;
        if derives.last().0 == path {
            assert(after == shorter.push((path, start, end)));
            assert(after[last].0 == path);
            assert(forall|i: int| 0 <= i < last ==> after[i] == derives[i]);
            if exists|i: int| 0 <= i < derives.len() && (#[trigger] derives[i]).0 == other {
                let i = choose|i: int| 0 <= i < derives.len() && (#[trigger] derives[i]).0 == other;
                assert(after[i].0 == other);
            }
            if exists|i: int| 0 <= i < after.len() && (#[trigger] after[i]).0 == other {
                let i = choose|i: int| 0 <= i < after.len() && (#[trigger] after[i]).0 == other;
                assert(derives[i].0 == other);
            }
        } else {
            assert(after == before.push(derives.last()));
            if exists|i: int| 0 <= i < after.len() && (#[trigger] after[i]).0 == other {
                let i = choose|i: int| 0 <= i < after.len() && (#[trigger] after[i]).0 == other;
                if i < before.len() {
                    assert(before[i].0 == other);
                    if derive_span(shorter, other) is Some {
                        let k = choose|k: int|
                            0 <= k < shorter.len() && (#[trigger] shorter[k]).0 == other;
                        assert(derives[k].0 == other);
                    }
                } else {
                    assert(derives[last].0 == other);
                }
            }
            if exists|i: int| 0 <= i < derives.len() && (#[trigger] derives[i]).0 == other {
                let i = choose|i: int| 0 <= i < derives.len() && (#[trigger] derives[i]).0 == other;
                if i < last {
                    assert(shorter[i].0 == other);
                    let k = choose|k: int| 0 <= k < before.len() && (#[trigger] before[k]).0 == other;
                    assert(after[k].0 == other);
                } else {
                    assert(after[before.len() as int].0 == other);
                }
            }
            if other == path {
                let k = choose|k: int| 0 <= k < before.len() && (#[trigger] before[k]).0 == other;
                assert(after[k].0 == other);
            }
        }
    }
}

proof fn lemma_string_covers(
    start: usize,
    end: usize,
    located: LocatedView,
    current: Seq<ComponentView>,
    text: Seq<char>,
    before: typechecker::derive::DeriveState,
)
    requires
        is_covered(before.dependencies, before.derives),
    ensures
        ({
            let after = typechecker::derive::checked_string(
                start,
                end,
                located,
                current,
                text,
                before,
            );
            is_covered(after.dependencies, after.derives)
        }),
{
    let after = typechecker::derive::checked_string(start, end, located, current, text, before);
    match located {
        LocatedView::Found { path, text: name } => {
            if path != current {
                assert forall|other: Seq<char>| #[trigger]
                    after.dependencies.contains(other) <==> derive_span(
                        after.derives,
                        other,
                    ) is Some by {
                    lemma_with_derive_names(before.derives, name, start, end, other);
                    assert(before.dependencies.contains(other) <==> derive_span(
                        before.derives,
                        other,
                    ) is Some);
                    if !before.dependencies.contains(name) {
                        let paths = before.dependencies;
                        let longer = paths.push(name);
                        assert(longer[paths.len() as int] == name);
                        if paths.contains(other) {
                            let k = choose|k: int| 0 <= k < paths.len() && paths[k] == other;
                            assert(longer[k] == other);
                        }
                        if longer.contains(other) && other != name {
                            let k = choose|k: int| 0 <= k < longer.len() && longer[k] == other;
                            assert(paths[k] == other);
                        }
                    }
                }
            }
        },
        _ => {},
    }
}

proof fn lemma_derive_covers(
    body: ConstructView,
    located: Seq<LocatedView>,
    from: int,
    current: Seq<ComponentView>,
    text: Seq<char>,
    before: typechecker::derive::DeriveState,
)
    requires
        is_covered(before.dependencies, before.derives),
    ensures
        ({
            let after = typechecker::derive::checked_derive(
                body,
                located,
                from,
                current,
                text,
                before,
            );
            is_covered(after.dependencies, after.derives)
        }),
    decreases body, 0int,
{
    match body {
        ConstructView::Node { node } => {
            if crate::autocomplete::derive::string_content(node.token.1) is Some && 0 <= from
                < located.len() {
                lemma_string_covers(
                    node.token.0,
                    node.token.2,
                    located[from],
                    current,
                    text,
                    before,
                );
            }
        },
        ConstructView::Table { body: table } => match table.content {
            Some(content) => {
                lemma_derives_cover(
                    content,
                    content.len() as int,
                    located,
                    from,
                    current,
                    text,
                    before,
                );
            },
            None => {},
        },
        _ => {},
    }
}

proof fn lemma_derives_cover(
    content: Seq<ConstructView>,
    n: int,
    located: Seq<LocatedView>,
    from: int,
    current: Seq<ComponentView>,
    text: Seq<char>,
    before: typechecker::derive::DeriveState,
)
    requires
        is_covered(before.dependencies, before.derives),
    ensures
        ({
            let after = typechecker::derive::checked_derives(
                content,
                n,
                located,
                from,
                current,
                text,
                before,
            );
            is_covered(after.dependencies, after.derives)
        }),
    decreases content, n,
{
    if 0 < n <= content.len() {
        lemma_derives_cover(content, n - 1, located, from, current, text, before);
        let s = typechecker::derive::checked_derives(
            content,
            n - 1,
            located,
            from,
            current,
            text,
            before,
        );
        lemma_derive_covers(
            content[n - 1],
            located,
            from + crate::autocomplete::derive::strings_in_all(content.take(n - 1)).len(),
            current,
            text,
            s,
        );
    }
}

proof fn lemma_checked_covers(
    ast: Seq<ConstructView>,
    located: Seq<LocatedView>,
    current: Seq<ComponentView>,
    text: Seq<char>,
    db: ReflectionView,
    before: Checked,
)
    requires
        is_covered(before.dependencies, before.derives),
    ensures
        ({
            let after = typechecker::checked_document(ast, located, current, text, db, before);
            is_covered(after.dependencies, after.derives)
        }),
    decreases ast.len(),
{
    if ast.len() > 0 {
        let shorter = ast.drop_last();
        lemma_checked_covers(shorter, located, current, text, db, before);
        let s = typechecker::checked_document(shorter, located, current, text, db, before);
        match ast.last() {
            ConstructView::Derive { body: Some(body), .. } => {
                lemma_derive_covers(
                    *body,
                    located,
                    autocomplete::strings_of(shorter).len() as int,
                    current,
                    text,
                    typechecker::derive::DeriveState {
                        errors: s.errors,
                        dependencies: s.dependencies,
                        derives: s.derives,
                    },
                );
            },
            _ => {},
        }
    }
}

/// The checks of a document say of each file that it depends on where it names it.
pub proof fn lemma_dependencies_are_named(
    ast: Seq<ConstructView>,
    located: Seq<LocatedView>,
    current: Seq<ComponentView>,
    text: Seq<char>,
    db: ReflectionView,
)
    ensures
        ({
            let after = checked_alone(ast, located, current, text, db);
            is_covered(after.dependencies, after.derives)
        }),
{
    let before = Checked {
        errors: Seq::empty(),
        definitions: Map::empty(),
        dependencies: Seq::empty(),
        derives: Seq::empty(),
    };
    lemma_checked_covers(ast, located, current, text, db, before);
}

} // verus!
