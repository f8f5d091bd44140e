//! What comes of the strings of a derive.

use super::definitions::DefinitionView;
use super::derive::DeriveState;
use super::frame;
use crate::autocomplete;
use crate::autocomplete::derive::{DeriveStringView, LocatedView};
use crate::autocomplete::normalize_path;
use crate::autocomplete::normalize_path::ComponentView;
use crate::parser::construct::ConstructView;
use crate::parser::order;
use crate::parser::token::{SpannedToken, Token};
use crate::text;
use vstd::prelude::*;

verus! {

/// The strings among tokens, in order, each with its place.
pub open spec fn strings_among(tokens: Seq<SpannedToken>) -> Seq<DeriveStringView>
    decreases tokens.len(),
{
    if tokens.len() == 0 {
        Seq::empty()
    } else {
        let token = tokens.last();
        let front = strings_among(tokens.drop_last());
        match token.1 {
            Token::StringSingle(content) => front.push(
                DeriveStringView { start: token.0, content: content@, end: token.2 },
            ),
            Token::StringMulti(string) => front.push(
                DeriveStringView { start: token.0, content: string.content@, end: token.2 },
            ),
            _ => front,
        }
    }
}

broadcast proof fn lemma_strings_among<'a>(a: Seq<SpannedToken<'a>>, b: Seq<SpannedToken<'a>>)
    ensures
        #[trigger] strings_among(a + b) == strings_among(a) + strings_among(b),
    decreases b.len(),
{
    if b.len() == 0 {
        assert(a + b =~= a);
        assert(strings_among(a) + strings_among(b) =~= strings_among(a));
    } else {
        assert((a + b).drop_last() =~= a + b.drop_last());
        lemma_strings_among(a, b.drop_last());
        assert(strings_among(a + b) =~= strings_among(a) + strings_among(b));
    }
}

/// Whether a construct is a single token, or a table of such and of tables between round
/// brackets.
pub open spec fn is_list(body: ConstructView) -> bool
    decreases body,
{
    match body {
        ConstructView::Node { .. } => true,
        ConstructView::Table { body } => {
            &&& body.left.token.1 is ParensOpen
            &&& body.right is Some ==> body.right->0.token.1 is ParensClose
            &&& match body.content {
                Some(content) => are_lists(content),
                None => true,
            }
        },
        _ => false,
    }
}

pub open spec fn are_lists(content: Seq<ConstructView>) -> bool
    decreases content,
{
    forall|i: int| 0 <= i < content.len() ==> is_list(#[trigger] content[i])
}

proof fn lemma_no_string(token: SpannedToken)
    requires
        token.1 is ParensOpen || token.1 is ParensClose,
    ensures
        strings_among(seq![token]) == Seq::<DeriveStringView>::empty(),
{
    let tokens = seq![token];
    assert(tokens.drop_last() =~= Seq::empty());
    assert(strings_among(tokens.drop_last()) =~= Seq::empty());
}

/// The strings of a derive are all the string tokens of its body, at any depth of tables, in
/// order.
pub proof fn lemma_strings_are_all(body: ConstructView)
    requires
        is_list(body),
    ensures
        autocomplete::derive::strings_in(body) == strings_among(order::tokens_of(body)),
    decreases body,
{
    broadcast use lemma_strings_among;

    reveal_with_fuel(order::tokens_of, 3);
    match body {
        ConstructView::Node { node } => {
            let tokens = seq![node.token];
            assert(tokens.drop_last() =~= Seq::empty());
            assert(strings_among(tokens.drop_last()) =~= Seq::empty());
            assert(autocomplete::derive::strings_in(body) =~= strings_among(tokens));
        },
        ConstructView::Table { body: table } => {
            lemma_no_string(table.left.token);
            let none = Seq::<SpannedToken>::empty();
            assert(strings_among(none) =~= Seq::empty());
            if let Some(right) = table.right {
                lemma_no_string(right.token);
            }
            if let Some(content) = table.content {
                assert(decreases_to!(table => table.content));
                assert(decreases_to!(table.content => content));
                lemma_all_strings(content);
            }
            assert(autocomplete::derive::strings_in(body) =~= strings_among(
                order::tokens_of(body),
            ));
        },
        _ => {},
    }
}

proof fn lemma_all_strings(content: Seq<ConstructView>)
    requires
        are_lists(content),
    ensures
        autocomplete::derive::strings_in_all(content) == strings_among(
            order::all_tokens_of(content),
        ),
    decreases content,
{
    broadcast use lemma_strings_among;

    if content.len() > 0 {
        assert(decreases_to!(content => content[content.len() - 1]));
        let front = content.drop_last();
        assert(forall|i: int| 0 <= i < front.len() ==> #[trigger] front[i] == content[i]);
        lemma_all_strings(front);
        lemma_strings_are_all(content[content.len() - 1]);
    }
}

/// Whether a string has led to what was located for it: a file is depended on and its name
/// kept with the derives; the document itself, and a file that does not exist, are reported
/// where the string stands.
pub open spec fn is_settled(
    string: DeriveStringView,
    located: LocatedView,
    current: Seq<ComponentView>,
    text: Seq<char>,
    after: DeriveState,
) -> bool {
    let range = text::range_of(text, (string.start as int, string.end as int));
    match located {
        LocatedView::Found { path, text: name } => if path == current {
            after.errors.contains(super::derive::cyclic_diagnostic(range))
        } else {
            &&& after.dependencies.contains(name)
            &&& has_name(after.derives, name)
        },
        LocatedView::Missing { absolute, .. } => after.errors.contains(
            super::derive::unknown_diagnostic(absolute, range),
        ),
    }
}

/// Whether all strings have led to what was located for them.
pub open spec fn are_settled(
    strings: Seq<DeriveStringView>,
    located: Seq<LocatedView>,
    from: int,
    current: Seq<ComponentView>,
    text: Seq<char>,
    after: DeriveState,
) -> bool {
    forall|i: int|
        0 <= i < strings.len() && 0 <= from + i < located.len() ==> is_settled(
            #[trigger] strings[i],
            located[from + i],
            current,
            text,
            after,
        )
}

/// Whether nothing was lost, and each new dependency was located for one of the strings.
pub open spec fn adds_located(
    before: DeriveState,
    after: DeriveState,
    located: Seq<LocatedView>,
    from: int,
    count: nat,
    current: Seq<ComponentView>,
) -> bool {
    &&& forall|i: int|
        0 <= i < before.errors.len() ==> after.errors.contains(#[trigger] before.errors[i])
    &&& forall|name: Seq<char>| #[trigger]
        before.dependencies.contains(name) ==> after.dependencies.contains(name)
    &&& forall|name: Seq<char>| #[trigger]
        has_name(before.derives, name) ==> has_name(after.derives, name)
    &&& forall|name: Seq<char>| #[trigger]
        after.dependencies.contains(name) ==> before.dependencies.contains(name) || is_located(
            name,
            located,
            from,
            count,
            current,
        )
}

/// Whether the derives name a file.
pub open spec fn has_name(derives: Seq<(Seq<char>, usize, usize)>, name: Seq<char>) -> bool {
    exists|i: int| 0 <= i < derives.len() && (#[trigger] derives[i]).0 == name
}

/// Whether one of the strings led to another file of that name.
pub open spec fn is_located(
    name: Seq<char>,
    located: Seq<LocatedView>,
    from: int,
    count: nat,
    current: Seq<ComponentView>,
) -> bool {
    exists|k: int|
        from <= k < from + count && 0 <= k < located.len() && (#[trigger] located[k] matches
            LocatedView::Found { path, text } && path != current && text == name)
}

proof fn lemma_with_derive(
    derives: Seq<(Seq<char>, usize, usize)>,
    path: Seq<char>,
    start: usize,
    end: usize,
    name: Seq<char>,
)
    ensures
        has_name(derives, name) || name == path ==> has_name(
            super::derive::with_derive(derives, path, start, end),
            name,
        ),
    decreases derives.len(),
{
    let after = super::derive::with_derive(derives, path, start, end);
    if derives.len() == 0 {
        assert(after[0].0 == path);
    } else if derives.last().0 == path {
        let n = derives.len() - 1;
        assert(after[n].0 == path);
        if has_name(derives, name) {
            let i = choose|i: int| 0 <= i < derives.len() && (#[trigger] derives[i]).0 == name;
            if i < n {
                assert(after[i].0 == name);
            }
        }
    } else {
        let front = derives.drop_last();
        lemma_with_derive(front, path, start, end, name);
        let inner = super::derive::with_derive(front, path, start, end);
        if has_name(derives, name) {
            let i = choose|i: int| 0 <= i < derives.len() && (#[trigger] derives[i]).0 == name;
            if i < front.len() {
                assert(front[i].0 == name);
            } else {
                assert(after[inner.len() as int].0 == name);
            }
        }
        if has_name(inner, name) {
            let i = choose|i: int| 0 <= i < inner.len() && (#[trigger] inner[i]).0 == name;
            assert(after[i].0 == name);
        }
    }
}

proof fn lemma_contains_push<T>(s: Seq<T>, x: T)
    ensures
        forall|y: T| #[trigger] s.contains(y) ==> s.push(x).contains(y),
        s.push(x).contains(x),
        forall|y: T| #[trigger] s.push(x).contains(y) ==> s.contains(y) || y == x,
{
    assert forall|y: T| #[trigger] s.contains(y) implies s.push(x).contains(y) by {
        let i = choose|i: int| 0 <= i < s.len() && s[i] == y;
        assert(s.push(x)[i] == y);
    }
    assert(s.push(x)[s.len() as int] == x);
    assert forall|y: T| #[trigger] s.push(x).contains(y) implies s.contains(y) || y == x by {
        let i = choose|i: int| 0 <= i < s.push(x).len() && s.push(x)[i] == y;
        if i < s.len() {
            assert(s[i] == y);
        }
    }
}

proof fn lemma_string(
    start: usize,
    end: usize,
    located: Seq<LocatedView>,
    from: int,
    content: Seq<char>,
    current: Seq<ComponentView>,
    text: Seq<char>,
    before: DeriveState,
)
    requires
        0 <= from < located.len(),
    ensures
        ({
            let after = super::derive::checked_string(start, end, located[from], current, text, before);
            &&& is_settled(
                DeriveStringView { start, content, end },
                located[from],
                current,
                text,
                after,
            )
            &&& adds_located(before, after, located, from, 1, current)
        }),
{
    let after = super::derive::checked_string(start, end, located[from], current, text, before);
    let range = text::range_of(text, (start as int, end as int));
    assert forall|i: int| 0 <= i < before.errors.len() implies before.errors.contains(
        #[trigger] before.errors[i],
    ) by {}
    match located[from] {
        LocatedView::Found { path, text: name } => if path == current {
            lemma_contains_push(before.errors, super::derive::cyclic_diagnostic(range));
        } else {
            lemma_contains_push(before.dependencies, name);
            assert forall|other: Seq<char>| #[trigger] has_name(before.derives, other) implies has_name(
                after.derives,
                other,
            ) by {
                lemma_with_derive(before.derives, name, start, end, other);
            }
            lemma_with_derive(before.derives, name, start, end, name);
            assert(is_located(name, located, from, 1, current));
        },
        LocatedView::Missing { absolute, .. } => {
            lemma_contains_push(before.errors, super::derive::unknown_diagnostic(absolute, range));
        },
    }
}

proof fn lemma_invalid(
    before: DeriveState,
    after: DeriveState,
    located: Seq<LocatedView>,
    from: int,
    current: Seq<ComponentView>,
)
    requires
        after.dependencies == before.dependencies,
        after.derives == before.derives,
        after.errors == before.errors || after.errors.len() > 0 && after.errors.drop_last()
            == before.errors,
    ensures
        adds_located(before, after, located, from, 0, current),
{
    if after.errors != before.errors {
        assert(after.errors =~= before.errors.push(after.errors.last()));
        lemma_contains_push(before.errors, after.errors.last());
    }
    assert forall|i: int| 0 <= i < before.errors.len() implies before.errors.contains(
        #[trigger] before.errors[i],
    ) by {}
}

pub(super) proof fn lemma_stays_settled(
    string: DeriveStringView,
    found: LocatedView,
    current: Seq<ComponentView>,
    text: Seq<char>,
    before: DeriveState,
    after: DeriveState,
)
    requires
        is_settled(string, found, current, text, before),
        forall|i: int|
            0 <= i < before.errors.len() ==> after.errors.contains(#[trigger] before.errors[i]),
        forall|name: Seq<char>| #[trigger]
            before.dependencies.contains(name) ==> after.dependencies.contains(name),
        forall|name: Seq<char>| #[trigger]
            has_name(before.derives, name) ==> has_name(after.derives, name),
    ensures
        is_settled(string, found, current, text, after),
{
    let range = text::range_of(text, (string.start as int, string.end as int));
    match found {
        LocatedView::Found { path, text: name } => if path == current {
            let d = super::derive::cyclic_diagnostic(range);
            let i = choose|i: int| 0 <= i < before.errors.len() && before.errors[i] == d;
            assert(after.errors.contains(before.errors[i]));
        } else {
            assert(has_name(before.derives, name));
        },
        LocatedView::Missing { absolute, .. } => {
            let d = super::derive::unknown_diagnostic(absolute, range);
            let i = choose|i: int| 0 <= i < before.errors.len() && before.errors[i] == d;
            assert(after.errors.contains(before.errors[i]));
        },
    }
}

proof fn lemma_adds_twice(
    first: DeriveState,
    second: DeriveState,
    third: DeriveState,
    located: Seq<LocatedView>,
    from: int,
    count: nat,
    more: nat,
    current: Seq<ComponentView>,
)
    requires
        adds_located(first, second, located, from, count, current),
        adds_located(second, third, located, from + count, more, current),
    ensures
        adds_located(first, third, located, from, count + more, current),
{
    assert forall|i: int| 0 <= i < first.errors.len() implies third.errors.contains(
        #[trigger] first.errors[i],
    ) by {
        assert(second.errors.contains(first.errors[i]));
        let k = choose|k: int| 0 <= k < second.errors.len() && second.errors[k] == first.errors[i];
        assert(third.errors.contains(second.errors[k]));
    }
    assert forall|name: Seq<char>| #[trigger] third.dependencies.contains(name) implies
        first.dependencies.contains(name) || is_located(
        name,
        located,
        from,
        count + more,
        current,
    ) by {
        if second.dependencies.contains(name) {
            if !first.dependencies.contains(name) {
                assert(is_located(name, located, from, count, current));
                let k = choose|k: int|
                    from <= k < from + count && 0 <= k < located.len() && (#[trigger] located[k]
                        matches LocatedView::Found { path, text } && path != current && text
                        == name);
                assert(is_located(name, located, from, count + more, current));
            }
        } else {
            assert(is_located(name, located, from + count, more, current));
            let k = choose|k: int|
                from + count <= k < from + count + more && 0 <= k < located.len() && (
                #[trigger] located[k] matches LocatedView::Found { path, text } && path != current
                    && text == name);
            assert(is_located(name, located, from, count + more, current));
        }
    }
}

/// The check of a derive settles each of its strings by what was located for it, at any depth
/// of tables. It adds no other dependency and loses nothing that was found before.
pub proof fn lemma_derive_settles_strings(
    body: ConstructView,
    located: Seq<LocatedView>,
    from: int,
    current: Seq<ComponentView>,
    text: Seq<char>,
    before: DeriveState,
)
    requires
        from >= 0,
    ensures
        ({
            let after = super::derive::checked_derive(body, located, from, current, text, before);
            let strings = autocomplete::derive::strings_in(body);
            &&& are_settled(strings, located, from, current, text, after)
            &&& adds_located(before, after, located, from, strings.len(), current)
        }),
    decreases body, 0int,
{
    let after = super::derive::checked_derive(body, located, from, current, text, before);
    let strings = autocomplete::derive::strings_in(body);
    match body {
        ConstructView::Node { node } => {
            if let Some(content) = autocomplete::derive::string_content(node.token.1) {
                assert(strings.len() == 1);
                if from < located.len() {
                    lemma_string(
                        node.token.0,
                        node.token.2,
                        located,
                        from,
                        content,
                        current,
                        text,
                        before,
                    );
                } else {
                    lemma_invalid(before, after, located, from, current);
                }
            } else {
                if after.errors != before.errors {
                    assert(after.errors.drop_last() =~= before.errors);
                }
                lemma_invalid(before, after, located, from, current);
            }
        },
        ConstructView::Table { body: table } => match table.content {
            Some(content) => {
                assert(decreases_to!(table => table.content));
                assert(decreases_to!(table.content => content));
                lemma_derives_settle(
                    content,
                    content.len() as int,
                    located,
                    from,
                    current,
                    text,
                    before,
                );
                assert(content.take(content.len() as int) =~= content);
            },
            None => {
                lemma_invalid(before, after, located, from, current);
            },
        },
        _ => {
            assert(after.errors.drop_last() =~= before.errors);
            lemma_invalid(before, after, located, from, current);
        },
    }
}

proof fn lemma_derives_settle(
    content: Seq<ConstructView>,
    n: int,
    located: Seq<LocatedView>,
    from: int,
    current: Seq<ComponentView>,
    text: Seq<char>,
    before: DeriveState,
)
    requires
        from >= 0,
        0 <= n <= content.len(),
    ensures
        ({
            let after = super::derive::checked_derives(content, n, located, from, current, text, before);
            let strings = autocomplete::derive::strings_in_all(content.take(n));
            &&& are_settled(strings, located, from, current, text, after)
            &&& adds_located(before, after, located, from, strings.len(), current)
        }),
    decreases content, n,
{
    let after = super::derive::checked_derives(content, n, located, from, current, text, before);
    if n == 0 {
        assert(content.take(0) =~= Seq::empty());
        lemma_invalid(before, after, located, from, current);
    } else {
        let s = super::derive::checked_derives(content, n - 1, located, from, current, text, before);
        lemma_derives_settle(content, n - 1, located, from, current, text, before);
        let first = autocomplete::derive::strings_in_all(content.take(n - 1));
        let second = autocomplete::derive::strings_in(content[n - 1]);
        let all = autocomplete::derive::strings_in_all(content.take(n));
        assert(content.take(n).drop_last() =~= content.take(n - 1));
        assert(all == first + second);
        let start = from + first.len() as int;
        assert(decreases_to!(content => content[n - 1]));
        if super::derive::is_semicolon(content[n - 1]) {
            assert(all =~= first);
        } else {
            lemma_derive_settles_strings(content[n - 1], located, start, current, text, s);
            lemma_adds_twice(
                before,
                s,
                after,
                located,
                from,
                first.len(),
                second.len(),
                current,
            );
            assert forall|i: int|
                0 <= i < all.len() && 0 <= from + i < located.len() implies is_settled(
                #[trigger] all[i],
                located[from + i],
                current,
                text,
                after,
            ) by {
                if i < first.len() {
                    assert(all[i] == first[i]);
                    lemma_stays_settled(
                        first[i],
                        located[from + i],
                        current,
                        text,
                        s,
                        after,
                    );
                } else {
                    let k = i - first.len();
                    assert(all[i] == second[k]);
                    assert(start + k == from + i);
                }
            }
        }
    }
}

/// Whether a string knows the file that it leads to: the one that was found, or the path in its
/// shortest form where there is none. A string that leads to the document itself knows nothing
/// new.
pub open spec fn is_linked(
    string: DeriveStringView,
    located: LocatedView,
    current: Seq<ComponentView>,
    after: Map<usize, DefinitionView>,
) -> bool {
    match located {
        LocatedView::Found { path, text } => path != current ==> frame::holds(
            after,
            string.start,
            string.end,
            DefinitionView::Derive { path: text },
        ),
        LocatedView::Missing { path, .. } => frame::holds(
            after,
            string.start,
            string.end,
            DefinitionView::Derive {
                path: normalize_path::written(normalize_path::normalized(path)),
            },
        ),
    }
}

/// Each string of a derive is defined by the file that was located for it.
pub proof fn lemma_strings_are_linked(
    strings: Seq<DeriveStringView>,
    n: int,
    located: Seq<LocatedView>,
    from: int,
    current: Seq<ComponentView>,
    before: Map<usize, DefinitionView>,
)
    requires
        0 <= n <= strings.len(),
        from >= 0,
        forall|i: int, j: int|
            0 <= i < j < strings.len() ==> (#[trigger] strings[i]).end <= (
            #[trigger] strings[j]).start,
    ensures
        forall|i: int|
            0 <= i < n && from + i < located.len() ==> is_linked(
                #[trigger] strings[i],
                located[from + i],
                current,
                autocomplete::derive::with_derives(strings, n, located, from, current, before),
            ),
    decreases n,
{
    if n > 0 {
        let s = autocomplete::derive::with_derives(
            strings,
            n - 1,
            located,
            from,
            current,
            before,
        );
        let after = autocomplete::derive::with_derives(
            strings,
            n,
            located,
            from,
            current,
            before,
        );
        lemma_strings_are_linked(strings, n - 1, located, from, current, before);
        assert forall|i: int| 0 <= i < n && from + i < located.len() implies is_linked(
            #[trigger] strings[i],
            located[from + i],
            current,
            after,
        ) by {
            if i < n - 1 {
                let string = strings[i];
                assert(string.end <= strings[n - 1].start);
                assert(is_linked(string, located[from + i], current, s));
                assert forall|byte: usize| byte < string.end implies #[trigger] frame::same_at(
                    s,
                    after,
                    byte,
                ) by {}
                match located[from + i] {
                    LocatedView::Found { path, text } => if path != current {
                        lemma_stays(s, after, string, DefinitionView::Derive { path: text });
                    },
                    LocatedView::Missing { path, .. } => {
                        lemma_stays(
                            s,
                            after,
                            string,
                            DefinitionView::Derive {
                                path: normalize_path::written(normalize_path::normalized(path)),
                            },
                        );
                    },
                }
            }
        }
    }
}

proof fn lemma_stays(
    before: Map<usize, DefinitionView>,
    after: Map<usize, DefinitionView>,
    string: DeriveStringView,
    kind: DefinitionView,
)
    requires
        frame::holds(before, string.start, string.end, kind),
        forall|byte: usize| byte < string.end ==> #[trigger] frame::same_at(before, after, byte),
    ensures
        frame::holds(after, string.start, string.end, kind),
{
    let (start, end) = (string.start, string.end);
    assert(frame::holds(before, start, end, kind));
    assert forall|byte: usize| start <= byte < end implies #[trigger] after.dom().contains(byte)
        && after[byte] == kind by {
        assert(frame::same_at(before, after, byte));
        assert(before.dom().contains(byte));
    }
}

} // verus!
