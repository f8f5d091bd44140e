//! The files that a document derives from.

use super::normalize_path;
use super::normalize_path::{write_path, Component, ComponentView, NormalizePath};
use crate::parser::construct;
use crate::parser::construct::{Construct, ConstructView};
use crate::parser::token::{MultilineString, Token};
use crate::strings;
use crate::strings::{chars_of, str_eq, trim};
use crate::typechecker::definitions;
use crate::typechecker::definitions::{DefinitionKind, DefinitionView, Definitions};
use vstd::prelude::*;

verus! {

/// A string that names a file, and where it stands.
#[derive(Debug)]
pub struct DeriveString<'a> {
    pub start: usize,
    pub content: &'a str,
    pub end: usize,
}

/// What a [`DeriveString`] holds.
pub struct DeriveStringView {
    pub start: usize,
    pub content: Seq<char>,
    pub end: usize,
}

impl<'a> DeepView for DeriveString<'a> {
    type V = DeriveStringView;

    open spec fn deep_view(&self) -> DeriveStringView {
        DeriveStringView { start: self.start, content: self.content@, end: self.end }
    }
}

impl<'a> DeriveString<'a> {
    /// The path that the string names, without the white space around it.
    pub fn path(&self) -> (r: &'a str)
        ensures
            r@ == strings::trimmed(self.content@),
    {
        trim(self.content)
    }
}

/// The content of a string.
pub open spec fn string_content(token: Token) -> Option<Seq<char>> {
    match token {
        Token::StringSingle(content) => Some(content@),
        Token::StringMulti(string) => Some(string.content@),
        _ => None,
    }
}

/// The strings in the body of a derive.
pub open spec fn strings_in(body: ConstructView) -> Seq<DeriveStringView>
    decreases body,
{
    match body {
        ConstructView::Node { node } => match string_content(node.token.1) {
            Some(content) => seq![
                DeriveStringView { start: node.token.0, content, end: node.token.2 },
            ],
            None => Seq::empty(),
        },
        ConstructView::Table { body } => match body.content {
            Some(content) => strings_in_all(content),
            None => Seq::empty(),
        },
        _ => Seq::empty(),
    }
}

/// The strings in several constructs.
pub open spec fn strings_in_all(content: Seq<ConstructView>) -> Seq<DeriveStringView>
    decreases content,
{
    if content.len() == 0 {
        Seq::empty()
    } else {
        strings_in_all(content.drop_last()) + strings_in(content[content.len() - 1])
    }
}

/// Collects the strings in the body of a derive.
pub fn derive_strings<'a>(body: &Construct<'a>) -> (r: Vec<DeriveString<'a>>)
    ensures
        r.deep_view() == strings_in(body.deep_view()),
    decreases body,
{
    proof {
        reveal_with_fuel(construct::construct_view, 3);
    }
    let mut out: Vec<DeriveString<'a>> = Vec::new();
    match body {
        Construct::Node { node } => {
            let (start, end): (usize, usize) = (node.token.start(), node.token.end());
            match node.token.value() {
                Token::StringSingle(content) => {
                    out.push(DeriveString { start, content, end });
                },
                Token::StringMulti(MultilineString { content, .. }) => {
                    out.push(DeriveString { start, content, end });
                },
                _ => (),
            }
            assert(out.deep_view() =~= strings_in(body.deep_view()));
        },
        Construct::Table { body: delimited } => {
            let content = match &delimited.content {
                Some(content) => content,
                None => {
                    assert(out.deep_view() =~= strings_in(body.deep_view()));
                    return out;
                },
            };
            let ghost views = construct::constructs_view(content@);
            assert(views.take(0) =~= Seq::empty());
            assert(out.deep_view() =~= Seq::empty());
            let mut i: usize = 0;
            while i < content.len()
                invariant
                    i <= content@.len(),
                    *body == (Construct::Table { body: *delimited }),
                    delimited.content == Some(*content),
                    views == construct::constructs_view(content@),
                    out.deep_view() == strings_in_all(views.take(i as int)),
                decreases content@.len() - i,
            {
                assert(views.take(i + 1).drop_last() =~= views.take(i as int));
                assert(views.take(i + 1)[i as int] == construct::construct_view(
                    content@[i as int],
                ));
                proof {
                    construct::lemma_content_is_smaller(Some(*delimited), i as int);
                    assert(decreases_to!(*body => body->Table_body));
                }
                let mut inner = derive_strings(&content[i]);
                let ghost first = out;
                let ghost second = inner;
                out.append(&mut inner);
                assert(out.deep_view() =~= first.deep_view() + second.deep_view());
                i += 1;
            }
            assert(views.take(i as int) =~= views);
        },
        _ => {
            assert(out.deep_view() =~= strings_in(body.deep_view()));
        },
    }
    out
}

/// The index of the last `.` in a name; -1 where there is none.
pub open spec fn last_dot(name: Seq<char>) -> int
    decreases name.len(),
{
    if name.len() == 0 {
        -1
    } else if name.last() == '.' {
        name.len() - 1
    } else {
        last_dot(name.drop_last())
    }
}

/// A name without its extension. A dot at the front starts none.
pub open spec fn stem(name: Seq<char>) -> Seq<char> {
    if last_dot(name) <= 0 {
        name
    } else {
        name.take(last_dot(name))
    }
}

/// The extension of a name: what stands behind its last dot. A dot at the front starts none.
pub open spec fn extension(name: Seq<char>) -> Option<Seq<char>> {
    if last_dot(name) <= 0 {
        None
    } else {
        Some(name.skip(last_dot(name) + 1))
    }
}

/// A path to a file of the given extension; unchanged where it does not end in a name.
pub open spec fn with_extension(path: Seq<ComponentView>, extension: Seq<char>) -> Seq<
    ComponentView,
> {
    if path.len() == 0 {
        path
    } else {
        match path.last() {
            ComponentView::Normal(name) => path.drop_last().push(
                ComponentView::Normal(stem(name) + "."@ + extension),
            ),
            _ => path,
        }
    }
}

/// The path that `path` leads to from `base`.
pub open spec fn joined(base: Seq<ComponentView>, path: Seq<ComponentView>) -> Seq<ComponentView> {
    if path.len() > 0 && path[0] is Prefix {
        path
    } else if path.len() > 0 && path[0] is RootDir {
        if base.len() > 0 && base[0] is Prefix {
            seq![base[0]] + path
        } else {
            path
        }
    } else {
        base + path
    }
}

/// The alias that a path starts with.
pub open spec fn alias_in(path: Seq<ComponentView>) -> Option<Seq<char>> {
    if path.len() == 0 {
        None
    } else {
        match path[0] {
            ComponentView::Normal(name) => if name.len() > 0 && name[0] == '@' {
                Some(name.skip(1))
            } else {
                None
            },
            _ => None,
        }
    }
}

/// The path that an alias stands for.
pub open spec fn alias_path(aliases: Seq<(Seq<char>, Seq<ComponentView>)>, alias: Seq<char>) -> Option<
    Seq<ComponentView>,
>
    decreases aliases.len(),
{
    if aliases.len() == 0 {
        None
    } else if aliases[0].0 == alias {
        Some(aliases[0].1)
    } else {
        alias_path(aliases.drop_first(), alias)
    }
}

/// The file that a document derives from: behind an alias that is known, or else beside
/// the document.
pub open spec fn derived_path(
    content: Seq<ComponentView>,
    current: Seq<ComponentView>,
    aliases: Seq<(Seq<char>, Seq<ComponentView>)>,
) -> Seq<ComponentView> {
    let path = normalize_path::normalized(content);
    let target = match alias_in(path) {
        Some(alias) => alias_path(aliases, alias),
        None => None,
    };
    match target {
        Some(target) => target + path.skip(1),
        None => joined(current.push(ComponentView::ParentDir), path),
    }
}

fn copy_path(path: &Vec<Component>, from: usize, out: &mut Vec<Component>)
    requires
        from <= path@.len(),
    ensures
        final(out).deep_view() == old(out).deep_view() + path.deep_view().skip(from as int),
{
    let ghost before = out.deep_view();
    let ghost tail = path.deep_view().skip(from as int);
    let mut i: usize = from;
    assert(before + tail.take(0) =~= before);
    while i < path.len()
        invariant
            from <= i <= path@.len(),
            tail == path.deep_view().skip(from as int),
            out.deep_view() == before + tail.take(i - from),
        decreases path@.len() - i,
    {
        let ghost so_far = out.deep_view();
        out.push(path[i].copy());
        assert(out.deep_view() =~= so_far.push(path@[i as int].deep_view()));
        assert(tail.take(i + 1 - from) =~= tail.take(i - from).push(tail[i - from]));
        i += 1;
        assert(out.deep_view() =~= before + tail.take(i - from));
    }
    assert(tail.take(i - from) =~= tail);
}

fn join_path(base: Vec<Component>, path: &Vec<Component>) -> (r: Vec<Component>)
    ensures
        r.deep_view() == joined(base.deep_view(), path.deep_view()),
{
    let ghost goal = joined(base.deep_view(), path.deep_view());
    let mut out: Vec<Component> = Vec::new();
    if path.len() > 0 {
        assert(path.deep_view()[0] == path@[0].deep_view());
    }
    if base.len() > 0 {
        assert(base.deep_view()[0] == base@[0].deep_view());
    }
    if path.len() > 0 && matches!(path[0], Component::Prefix(_)) {
    } else if path.len() > 0 && matches!(path[0], Component::RootDir) {
        if base.len() > 0 && matches!(base[0], Component::Prefix(_)) {
            out.push(base[0].copy());
            assert(out.deep_view() =~= seq![base.deep_view()[0]]);
        }
    } else {
        out = base;
    }
    let ghost start = out.deep_view();
    copy_path(path, 0, &mut out);
    assert(path.deep_view().skip(0) =~= path.deep_view());
    assert(out.deep_view() =~= goal);
    out
}

/// Where the last dot of a name is.
pub(crate) proof fn lemma_last_dot(name: Seq<char>, i: int)
    requires
        -1 <= i < name.len(),
        i >= 0 ==> name[i] == '.',
        forall|j: int| i < j < name.len() ==> name[j] != '.',
    ensures
        last_dot(name) == i,
    decreases name.len(),
{
    if name.len() > 0 && i < name.len() - 1 {
        assert(name[name.len() - 1] != '.');
        lemma_last_dot(name.drop_last(), i);
    }
}

fn find_last_dot(chars: &Vec<char>) -> (r: Option<usize>)
    ensures
        match r {
            Some(i) => i < chars@.len() && last_dot(chars@) == i,
            None => last_dot(chars@) == -1,
        },
{
    let mut i: usize = chars.len();
    while i > 0
        invariant
            i <= chars@.len(),
            forall|j: int| i <= j < chars@.len() ==> chars@[j] != '.',
        decreases i,
    {
        if chars[i - 1] == '.' {
            proof {
                lemma_last_dot(chars@, i - 1);
            }
            return Some(i - 1);
        }
        i -= 1;
    }
    proof {
        lemma_last_dot(chars@, -1);
    }
    None
}

fn stem_of(name: &str) -> (r: &str)
    ensures
        r@ == stem(name@),
{
    let chars = chars_of(name);
    match find_last_dot(&chars) {
        Some(i) => if i > 0 {
            assert(name@.take(i as int) =~= name@.subrange(0, i as int));
            name.substring_char(0, i)
        } else {
            name
        },
        None => name,
    }
}

/// The extension of a file's name.
pub fn extension_of(name: &str) -> (r: Option<&str>)
    ensures
        r.deep_view() == extension(name@),
{
    let chars = chars_of(name);
    let len: usize = chars.len();
    match find_last_dot(&chars) {
        Some(i) => if i > 0 {
            assert(name@.skip(i + 1) =~= name@.subrange(i + 1, name@.len() as int));
            Some(name.substring_char(i + 1, len))
        } else {
            None
        },
        None => None,
    }
}

/// Sets the extension of the file that a path leads to.
pub fn set_extension(path: &mut Vec<Component>, extension: &str)
    ensures
        final(path).deep_view() == with_extension(old(path).deep_view(), extension@),
{
    let ghost before = path.deep_view();
    let last = match path.pop() {
        Some(last) => last,
        None => {
            assert(path.deep_view() =~= before);
            return;
        },
    };
    assert(before.last() == last.deep_view());
    assert(path.deep_view() =~= before.drop_last());
    match last {
        Component::Normal(name) => {
            let mut renamed = stem_of(name.as_str()).to_owned();
            renamed.append(".");
            renamed.append(extension);
            path.push(Component::Normal(renamed));
        },
        other => {
            path.push(other);
        },
    }
    assert(path.deep_view() =~= with_extension(before, extension@));
}

fn is_alias(name: &str, alias: &str) -> (r: bool)
    ensures
        r == (name@.len() > 0 && name@[0] == '@' && name@.skip(1) == alias@),
{
    let len: usize = name.unicode_len();
    if len == 0 || name.get_char(0) != '@' {
        return false;
    }
    assert(name@.skip(1) =~= name@.subrange(1, name@.len() as int));
    str_eq(name.substring_char(1, len), alias)
}

/// The alias that the path of a derive starts with, whether or not it is known.
pub fn derive_alias(content: &Vec<Component>) -> (r: Option<String>)
    ensures
        r.deep_view() == alias_in(normalize_path::normalized(content.deep_view())),
{
    let path = content.normalize();
    if path.len() == 0 {
        return None;
    }
    assert(path.deep_view()[0] == path@[0].deep_view());
    match &path[0] {
        Component::Normal(name) => {
            let len: usize = name.as_str().unicode_len();
            if len == 0 || name.as_str().get_char(0) != '@' {
                return None;
            }
            assert(name@.skip(1) =~= name@.subrange(1, name@.len() as int));
            Some(name.as_str().substring_char(1, len).to_owned())
        },
        _ => None,
    }
}

proof fn lemma_alias_skips(
    aliases: Seq<(Seq<char>, Seq<ComponentView>)>,
    alias: Seq<char>,
    n: int,
)
    requires
        0 <= n <= aliases.len(),
        forall|j: int| 0 <= j < n ==> (#[trigger] aliases[j]).0 != alias,
    ensures
        alias_path(aliases, alias) == alias_path(aliases.skip(n), alias),
    decreases n,
{
    if n == 0 {
        assert(aliases.skip(0) =~= aliases);
    } else {
        assert forall|j: int| 0 <= j < n - 1 implies (
        #[trigger] aliases.drop_first()[j]).0 != alias by {
            assert(aliases[j + 1].0 != alias);
        }
        lemma_alias_skips(aliases.drop_first(), alias, n - 1);
        assert(aliases.drop_first().skip(n - 1) =~= aliases.skip(n));
    }
}

fn find_alias<'b>(first: &Component, aliases: &'b Vec<(String, Vec<Component>)>) -> (r: Option<
    &'b Vec<Component>,
>)
    ensures
        r.deep_view() == (match alias_in(seq![first.deep_view()]) {
            Some(alias) => alias_path(aliases.deep_view(), alias),
            None => None,
        }),
{
    let name = match first {
        Component::Normal(name) => name,
        _ => return None,
    };
    let ghost views = aliases.deep_view();
    let ghost alias = name@.skip(1);
    let mut i: usize = 0;
    while i < aliases.len()
        invariant
            i <= aliases@.len(),
            views == aliases.deep_view(),
            alias == name@.skip(1),
            alias_in(seq![first.deep_view()]) == (if name@.len() > 0 && name@[0] == '@' {
                Some(alias)
            } else {
                None
            }),
            name@.len() > 0 && name@[0] == '@' ==> forall|j: int|
                0 <= j < i ==> (#[trigger] views[j]).0 != alias,
        decreases aliases@.len() - i,
    {
        assert(views[i as int] == aliases@[i as int].deep_view());
        if is_alias(name.as_str(), aliases[i].0.as_str()) {
            proof {
                lemma_alias_skips(views, alias, i as int);
                assert(views.skip(i as int)[0] == views[i as int]);
            }
            return Some(&aliases[i].1);
        }
        i += 1;
    }
    proof {
        if name@.len() > 0 && name@[0] == '@' {
            lemma_alias_skips(views, alias, i as int);
        }
    }
    None
}

/// Finds the file that a document at `current_path` derives from.
pub fn resolve_derive_path(
    content: &Vec<Component>,
    current_path: &Vec<Component>,
    aliases: &Vec<(String, Vec<Component>)>,
) -> (r: Vec<Component>)
    ensures
        r.deep_view() == derived_path(
            content.deep_view(),
            current_path.deep_view(),
            aliases.deep_view(),
        ),
{
    let path = content.normalize();
    let ghost view = path.deep_view();
    if path.len() > 0 {
        assert(view[0] == path@[0].deep_view());
        assert(seq![view[0]][0] == view[0]);
        if let Some(target) = find_alias(&path[0], aliases) {
            let mut out: Vec<Component> = Vec::new();
            copy_path(target, 0, &mut out);
            assert(out.deep_view() =~= target.deep_view());
            copy_path(&path, 1, &mut out);
            return out;
        }
    }
    let mut base: Vec<Component> = Vec::new();
    copy_path(current_path, 0, &mut base);
    assert(base.deep_view() =~= current_path.deep_view());
    base.push(Component::ParentDir);
    assert(base.deep_view() =~= current_path.deep_view().push(ComponentView::ParentDir));
    join_path(base, &path)
}

/// What is found at the path of a derive.
#[derive(Debug)]
pub enum Located {
    /// A file, with its full path and how that is written.
    Found { path: Vec<Component>, text: String },
    /// Nothing; with the path, and the same from the root on.
    Missing { path: Vec<Component>, absolute: Vec<Component> },
}

/// What a [`Located`] holds.
pub enum LocatedView {
    Found { path: Seq<ComponentView>, text: Seq<char> },
    Missing { path: Seq<ComponentView>, absolute: Seq<ComponentView> },
}

impl DeepView for Located {
    type V = LocatedView;

    open spec fn deep_view(&self) -> LocatedView {
        match self {
            Located::Found { path, text } => LocatedView::Found {
                path: path.deep_view(),
                text: text@,
            },
            Located::Missing { path, absolute } => LocatedView::Missing {
                path: path.deep_view(),
                absolute: absolute.deep_view(),
            },
        }
    }
}

/// How the path that a derive leads to is written; nothing where a document derives from itself.
pub open spec fn derive_target(located: LocatedView, current: Seq<ComponentView>) -> Option<
    Seq<char>,
> {
    match located {
        LocatedView::Found { path, text } => if path == current {
            None
        } else {
            Some(text)
        },
        LocatedView::Missing { path, .. } => Some(
            normalize_path::written(normalize_path::normalized(path)),
        ),
    }
}

/// The definitions with those of the first `n` strings of a derive. What is found at their
/// paths stands in `located` from `from` on.
pub open spec fn with_derives(
    strings: Seq<DeriveStringView>,
    n: int,
    located: Seq<LocatedView>,
    from: int,
    current: Seq<ComponentView>,
    before: Map<usize, DefinitionView>,
) -> Map<usize, DefinitionView>
    decreases n,
{
    if 0 < n <= strings.len() {
        let s = with_derives(strings, n - 1, located, from, current, before);
        if 0 <= from + n - 1 < located.len() {
            match derive_target(located[from + n - 1], current) {
                Some(path) => definitions::defined(
                    s,
                    strings[n - 1].start,
                    strings[n - 1].end,
                    DefinitionView::Derive { path },
                ),
                None => s,
            }
        } else {
            s
        }
    } else {
        before
    }
}

/// Whether two paths have the same components.
pub fn same_path(a: &Vec<Component>, b: &Vec<Component>) -> (r: bool)
    ensures
        r == (a.deep_view() == b.deep_view()),
{
    let ghost x = a.deep_view();
    let ghost y = b.deep_view();
    if a.len() != b.len() {
        assert(x.len() != y.len());
        return false;
    }
    let mut i: usize = 0;
    while i < a.len()
        invariant
            i <= a@.len(),
            a@.len() == b@.len(),
            x == a.deep_view(),
            y == b.deep_view(),
            forall|j: int| 0 <= j < i ==> x[j] == y[j],
        decreases a@.len() - i,
    {
        if !a[i].same(&b[i]) {
            assert(x[i as int] != y[i as int]);
            return false;
        }
        i += 1;
    }
    assert(x =~= y);
    true
}

/// Defines the strings of a derive: each leads to the file that was located for it.
pub fn build_derive_definitions(
    strings: &Vec<DeriveString>,
    located: &Vec<Located>,
    from: usize,
    current_path: &Vec<Component>,
    document: &mut Definitions,
)
    ensures
        final(document)@ == with_derives(
            strings.deep_view(),
            strings@.len() as int,
            located.deep_view(),
            from as int,
            current_path.deep_view(),
            old(document)@,
        ),
{
    let ghost before = document@;
    let ghost views = strings.deep_view();
    let ghost found = located.deep_view();
    let mut i: usize = 0;
    while i < strings.len()
        invariant
            i <= strings@.len(),
            views == strings.deep_view(),
            found == located.deep_view(),
            document@ == with_derives(
                views,
                i as int,
                found,
                from as int,
                current_path.deep_view(),
                before,
            ),
        decreases strings@.len() - i,
    {
        let (start, end): (usize, usize) = (strings[i].start, strings[i].end);
        assert(views[i as int] == strings@[i as int].deep_view());
        if from < located.len() && i < located.len() - from {
            assert(found[from + i] == located@[from + i].deep_view());
            match &located[from + i] {
                Located::Found { path, text } => {
                    if !same_path(path, current_path) {
                        document.insert(start, end, DefinitionKind::Derive { path: text.clone() });
                    }
                },
                Located::Missing { path, .. } => {
                    let path = write_path(&path.normalize());
                    document.insert(start, end, DefinitionKind::Derive { path });
                },
            }
        }
        i += 1;
    }
}

} // verus!
