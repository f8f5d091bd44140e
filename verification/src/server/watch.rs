//! What is done when files change.

use super::documents::{DocumentView, Documents};
use super::workspaces;
use super::workspaces::Workspaces;
use crate::autocomplete::derive::extension_of;
use crate::autocomplete::normalize_path::{Component, ComponentView};
use crate::luaurc;
use crate::luaurc::{changed_aliases, Luaurc, LuaurcView};
use crate::strings;
use crate::strings::{split_before, str_eq, strip_prefix};
use vstd::prelude::*;

verus! {

/// How a file has changed.
#[derive(Debug, Clone, Copy, PartialEq, Eq, Structural)]
pub enum FileChange {
    Created,
    Changed,
    Deleted,
    Other,
}

/// What is done about a change.
#[derive(Debug, Clone, Copy, PartialEq, Eq, Structural)]
pub enum WatchAction {
    /// Nothing, nor about the changes that follow.
    Stop,
    /// Nothing.
    Ignore,
    /// The workspace gets the configuration.
    Create,
    /// The workspace gets the configuration in place of its old one, and the documents that
    /// use an alias that has changed are diagnosed again.
    Reload,
    /// The workspace loses its configuration, and the documents that use its aliases are
    /// diagnosed again.
    Remove,
}

/// The name of a file up to its first dot. A dot at the front is part of it.
pub open spec fn file_prefix(name: Seq<char>) -> Seq<char> {
    if name.len() == 0 {
        name
    } else {
        seq![name[0]] + strings::before_first(name.skip(1), '.')
    }
}

/// Whether a file is a configuration, by its name.
pub open spec fn is_luaurc(name: Seq<char>) -> bool {
    ||| file_prefix(name) == "luaurc"@
    ||| file_prefix(name) == ".luaurc"@
    ||| crate::autocomplete::derive::extension(name) == Some("luaurc"@)
}

/// What is done about a change of a file.
pub open spec fn action_of(
    change: FileChange,
    is_file: bool,
    name: Option<Seq<char>>,
    has_parent: bool,
) -> WatchAction {
    match name {
        Some(name) => if is_file && is_luaurc(name) && has_parent {
            match change {
                FileChange::Created => WatchAction::Create,
                FileChange::Changed => WatchAction::Reload,
                FileChange::Deleted => WatchAction::Remove,
                FileChange::Other => WatchAction::Ignore,
            }
        } else {
            WatchAction::Stop
        },
        None => WatchAction::Stop,
    }
}

/// A file `luaurc` or `.luaurc` is a configuration, whatever follows behind a dot, and so is any
/// file with the extension `luaurc`; the configuration of a folder that appears is read, one
/// that changes is read again, and one that goes away is forgotten.
pub proof fn lemma_configurations_are_watched(head: Seq<char>, behind: Seq<char>, name: Seq<char>)
    requires
        ({
            ||| name == "luaurc"@
            ||| name == ".luaurc"@
            ||| name == "luaurc."@ + behind
            ||| name == ".luaurc."@ + behind
            ||| head.len() > 0 && name == head + ".luaurc"@
        }),
    ensures
        is_luaurc(name),
        action_of(FileChange::Created, true, Some(name), true) is Create,
        action_of(FileChange::Changed, true, Some(name), true) is Reload,
        action_of(FileChange::Deleted, true, Some(name), true) is Remove,
{
    reveal_strlit("luaurc");
    reveal_strlit(".luaurc");
    reveal_strlit("luaurc.");
    reveal_strlit(".luaurc.");
    if name == "luaurc"@ || name == "luaurc."@ + behind {
        strings::lemma_before_first(name.skip(1), '.', 5);
        assert(file_prefix(name) =~= "luaurc"@);
    } else if name == ".luaurc"@ || name == ".luaurc."@ + behind {
        strings::lemma_before_first(name.skip(1), '.', 6);
        assert(file_prefix(name) =~= ".luaurc"@);
    } else {
        crate::autocomplete::derive::lemma_last_dot(name, head.len() as int);
        assert(name.skip(head.len() as int + 1) =~= "luaurc"@);
    }
}

/// Whether a word stands at an index of a name.
pub open spec fn stands_at(name: Seq<char>, word: Seq<char>, i: int) -> bool {
    0 <= i <= name.len() - word.len() && name.subrange(i, i + word.len()) == word
}

/// A file whose name does not hold `luaurc` is no configuration, and neither is a folder: no
/// change of them is acted on.
pub proof fn lemma_other_files_are_left_alone(
    change: FileChange,
    is_file: bool,
    name: Seq<char>,
    has_parent: bool,
)
    requires
        is_file ==> forall|i: int| !#[trigger] stands_at(name, "luaurc"@, i),
    ensures
        action_of(change, is_file, Some(name), has_parent) is Stop,
        is_file ==> !is_luaurc(name),
{
    reveal_strlit("luaurc");
    reveal_strlit(".luaurc");
    if is_file {
        lemma_prefix_is_a_prefix(name);
        let prefix = file_prefix(name);
        let dot = crate::autocomplete::derive::last_dot(name);
        lemma_last_dot_is_inside(name);
        if prefix == "luaurc"@ {
            assert(name.subrange(0, 6) =~= prefix);
            assert(stands_at(name, "luaurc"@, 0));
        } else if prefix == ".luaurc"@ {
            assert(name.subrange(1, 7) =~= prefix.skip(1));
            assert(prefix.skip(1) =~= "luaurc"@);
            assert(stands_at(name, "luaurc"@, 1));
        } else if crate::autocomplete::derive::extension(name) == Some("luaurc"@) {
            assert(name.skip(dot + 1).len() == 6);
            assert(name.subrange(dot + 1, dot + 1 + 6) =~= name.skip(dot + 1));
            assert(stands_at(name, "luaurc"@, dot + 1));
        }
    }
}

proof fn lemma_before_is_a_prefix(s: Seq<char>, c: char)
    ensures
        strings::before_first(s, c).is_prefix_of(s),
    decreases s.len(),
{
    if s.len() > 0 && s[0] != c {
        lemma_before_is_a_prefix(s.drop_first(), c);
        let rest = strings::before_first(s.drop_first(), c);
        assert forall|i: int| 0 <= i < rest.len() implies #[trigger] rest[i] == s[i + 1] by {
            assert(rest[i] == s.drop_first()[i]);
        }
        assert(strings::before_first(s, c) =~= s.take(rest.len() as int + 1));
    }
}

proof fn lemma_prefix_is_a_prefix(name: Seq<char>)
    ensures
        file_prefix(name).is_prefix_of(name),
{
    if name.len() > 0 {
        lemma_before_is_a_prefix(name.skip(1), '.');
        let rest = strings::before_first(name.skip(1), '.');
        assert forall|i: int| 0 <= i < rest.len() implies #[trigger] rest[i] == name[i + 1] by {
            assert(rest[i] == name.skip(1)[i]);
        }
        assert(file_prefix(name) =~= name.take(rest.len() as int + 1));
    }
}

proof fn lemma_last_dot_is_inside(name: Seq<char>)
    ensures
        -1 <= crate::autocomplete::derive::last_dot(name) < name.len(),
    decreases name.len(),
{
    if name.len() > 0 {
        lemma_last_dot_is_inside(name.drop_last());
    }
}

fn has_prefix_name(name: &str, prefix: &str) -> (r: bool)
    requires
        prefix@.len() > 0,
    ensures
        r == (file_prefix(name@) == prefix@),
{
    let len: usize = name.unicode_len();
    if len == 0 {
        return false;
    }
    let first = name.get_char(0);
    let rest = name.substring_char(1, len);
    assert(name@.skip(1) =~= rest@);
    let head = match split_before(rest, '.') {
        Some(head) => head,
        None => {
            proof {
                strings::lemma_before_first_of_all(rest@, '.');
            }
            rest
        },
    };
    let wanted_len: usize = prefix.unicode_len();
    let wanted_rest = prefix.substring_char(1, wanted_len);
    proof {
        assert(prefix@ =~= seq![prefix@[0]] + wanted_rest@);
        if file_prefix(name@) == prefix@ {
            assert(file_prefix(name@)[0] == first);
            assert(file_prefix(name@).skip(1) =~= head@);
            assert(prefix@.skip(1) =~= wanted_rest@);
        }
    }
    prefix.get_char(0) == first && str_eq(head, wanted_rest)
}

/// Whether a file is a configuration, by its name.
pub fn is_luaurc_file(name: &str) -> (r: bool)
    ensures
        r == is_luaurc(name@),
{
    proof {
        reveal_strlit("luaurc");
        reveal_strlit(".luaurc");
    }
    if has_prefix_name(name, "luaurc") || has_prefix_name(name, ".luaurc") {
        return true;
    }
    match extension_of(name) {
        Some(extension) => str_eq(extension, "luaurc"),
        None => false,
    }
}

/// Decides what is done about a change of a file. `has_parent` says whether the directory
/// that the file is in could be found.
pub fn watch_action(change: FileChange, is_file: bool, name: Option<&str>, has_parent: bool) -> (r:
    WatchAction)
    ensures
        r == action_of(change, is_file, name.deep_view(), has_parent),
{
    let name = match name {
        Some(name) => name,
        None => return WatchAction::Stop,
    };
    if !is_file || !is_luaurc_file(name) || !has_parent {
        return WatchAction::Stop;
    }
    match change {
        FileChange::Created => WatchAction::Create,
        FileChange::Changed => WatchAction::Reload,
        FileChange::Deleted => WatchAction::Remove,
        FileChange::Other => WatchAction::Ignore,
    }
}

/// Whether a file is a style sheet, by its name.
pub fn is_style_sheet(name: &str) -> (r: bool)
    ensures
        r == (crate::autocomplete::derive::extension(name@) == Some("rsml"@)),
{
    match extension_of(name) {
        Some(extension) => str_eq(extension, "rsml"),
        None => false,
    }
}

/// The path that the address of a file leads to; nothing for other addresses.
pub fn path_of_uri(uri: &str) -> (r: Option<&str>)
    ensures
        match r {
            Some(path) => "file://"@.is_prefix_of(uri@) && path@ == uri@.skip(
                "file://"@.len() as int,
            ),
            None => !"file://"@.is_prefix_of(uri@),
        },
{
    strip_prefix(uri, "file://")
}

/// Whether a path belongs to a document that uses one of the aliases.
pub open spec fn uses_one_of(
    dependants: Set<(Seq<char>, Seq<char>)>,
    aliases: Seq<Seq<char>>,
    path: Seq<char>,
) -> bool {
    exists|i: int| 0 <= i < aliases.len() && dependants.contains((#[trigger] aliases[i], path))
}

/// The documents that use the aliases: those of the first one, then those of the next. One
/// that uses several of them occurs as often.
pub fn affected_documents(luaurc: &Luaurc, aliases: &Vec<String>) -> (r: Vec<String>)
    ensures
        forall|path: Seq<char>| #[trigger]
            r.deep_view().contains(path) <==> uses_one_of(
                luaurc.dependants@,
                aliases.deep_view(),
                path,
            ),
{
    let ghost views = aliases.deep_view();
    let ghost all = luaurc.dependants@;
    let mut out: Vec<String> = Vec::new();
    let mut i: usize = 0;
    while i < aliases.len()
        invariant
            i <= aliases@.len(),
            views == aliases.deep_view(),
            all == luaurc.dependants@,
            forall|path: Seq<char>| #[trigger]
                out.deep_view().contains(path) <==> uses_one_of(all, views.take(i as int), path),
        decreases aliases@.len() - i,
    {
        let mut found = luaurc.dependants.of_alias(aliases[i].as_str());
        let ghost first = out.deep_view();
        let ghost second = found.deep_view();
        out.append(&mut found);
        let ghost after = out.deep_view();
        assert(after =~= first + second);
        proof {
            let done = views.take(i as int);
            let next = views.take(i + 1);
            assert forall|path: Seq<char>| #[trigger]
                after.contains(path) <==> uses_one_of(all, next, path) by {
                assert(first.contains(path) <==> uses_one_of(all, done, path));
                assert(second.contains(path) <==> all.contains((views[i as int], path)));
                if first.contains(path) {
                    let k = choose|k: int| 0 <= k < first.len() && first[k] == path;
                    assert(after[k] == path);
                    let m = choose|m: int|
                        0 <= m < done.len() && all.contains((#[trigger] done[m], path));
                    assert(next[m] == done[m]);
                }
                if second.contains(path) {
                    let k = choose|k: int| 0 <= k < second.len() && second[k] == path;
                    assert(after[first.len() + k] == path);
                    assert(next[i as int] == views[i as int]);
                }
                if after.contains(path) && !first.contains(path) {
                    let k = choose|k: int| 0 <= k < after.len() && after[k] == path;
                    if k < first.len() {
                        assert(first[k] == path);
                    }
                    assert(second[k - first.len()] == path);
                }
                if uses_one_of(all, next, path) && !uses_one_of(all, done, path) {
                    let m = choose|m: int|
                        0 <= m < next.len() && all.contains((#[trigger] next[m], path));
                    if m < i {
                        assert(done[m] == next[m]);
                    }
                }
            }
        }
        i += 1;
    }
    assert(views.take(i as int) =~= views);
    out
}

/// Whether a document uses an alias that does not stand for the same path in both
/// configurations.
pub open spec fn uses_changed_alias(
    before: LuaurcView,
    aliases: Seq<(Seq<char>, Seq<char>)>,
    path: Seq<char>,
) -> bool {
    exists|alias: Seq<char>| #[trigger]
        before.dependants.contains((alias, path)) && luaurc::alias_value(before.aliases, alias)
            != luaurc::alias_value(aliases, alias)
}

/// Gives a workspace new aliases, and says which documents have to be diagnosed again
/// because of it. Nothing happens where the workspace has no configuration.
pub fn reload_luaurc(workspaces: &mut Workspaces, root: &Vec<Component>, fresh: Luaurc) -> (r: Option<
    Vec<String>,
>)
    ensures
        match workspaces::luaurc_at(old(workspaces)@, root.deep_view()) {
            Some(before) => {
                &&& final(workspaces)@ == old(workspaces)@.insert(
                    root.deep_view(),
                    Some(
                        (LuaurcView {
                            aliases: fresh.aliases.deep_view(),
                            dependants: before.dependants,
                        }),
                    ),
                )
                &&& r matches Some(documents) && forall|path: Seq<char>| #[trigger]
                    documents.deep_view().contains(path) <==> uses_changed_alias(
                        before,
                        fresh.aliases.deep_view(),
                        path,
                    )
            },
            None => r is None && final(workspaces)@ == old(workspaces)@,
        },
{
    let ghost all = workspaces@;
    let old_luaurc = match workspaces.remove_luaurc_for_workspace(root) {
        Some(luaurc) => luaurc,
        None => {
            assert(workspaces@ =~= all);
            return None;
        },
    };
    let ghost before = old_luaurc@;
    let changed = changed_aliases(&old_luaurc, &fresh);
    let affected = affected_documents(&old_luaurc, &changed);
    let luaurc = Luaurc { aliases: fresh.aliases, dependants: old_luaurc.dependants };
    workspaces.set_luaurc_for_workspace(root, luaurc);
    proof {
        assert(workspaces@ =~= all.insert(root.deep_view(), Some(luaurc@)));
        assert forall|path: Seq<char>| #[trigger]
            affected.deep_view().contains(path) <==> uses_changed_alias(
                before,
                fresh.aliases.deep_view(),
                path,
            ) by {
            let names = changed.deep_view();
            if uses_one_of(before.dependants, names, path) {
                let i = choose|i: int|
                    0 <= i < names.len() && before.dependants.contains((#[trigger] names[i], path));
                assert(names.contains(names[i]));
            }
            if uses_changed_alias(before, fresh.aliases.deep_view(), path) {
                let alias = choose|alias: Seq<char>| #[trigger]
                    before.dependants.contains((alias, path)) && luaurc::alias_value(
                        before.aliases,
                        alias,
                    ) != luaurc::alias_value(fresh.aliases.deep_view(), alias);
                assert(names.contains(alias));
                let i = choose|i: int| 0 <= i < names.len() && names[i] == alias;
                assert(before.dependants.contains((names[i], path)));
            }
        }
    }
    Some(affected)
}

/// Whether a document uses an alias of a configuration.
pub open spec fn uses_alias(before: LuaurcView, path: Seq<char>) -> bool {
    exists|i: int|
        0 <= i < before.aliases.len() && before.dependants.contains(
            ((#[trigger] before.aliases[i]).0, path),
        )
}

/// Takes the configuration of a workspace, and says which documents have to be diagnosed
/// again because of it. Nothing happens where the workspace has no configuration.
pub fn remove_luaurc(workspaces: &mut Workspaces, root: &Vec<Component>) -> (r: Option<Vec<String>>)
    ensures
        match workspaces::luaurc_at(old(workspaces)@, root.deep_view()) {
            Some(before) => {
                &&& final(workspaces)@ == old(workspaces)@.insert(root.deep_view(), None)
                &&& r matches Some(documents) && forall|path: Seq<char>| #[trigger]
                    documents.deep_view().contains(path) <==> uses_alias(before, path)
            },
            None => r is None && final(workspaces)@ == old(workspaces)@,
        },
{
    let ghost all = workspaces@;
    let luaurc = match workspaces.remove_luaurc_for_workspace(root) {
        Some(luaurc) => luaurc,
        None => {
            assert(workspaces@ =~= all);
            return None;
        },
    };
    let ghost before = luaurc@;
    let mut names: Vec<String> = Vec::new();
    let mut i: usize = 0;
    while i < luaurc.aliases.len()
        invariant
            i <= luaurc.aliases@.len(),
            names@.len() == i,
            forall|k: int| 0 <= k < i ==> (#[trigger] names@[k])@ == luaurc.aliases@[k].0@,
        decreases luaurc.aliases@.len() - i,
    {
        names.push(luaurc.aliases[i].0.clone());
        i += 1;
    }
    let affected = affected_documents(&luaurc, &names);
    proof {
        let views = names.deep_view();
        assert forall|path: Seq<char>| #[trigger]
            affected.deep_view().contains(path) <==> uses_alias(before, path) by {
            if uses_one_of(before.dependants, views, path) {
                let k = choose|k: int|
                    0 <= k < views.len() && before.dependants.contains((#[trigger] views[k], path));
                assert(before.aliases[k].0 == views[k]);
            }
            if uses_alias(before, path) {
                let k = choose|k: int|
                    0 <= k < before.aliases.len() && before.dependants.contains(
                        ((#[trigger] before.aliases[k]).0, path),
                    );
                assert(views[k] == before.aliases[k].0);
            }
        }
    }
    Some(affected)
}

/// The documents without those at the given paths.
pub open spec fn without_files(
    documents: Map<Seq<char>, DocumentView>,
    files: Seq<(Seq<char>, Seq<ComponentView>)>,
) -> Map<Seq<char>, DocumentView>
    decreases files.len(),
{
    if files.len() == 0 {
        documents
    } else {
        without_files(documents, files.drop_last()).remove(files.last().0)
    }
}

/// Whether one state of the workspaces comes of another by forgetting documents, one after the
/// other.
pub open spec fn are_forgotten(
    before: Map<Seq<ComponentView>, Option<LuaurcView>>,
    files: Seq<(Seq<char>, Seq<ComponentView>)>,
    after: Map<Seq<ComponentView>, Option<LuaurcView>>,
) -> bool
    decreases files.len(),
{
    if files.len() == 0 {
        after == before
    } else {
        exists|state: Map<Seq<ComponentView>, Option<LuaurcView>>|
            are_forgotten(before, files.drop_last(), state) && #[trigger] workspaces::is_forgotten(
                state,
                files.last().1,
                files.last().0,
                after,
            )
    }
}

/// No file that was deleted is left among the documents, and the others are as they were.
pub proof fn lemma_deleted_files_are_gone(
    documents: Map<Seq<char>, DocumentView>,
    files: Seq<(Seq<char>, Seq<ComponentView>)>,
    path: Seq<char>,
)
    ensures
        (exists|i: int| 0 <= i < files.len() && (#[trigger] files[i]).0 == path)
            ==> !without_files(documents, files).dom().contains(path),
        (forall|i: int| 0 <= i < files.len() ==> (#[trigger] files[i]).0 != path) ==> {
            &&& without_files(documents, files).dom().contains(path)
                == documents.dom().contains(path)
            &&& without_files(documents, files)[path] == documents[path]
        },
    decreases files.len(),
{
    if files.len() > 0 {
        let front = files.drop_last();
        lemma_deleted_files_are_gone(documents, front, path);
        if files.last().0 != path {
            if exists|i: int| 0 <= i < files.len() && (#[trigger] files[i]).0 == path {
                let i = choose|i: int| 0 <= i < files.len() && (#[trigger] files[i]).0 == path;
                assert(front[i].0 == path);
            }
            if forall|i: int| 0 <= i < files.len() ==> (#[trigger] files[i]).0 != path {
                assert forall|i: int| 0 <= i < front.len() implies (#[trigger] front[i]).0
                    != path by {
                    assert(files[i].0 != path);
                }
            }
        } else {
            assert(files[files.len() - 1].0 == path);
        }
    }
}

/// Takes deleted files, each with how its path is written, out of the documents, and forgets
/// them in the configurations of their workspaces.
pub fn delete_files(
    documents: &mut Documents,
    workspaces: &mut Workspaces,
    files: &Vec<(String, Vec<Component>)>,
)
    ensures
        final(documents)@ == without_files(old(documents)@, files.deep_view()),
        are_forgotten(old(workspaces)@, files.deep_view(), final(workspaces)@),
{
    let ghost views = files.deep_view();
    assert(views.take(0) =~= Seq::empty());
    let mut i: usize = 0;
    while i < files.len()
        invariant
            i <= files@.len(),
            views == files.deep_view(),
            documents@ == without_files(old(documents)@, views.take(i as int)),
            are_forgotten(old(workspaces)@, views.take(i as int), workspaces@),
        decreases files@.len() - i,
    {
        let ghost before = workspaces@;
        assert(views.take(i + 1).drop_last() =~= views.take(i as int));
        let path = files[i].0.as_str();
        assert(views.take(i + 1).last() == (path@, files@[i as int].1.deep_view()));
        documents.remove(path);
        workspaces.forget_document(&files[i].1, path);
        proof {
            let done = views.take(i + 1);
            assert(workspaces::is_forgotten(before, done.last().1, done.last().0, workspaces@));
            assert(are_forgotten(old(workspaces)@, done, workspaces@));
        }
        i += 1;
    }
    assert(views.take(i as int) =~= views);
}

} // verus!
