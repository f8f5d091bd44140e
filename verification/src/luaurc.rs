//! The configuration of a workspace.

use crate::json;
use crate::json::{Json, JsonView};
use crate::strings::{has_string, str_eq};
use vstd::prelude::*;

verus! {

/// The configuration of a workspace.
#[derive(Debug)]
pub struct Luaurc {
    /// The paths that aliases stand for.
    pub aliases: Vec<(String, String)>,
    /// The documents that use the aliases.
    pub dependants: Dependants,
}

/// What a [`Luaurc`] holds.
pub struct LuaurcView {
    pub aliases: Seq<(Seq<char>, Seq<char>)>,
    pub dependants: Set<(Seq<char>, Seq<char>)>,
}

impl View for Luaurc {
    type V = LuaurcView;

    open spec fn view(&self) -> LuaurcView {
        LuaurcView { aliases: self.aliases.deep_view(), dependants: self.dependants@ }
    }
}

/// The documents that use aliases.
#[derive(Debug)]
pub struct Dependants {
    /// Aliases, each with the path of a document that uses it.
    pairs: Vec<(String, String)>,
}

impl View for Dependants {
    type V = Set<(Seq<char>, Seq<char>)>;

    closed spec fn view(&self) -> Set<(Seq<char>, Seq<char>)> {
        self.pairs.deep_view().to_set()
    }
}

impl Dependants {
    pub fn new() -> (r: Self)
        ensures
            r@ == Set::<(Seq<char>, Seq<char>)>::empty(),
    {
        let r = Dependants { pairs: Vec::new() };
        assert(r@ =~= Set::<(Seq<char>, Seq<char>)>::empty());
        r
    }

    /// Notes that a document uses an alias.
    pub fn insert(&mut self, alias: String, path: String)
        ensures
            final(self)@ == old(self)@.insert((alias@, path@)),
    {
        let ghost before = self.pairs.deep_view();
        self.pairs.push((alias, path));
        let ghost after = self.pairs.deep_view();
        assert(after =~= before.push((alias@, path@)));
        assert forall|pair: (Seq<char>, Seq<char>)|
            after.contains(pair) <==> before.contains(pair) || pair == (alias@, path@) by {
            if before.contains(pair) {
                let k = choose|k: int| 0 <= k < before.len() && before[k] == pair;
                assert(after[k] == pair);
            }
            if pair == (alias@, path@) {
                assert(after[before.len() as int] == pair);
            }
            if after.contains(pair) && pair != (alias@, path@) {
                let k = choose|k: int| 0 <= k < after.len() && after[k] == pair;
                assert(before[k] == pair);
            }
        }
        assert(self@ =~= old(self)@.insert((alias@, path@)));
    }

    /// The documents that use an alias, each once.
    pub fn of_alias(&self, alias: &str) -> (r: Vec<String>)
        ensures
            forall|path: Seq<char>| #[trigger]
                r.deep_view().contains(path) <==> self@.contains((alias@, path)),
            r.deep_view().no_duplicates(),
    {
        let ghost views = self.pairs.deep_view();
        let mut out: Vec<String> = Vec::new();
        let mut i: usize = 0;
        while i < self.pairs.len()
            invariant
                i <= self.pairs@.len(),
                views == self.pairs.deep_view(),
                out.deep_view().no_duplicates(),
                forall|path: Seq<char>| #[trigger]
                    out.deep_view().contains(path) <==> views.take(i as int).contains(
                        (alias@, path),
                    ),
            decreases self.pairs@.len() - i,
        {
            let (name, path) = &self.pairs[i];
            assert(views[i as int] == (name@, path@));
            let ghost before = out.deep_view();
            let ghost next = views.take(i + 1);
            if str_eq(name.as_str(), alias) && !has_string(&out, path.as_str()) {
                out.push(path.clone());
                assert(out.deep_view() =~= before.push(path@));
            }
            proof {
                assert forall|p: Seq<char>| #[trigger]
                    out.deep_view().contains(p) <==> next.contains((alias@, p)) by {
                    let done = views.take(i as int);
                    assert(before.contains(p) <==> done.contains((alias@, p)));
                    if done.contains((alias@, p)) {
                        let k = choose|k: int| 0 <= k < done.len() && done[k] == (alias@, p);
                        assert(next[k] == (alias@, p));
                        let m = choose|m: int| 0 <= m < before.len() && before[m] == p;
                        assert(out.deep_view()[m] == p);
                    }
                    if next.contains((alias@, p)) && !done.contains((alias@, p)) {
                        let k = choose|k: int| 0 <= k < next.len() && next[k] == (alias@, p);
                        if k < i {
                            assert(done[k] == (alias@, p));
                        }
                        assert(path@ == p);
                        assert(!before.contains(p));
                        assert(out.deep_view()[before.len() as int] == p);
                    }
                    if out.deep_view().contains(p) && !before.contains(p) {
                        let m = choose|m: int|
                            0 <= m < out.deep_view().len() && out.deep_view()[m] == p;
                        if m < before.len() {
                            assert(before[m] == p);
                        }
                        assert(next[i as int] == (alias@, p));
                    }
                }
            }
            i += 1;
        }
        assert(views.take(i as int) =~= views);
        out
    }

    /// Forgets a document.
    pub fn remove_document(&mut self, path: &str)
        ensures
            forall|pair: (Seq<char>, Seq<char>)| #[trigger]
                final(self)@.contains(pair) <==> old(self)@.contains(pair) && pair.1 != path@,
    {
        let ghost views = self.pairs.deep_view();
        let mut kept: Vec<(String, String)> = Vec::new();
        let mut i: usize = 0;
        while i < self.pairs.len()
            invariant
                i <= self.pairs@.len(),
                *self == *old(self),
                views == self.pairs.deep_view(),
                forall|pair: (Seq<char>, Seq<char>)| #[trigger]
                    kept.deep_view().contains(pair) <==> views.take(i as int).contains(pair)
                        && pair.1 != path@,
            decreases self.pairs@.len() - i,
        {
            let (name, document) = &self.pairs[i];
            let ghost item = (name@, document@);
            assert(views[i as int] == item);
            let ghost before = kept.deep_view();
            let ghost done = views.take(i as int);
            let ghost next = views.take(i + 1);
            if !str_eq(document.as_str(), path) {
                kept.push((name.clone(), document.clone()));
                assert(kept.deep_view() =~= before.push(item));
            }
            proof {
                assert forall|pair: (Seq<char>, Seq<char>)| #[trigger]
                    kept.deep_view().contains(pair) <==> next.contains(pair) && pair.1 != path@ by {
                    let after = kept.deep_view();
                    assert(before.contains(pair) <==> done.contains(pair) && pair.1 != path@);
                    if before.contains(pair) {
                        let k = choose|k: int| 0 <= k < before.len() && before[k] == pair;
                        assert(after[k] == pair);
                    }
                    if done.contains(pair) {
                        let k = choose|k: int| 0 <= k < done.len() && done[k] == pair;
                        assert(next[k] == pair);
                    }
                    if next.contains(pair) && !done.contains(pair) {
                        let k = choose|k: int| 0 <= k < next.len() && next[k] == pair;
                        if k < i {
                            assert(done[k] == pair);
                        }
                        assert(pair == item);
                        if pair.1 != path@ {
                            assert(after[before.len() as int] == pair);
                        }
                    }
                    if after.contains(pair) && !before.contains(pair) {
                        let k = choose|k: int| 0 <= k < after.len() && after[k] == pair;
                        if k < before.len() {
                            assert(before[k] == pair);
                        }
                        assert(pair == item);
                        assert(next[i as int] == pair);
                    }
                }
            }
            i += 1;
        }
        assert(views.take(i as int) =~= views);
        self.pairs = kept;
    }
}

/// Whether all of the values are texts.
pub open spec fn all_text(entries: Seq<(Seq<char>, JsonView)>) -> bool {
    forall|i: int| 0 <= i < entries.len() ==> (#[trigger] entries[i]).1 is Text
}

/// The keys, each with its text.
pub open spec fn texts(entries: Seq<(Seq<char>, JsonView)>) -> Seq<(Seq<char>, Seq<char>)> {
    Seq::new(entries.len(), |i: int| (entries[i].0, entries[i].1->Text_0))
}

/// The aliases of an object of texts; none where a value is something else.
pub open spec fn alias_texts(json: JsonView) -> Seq<(Seq<char>, Seq<char>)> {
    match json {
        JsonView::Object(entries) => if all_text(entries) {
            texts(entries)
        } else {
            Seq::empty()
        },
        _ => Seq::empty(),
    }
}

/// The aliases of a configuration: those under its key `aliases`, or those of its only
/// item where it is an array.
pub open spec fn aliases_of(json: JsonView) -> Seq<(Seq<char>, Seq<char>)> {
    match json {
        JsonView::Array(items) => if items.len() == 1 {
            alias_texts(items[0])
        } else {
            Seq::empty()
        },
        _ => match json.get("aliases"@) {
            Some(aliases) => alias_texts(aliases),
            None => Seq::empty(),
        },
    }
}

fn read_aliases(json: &Json) -> (r: Vec<(String, String)>)
    ensures
        r.deep_view() == alias_texts(json.deep_view()),
{
    let none: Vec<(String, String)> = Vec::new();
    assert(none.deep_view() =~= Seq::empty());
    let entries = match json {
        Json::Object(entries) => entries,
        _ => return none,
    };
    let ghost views = json.deep_view()->Object_0;
    let mut out: Vec<(String, String)> = Vec::new();
    let mut i: usize = 0;
    while i < entries.len()
        invariant
            i <= entries@.len(),
            *json == Json::Object(*entries),
            views == json.deep_view()->Object_0,
            none.deep_view() == Seq::<(Seq<char>, Seq<char>)>::empty(),
            views.len() == entries@.len(),
            out@.len() == i,
            forall|j: int|
                0 <= j < i ==> (#[trigger] views[j]).1 is Text && out@[j].0@ == views[j].0
                    && out@[j].1@ == views[j].1->Text_0,
        decreases entries@.len() - i,
    {
        let (key, value) = &entries[i];
        assert(views[i as int] == (key@, value.deep_view()));
        match value {
            Json::Text(text) => {
                out.push((key.clone(), text.clone()));
            },
            _ => {
                assert(!(views[i as int].1 is Text));
                return none;
            },
        }
        i += 1;
    }
    assert(out.deep_view() =~= texts(views));
    out
}

impl Luaurc {
    /// Reads a configuration, which no document uses yet. What is none has no aliases.
    pub fn new(contents: Option<&Json>) -> (r: Self)
        ensures
            r.aliases.deep_view() == (match contents {
                Some(json) => aliases_of(json.deep_view()),
                None => Seq::empty(),
            }),
            r.dependants@ == Set::<(Seq<char>, Seq<char>)>::empty(),
    {
        let none: Vec<(String, String)> = Vec::new();
        assert(none.deep_view() =~= Seq::empty());
        let aliases = match contents {
            Some(Json::Array(items)) => {
                proof {
                    reveal_with_fuel(json::json_view, 2);
                }
                if items.len() == 1 {
                    read_aliases(&items[0])
                } else {
                    none
                }
            },
            Some(json) => match json.get("aliases") {
                Some(aliases) => read_aliases(aliases),
                None => none,
            },
            None => none,
        };
        Luaurc { aliases, dependants: Dependants::new() }
    }
}

/// The path that an alias stands for.
pub open spec fn alias_value(aliases: Seq<(Seq<char>, Seq<char>)>, alias: Seq<char>) -> Option<
    Seq<char>,
>
    decreases aliases.len(),
{
    if aliases.len() == 0 {
        None
    } else if aliases[0].0 == alias {
        Some(aliases[0].1)
    } else {
        alias_value(aliases.drop_first(), alias)
    }
}

/// Whether an alias is one of those that are given.
spec fn names_alias(aliases: Seq<(Seq<char>, Seq<char>)>, alias: Seq<char>) -> bool {
    exists|i: int| 0 <= i < aliases.len() && (#[trigger] aliases[i]).0 == alias
}

proof fn lemma_alias_skips(aliases: Seq<(Seq<char>, Seq<char>)>, alias: Seq<char>, n: int)
    requires
        0 <= n <= aliases.len(),
        forall|j: int| 0 <= j < n ==> (#[trigger] aliases[j]).0 != alias,
    ensures
        alias_value(aliases, alias) == alias_value(aliases.skip(n), alias),
    decreases n,
{
    if n == 0 {
        assert(aliases.skip(0) =~= aliases);
    } else {
        assert forall|j: int| 0 <= j < n - 1 implies (
        #[trigger] aliases.drop_first()[j]).0 != alias by {
            assert(aliases[j + 1].0 != alias);
        }
        assert(aliases[0].0 != alias);
        lemma_alias_skips(aliases.drop_first(), alias, n - 1);
        assert(aliases.drop_first().skip(n - 1) =~= aliases.skip(n));
    }
}

fn find_alias<'b>(aliases: &'b Vec<(String, String)>, alias: &str) -> (r: Option<&'b str>)
    ensures
        r.deep_view() == alias_value(aliases.deep_view(), alias@),
        r is None <==> !names_alias(aliases.deep_view(), alias@),
{
    let ghost views = aliases.deep_view();
    let mut i: usize = 0;
    while i < aliases.len()
        invariant
            i <= aliases@.len(),
            views == aliases.deep_view(),
            forall|j: int| 0 <= j < i ==> (#[trigger] views[j]).0 != alias@,
        decreases aliases@.len() - i,
    {
        assert(views[i as int] == aliases@[i as int].deep_view());
        if str_eq(aliases[i].0.as_str(), alias) {
            proof {
                lemma_alias_skips(views, alias@, i as int);
                assert(views.skip(i as int)[0] == views[i as int]);
                assert(views[i as int].0 == alias@);
            }
            return Some(aliases[i].1.as_str());
        }
        i += 1;
    }
    proof {
        lemma_alias_skips(views, alias@, i as int);
    }
    None
}

fn same_path_text(a: Option<&str>, b: Option<&str>) -> (r: bool)
    ensures
        r == (a.deep_view() == b.deep_view()),
{
    match (a, b) {
        (Some(a), Some(b)) => str_eq(a, b),
        (None, None) => true,
        _ => false,
    }
}

fn add_changed(
    names: &Vec<(String, String)>,
    old_aliases: &Vec<(String, String)>,
    new_aliases: &Vec<(String, String)>,
    out: &mut Vec<String>,
)
    requires
        old(out).deep_view().no_duplicates(),
    ensures
        final(out).deep_view().no_duplicates(),
        forall|alias: Seq<char>| #[trigger]
            final(out).deep_view().contains(alias) <==> old(out).deep_view().contains(alias) || (
            names_alias(names.deep_view(), alias) && alias_value(old_aliases.deep_view(), alias)
                != alias_value(new_aliases.deep_view(), alias)),
{
    let ghost views = names.deep_view();
    let ghost x = old_aliases.deep_view();
    let ghost y = new_aliases.deep_view();
    let ghost start = out.deep_view();
    let mut i: usize = 0;
    while i < names.len()
        invariant
            i <= names@.len(),
            views == names.deep_view(),
            x == old_aliases.deep_view(),
            y == new_aliases.deep_view(),
            out.deep_view().no_duplicates(),
            forall|alias: Seq<char>| #[trigger]
                out.deep_view().contains(alias) <==> start.contains(alias) || (names_alias(
                    views.take(i as int),
                    alias,
                ) && alias_value(x, alias) != alias_value(y, alias)),
        decreases names@.len() - i,
    {
        let alias = names[i].0.as_str();
        assert(views[i as int].0 == alias@);
        let ghost before = out.deep_view();
        let changed = !same_path_text(find_alias(old_aliases, alias), find_alias(new_aliases, alias));
        if changed && !has_string(out, alias) {
            out.push(alias.to_owned());
            assert(out.deep_view() =~= before.push(alias@));
        }
        proof {
            let after = out.deep_view();
            let done = views.take(i as int);
            let next = views.take(i + 1);
            assert forall|name: Seq<char>| #[trigger]
                after.contains(name) <==> start.contains(name) || (names_alias(next, name)
                    && alias_value(x, name) != alias_value(y, name)) by {
                assert(before.contains(name) <==> start.contains(name) || (names_alias(done, name)
                    && alias_value(x, name) != alias_value(y, name)));
                if names_alias(done, name) {
                    let k = choose|k: int| 0 <= k < done.len() && (#[trigger] done[k]).0 == name;
                    assert(next[k].0 == name);
                }
                if names_alias(next, name) && !names_alias(done, name) {
                    let k = choose|k: int| 0 <= k < next.len() && (#[trigger] next[k]).0 == name;
                    if k < i {
                        assert(done[k].0 == name);
                    }
                    assert(name == alias@);
                }
                if before.contains(name) {
                    let k = choose|k: int| 0 <= k < before.len() && before[k] == name;
                    assert(after[k] == name);
                }
                if after.contains(name) && !before.contains(name) {
                    let k = choose|k: int| 0 <= k < after.len() && after[k] == name;
                    if k < before.len() {
                        assert(before[k] == name);
                    }
                    assert(name == alias@);
                    assert(next[i as int].0 == name);
                }
                if name == alias@ && changed && !before.contains(name) {
                    assert(after[before.len() as int] == name);
                }
            }
        }
        i += 1;
    }
    assert(views.take(i as int) =~= views);
}

proof fn lemma_alias_value(aliases: Seq<(Seq<char>, Seq<char>)>, alias: Seq<char>)
    ensures
        alias_value(aliases, alias) is Some <==> names_alias(aliases, alias),
    decreases aliases.len(),
{
    if aliases.len() > 0 {
        let rest = aliases.drop_first();
        lemma_alias_value(rest, alias);
        if names_alias(rest, alias) {
            let k = choose|k: int| 0 <= k < rest.len() && (#[trigger] rest[k]).0 == alias;
            assert(aliases[k + 1].0 == alias);
        }
        if names_alias(aliases, alias) {
            let k = choose|k: int| 0 <= k < aliases.len() && (#[trigger] aliases[k]).0 == alias;
            if k > 0 {
                assert(rest[k - 1].0 == alias);
            }
        }
    }
}

/// The aliases that do not stand for the same path in both configurations, each once.
pub fn changed_aliases(old_luaurc: &Luaurc, new_luaurc: &Luaurc) -> (r: Vec<String>)
    ensures
        r.deep_view().no_duplicates(),
        forall|alias: Seq<char>| #[trigger]
            r.deep_view().contains(alias) <==> alias_value(old_luaurc.aliases.deep_view(), alias)
                != alias_value(new_luaurc.aliases.deep_view(), alias),
{
    let mut out: Vec<String> = Vec::new();
    assert(out.deep_view() =~= Seq::empty());
    add_changed(&old_luaurc.aliases, &old_luaurc.aliases, &new_luaurc.aliases, &mut out);
    add_changed(&new_luaurc.aliases, &old_luaurc.aliases, &new_luaurc.aliases, &mut out);
    assert forall|alias: Seq<char>| #[trigger]
        out.deep_view().contains(alias) <==> alias_value(old_luaurc.aliases.deep_view(), alias)
            != alias_value(new_luaurc.aliases.deep_view(), alias) by {
        lemma_alias_value(old_luaurc.aliases.deep_view(), alias);
        lemma_alias_value(new_luaurc.aliases.deep_view(), alias);
    }
    out
}

} // verus!
