//! The workspaces of an editor, and their configurations.

use super::keyed;
use super::status::Status;
use crate::autocomplete::derive::same_path;
use crate::autocomplete::normalize_path::{Component, ComponentView};
use crate::luaurc::{Luaurc, LuaurcView};
use vstd::prelude::*;

verus! {

/// A workspace, with its configuration where it has one.
#[derive(Debug)]
pub struct Workspace {
    pub luaurc: Option<Luaurc>,
}

/// What a configuration that may be missing holds.
pub open spec fn luaurc_view(luaurc: Option<Luaurc>) -> Option<LuaurcView> {
    match luaurc {
        Some(luaurc) => Some(luaurc@),
        None => None,
    }
}

impl Workspace {
    pub fn new(luaurc: Option<Luaurc>) -> (r: Self)
        ensures
            r.luaurc == luaurc,
    {
        Workspace { luaurc }
    }
}

impl DeepView for Workspace {
    type V = Option<LuaurcView>;

    open spec fn deep_view(&self) -> Option<LuaurcView> {
        luaurc_view(self.luaurc)
    }
}

/// The workspaces, each under its path.
pub struct Workspaces {
    entries: Vec<(Vec<Component>, Workspace)>,
}

impl View for Workspaces {
    type V = Map<Seq<ComponentView>, Option<LuaurcView>>;

    closed spec fn view(&self) -> Map<Seq<ComponentView>, Option<LuaurcView>> {
        keyed::entries_view(self.entries@)
    }
}

/// The configuration of the workspace at a path.
pub open spec fn luaurc_at(
    workspaces: Map<Seq<ComponentView>, Option<LuaurcView>>,
    path: Seq<ComponentView>,
) -> Option<LuaurcView> {
    if workspaces.dom().contains(path) {
        workspaces[path]
    } else {
        None
    }
}

/// Whether a path leads to a workspace or into it.
pub open spec fn is_within(path: Seq<ComponentView>, workspace: Seq<ComponentView>) -> bool {
    workspace.is_prefix_of(path)
}

/// Whether a path leads to one of the workspaces or into it.
pub open spec fn is_in_workspace(
    workspaces: Map<Seq<ComponentView>, Option<LuaurcView>>,
    path: Seq<ComponentView>,
) -> bool {
    exists|root: Seq<ComponentView>| #[trigger]
        workspaces.dom().contains(root) && is_within(path, root)
}

/// Whether a workspace that the path leads to or into has the given configuration.
pub open spec fn serves(
    workspaces: Map<Seq<ComponentView>, Option<LuaurcView>>,
    path: Seq<ComponentView>,
    luaurc: Option<LuaurcView>,
) -> bool {
    exists|root: Seq<ComponentView>| #[trigger]
        workspaces.dom().contains(root) && is_within(path, root) && workspaces[root] == luaurc
}

/// A configuration with a document that uses an alias.
pub open spec fn with_dependant(
    luaurc: Option<LuaurcView>,
    alias: Seq<char>,
    document: Seq<char>,
) -> Option<LuaurcView> {
    match luaurc {
        Some(luaurc) => Some(
            LuaurcView { dependants: luaurc.dependants.insert((alias, document)), ..luaurc },
        ),
        None => None,
    }
}

/// A configuration without the aliases that a document uses.
pub open spec fn without_document(luaurc: Option<LuaurcView>, document: Seq<char>) -> Option<
    LuaurcView,
> {
    match luaurc {
        Some(luaurc) => Some(
            LuaurcView {
                dependants: luaurc.dependants.filter(
                    |pair: (Seq<char>, Seq<char>)| pair.1 != document,
                ),
                ..luaurc
            },
        ),
        None => None,
    }
}

/// Whether one state of the workspaces comes of another by forgetting a document. It is
/// forgotten in one of the workspaces that its path leads to or into, where there is any.
pub open spec fn is_forgotten(
    before: Map<Seq<ComponentView>, Option<LuaurcView>>,
    path: Seq<ComponentView>,
    document: Seq<char>,
    after: Map<Seq<ComponentView>, Option<LuaurcView>>,
) -> bool {
    if is_in_workspace(before, path) {
        exists|root: Seq<ComponentView>| #[trigger]
            before.dom().contains(root) && is_within(path, root) && after == before.insert(
                root,
                without_document(before[root], document),
            )
    } else {
        after == before
    }
}

fn starts_with(path: &Vec<Component>, root: &Vec<Component>) -> (r: bool)
    ensures
        r == is_within(path.deep_view(), root.deep_view()),
{
    let ghost x = path.deep_view();
    let ghost y = root.deep_view();
    if path.len() < root.len() {
        return false;
    }
    let mut i: usize = 0;
    while i < root.len()
        invariant
            i <= root@.len() <= path@.len(),
            x == path.deep_view(),
            y == root.deep_view(),
            forall|j: int| 0 <= j < i ==> x[j] == y[j],
        decreases root@.len() - i,
    {
        if !path[i].same(&root[i]) {
            assert(x.subrange(0, y.len() as int)[i as int] != y[i as int]);
            return false;
        }
        i += 1;
    }
    assert(y =~= x.subrange(0, y.len() as int));
    true
}

fn copy_path(path: &Vec<Component>) -> (r: Vec<Component>)
    ensures
        r.deep_view() == path.deep_view(),
{
    let mut out: Vec<Component> = Vec::new();
    let mut i: usize = 0;
    while i < path.len()
        invariant
            i <= path@.len(),
            out.deep_view() == path.deep_view().take(i as int),
        decreases path@.len() - i,
    {
        let ghost before = out.deep_view();
        let next = path[i].copy();
        out.push(next);
        assert(out.deep_view() =~= before.push(next.deep_view()));
        assert(path.deep_view().take(i + 1) =~= path.deep_view().take(i as int).push(
            path.deep_view()[i as int],
        ));
        i += 1;
    }
    assert(path.deep_view().take(i as int) =~= path.deep_view());
    out
}

impl Workspaces {
    /// No two entries have the same path.
    #[verifier::type_invariant]
    spec fn wf(self) -> bool {
        keyed::is_distinct(self.entries@)
    }

    pub fn new() -> (r: Self)
        ensures
            r@ == Map::<Seq<ComponentView>, Option<LuaurcView>>::empty(),
    {
        let r = Workspaces { entries: Vec::new() };
        assert(r@ =~= Map::<Seq<ComponentView>, Option<LuaurcView>>::empty());
        r
    }

    /// The paths of the workspaces, each once.
    pub fn roots(&self) -> (r: Vec<Vec<Component>>)
        ensures
            forall|path: Seq<ComponentView>| #[trigger]
                r.deep_view().contains(path) <==> self@.dom().contains(path),
            r.deep_view().no_duplicates(),
    {
        proof {
            use_type_invariant(self);
        }
        let mut out: Vec<Vec<Component>> = Vec::new();
        let mut i: usize = 0;
        while i < self.entries.len()
            invariant
                i <= self.entries@.len(),
                out@.len() == i,
                forall|j: int|
                    0 <= j < i ==> #[trigger] out.deep_view()[j]
                        == self.entries@[j].0.deep_view(),
            decreases self.entries@.len() - i,
        {
            let ghost before = out.deep_view();
            let root = copy_path(&self.entries[i].0);
            out.push(root);
            assert(out.deep_view() =~= before.push(root.deep_view()));
            i += 1;
        }
        proof {
            let roots = out.deep_view();
            assert forall|path: Seq<ComponentView>| #[trigger]
                roots.contains(path) <==> self@.dom().contains(path) by {
                if roots.contains(path) {
                    let k = choose|k: int| 0 <= k < roots.len() && roots[k] == path;
                    assert(self.entries@[k].0.deep_view() == path);
                }
                if keyed::has_entry(self.entries@, path) {
                    let k = keyed::index_of(self.entries@, path);
                    assert(roots[k] == path);
                }
            }
            assert forall|a: int, b: int|
                0 <= a < roots.len() && 0 <= b < roots.len() && a != b implies roots[a]
                != roots[b] by {
                assert(roots[a] == self.entries@[a].0.deep_view());
                assert(roots[b] == self.entries@[b].0.deep_view());
            }
        }
        out
    }

    fn find(&self, path: &Vec<Component>) -> (r: Option<usize>)
        ensures
            match r {
                Some(i) => i < self.entries@.len() && self.entries@[i as int].0.deep_view()
                    == path.deep_view(),
                None => !self@.dom().contains(path.deep_view()),
            },
    {
        let mut i: usize = 0;
        while i < self.entries.len()
            invariant
                i <= self.entries@.len(),
                forall|j: int|
                    0 <= j < i ==> (#[trigger] self.entries@[j]).0.deep_view() != path.deep_view(),
            decreases self.entries@.len() - i,
        {
            if same_path(&self.entries[i].0, path) {
                return Some(i);
            }
            i += 1;
        }
        assert(!keyed::has_entry(self.entries@, path.deep_view()));
        None
    }

    /// Adds a workspace, in place of the one that has been at its path.
    pub fn insert(&mut self, path: Vec<Component>, workspace: Workspace)
        ensures
            final(self)@ == old(self)@.insert(path.deep_view(), luaurc_view(workspace.luaurc)),
    {
        self.remove(&path);
        proof {
            use_type_invariant(&*self);
        }
        let ghost before = self.entries@;
        let ghost view = keyed::entries_view(before);
        assert(!view.dom().contains(path.deep_view()));
        let mut entries: Vec<(Vec<Component>, Workspace)> = Vec::new();
        std::mem::swap(&mut entries, &mut self.entries);
        entries.push((path, workspace));
        proof {
            let item = (path, workspace);
            let after = before.push(item);
            assert forall|i: int, j: int| 0 <= i < j < after.len() implies (
            #[trigger] after[i]).0.deep_view() != (#[trigger] after[j]).0.deep_view() by {
                if j == before.len() {
                    assert(after[i] == before[i]);
                }
            }
            let map = view.insert(path.deep_view(), luaurc_view(workspace.luaurc));
            assert forall|i: int| 0 <= i < after.len() implies map.dom().contains(
                (#[trigger] after[i]).0.deep_view(),
            ) && map[after[i].0.deep_view()] == luaurc_view(after[i].1.luaurc) by {
                if i < before.len() {
                    keyed::lemma_entry(before, i);
                    assert(after[i] == before[i]);
                }
            }
            assert forall|p: Seq<ComponentView>| #[trigger] map.dom().contains(p) implies keyed::has_entry(
                after,
                p,
            ) by {
                if p == path.deep_view() {
                    assert(after[before.len() as int].0.deep_view() == p);
                } else {
                    let k = keyed::index_of(before, p);
                    assert(keyed::has_entry(before, p));
                    assert(after[k] == before[k]);
                }
            }
            keyed::lemma_entries_view(after, map);
            assert(view.insert(path.deep_view(), luaurc_view(workspace.luaurc)) =~= old(
                self,
            )@.insert(path.deep_view(), luaurc_view(workspace.luaurc)));
        }
        *self = Workspaces { entries };
    }

    /// Takes a workspace out.
    pub fn remove(&mut self, path: &Vec<Component>)
        ensures
            final(self)@ == old(self)@.remove(path.deep_view()),
    {
        proof {
            use_type_invariant(&*self);
        }
        let ghost before = self.entries@;
        match self.find(path) {
            Some(i) => {
                let mut entries: Vec<(Vec<Component>, Workspace)> = Vec::new();
                std::mem::swap(&mut entries, &mut self.entries);
                entries.remove(i);
                proof {
                    let after = entries@;
                    assert(after == before.remove(i as int));
                    let index = |k: int|
                        if k < i {
                            k
                        } else {
                            k + 1
                        };
                    assert forall|k: int| 0 <= k < after.len() implies #[trigger] after[k]
                        == before[index(k)] by {}
                    assert forall|a: int, b: int| 0 <= a < b < after.len() implies (
                    #[trigger] after[a]).0.deep_view() != (#[trigger] after[b]).0.deep_view() by {
                        assert(after[a] == before[index(a)] && after[b] == before[index(b)]);
                    }
                    let map = keyed::entries_view(before).remove(path.deep_view());
                    assert forall|k: int| 0 <= k < after.len() implies map.dom().contains(
                        (#[trigger] after[k]).0.deep_view(),
                    ) && map[after[k].0.deep_view()] == luaurc_view(after[k].1.luaurc) by {
                        assert(after[k] == before[index(k)]);
                        keyed::lemma_entry(before, index(k));
                        assert(before[index(k)].0.deep_view() != before[i as int].0.deep_view());
                    }
                    assert forall|p: Seq<ComponentView>| #[trigger]
                        map.dom().contains(p) implies keyed::has_entry(after, p) by {
                        assert(keyed::has_entry(before, p));
                        let k = keyed::index_of(before, p);
                        assert(before[k].0.deep_view() == p);
                        let m = if k < i {
                            k
                        } else {
                            k - 1
                        };
                        assert(after[m] == before[k]);
                    }
                    keyed::lemma_entries_view(after, map);
                }
                *self = Workspaces { entries };
            },
            None => {
                assert(self@ =~= old(self)@.remove(path.deep_view()));
            },
        }
    }

    /// The configuration of the workspace at a path.
    pub fn luaurc_of(&self, path: &Vec<Component>) -> (r: Option<&Luaurc>)
        ensures
            r.is_some() == luaurc_at(self@, path.deep_view()).is_some(),
            r matches Some(luaurc) ==> luaurc_at(self@, path.deep_view()) == Some(luaurc@),
    {
        proof {
            use_type_invariant(self);
        }
        match self.find(path) {
            Some(i) => {
                proof {
                    keyed::lemma_entry(self.entries@, i as int);
                }
                match &self.entries[i].1.luaurc {
                    Some(luaurc) => Some(luaurc),
                    None => None,
                }
            },
            None => None,
        }
    }

    fn find_for_path(&self, path: &Vec<Component>) -> (r: Option<usize>)
        ensures
            match r {
                Some(i) => {
                    &&& i < self.entries@.len()
                    &&& is_within(path.deep_view(), self.entries@[i as int].0.deep_view())
                    &&& self@.dom().contains(self.entries@[i as int].0.deep_view())
                    &&& self@[self.entries@[i as int].0.deep_view()] == luaurc_view(
                        self.entries@[i as int].1.luaurc,
                    )
                },
                None => !is_in_workspace(self@, path.deep_view()),
            },
    {
        proof {
            use_type_invariant(self);
        }
        let mut i: usize = 0;
        while i < self.entries.len()
            invariant
                i <= self.entries@.len(),
                keyed::is_distinct(self.entries@),
                forall|j: int|
                    0 <= j < i ==> !is_within(
                        path.deep_view(),
                        (#[trigger] self.entries@[j]).0.deep_view(),
                    ),
            decreases self.entries@.len() - i,
        {
            if starts_with(path, &self.entries[i].0) {
                proof {
                    keyed::lemma_entry(self.entries@, i as int);
                }
                return Some(i);
            }
            i += 1;
        }
        assert forall|root: Seq<ComponentView>| #[trigger]
            self@.dom().contains(root) implies !is_within(path.deep_view(), root) by {
            assert(keyed::has_entry(self.entries@, root));
            let k = keyed::index_of(self.entries@, root);
            assert(self.entries@[k].0.deep_view() == root);
        }
        None
    }

    /// The path of a workspace that a path leads to or into.
    pub fn workspace_path_for_path(&self, path: &Vec<Component>) -> (r: Option<&Vec<Component>>)
        ensures
            match r {
                Some(root) => self@.dom().contains(root.deep_view()) && is_within(
                    path.deep_view(),
                    root.deep_view(),
                ),
                None => !is_in_workspace(self@, path.deep_view()),
            },
    {
        match self.find_for_path(path) {
            Some(i) => Some(&self.entries[i].0),
            None => None,
        }
    }

    /// A workspace that a path leads to or into.
    pub fn workspace_for_path(&self, path: &Vec<Component>) -> (r: Option<&Workspace>)
        ensures
            match r {
                Some(workspace) => serves(self@, path.deep_view(), luaurc_view(workspace.luaurc)),
                None => !is_in_workspace(self@, path.deep_view()),
            },
    {
        match self.find_for_path(path) {
            Some(i) => {
                assert(serves(
                    self@,
                    path.deep_view(),
                    luaurc_view(self.entries@[i as int].1.luaurc),
                ));
                Some(&self.entries[i].1)
            },
            None => None,
        }
    }

    /// The configuration that holds for a document: the one at hand, or else that of the
    /// document's workspace.
    pub fn luaurc_for_path<'b>(&'b self, status: Status<&'b Luaurc>, path: &Vec<Component>) -> (r:
        Option<&'b Luaurc>)
        ensures
            match status {
                Status::Known(luaurc) => r == Some(luaurc),
                Status::Absent => r is None,
                Status::Unknown => if is_in_workspace(self@, path.deep_view()) {
                    serves(
                        self@,
                        path.deep_view(),
                        match r {
                            Some(luaurc) => Some(luaurc@),
                            None => None,
                        },
                    )
                } else {
                    r is None
                },
            },
    {
        match status {
            Status::Known(luaurc) => Some(luaurc),
            Status::Absent => None,
            Status::Unknown => match self.find_for_path(path) {
                Some(i) => {
                    assert(serves(
                        self@,
                        path.deep_view(),
                        luaurc_view(self.entries@[i as int].1.luaurc),
                    ));
                    match &self.entries[i].1.luaurc {
                        Some(luaurc) => Some(luaurc),
                        None => None,
                    }
                },
                None => None,
            },
        }
    }

    /// Gives the workspace at a path a configuration, and hands the old one out. Nothing
    /// happens where there is no such workspace.
    pub fn set_luaurc_for_workspace(&mut self, path: &Vec<Component>, luaurc: Luaurc) -> (r: Option<
        Luaurc,
    >)
        ensures
            luaurc_view(r) == luaurc_at(old(self)@, path.deep_view()),
            final(self)@ == (if old(self)@.dom().contains(path.deep_view()) {
                old(self)@.insert(path.deep_view(), Some(luaurc@))
            } else {
                old(self)@
            }),
    {
        self.replace_luaurc(path, Some(luaurc))
    }

    /// Takes the configuration of the workspace at a path.
    pub fn remove_luaurc_for_workspace(&mut self, path: &Vec<Component>) -> (r: Option<Luaurc>)
        ensures
            luaurc_view(r) == luaurc_at(old(self)@, path.deep_view()),
            final(self)@ == (if old(self)@.dom().contains(path.deep_view()) {
                old(self)@.insert(path.deep_view(), None)
            } else {
                old(self)@
            }),
    {
        self.replace_luaurc(path, None)
    }

    /// Notes that a document uses an alias, in the configuration of a workspace that a path
    /// leads to or into, where it has one.
    pub fn add_dependant(&mut self, path: &Vec<Component>, alias: String, document: String)
        ensures
            if is_in_workspace(old(self)@, path.deep_view()) {
                exists|root: Seq<ComponentView>| #[trigger]
                    old(self)@.dom().contains(root) && is_within(path.deep_view(), root)
                        && final(self)@ == old(self)@.insert(
                        root,
                        with_dependant(old(self)@[root], alias@, document@),
                    )
            } else {
                final(self)@ == old(self)@
            },
    {
        let root = match self.copy_root(path) {
            Some(root) => root,
            None => return,
        };
        let ghost before = self@;
        let luaurc = match self.replace_luaurc(&root, None) {
            Some(luaurc) => luaurc,
            None => {
                assert(self@ =~= before.insert(root.deep_view(), before[root.deep_view()]));
                return;
            },
        };
        let mut luaurc = luaurc;
        luaurc.dependants.insert(alias, document);
        self.replace_luaurc(&root, Some(luaurc));
        assert(self@ =~= before.insert(
            root.deep_view(),
            with_dependant(before[root.deep_view()], alias@, document@),
        ));
    }

    /// Forgets a document in the configuration of a workspace that a path leads to or into.
    /// Says whether there is such a configuration.
    pub fn forget_document(&mut self, path: &Vec<Component>, document: &str) -> (r: bool)
        ensures
            if is_in_workspace(old(self)@, path.deep_view()) {
                exists|root: Seq<ComponentView>| #[trigger]
                    old(self)@.dom().contains(root) && is_within(path.deep_view(), root)
                        && final(self)@ == old(self)@.insert(root, without_document(old(self)@[root], document@))
                        && r == old(self)@[root].is_some()
            } else {
                !r && final(self)@ == old(self)@
            },
    {
        let root = match self.copy_root(path) {
            Some(root) => root,
            None => return false,
        };
        let ghost before = self@;
        let luaurc = match self.replace_luaurc(&root, None) {
            Some(luaurc) => luaurc,
            None => {
                assert(self@ =~= before.insert(root.deep_view(), before[root.deep_view()]));
                return false;
            },
        };
        let mut luaurc = luaurc;
        let ghost dependants = luaurc.dependants@;
        luaurc.dependants.remove_document(document);
        assert(luaurc.dependants@ =~= dependants.filter(
            |pair: (Seq<char>, Seq<char>)| pair.1 != document@,
        ));
        self.replace_luaurc(&root, Some(luaurc));
        assert(self@ =~= before.insert(
            root.deep_view(),
            without_document(before[root.deep_view()], document@),
        ));
        true
    }

    fn copy_root(&self, path: &Vec<Component>) -> (r: Option<Vec<Component>>)
        ensures
            match r {
                Some(root) => self@.dom().contains(root.deep_view()) && is_within(
                    path.deep_view(),
                    root.deep_view(),
                ),
                None => !is_in_workspace(self@, path.deep_view()),
            },
    {
        let root = match self.workspace_path_for_path(path) {
            Some(root) => root,
            None => return None,
        };
        Some(copy_path(root))
    }

    fn replace_luaurc(&mut self, path: &Vec<Component>, luaurc: Option<Luaurc>) -> (r: Option<Luaurc>)
        ensures
            luaurc_view(r) == luaurc_at(old(self)@, path.deep_view()),
            final(self)@ == (if old(self)@.dom().contains(path.deep_view()) {
                old(self)@.insert(path.deep_view(), luaurc_view(luaurc))
            } else {
                old(self)@
            }),
    {
        proof {
            use_type_invariant(&*self);
        }
        let ghost before = self.entries@;
        match self.find(path) {
            Some(i) => {
                proof {
                    keyed::lemma_entry(before, i as int);
                }
                let mut entries: Vec<(Vec<Component>, Workspace)> = Vec::new();
                std::mem::swap(&mut entries, &mut self.entries);
                let (root, workspace) = entries.remove(i);
                let old_luaurc = workspace.luaurc;
                entries.insert(i, (root, Workspace { luaurc }));
                proof {
                    let after = entries@;
                    assert forall|k: int| 0 <= k < after.len() implies (
                    #[trigger] after[k]).0.deep_view() == before[k].0.deep_view() && (k != i
                        ==> after[k] == before[k]) by {}
                    assert forall|a: int, b: int| 0 <= a < b < after.len() implies (
                    #[trigger] after[a]).0.deep_view() != (#[trigger] after[b]).0.deep_view() by {
                        assert(before[a].0.deep_view() != before[b].0.deep_view());
                    }
                    let map = keyed::entries_view(before).insert(path.deep_view(), luaurc_view(luaurc));
                    assert forall|k: int| 0 <= k < after.len() implies map.dom().contains(
                        (#[trigger] after[k]).0.deep_view(),
                    ) && map[after[k].0.deep_view()] == luaurc_view(after[k].1.luaurc) by {
                        keyed::lemma_entry(before, k);
                        if k != i {
                            assert(before[k].0.deep_view() != before[i as int].0.deep_view());
                        }
                    }
                    assert forall|p: Seq<ComponentView>| #[trigger]
                        map.dom().contains(p) implies keyed::has_entry(after, p) by {
                        if p == path.deep_view() {
                            assert(after[i as int].0.deep_view() == p);
                        } else {
                            assert(keyed::has_entry(before, p));
                            let k = keyed::index_of(before, p);
                            assert(after[k].0.deep_view() == p);
                        }
                    }
                    keyed::lemma_entries_view(after, map);
                }
                *self = Workspaces { entries };
                old_luaurc
            },
            None => None,
        }
    }
}

} // verus!
