//! Paths, as lists of their components.

use crate::strings::{join2, join3, str_eq};
use vstd::prelude::*;

verus! {

/// A component of a path.
#[derive(Debug)]
pub enum Component {
    /// What stands before the root, such as the letter of a drive.
    Prefix(String),
    RootDir,
    CurDir,
    ParentDir,
    Normal(String),
}

/// What a [`Component`] holds.
pub enum ComponentView {
    Prefix(Seq<char>),
    RootDir,
    CurDir,
    ParentDir,
    Normal(Seq<char>),
}

impl DeepView for Component {
    type V = ComponentView;

    open spec fn deep_view(&self) -> ComponentView {
        match self {
            Component::Prefix(name) => ComponentView::Prefix(name@),
            Component::RootDir => ComponentView::RootDir,
            Component::CurDir => ComponentView::CurDir,
            Component::ParentDir => ComponentView::ParentDir,
            Component::Normal(name) => ComponentView::Normal(name@),
        }
    }
}

impl Component {
    /// Copies a component.
    pub fn copy(&self) -> (r: Self)
        ensures
            r.deep_view() == self.deep_view(),
    {
        match self {
            Component::Prefix(name) => Component::Prefix(name.clone()),
            Component::RootDir => Component::RootDir,
            Component::CurDir => Component::CurDir,
            Component::ParentDir => Component::ParentDir,
            Component::Normal(name) => Component::Normal(name.clone()),
        }
    }

    /// Whether two components are the same.
    pub fn same(&self, other: &Component) -> (r: bool)
        ensures
            r == (self.deep_view() == other.deep_view()),
    {
        match (self, other) {
            (Component::Prefix(x), Component::Prefix(y)) => str_eq(x.as_str(), y.as_str()),
            (Component::RootDir, Component::RootDir) => true,
            (Component::CurDir, Component::CurDir) => true,
            (Component::ParentDir, Component::ParentDir) => true,
            (Component::Normal(x), Component::Normal(y)) => str_eq(x.as_str(), y.as_str()),
            _ => false,
        }
    }
}

/// Whether a path starts at the root.
pub open spec fn has_root(path: Seq<ComponentView>) -> bool {
    ||| path.len() > 0 && path[0] is RootDir
    ||| path.len() > 1 && path[0] is Prefix && path[1] is RootDir
}

/// A path with one more component. `..` takes the last name away, and is kept only where
/// there is none to take away and the path does not start at the root.
pub open spec fn followed(path: Seq<ComponentView>, next: ComponentView) -> Seq<ComponentView> {
    match next {
        ComponentView::Prefix(_) => if path.len() == 0 {
            seq![next]
        } else {
            path
        },
        ComponentView::RootDir => if path.len() > 0 && path[0] is Prefix {
            seq![path[0], next]
        } else {
            seq![next]
        },
        ComponentView::CurDir => path,
        ComponentView::ParentDir => if path.len() > 0 && path.last() is Normal {
            path.drop_last()
        } else if has_root(path) {
            path
        } else {
            path.push(next)
        },
        ComponentView::Normal(_) => path.push(next),
    }
}

/// A path without `.`, and without `..` where a name can be taken away instead.
pub open spec fn normalized(path: Seq<ComponentView>) -> Seq<ComponentView>
    decreases path.len(),
{
    if path.len() == 0 {
        Seq::empty()
    } else {
        followed(normalized(path.drop_last()), path.last())
    }
}

/// Whether a path is in its shortest form: a prefix comes first, the root next, neither
/// occurs elsewhere, there is no `.`, and nothing but a prefix comes before `..`.
pub open spec fn is_normal(path: Seq<ComponentView>) -> bool {
    forall|i: int|
        0 <= i < path.len() ==> match #[trigger] path[i] {
            ComponentView::Prefix(_) => i == 0,
            ComponentView::RootDir => i == 0 || i == 1 && path[0] is Prefix,
            ComponentView::CurDir => false,
            ComponentView::ParentDir => forall|j: int|
                0 <= j < i ==> #[trigger] path[j] is ParentDir || j == 0 && path[j] is Prefix,
            ComponentView::Normal(_) => true,
        }
}

/// What stands between the names of a path. Only paths with a prefix, such as the letter of a
/// drive, are written with backslashes.
pub open spec fn separator(path: Seq<ComponentView>) -> Seq<char> {
    if path.len() > 0 && path[0] is Prefix {
        "\\"@
    } else {
        "/"@
    }
}

/// How a component is written.
pub open spec fn component_text(component: ComponentView, separator: Seq<char>) -> Seq<char> {
    match component {
        ComponentView::Prefix(name) => name,
        ComponentView::RootDir => separator,
        ComponentView::CurDir => "."@,
        ComponentView::ParentDir => ".."@,
        ComponentView::Normal(name) => name,
    }
}

/// How the components of a path are written one after the other. The root and a prefix end
/// where the next name starts; other components have a separator between them.
pub open spec fn written_with(path: Seq<ComponentView>, separator: Seq<char>) -> Seq<char>
    decreases path.len(),
{
    if path.len() == 0 {
        Seq::empty()
    } else {
        let front = path.drop_last();
        let before = written_with(front, separator);
        let text = component_text(path.last(), separator);
        if front.len() == 0 || front.last() is RootDir || front.last() is Prefix
            || path.last() is RootDir {
            before + text
        } else {
            before + separator + text
        }
    }
}

/// How a path is written.
pub open spec fn written(path: Seq<ComponentView>) -> Seq<char> {
    written_with(path, separator(path))
}

/// Writes a path.
pub fn write_path(path: &Vec<Component>) -> (r: String)
    ensures
        r@ == written(path.deep_view()),
{
    let ghost views = path.deep_view();
    let mut separator: &'static str = "/";
    if path.len() > 0 {
        assert(views[0] == path@[0].deep_view());
        if let Component::Prefix(_) = &path[0] {
            separator = "\\";
        }
    }
    assert(separator@ == self::separator(views));
    let mut out: String = String::new();
    assert(out@ =~= Seq::empty());
    let mut joins = false;
    let mut i: usize = 0;
    assert(views.take(0) =~= Seq::empty());
    while i < path.len()
        invariant
            i <= path@.len(),
            views == path.deep_view(),
            out@ == written_with(views.take(i as int), separator@),
            joins == (i > 0 && !(views[i - 1] is RootDir) && !(views[i - 1] is Prefix)),
        decreases path@.len() - i,
    {
        assert(views.take(i + 1).drop_last() =~= views.take(i as int));
        assert(views.take(i + 1).last() == path@[i as int].deep_view());
        let text = match &path[i] {
            Component::Prefix(name) => name.as_str(),
            Component::RootDir => separator,
            Component::CurDir => ".",
            Component::ParentDir => "..",
            Component::Normal(name) => name.as_str(),
        };
        let is_root = matches!(&path[i], Component::RootDir);
        out = if joins && !is_root {
            join3(out.as_str(), separator, text)
        } else {
            join2(out.as_str(), text)
        };
        joins = !matches!(&path[i], Component::RootDir | Component::Prefix(_));
        i += 1;
    }
    assert(views.take(i as int) =~= views);
    out
}

/// A path that can be put into its shortest form.
pub trait NormalizePath {
    /// The components of the path.
    spec fn components(&self) -> Seq<ComponentView>;

    /// Takes out each `.`, and each `..` with the name before it.
    fn normalize(&self) -> (r: Vec<Component>)
        ensures
            r.deep_view() == normalized(self.components()),
    ;
}

fn follow(path: Vec<Component>, next: &Component) -> (r: Vec<Component>)
    ensures
        r.deep_view() == followed(path.deep_view(), next.deep_view()),
{
    let ghost before = path.deep_view();
    let ghost goal = followed(before, next.deep_view());
    let mut path = path;
    match next {
        Component::Prefix(_) => {
            if path.len() == 0 {
                path.push(next.copy());
            }
        },
        Component::RootDir => {
            if path.len() > 0 && matches!(path[0], Component::Prefix(_)) {
                let first = path[0].copy();
                let mut out: Vec<Component> = Vec::new();
                out.push(first);
                out.push(Component::RootDir);
                assert(before[0] == path@[0].deep_view());
                assert(out.deep_view() =~= goal);
                return out;
            }
            let mut out: Vec<Component> = Vec::new();
            out.push(Component::RootDir);
            if path.len() > 0 {
                assert(before[0] == path@[0].deep_view());
            }
            assert(out.deep_view() =~= goal);
            return out;
        },
        Component::CurDir => (),
        Component::ParentDir => {
            let len: usize = path.len();
            if len > 0 {
                assert(before.last() == path@[len - 1].deep_view());
                assert(before[0] == path@[0].deep_view());
            }
            if len > 1 {
                assert(before[1] == path@[1].deep_view());
            }
            if len > 0 && matches!(path[len - 1], Component::Normal(_)) {
                path.pop();
            } else if (len > 0 && matches!(path[0], Component::RootDir)) || (len > 1 && matches!(
                path[0],
                Component::Prefix(_)
            ) && matches!(path[1], Component::RootDir)) {
            } else {
                path.push(Component::ParentDir);
            }
        },
        Component::Normal(_) => {
            path.push(next.copy());
        },
    }
    assert(path.deep_view() =~= goal);
    path
}

impl NormalizePath for Vec<Component> {
    open spec fn components(&self) -> Seq<ComponentView> {
        self.deep_view()
    }

    fn normalize(&self) -> (r: Vec<Component>) {
        let ghost views = self.deep_view();
        let mut out: Vec<Component> = Vec::new();
        assert(views.take(0) =~= Seq::empty());
        assert(out.deep_view() =~= Seq::empty());
        let mut i: usize = 0;
        while i < self.len()
            invariant
                i <= self@.len(),
                views == self.deep_view(),
                out.deep_view() == normalized(views.take(i as int)),
            decreases self@.len() - i,
        {
            assert(views.take(i + 1).drop_last() =~= views.take(i as int));
            assert(views.take(i + 1).last() == self@[i as int].deep_view());
            out = follow(out, &self[i]);
            i += 1;
        }
        assert(views.take(i as int) =~= views);
        out
    }
}

proof fn lemma_followed_is_normal(path: Seq<ComponentView>, next: ComponentView)
    requires
        is_normal(path),
    ensures
        is_normal(followed(path, next)),
{
    let after = followed(path, next);
    assert forall|i: int| 0 <= i < after.len() implies match #[trigger] after[i] {
        ComponentView::Prefix(_) => i == 0,
        ComponentView::RootDir => i == 0 || i == 1 && after[0] is Prefix,
        ComponentView::CurDir => false,
        ComponentView::ParentDir => forall|j: int|
            0 <= j < i ==> #[trigger] after[j] is ParentDir || j == 0 && after[j] is Prefix,
        ComponentView::Normal(_) => true,
    } by {
        if i < path.len() && after[i] == path[i] {
            if path[i] is ParentDir {
                assert forall|j: int| 0 <= j < i implies #[trigger] after[j] is ParentDir || j == 0
                    && after[j] is Prefix by {
                    assert(path[j] is ParentDir || j == 0 && path[j] is Prefix);
                }
            }
        } else if after[i] is ParentDir {
            assert(i == path.len());
            if i > 0 {
                let last = path[i - 1];
                assert(path.last() == last);
                assert forall|j: int| 0 <= j < i implies #[trigger] after[j] is ParentDir || j == 0
                    && after[j] is Prefix by {
                    assert(after[j] == path[j]);
                    if last is ParentDir {
                    } else {
                        assert(last is Prefix || last is RootDir);
                    }
                }
            }
        }
    }
}

/// What comes out of [`NormalizePath::normalize`] is in its shortest form.
pub proof fn lemma_normalized_is_normal(path: Seq<ComponentView>)
    ensures
        is_normal(normalized(path)),
    decreases path.len(),
{
    if path.len() > 0 {
        lemma_normalized_is_normal(path.drop_last());
        lemma_followed_is_normal(normalized(path.drop_last()), path.last());
    }
}

/// A path in its shortest form stays as it is.
pub proof fn lemma_normal_is_kept(path: Seq<ComponentView>)
    requires
        is_normal(path),
    ensures
        normalized(path) == path,
    decreases path.len(),
{
    if path.len() > 0 {
        let shorter = path.drop_last();
        assert forall|i: int| 0 <= i < shorter.len() implies match #[trigger] shorter[i] {
            ComponentView::Prefix(_) => i == 0,
            ComponentView::RootDir => i == 0 || i == 1 && shorter[0] is Prefix,
            ComponentView::CurDir => false,
            ComponentView::ParentDir => forall|j: int|
                0 <= j < i ==> #[trigger] shorter[j] is ParentDir || j == 0 && shorter[j] is Prefix,
            ComponentView::Normal(_) => true,
        } by {
            assert(shorter[i] == path[i]);
            if path[i] is ParentDir {
                assert forall|j: int| 0 <= j < i implies #[trigger] shorter[j] is ParentDir || j
                    == 0 && shorter[j] is Prefix by {
                    assert(path[j] is ParentDir || j == 0 && path[j] is Prefix);
                }
            }
        }
        lemma_normal_is_kept(shorter);
        let n = path.len() - 1;
        let last = path[n];
        if n > 0 {
            assert(shorter[n - 1] == path[n - 1]);
            assert(shorter[0] == path[0]);
            if last is ParentDir {
                assert(path[n - 1] is ParentDir || n - 1 == 0 && path[n - 1] is Prefix);
                assert(path[0] is ParentDir || path[0] is Prefix);
                if n > 1 {
                    assert(path[1] is ParentDir);
                }
            }
        }
        assert(followed(shorter, last) =~= path);
    }
}

/// Putting a path into its shortest form twice changes nothing more.
pub proof fn lemma_normalize_is_idempotent(path: Seq<ComponentView>)
    ensures
        normalized(normalized(path)) == normalized(path),
{
    lemma_normalized_is_normal(path);
    lemma_normal_is_kept(normalized(path));
}

} // verus!
