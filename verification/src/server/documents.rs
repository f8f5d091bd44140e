//! The documents that are known, each under its path.

use super::dependencies;
use super::dependencies::{search, Graph, Search};
use super::document::{Document, ResolvedTypesView};
use super::keyed;
use crate::strings::str_eq;
use crate::typechecker::definitions;
use crate::typechecker::definitions::{join_names, DefinitionView};
use crate::typechecker::type_error;
use crate::typechecker::type_error::quoted;
use vstd::prelude::*;

verus! {

/// What a [`Document`] holds.
pub struct DocumentView {
    pub source: Seq<char>,
    pub dependencies: Seq<Seq<char>>,
    pub definitions: Map<usize, DefinitionView>,
    pub resolved_types: ResolvedTypesView,
}

impl View for Document {
    type V = DocumentView;

    open spec fn view(&self) -> DocumentView {
        DocumentView {
            source: self.source@,
            dependencies: self.dependencies.deep_view(),
            definitions: self.definitions@,
            resolved_types: self.resolved_types.deep_view(),
        }
    }
}

impl DeepView for Document {
    type V = DocumentView;

    open spec fn deep_view(&self) -> DocumentView {
        self@
    }
}

/// The documents that are known.
pub struct Documents {
    entries: Vec<(String, Document)>,
}

impl View for Documents {
    type V = Map<Seq<char>, DocumentView>;

    closed spec fn view(&self) -> Map<Seq<char>, DocumentView> {
        keyed::entries_view(self.entries@)
    }
}

impl Documents {
    /// No two entries have the same path.
    #[verifier::type_invariant]
    spec fn wf(self) -> bool {
        keyed::is_distinct(self.entries@)
    }

    pub fn new() -> (r: Self)
        ensures
            r@ == Map::<Seq<char>, DocumentView>::empty(),
    {
        let r = Documents { entries: Vec::new() };
        assert(r@ =~= Map::<Seq<char>, DocumentView>::empty());
        r
    }

    fn find(&self, path: &str) -> (r: Option<usize>)
        ensures
            match r {
                Some(i) => i < self.entries@.len() && self.entries@[i as int].0@ == path@,
                None => !self@.dom().contains(path@),
            },
    {
        let mut i: usize = 0;
        while i < self.entries.len()
            invariant
                i <= self.entries@.len(),
                forall|j: int| 0 <= j < i ==> (#[trigger] self.entries@[j]).0@ != path@,
            decreases self.entries@.len() - i,
        {
            if str_eq(self.entries[i].0.as_str(), path) {
                return Some(i);
            }
            i += 1;
        }
        assert(!keyed::has_entry(self.entries@, path@));
        None
    }

    /// The document at a path.
    pub fn get(&self, path: &str) -> (r: Option<&Document>)
        ensures
            match r {
                Some(document) => self@.dom().contains(path@) && document@ == self@[path@],
                None => !self@.dom().contains(path@),
            },
    {
        proof {
            use_type_invariant(self);
        }
        match self.find(path) {
            Some(i) => {
                proof {
                    keyed::lemma_entry(self.entries@, i as int);
                }
                Some(&self.entries[i].1)
            },
            None => None,
        }
    }

    /// Takes the document at a path out.
    pub fn remove(&mut self, path: &str) -> (r: Option<Document>)
        ensures
            final(self)@ == old(self)@.remove(path@),
            match r {
                Some(document) => old(self)@.dom().contains(path@) && document@ == old(
                    self,
                )@[path@],
                None => !old(self)@.dom().contains(path@),
            },
    {
        proof {
            use_type_invariant(&*self);
        }
        let ghost before = self.entries@;
        match self.find(path) {
            Some(i) => {
                let mut entries: Vec<(String, Document)> = Vec::new();
                std::mem::swap(&mut entries, &mut self.entries);
                let (_, document) = entries.remove(i);
                proof {
                    keyed::lemma_entry(before, i as int);
                    let after = entries@;
                    let index = |k: int|
                        if k < i {
                            k
                        } else {
                            k + 1
                        };
                    assert forall|k: int| 0 <= k < after.len() implies #[trigger] after[k]
                        == before[index(k)] by {}
                    assert forall|a: int, b: int| 0 <= a < b < after.len() implies (
                    #[trigger] after[a]).0@ != (#[trigger] after[b]).0@ by {
                        assert(after[a] == before[index(a)] && after[b] == before[index(b)]);
                    }
                    let map = keyed::entries_view(before).remove(path@);
                    assert forall|k: int| 0 <= k < after.len() implies map.dom().contains(
                        (#[trigger] after[k]).0@,
                    ) && map[after[k].0@] == after[k].1@ by {
                        assert(after[k] == before[index(k)]);
                        keyed::lemma_entry(before, index(k));
                        assert(before[index(k)].0@ != before[i as int].0@);
                    }
                    assert forall|p: Seq<char>| #[trigger] map.dom().contains(p) implies keyed::has_entry(
                        after,
                        p,
                    ) by {
                        assert(keyed::has_entry(before, p));
                        let k = keyed::index_of(before, p);
                        assert(before[k].0@ == p);
                        let m = if k < i {
                            k
                        } else {
                            k - 1
                        };
                        assert(after[m] == before[k]);
                    }
                    keyed::lemma_entries_view(after, map);
                }
                *self = Documents { entries };
                Some(document)
            },
            None => {
                assert(self@ =~= old(self)@.remove(path@));
                None
            },
        }
    }

    /// Puts a document at a path, in place of the one that has been there.
    pub fn insert(&mut self, path: String, document: Document)
        ensures
            final(self)@ == old(self)@.insert(path@, document@),
    {
        self.remove(path.as_str());
        proof {
            use_type_invariant(&*self);
        }
        let ghost before = self.entries@;
        let ghost view = keyed::entries_view(before);
        assert(!view.dom().contains(path@));
        let mut entries: Vec<(String, Document)> = Vec::new();
        std::mem::swap(&mut entries, &mut self.entries);
        entries.push((path, document));
        proof {
            let item = (path, document);
            let after = before.push(item);
            assert forall|i: int, j: int| 0 <= i < j < after.len() implies (
            #[trigger] after[i]).0@ != (#[trigger] after[j]).0@ by {
                if j == before.len() {
                    assert(after[i] == before[i]);
                }
            }
            let map = view.insert(path@, document@);
            assert forall|i: int| 0 <= i < after.len() implies map.dom().contains(
                (#[trigger] after[i]).0@,
            ) && map[after[i].0@] == after[i].1@ by {
                if i < before.len() {
                    keyed::lemma_entry(before, i);
                    assert(after[i] == before[i]);
                }
            }
            assert forall|p: Seq<char>| #[trigger] map.dom().contains(p) implies keyed::has_entry(
                after,
                p,
            ) by {
                if p == path@ {
                    assert(after[before.len() as int].0@ == p);
                } else {
                    assert(keyed::has_entry(before, p));
                    let k = keyed::index_of(before, p);
                    assert(after[k] == before[k]);
                }
            }
            keyed::lemma_entries_view(after, map);
            assert(map =~= old(self)@.insert(path@, document@));
        }
        *self = Documents { entries };
    }
}

/// The documents that the one at a path derives from.
pub open spec fn derived(documents: Map<Seq<char>, DocumentView>, path: Seq<char>) -> Seq<Seq<char>> {
    if documents.dom().contains(path) {
        documents[path].dependencies
    } else {
        Seq::empty()
    }
}

/// Whether each document of the chain derives from the next one, from `current` on.
pub open spec fn is_chain(
    documents: Map<Seq<char>, DocumentView>,
    chain: Seq<Seq<char>>,
    current: Seq<char>,
) -> bool {
    &&& chain.len() > 0
    &&& chain[0] == current
    &&& forall|i: int|
        0 < i < chain.len() ==> derived(documents, chain[i - 1]).contains(#[trigger] chain[i])
}

/// Whether a document derives from another one, directly or not.
pub open spec fn depends_on(
    documents: Map<Seq<char>, DocumentView>,
    current: Seq<char>,
    path: Seq<char>,
) -> bool {
    exists|chain: Seq<Seq<char>>| #[trigger]
        is_chain(documents, chain, current) && chain.last() == path
}

/// Whether the last document of a chain derives from one that stands in the chain, and nothing
/// stands in it twice but for documents that derive from themselves.
pub open spec fn is_cycle(
    documents: Map<Seq<char>, DocumentView>,
    chain: Seq<Seq<char>>,
    current: Seq<char>,
) -> bool {
    &&& is_chain(documents, chain, current)
    &&& dependencies::is_simple(chain)
    &&& chain.len() > 1
    &&& exists|i: int|
        0 <= i < chain.len() && derived(documents, chain.last()).contains(#[trigger] chain[i])
}

/// Paths, each in quotes.
pub open spec fn quoted_all(paths: Seq<Seq<char>>) -> Seq<Seq<char>> {
    Seq::new(paths.len(), |i: int| type_error::quoted_text(paths[i]))
}

/// A chain, as it is shown.
pub open spec fn chain_text(chain: Seq<Seq<char>>) -> Seq<char> {
    definitions::joined(quoted_all(chain), " -> "@)
}

/// What a document depends on.
#[derive(Debug)]
pub struct GatheredDependencies {
    /// The paths of the document and of all that it depends on, directly or not.
    pub dependencies: Vec<String>,
    /// The documents that lead into a cycle, each with the chain that closes it.
    pub cyclic_dependencies: Vec<(String, String)>,
}

/// The path that a number stands for: that of an entry, or of the current document.
spec fn path_of(entries: Seq<(String, Document)>, current: Seq<char>, id: int) -> Seq<char> {
    if id == entries.len() {
        current
    } else {
        entries[id].0@
    }
}

/// Whether a number stands for a path. The entry of the current document is passed over.
spec fn is_valid(entries: Seq<(String, Document)>, current: Seq<char>, id: int) -> bool {
    id == entries.len() || 0 <= id < entries.len() && entries[id].0@ != current
}

/// Whether `numbers` stand for `paths`. Those of unknown documents have a number of their own.
spec fn are_numbers(
    entries: Seq<(String, Document)>,
    current: Seq<char>,
    numbers: Seq<usize>,
    paths: Seq<Seq<char>>,
) -> bool {
    &&& numbers.len() == paths.len()
    &&& forall|k: int|
        0 <= k < numbers.len() ==> if paths[k] == current || keyed::has_entry(entries, paths[k]) {
            is_valid(entries, current, #[trigger] numbers[k] as int) && path_of(
                entries,
                current,
                numbers[k] as int,
            ) == paths[k]
        } else {
            numbers[k] == entries.len() + 1
        }
}

/// Whether a graph says of numbers what the documents say of paths.
spec fn is_graph(
    graph: Graph,
    entries: Seq<(String, Document)>,
    current: Seq<char>,
    document: DocumentView,
) -> bool {
    &&& graph.len() == entries.len() + 1
    &&& forall|i: int|
        0 <= i < graph.len() ==> match #[trigger] graph[i] {
            Some(numbers) => is_valid(entries, current, i) && are_numbers(
                entries,
                current,
                numbers,
                if i == entries.len() {
                    document.dependencies
                } else {
                    entries[i].1@.dependencies
                },
            ),
            None => !is_valid(entries, current, i),
        }
}

impl Documents {
    fn number_all(&self, current: &str, paths: &Vec<String>) -> (r: Vec<usize>)
        requires
            self.entries@.len() < usize::MAX,
        ensures
            are_numbers(self.entries@, current@, r@, paths.deep_view()),
    {
        let ghost views = paths.deep_view();
        let mut out: Vec<usize> = Vec::new();
        let mut i: usize = 0;
        while i < paths.len()
            invariant
                i <= paths@.len(),
                self.entries@.len() < usize::MAX,
                views == paths.deep_view(),
                are_numbers(self.entries@, current@, out@, views.take(i as int)),
            decreases paths@.len() - i,
        {
            let path = paths[i].as_str();
            assert(views[i as int] == path@);
            let ghost before = out@;
            if str_eq(path, current) {
                out.push(self.entries.len());
            } else {
                match self.find(path) {
                    Some(k) => {
                        assert(keyed::has_entry(self.entries@, path@)) by {
                            assert(self.entries@[k as int].0@ == path@);
                        }
                        out.push(k);
                    },
                    None => {
                        assert(!keyed::has_entry(self.entries@, path@));
                        out.push(self.entries.len() + 1);
                    },
                }
            }
            proof {
                let numbers = out@;
                let named = views.take(i + 1);
                assert forall|k: int| 0 <= k < numbers.len() implies if named[k] == current@
                    || keyed::has_entry(self.entries@, named[k]) {
                    is_valid(self.entries@, current@, #[trigger] numbers[k] as int) && path_of(
                        self.entries@,
                        current@,
                        numbers[k] as int,
                    ) == named[k]
                } else {
                    numbers[k] == self.entries@.len() + 1
                } by {
                    if k < before.len() {
                        assert(numbers[k] == before[k]);
                        assert(named[k] == views.take(i as int)[k]);
                    }
                }
            }
            i += 1;
        }
        assert(views.take(i as int) =~= views);
        out
    }

    fn graph(&self, current: &str, document: &Document) -> (r: Vec<Option<Vec<usize>>>)
        requires
            self.entries@.len() < usize::MAX,
        ensures
            is_graph(r.deep_view(), self.entries@, current@, document@),
    {
        let mut out: Vec<Option<Vec<usize>>> = Vec::new();
        let mut i: usize = 0;
        while i < self.entries.len()
            invariant
                i <= self.entries@.len() < usize::MAX,
                out@.len() == i,
                forall|j: int|
                    0 <= j < i ==> match #[trigger] out.deep_view()[j] {
                        Some(numbers) => is_valid(self.entries@, current@, j) && are_numbers(
                            self.entries@,
                            current@,
                            numbers,
                            self.entries@[j].1@.dependencies,
                        ),
                        None => !is_valid(self.entries@, current@, j),
                    },
            decreases self.entries@.len() - i,
        {
            let ghost before = out.deep_view();
            if str_eq(self.entries[i].0.as_str(), current) {
                out.push(None);
                assert(out.deep_view() =~= before.push(None));
            } else {
                let numbers = self.number_all(current, &self.entries[i].1.dependencies);
                out.push(Some(numbers));
                assert(numbers.deep_view() =~= numbers@);
                assert(out.deep_view() =~= before.push(Some(numbers@)));
            }
            proof {
                assert forall|j: int| 0 <= j < i + 1 implies match #[trigger] out.deep_view()[j] {
                    Some(numbers) => is_valid(self.entries@, current@, j) && are_numbers(
                        self.entries@,
                        current@,
                        numbers,
                        self.entries@[j].1@.dependencies,
                    ),
                    None => !is_valid(self.entries@, current@, j),
                } by {
                    if j < i {
                        assert(out.deep_view()[j] == before[j]);
                    }
                }
            }
            i += 1;
        }
        let ghost before = out.deep_view();
        let numbers = self.number_all(current, &document.dependencies);
        out.push(Some(numbers));
        assert(numbers.deep_view() =~= numbers@);
        assert(out.deep_view() =~= before.push(Some(numbers@)));
        assert forall|j: int| 0 <= j < out.deep_view().len() implies match #[trigger] out.deep_view()[j] {
            Some(numbers) => is_valid(self.entries@, current@, j) && are_numbers(
                self.entries@,
                current@,
                numbers,
                if j == self.entries@.len() {
                    document@.dependencies
                } else {
                    self.entries@[j].1@.dependencies
                },
            ),
            None => !is_valid(self.entries@, current@, j),
        } by {
            if j < before.len() {
                assert(out.deep_view()[j] == before[j]);
            }
        }
        out
    }
}

/// The paths that numbers stand for.
spec fn paths_of(entries: Seq<(String, Document)>, current: Seq<char>, ids: Seq<usize>) -> Seq<
    Seq<char>,
> {
    Seq::new(ids.len(), |k: int| path_of(entries, current, ids[k] as int))
}

/// The number that a path has.
spec fn number_of(entries: Seq<(String, Document)>, current: Seq<char>, path: Seq<char>) -> usize {
    if path == current {
        entries.len() as usize
    } else {
        keyed::index_of(entries, path) as usize
    }
}

proof fn lemma_number_of(entries: Seq<(String, Document)>, current: Seq<char>, path: Seq<char>)
    requires
        keyed::is_distinct(entries),
        entries.len() < usize::MAX,
        path == current || keyed::has_entry(entries, path),
    ensures
        is_valid(entries, current, number_of(entries, current, path) as int),
        path_of(entries, current, number_of(entries, current, path) as int) == path,
        forall|id: int| #[trigger]
            is_valid(entries, current, id) && path_of(entries, current, id) == path ==> id
                == number_of(entries, current, path),
{
    if path != current {
        let k = keyed::index_of(entries, path);
        assert(0 <= k < entries.len() && entries[k].0@ == path);
    }
}

proof fn lemma_document_of(
    entries: Seq<(String, Document)>,
    current: Seq<char>,
    document: DocumentView,
    graph: Graph,
    id: usize,
)
    requires
        keyed::is_distinct(entries),
        entries.len() < usize::MAX,
        is_graph(graph, entries, current, document),
    ensures
        dependencies::is_known(graph, id) <==> is_valid(entries, current, id as int),
        is_valid(entries, current, id as int) ==> ({
            let all = keyed::entries_view(entries).insert(current, document);
            let path = path_of(entries, current, id as int);
            &&& all.dom().contains(path)
            &&& are_numbers(
                entries,
                current,
                dependencies::neighbours(graph, id),
                derived(all, path),
            )
        }),
{
    if id < graph.len() {
        assert(graph[id as int] is Some || graph[id as int] is None);
        if id < entries.len() {
            keyed::lemma_entry(entries, id as int);
        }
    }
}

proof fn lemma_chain_of_paths(
    entries: Seq<(String, Document)>,
    current: Seq<char>,
    document: DocumentView,
    graph: Graph,
    ids: Seq<usize>,
)
    requires
        keyed::is_distinct(entries),
        entries.len() < usize::MAX,
        is_graph(graph, entries, current, document),
        dependencies::is_chain(graph, ids, entries.len() as usize),
        is_valid(entries, current, ids.last() as int),
    ensures
        is_chain(
            keyed::entries_view(entries).insert(current, document),
            paths_of(entries, current, ids),
            current,
        ),
        forall|k: int| 0 <= k < ids.len() ==> is_valid(entries, current, #[trigger] ids[k] as int),
{
    let all = keyed::entries_view(entries).insert(current, document);
    let paths = paths_of(entries, current, ids);
    assert forall|k: int| 0 <= k < ids.len() implies is_valid(
        entries,
        current,
        #[trigger] ids[k] as int,
    ) by {
        if k < ids.len() - 1 {
            assert(dependencies::neighbours(graph, ids[k + 1 - 1]).contains(ids[k + 1]));
            lemma_document_of(entries, current, document, graph, ids[k]);
        }
    }
    assert forall|k: int| 0 < k < paths.len() implies derived(all, paths[k - 1]).contains(
        #[trigger] paths[k],
    ) by {
        lemma_document_of(entries, current, document, graph, ids[k - 1]);
        let numbers = dependencies::neighbours(graph, ids[k - 1]);
        assert(numbers.contains(ids[k]));
        assert(is_valid(entries, current, ids[k - 1] as int));
        assert(is_valid(entries, current, ids[k] as int));
        let j = choose|j: int| 0 <= j < numbers.len() && numbers[j] == ids[k];
        assert(numbers[j] == ids[k]);
        assert(derived(all, paths[k - 1])[j] == paths[k]);
    }
}

proof fn lemma_chain_of_numbers(
    entries: Seq<(String, Document)>,
    current: Seq<char>,
    document: DocumentView,
    graph: Graph,
    paths: Seq<Seq<char>>,
) -> (ids: Seq<usize>)
    requires
        keyed::is_distinct(entries),
        entries.len() < usize::MAX,
        is_graph(graph, entries, current, document),
        is_chain(keyed::entries_view(entries).insert(current, document), paths, current),
        paths.last() == current || keyed::has_entry(entries, paths.last()),
    ensures
        dependencies::is_chain(graph, ids, entries.len() as usize),
        ids.last() == number_of(entries, current, paths.last()),
{
    let all = keyed::entries_view(entries).insert(current, document);
    let ids = Seq::new(paths.len(), |k: int| number_of(entries, current, paths[k]));
    assert forall|k: int| 0 <= k < paths.len() implies #[trigger] paths[k] == current || keyed::has_entry(
        entries,
        paths[k],
    ) by {
        if k < paths.len() - 1 {
            assert(derived(all, paths[k + 1 - 1]).contains(paths[k + 1]));
        }
    }
    assert forall|k: int| 0 < k < ids.len() implies dependencies::neighbours(
        graph,
        ids[k - 1],
    ).contains(#[trigger] ids[k]) by {
        assert(paths[k - 1] == current || keyed::has_entry(entries, paths[k - 1]));
        assert(paths[k] == current || keyed::has_entry(entries, paths[k]));
        lemma_number_of(entries, current, paths[k - 1]);
        lemma_number_of(entries, current, paths[k]);
        lemma_document_of(entries, current, document, graph, ids[k - 1]);
        let names = derived(all, paths[k - 1]);
        assert(names.contains(paths[k]));
        let j = choose|j: int| 0 <= j < names.len() && names[j] == paths[k];
        let numbers = dependencies::neighbours(graph, ids[k - 1]);
        assert(is_valid(entries, current, numbers[j] as int));
        assert(numbers[j] == ids[k]);
    }
    ids
}

/// Whether what was found for numbers, written with paths, is what the documents give.
proof fn lemma_reached_paths(
    entries: Seq<(String, Document)>,
    current: Seq<char>,
    document: DocumentView,
    graph: Graph,
    path: Seq<char>,
)
    requires
        keyed::is_distinct(entries),
        entries.len() < usize::MAX,
        is_graph(graph, entries, current, document),
    ensures
        ({
            let all = keyed::entries_view(entries).insert(current, document);
            let visited = Search::starting_at(entries.len() as usize).finished(graph).visited;
            &&& paths_of(entries, current, visited).contains(path) <==> path == current
                || all.dom().contains(path) && depends_on(all, current, path)
            &&& forall|k: int|
                0 <= k < visited.len() ==> is_valid(entries, current, #[trigger] visited[k] as int)
        }),
{
    let all = keyed::entries_view(entries).insert(current, document);
    let start = entries.len() as usize;
    let visited = Search::starting_at(start).finished(graph).visited;
    let paths = paths_of(entries, current, visited);
    assert forall|k: int| 0 <= k < visited.len() implies is_valid(
        entries,
        current,
        #[trigger] visited[k] as int,
    ) by {
        dependencies::lemma_dependencies_are_reached(graph, start, visited[k]);
        lemma_document_of(entries, current, document, graph, visited[k]);
    }
    if paths.contains(path) {
        let k = choose|k: int| 0 <= k < paths.len() && paths[k] == path;
        let id = visited[k];
        dependencies::lemma_dependencies_are_reached(graph, start, id);
        lemma_document_of(entries, current, document, graph, id);
        assert(is_valid(entries, current, id as int));
        if id != start {
            let ids = choose|ids: Seq<usize>| #[trigger]
                dependencies::is_chain(graph, ids, start) && ids.last() == id;
            lemma_chain_of_paths(entries, current, document, graph, ids);
            let chain = paths_of(entries, current, ids);
            assert(chain.last() == path);
        }
    }
    if path == current || all.dom().contains(path) && depends_on(all, current, path) {
        if path == current {
            let chain = seq![current];
            assert(is_chain(all, chain, current));
            assert(chain.last() == path);
        }
        let chain = choose|chain: Seq<Seq<char>>| #[trigger]
            is_chain(all, chain, current) && chain.last() == path;
        let ids = lemma_chain_of_numbers(entries, current, document, graph, chain);
        let id = number_of(entries, current, path);
        lemma_number_of(entries, current, path);
        lemma_document_of(entries, current, document, graph, id);
        dependencies::lemma_dependencies_are_reached(graph, start, id);
        let k = choose|k: int| 0 <= k < visited.len() && visited[k] == id;
        assert(paths[k] == path);
    }
}

/// Two numbers of documents are the same where the paths are.
proof fn lemma_same_number(entries: Seq<(String, Document)>, current: Seq<char>, a: int, b: int)
    requires
        keyed::is_distinct(entries),
        entries.len() < usize::MAX,
        is_valid(entries, current, a),
        is_valid(entries, current, b),
        path_of(entries, current, a) == path_of(entries, current, b),
    ensures
        a == b,
{
    let path = path_of(entries, current, a);
    if a != entries.len() {
        assert(entries[a].0@ == path);
        assert(keyed::has_entry(entries, path));
    }
    lemma_number_of(entries, current, path);
}

proof fn lemma_cyclic_paths(
    entries: Seq<(String, Document)>,
    current: Seq<char>,
    document: DocumentView,
    graph: Graph,
    i: int,
)
    requires
        keyed::is_distinct(entries),
        entries.len() < usize::MAX,
        is_graph(graph, entries, current, document),
        0 <= i < Search::starting_at(entries.len() as usize).finished(graph).cyclic.len(),
    ensures
        ({
            let all = keyed::entries_view(entries).insert(current, document);
            let (second, ids) = Search::starting_at(entries.len() as usize).finished(
                graph,
            ).cyclic[i];
            let chain = paths_of(entries, current, ids);
            &&& is_cycle(all, chain, current)
            &&& second == ids[1]
            &&& forall|k: int|
                0 <= k < ids.len() ==> is_valid(entries, current, #[trigger] ids[k] as int)
        }),
{
    let all = keyed::entries_view(entries).insert(current, document);
    let start = entries.len() as usize;
    let reported = Search::starting_at(start).finished(graph).cyclic[i];
    dependencies::lemma_cycles_are_genuine(graph, start);
    assert(dependencies::is_cycle(graph, start, reported));
    let ids = reported.1;
    let chain = paths_of(entries, current, ids);
    let numbers = dependencies::neighbours(graph, ids.last());
    lemma_document_of(entries, current, document, graph, ids.last());
    let j = choose|j: int| 0 <= j < numbers.len() && ids.contains(#[trigger] numbers[j]);
    assert(ids.contains(numbers[j]));
    lemma_chain_of_paths(entries, current, document, graph, ids);
    let k = choose|k: int| 0 <= k < ids.len() && ids[k] == numbers[j];
    assert(is_valid(entries, current, ids[k] as int));
    assert forall|a: int, b: int|
        0 <= a < b < chain.len() && #[trigger] chain[a] == #[trigger] chain[b] implies b == a
        + 1 by {
        assert(is_valid(entries, current, ids[a] as int));
        assert(is_valid(entries, current, ids[b] as int));
        lemma_same_number(entries, current, ids[a] as int, ids[b] as int);
    }
    assert(derived(all, chain.last())[j] == chain[k]);
    assert(derived(all, chain.last()).contains(chain[k]));
}

proof fn lemma_own_cycle_paths(
    entries: Seq<(String, Document)>,
    current: Seq<char>,
    document: DocumentView,
    graph: Graph,
    path: Seq<char>,
) -> (i: int)
    requires
        keyed::is_distinct(entries),
        entries.len() < usize::MAX,
        is_graph(graph, entries, current, document),
        path != current,
        ({
            let all = keyed::entries_view(entries).insert(current, document);
            depends_on(all, current, path) && derived(all, path).contains(current)
        }),
    ensures
        ({
            let cyclic = Search::starting_at(entries.len() as usize).finished(graph).cyclic;
            0 <= i < cyclic.len() && paths_of(entries, current, cyclic[i].1).last() == path
                && cyclic[i].1.len() > 0
        }),
{
    let all = keyed::entries_view(entries).insert(current, document);
    let start = entries.len() as usize;
    let cyclic = Search::starting_at(start).finished(graph).cyclic;
    let chain = choose|chain: Seq<Seq<char>>| #[trigger]
        is_chain(all, chain, current) && chain.last() == path;
    assert(keyed::has_entry(entries, path));
    let ids = lemma_chain_of_numbers(entries, current, document, graph, chain);
    let id = number_of(entries, current, path);
    lemma_number_of(entries, current, path);
    lemma_number_of(entries, current, current);
    lemma_document_of(entries, current, document, graph, id);
    let names = derived(all, path);
    let numbers = dependencies::neighbours(graph, id);
    let j = choose|j: int| 0 <= j < names.len() && names[j] == current;
    assert(is_valid(entries, current, numbers[j] as int));
    assert(numbers[j] == start);
    assert(dependencies::depends_on(graph, start, id));
    dependencies::lemma_own_cycles_are_found(graph, start, id);
    dependencies::lemma_cycles_are_genuine(graph, start);
    let i = choose|i: int|
        0 <= i < cyclic.len() && (#[trigger] cyclic[i]).1.last() == id;
    assert(dependencies::is_cycle(graph, start, cyclic[i]));
    i
}

/// Whether a report is about the given chain: it names its second document, which the
/// current one derives from, and shows the chain.
pub open spec fn is_report_of(
    documents: Map<Seq<char>, DocumentView>,
    current: Seq<char>,
    report: (Seq<char>, Seq<char>),
    chain: Seq<Seq<char>>,
) -> bool {
    &&& is_cycle(documents, chain, current)
    &&& report.0 == chain[1]
    &&& report.1 == chain_text(chain)
}

/// Whether a report is about a chain that closes a cycle.
pub open spec fn is_report(
    documents: Map<Seq<char>, DocumentView>,
    current: Seq<char>,
    report: (Seq<char>, Seq<char>),
) -> bool {
    exists|chain: Seq<Seq<char>>| is_report_of(documents, current, report, chain)
}

/// Whether there is a report about a chain that ends at the given path.
pub open spec fn is_reported(
    documents: Map<Seq<char>, DocumentView>,
    current: Seq<char>,
    reports: Seq<(Seq<char>, Seq<char>)>,
    path: Seq<char>,
) -> bool {
    exists|i: int, chain: Seq<Seq<char>>|
        0 <= i < reports.len() && #[trigger] is_report_of(documents, current, reports[i], chain)
            && chain.last() == path
}

/// Whether one of the reports is about the given chain.
spec fn is_shown(
    documents: Map<Seq<char>, DocumentView>,
    current: Seq<char>,
    reports: Seq<(Seq<char>, Seq<char>)>,
    chain: Seq<Seq<char>>,
) -> bool {
    exists|n: int|
        0 <= n < reports.len() && is_report_of(documents, current, #[trigger] reports[n], chain)
}

fn has_report(reports: &Vec<(String, String)>, name: &str, text: &str) -> (r: bool)
    ensures
        r == reports.deep_view().contains((name@, text@)),
{
    let ghost views = reports.deep_view();
    let mut i: usize = 0;
    while i < reports.len()
        invariant
            i <= reports@.len(),
            views == reports.deep_view(),
            forall|j: int| 0 <= j < i ==> views[j] != (name@, text@),
        decreases reports@.len() - i,
    {
        assert(views[i as int] == (reports@[i as int].0@, reports@[i as int].1@));
        if str_eq(reports[i].0.as_str(), name) && str_eq(reports[i].1.as_str(), text) {
            assert(views[i as int] == (name@, text@));
            return true;
        }
        i += 1;
    }
    false
}

fn table<'b>(documents: &'b Documents, current: &'b str) -> (r: Vec<&'b str>)
    ensures
        r@.len() == documents.entries@.len() + 1,
        documents.entries@.len() < usize::MAX,
        forall|i: int|
            0 <= i < r@.len() ==> (#[trigger] r@[i])@ == path_of(
                documents.entries@,
                current@,
                i,
            ),
{
    let mut out: Vec<&'b str> = Vec::new();
    let mut i: usize = 0;
    while i < documents.entries.len()
        invariant
            i <= documents.entries@.len(),
            out@.len() == i,
            forall|j: int|
                0 <= j < i ==> (#[trigger] out@[j])@ == path_of(documents.entries@, current@, j),
        decreases documents.entries@.len() - i,
    {
        out.push(documents.entries[i].0.as_str());
        i += 1;
    }
    out.push(current);
    let len: usize = out.len();
    assert(len == documents.entries@.len() + 1);
    out
}

fn write_chain(paths: &Vec<&str>, ids: &Vec<usize>) -> (r: String)
    requires
        forall|k: int| 0 <= k < ids@.len() ==> #[trigger] ids@[k] < paths@.len(),
    ensures
        r@ == chain_text(Seq::new(ids@.len(), |k: int| paths@[ids@[k] as int]@)),
{
    let ghost chain = Seq::new(ids@.len(), |k: int| paths@[ids@[k] as int]@);
    let mut names: Vec<String> = Vec::new();
    let mut i: usize = 0;
    while i < ids.len()
        invariant
            i <= ids@.len(),
            forall|k: int| 0 <= k < ids@.len() ==> #[trigger] ids@[k] < paths@.len(),
            names@.len() == i,
            forall|k: int|
                0 <= k < i ==> (#[trigger] names@[k])@ == type_error::quoted_text(
                    paths@[ids@[k] as int]@,
                ),
        decreases ids@.len() - i,
    {
        assert(ids@[i as int] < paths@.len());
        names.push(quoted(paths[ids[i]]));
        i += 1;
    }
    assert(definitions::names_view(names@) =~= quoted_all(chain));
    join_names(&names, " -> ")
}

/// Collects what a document depends on, and the cycles that it leads into. The document
/// stands in for the one at its path.
pub fn gather_dependencies(current_path: &str, document: &Document, documents: &Documents) -> (r:
    GatheredDependencies)
    ensures
        forall|path: Seq<char>| #[trigger]
            r.dependencies.deep_view().contains(path) <==> path == current_path@
                || documents@.insert(current_path@, document@).dom().contains(path) && depends_on(
                documents@.insert(current_path@, document@),
                current_path@,
                path,
            ),
        r.dependencies.deep_view().no_duplicates(),
        r.cyclic_dependencies.deep_view().no_duplicates(),
        forall|i: int|
            0 <= i < r.cyclic_dependencies@.len() ==> is_report(
                documents@.insert(current_path@, document@),
                current_path@,
                #[trigger] r.cyclic_dependencies.deep_view()[i],
            ),
        forall|path: Seq<char>|
            path != current_path@ && #[trigger] depends_on(
                documents@.insert(current_path@, document@),
                current_path@,
                path,
            ) && derived(documents@.insert(current_path@, document@), path).contains(current_path@)
                ==> is_reported(
                documents@.insert(current_path@, document@),
                current_path@,
                r.cyclic_dependencies.deep_view(),
                path,
            ),
{
    proof {
        use_type_invariant(documents);
    }
    let paths = table(documents, current_path);
    let graph = documents.graph(current_path, document);
    let ghost entries = documents.entries@;
    let ghost current = current_path@;
    let ghost all = documents@.insert(current, document@);
    let ghost view = graph.deep_view();
    let start: usize = paths.len() - 1;
    let found = search(start, &graph);
    let ghost after = Search::starting_at(start).finished(view);
    let mut dependencies: Vec<String> = Vec::new();
    let mut i: usize = 0;
    proof {
        lemma_reached_paths(entries, current, document@, view, current);
    }
    while i < found.visited.len()
        invariant
            i <= found.visited@.len(),
            paths@.len() == entries.len() + 1,
            forall|j: int|
                0 <= j < paths@.len() ==> (#[trigger] paths@[j])@ == path_of(entries, current, j),
            forall|k: int|
                0 <= k < found.visited@.len() ==> is_valid(
                    entries,
                    current,
                    #[trigger] found.visited@[k] as int,
                ),
            dependencies.deep_view() == paths_of(entries, current, found.visited@).take(i as int),
        decreases found.visited@.len() - i,
    {
        let id: usize = found.visited[i];
        assert(is_valid(entries, current, id as int));
        let ghost before = dependencies.deep_view();
        let name = paths[id].to_owned();
        dependencies.push(name);
        proof {
            let names = paths_of(entries, current, found.visited@);
            assert(dependencies.deep_view() =~= before.push(name@));
            assert(names.take(i + 1) =~= names.take(i as int).push(names[i as int]));
        }
        i += 1;
    }
    let mut cyclic_dependencies: Vec<(String, String)> = Vec::new();
    let mut k: usize = 0;
    while k < found.cyclic.len()
        invariant
            k <= found.cyclic@.len(),
            keyed::is_distinct(entries),
            entries.len() < usize::MAX,
            start == entries.len(),
            is_graph(view, entries, current, document@),
            after == Search::starting_at(start).finished(view),
            found.cyclic.deep_view() == after.cyclic,
            paths@.len() == entries.len() + 1,
            all == keyed::entries_view(entries).insert(current, document@),
            forall|j: int|
                0 <= j < paths@.len() ==> (#[trigger] paths@[j])@ == path_of(entries, current, j),
            cyclic_dependencies.deep_view().no_duplicates(),
            forall|j: int|
                0 <= j < cyclic_dependencies@.len() ==> is_report(
                    all,
                    current,
                    #[trigger] cyclic_dependencies.deep_view()[j],
                ),
            forall|j: int|
                0 <= j < k ==> is_shown(
                    all,
                    current,
                    cyclic_dependencies.deep_view(),
                    paths_of(entries, current, (#[trigger] after.cyclic[j]).1),
                ),
        decreases found.cyclic@.len() - k,
    {
        let (second, ids) = &found.cyclic[k];
        proof {
            lemma_cyclic_paths(entries, current, document@, view, k as int);
            assert(after.cyclic[k as int] == found.cyclic@[k as int].deep_view());
            assert(ids.deep_view() =~= ids@);
            assert forall|m: int| 0 <= m < ids@.len() implies #[trigger] ids@[m] < paths@.len() by {
                assert(is_valid(entries, current, ids@[m] as int));
            }
            assert(ids@[1] == *second);
            assert(is_valid(entries, current, ids@[1] as int));
        }
        let name = paths[*second].to_owned();
        let text = write_chain(&paths, ids);
        let ghost chain = paths_of(entries, current, ids@);
        assert(Seq::new(ids@.len(), |m: int| paths@[ids@[m] as int]@) =~= chain) by {
            assert forall|m: int| 0 <= m < ids@.len() implies paths@[ids@[m] as int]@
                == chain[m] by {
                assert(is_valid(entries, current, ids@[m] as int));
                assert(ids@[m] < paths@.len());
            }
        }
        assert(is_report_of(all, current, (name@, text@), chain));
        let ghost before = cyclic_dependencies.deep_view();
        if !has_report(&cyclic_dependencies, name.as_str(), text.as_str()) {
            cyclic_dependencies.push((name, text));
            assert(cyclic_dependencies.deep_view() =~= before.push((name@, text@)));
        }
        proof {
            let reports = cyclic_dependencies.deep_view();
            assert(forall|j: int| 0 <= j < before.len() ==> reports[j] == #[trigger] before[j]);
            assert(reports.contains((name@, text@))) by {
                if !before.contains((name@, text@)) {
                    assert(reports[before.len() as int] == (name@, text@));
                }
            }
            let m = choose|m: int| 0 <= m < reports.len() && reports[m] == (name@, text@);
            assert(is_report_of(all, current, reports[m], chain));
            assert forall|j: int| 0 <= j < k + 1 implies is_shown(
                all,
                current,
                reports,
                paths_of(entries, current, (#[trigger] after.cyclic[j]).1),
            ) by {
                if j < k {
                    let other = paths_of(entries, current, after.cyclic[j].1);
                    assert(is_shown(all, current, before, other));
                    let n = choose|n: int|
                        0 <= n < before.len() && is_report_of(
                            all,
                            current,
                            #[trigger] before[n],
                            other,
                        );
                    assert(reports[n] == before[n]);
                }
            }
        }
        k += 1;
    }
    proof {
        let names = paths_of(entries, current, found.visited@);
        assert(names.take(i as int) =~= names);
        assert(dependencies.deep_view() == names);
        dependencies::lemma_dependencies_are_distinct(view, start);
        assert forall|a: int, b: int| 0 <= a < names.len() && 0 <= b < names.len() && a
            != b implies names[a] != names[b] by {
            let (x, y) = (found.visited@[a], found.visited@[b]);
            if names[a] == names[b] {
                lemma_same_number(entries, current, x as int, y as int);
            }
        }
        assert forall|path: Seq<char>| #[trigger]
            dependencies.deep_view().contains(path) <==> path == current || all.dom().contains(path)
                && depends_on(all, current, path) by {
            lemma_reached_paths(entries, current, document@, view, path);
        }
        let reports = cyclic_dependencies.deep_view();
        assert forall|path: Seq<char>|
            path != current && #[trigger] depends_on(all, current, path) && derived(
                all,
                path,
            ).contains(current) implies is_reported(all, current, reports, path) by {
            let m = lemma_own_cycle_paths(entries, current, document@, view, path);
            let chain = paths_of(entries, current, after.cyclic[m].1);
            assert(found.cyclic.deep_view().len() == found.cyclic@.len());
            assert(is_shown(all, current, reports, paths_of(entries, current, after.cyclic[m].1)));
            let n = choose|n: int|
                0 <= n < reports.len() && is_report_of(all, current, #[trigger] reports[n], chain);
            assert(is_report_of(all, current, reports[n], chain));
        }
    }
    GatheredDependencies { dependencies, cyclic_dependencies }
}

} // verus!
