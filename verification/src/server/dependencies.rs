//! Which documents a document depends on, and the cycles that it is part of.

use std::collections::VecDeque;
use vstd::prelude::*;

verus! {

/// What a document depends on. Documents are known by their numbers.
#[derive(Debug)]
pub struct Found {
    /// The document itself and all that it depends on, directly or not.
    pub visited: Vec<usize>,
    /// The chains that lead into cycles, each with its second document.
    pub cyclic: Vec<(usize, Vec<usize>)>,
}

/// What each document depends on directly; nothing for numbers that no document has.
pub type Graph = Seq<Option<Seq<usize>>>;

/// Whether there is a document with the given number.
pub open spec fn is_known(graph: Graph, node: usize) -> bool {
    node < graph.len() && graph[node as int] is Some
}

/// What a document depends on directly.
pub open spec fn neighbours(graph: Graph, node: usize) -> Seq<usize> {
    if is_known(graph, node) {
        graph[node as int]->0
    } else {
        Seq::empty()
    }
}

/// A document that has been reached, with the chain that it was reached by.
pub struct Reached {
    pub node: usize,
    pub chain: Seq<usize>,
}

/// The state of a search through the documents.
pub struct Search {
    /// The documents that have been looked at, in order.
    pub visited: Seq<usize>,
    /// The documents that are still to be looked at.
    pub queue: Seq<Reached>,
    /// The chains that close cycles, each with its second document.
    pub cyclic: Seq<(usize, Seq<usize>)>,
}

/// The neighbours that have not been visited, each with its chain.
pub open spec fn discovered(nodes: Seq<usize>, chain: Seq<usize>, visited: Seq<usize>) -> Seq<
    Reached,
>
    decreases nodes.len(),
{
    if nodes.len() == 0 {
        Seq::empty()
    } else {
        let before = discovered(nodes.drop_last(), chain, visited);
        if visited.contains(nodes.last()) {
            before
        } else {
            before.push(Reached { node: nodes.last(), chain: chain.push(nodes.last()) })
        }
    }
}

/// Whether one of the documents stands in the chain.
pub open spec fn closes(nodes: Seq<usize>, chain: Seq<usize>) -> bool {
    exists|i: int| 0 <= i < nodes.len() && chain.contains(#[trigger] nodes[i])
}

impl Search {
    /// The search for what `current` depends on, before its first step.
    pub open spec fn starting_at(current: usize) -> Search {
        Search {
            visited: seq![current],
            queue: seq![Reached { node: current, chain: seq![current] }],
            cyclic: Seq::empty(),
        }
    }

    /// Looks at the next document.
    pub open spec fn step(self, graph: Graph) -> Search {
        let next = self.queue[0];
        let rest = self.queue.drop_first();
        if is_known(graph, next.node) {
            let nodes = neighbours(graph, next.node);
            Search {
                visited: if self.visited.contains(next.node) {
                    self.visited
                } else {
                    self.visited.push(next.node)
                },
                queue: rest + discovered(nodes, next.chain, self.visited),
                cyclic: if next.chain.len() > 1 && closes(nodes, next.chain) {
                    self.cyclic.push((next.chain[1], next.chain))
                } else {
                    self.cyclic
                },
            }
        } else {
            Search { queue: rest, ..self }
        }
    }

    /// Looks at documents until none is left to be looked at.
    pub open spec fn finished(self, graph: Graph) -> Search
        decreases
                unvisited(self.visited, graph.len() as int),
                repeated(self.queue, self.visited),
                self.queue.len(),
    {
        if self.queue.len() == 0 {
            self
        } else {
            proof {
                lemma_step_decreases(self, graph);
            }
            self.step(graph).finished(graph)
        }
    }
}

/// How many of the numbers below `n` have not been visited.
pub open spec fn unvisited(visited: Seq<usize>, n: int) -> nat
    decreases n,
{
    if n <= 0 {
        0
    } else {
        unvisited(visited, n - 1) + (if n - 1 <= usize::MAX && visited.contains((n - 1) as usize) {
            0nat
        } else {
            1nat
        })
    }
}

/// How many of the documents in the queue have been visited before.
pub open spec fn repeated(queue: Seq<Reached>, visited: Seq<usize>) -> nat
    decreases queue.len(),
{
    if queue.len() == 0 {
        0
    } else {
        repeated(queue.drop_last(), visited) + (if visited.contains(queue.last().node) {
            1nat
        } else {
            0nat
        })
    }
}

proof fn lemma_unvisited_push(visited: Seq<usize>, node: usize, n: int)
    requires
        !visited.contains(node),
    ensures
        unvisited(visited.push(node), n) + (if node < n {
            1int
        } else {
            0int
        }) == unvisited(visited, n),
    decreases n,
{
    if n > 0 {
        lemma_unvisited_push(visited, node, n - 1);
        let after = visited.push(node);
        if n - 1 <= usize::MAX {
            let last = (n - 1) as usize;
            if visited.contains(last) {
                let k = choose|k: int| 0 <= k < visited.len() && visited[k] == last;
                assert(after[k] == last);
            }
            if node == last {
                assert(after[visited.len() as int] == last);
            } else if after.contains(last) {
                let k = choose|k: int| 0 <= k < after.len() && after[k] == last;
                assert(visited[k] == last);
            }
        }
    }
}

proof fn lemma_repeated_add(a: Seq<Reached>, b: Seq<Reached>, visited: Seq<usize>)
    ensures
        repeated(a + b, visited) == repeated(a, visited) + repeated(b, visited),
    decreases b.len(),
{
    if b.len() == 0 {
        assert(a + b =~= a);
    } else {
        assert((a + b).drop_last() =~= a + b.drop_last());
        lemma_repeated_add(a, b.drop_last(), visited);
    }
}

proof fn lemma_discovered_is_new(nodes: Seq<usize>, chain: Seq<usize>, visited: Seq<usize>)
    ensures
        repeated(discovered(nodes, chain, visited), visited) == 0,
    decreases nodes.len(),
{
    if nodes.len() > 0 {
        lemma_discovered_is_new(nodes.drop_last(), chain, visited);
        let before = discovered(nodes.drop_last(), chain, visited);
        if !visited.contains(nodes.last()) {
            let item = Reached { node: nodes.last(), chain: chain.push(nodes.last()) };
            assert(before.push(item).drop_last() =~= before);
        }
    }
}

pub proof fn lemma_step_decreases(search: Search, graph: Graph)
    requires
        search.queue.len() > 0,
    ensures
        ({
            let after = search.step(graph);
            let n = graph.len() as int;
            let new = unvisited(after.visited, n);
            let old_count = unvisited(search.visited, n);
            let new_repeated = repeated(after.queue, after.visited);
            let old_repeated = repeated(search.queue, search.visited);
            ||| new < old_count
            ||| new == old_count && new_repeated < old_repeated
            ||| new == old_count && new_repeated == old_repeated && after.queue.len()
                < search.queue.len()
        }),
{
    let next = search.queue[0];
    let rest = search.queue.drop_first();
    assert(search.queue =~= seq![next] + rest);
    lemma_repeated_add(seq![next], rest, search.visited);
    assert(seq![next].drop_last() =~= Seq::empty());
    reveal_with_fuel(repeated, 2);
    if is_known(graph, next.node) {
        if search.visited.contains(next.node) {
            let found = discovered(neighbours(graph, next.node), next.chain, search.visited);
            lemma_repeated_add(rest, found, search.visited);
            lemma_discovered_is_new(neighbours(graph, next.node), next.chain, search.visited);
        } else {
            lemma_unvisited_push(search.visited, next.node, graph.len() as int);
        }
    }
}

/// What the executable queue holds.
spec fn queue_view(queue: Seq<(usize, Vec<usize>)>) -> Seq<Reached> {
    Seq::new(queue.len(), |i: int| Reached { node: queue[i].0, chain: queue[i].1@ })
}

fn holds(items: &Vec<usize>, item: usize) -> (r: bool)
    ensures
        r == items@.contains(item),
{
    let mut i: usize = 0;
    while i < items.len()
        invariant
            i <= items@.len(),
            forall|j: int| 0 <= j < i ==> items@[j] != item,
        decreases items@.len() - i,
    {
        if items[i] == item {
            assert(items@[i as int] == item);
            return true;
        }
        i += 1;
    }
    false
}

fn extended(chain: &Vec<usize>, node: usize) -> (r: Vec<usize>)
    ensures
        r@ == chain@.push(node),
{
    let mut out: Vec<usize> = Vec::new();
    let mut i: usize = 0;
    while i < chain.len()
        invariant
            i <= chain@.len(),
            out@ == chain@.take(i as int),
        decreases chain@.len() - i,
    {
        out.push(chain[i]);
        assert(chain@.take(i + 1) =~= chain@.take(i as int).push(chain@[i as int]));
        i += 1;
    }
    assert(chain@.take(i as int) =~= chain@);
    out.push(node);
    out
}

fn closes_cycle(nodes: &Vec<usize>, chain: &Vec<usize>) -> (r: bool)
    ensures
        r == closes(nodes@, chain@),
{
    let mut i: usize = 0;
    while i < nodes.len()
        invariant
            i <= nodes@.len(),
            forall|j: int| 0 <= j < i ==> !chain@.contains(#[trigger] nodes@[j]),
        decreases nodes@.len() - i,
    {
        if holds(chain, nodes[i]) {
            assert(chain@.contains(nodes@[i as int]));
            return true;
        }
        i += 1;
    }
    false
}

fn discover(
    nodes: &Vec<usize>,
    chain: &Vec<usize>,
    visited: &Vec<usize>,
    queue: &mut VecDeque<(usize, Vec<usize>)>,
)
    ensures
        queue_view(final(queue)@) == queue_view(old(queue)@) + discovered(
            nodes@,
            chain@,
            visited@,
        ),
{
    let ghost before = queue_view(queue@);
    let mut i: usize = 0;
    assert(nodes@.take(0) =~= Seq::empty());
    assert(before + Seq::<Reached>::empty() =~= before);
    while i < nodes.len()
        invariant
            i <= nodes@.len(),
            queue_view(queue@) == before + discovered(nodes@.take(i as int), chain@, visited@),
        decreases nodes@.len() - i,
    {
        let node: usize = nodes[i];
        let ghost found = discovered(nodes@.take(i as int), chain@, visited@);
        assert(nodes@.take(i + 1).drop_last() =~= nodes@.take(i as int));
        if !holds(visited, node) {
            let ghost so_far = queue_view(queue@);
            let longer = extended(chain, node);
            queue.push_back((node, longer));
            proof {
                let item = Reached { node, chain: chain@.push(node) };
                assert(queue_view(queue@) =~= so_far.push(item));
                assert(before + found.push(item) =~= (before + found).push(item));
            }
        }
        i += 1;
    }
    assert(nodes@.take(i as int) =~= nodes@);
}

/// Collects what the document `current` depends on, and the chains that close cycles.
/// `documents` holds what each document depends on directly.
pub fn search(current: usize, documents: &Vec<Option<Vec<usize>>>) -> (r: Found)
    ensures
        ({
            let after = Search::starting_at(current).finished(documents.deep_view());
            &&& r.visited@ == after.visited
            &&& r.cyclic.deep_view() == after.cyclic
        }),
{
    let ghost graph = documents.deep_view();
    let ghost goal = Search::starting_at(current).finished(graph);
    let mut visited: Vec<usize> = Vec::new();
    visited.push(current);
    let mut cyclic: Vec<(usize, Vec<usize>)> = Vec::new();
    let mut queue: VecDeque<(usize, Vec<usize>)> = VecDeque::new();
    let mut first: Vec<usize> = Vec::new();
    first.push(current);
    queue.push_back((current, first));
    let ghost mut state = Search::starting_at(current);
    proof {
        assert(queue_view(queue@) =~= state.queue);
        assert(visited@ =~= state.visited);
        assert(cyclic.deep_view() =~= state.cyclic);
    }
    while queue.len() > 0
        invariant
            graph == documents.deep_view(),
            visited@ == state.visited,
            queue_view(queue@) == state.queue,
            cyclic.deep_view() == state.cyclic,
            goal == state.finished(graph),
        decreases
                unvisited(state.visited, graph.len() as int),
                repeated(state.queue, state.visited),
                state.queue.len(),
    {
        let ghost before = state;
        proof {
            lemma_step_decreases(before, graph);
            state = before.step(graph);
        }
        let (node, chain) = match queue.pop_front() {
            Some(next) => next,
            None => return Found { visited, cyclic },
        };
        assert(before.queue[0] == (Reached { node, chain: chain@ }));
        assert(queue_view(queue@) =~= before.queue.drop_first());
        if node < documents.len() {
            if let Some(nodes) = &documents[node] {
                assert(graph[node as int] == Some(nodes.deep_view()));
                assert(nodes.deep_view() =~= nodes@);
                discover(nodes, &chain, &visited, &mut queue);
                let closing = chain.len() > 1 && closes_cycle(nodes, &chain);
                if !holds(&visited, node) {
                    visited.push(node);
                }
                if closing {
                    let second: usize = chain[1];
                    let ghost old_cyclic = cyclic.deep_view();
                    cyclic.push((second, chain));
                    assert(chain.deep_view() =~= chain@);
                    assert(cyclic.deep_view() =~= old_cyclic.push((second, chain@)));
                }
            }
        }
    }
    assert(state.queue.len() == 0);
    Found { visited, cyclic }
}

/// Whether each document of the chain depends on the next one, from `current` on.
pub open spec fn is_chain(graph: Graph, chain: Seq<usize>, current: usize) -> bool {
    &&& chain.len() > 0
    &&& chain[0] == current
    &&& forall|i: int|
        0 < i < chain.len() ==> neighbours(graph, chain[i - 1]).contains(#[trigger] chain[i])
}

/// Whether a document depends on another one, directly or not.
pub open spec fn depends_on(graph: Graph, current: usize, node: usize) -> bool {
    exists|chain: Seq<usize>| #[trigger] is_chain(graph, chain, current) && chain.last() == node
}

/// Whether a document is still to be looked at.
spec fn is_queued(queue: Seq<Reached>, node: usize) -> bool {
    exists|i: int| 0 <= i < queue.len() && (#[trigger] queue[i]).node == node
}

/// Whether all that a document depends on has been or will be looked at.
spec fn is_covered(search: Search, graph: Graph, node: usize) -> bool {
    forall|i: int|
        0 <= i < neighbours(graph, node).len() ==> {
            let next = #[trigger] neighbours(graph, node)[i];
            search.visited.contains(next) || !is_known(graph, next) || is_queued(search.queue, next)
        }
}

/// Whether a chain that ends at the document has been reported.
spec fn is_reported(cyclic: Seq<(usize, Seq<usize>)>, node: usize) -> bool {
    exists|i: int| 0 <= i < cyclic.len() && (#[trigger] cyclic[i]).1.last() == node
}

/// Whether nothing stands twice in a chain. Only a document that depends on itself may follow
/// itself, once.
pub open spec fn is_simple<T>(chain: Seq<T>) -> bool {
    forall|i: int, j: int|
        0 <= i < j < chain.len() && #[trigger] chain[i] == #[trigger] chain[j] ==> j == i + 1
}

/// Whether a reported chain is one that closes a cycle.
pub open spec fn is_cycle(graph: Graph, current: usize, reported: (usize, Seq<usize>)) -> bool {
    &&& is_chain(graph, reported.1, current)
    &&& is_simple(reported.1)
    &&& reported.1.len() > 1
    &&& reported.0 == reported.1[1]
    &&& closes(neighbours(graph, reported.1.last()), reported.1)
}

/// Whether all but the last of a chain have been looked at.
spec fn is_behind(chain: Seq<usize>, visited: Seq<usize>) -> bool {
    forall|k: int| 0 <= k < chain.len() - 1 ==> visited.contains(#[trigger] chain[k])
}

/// What holds throughout the search.
spec fn is_sound(search: Search, graph: Graph, current: usize) -> bool {
    &&& search.visited.contains(current)
    &&& search.visited.no_duplicates()
    &&& forall|i: int|
        0 <= i < search.queue.len() ==> {
            let reached = #[trigger] search.queue[i];
            &&& is_chain(graph, reached.chain, current) && reached.chain.last() == reached.node
            &&& is_simple(reached.chain) && is_behind(reached.chain, search.visited)
        }
    &&& forall|i: int|
        0 <= i < search.visited.len() ==> {
            let node = #[trigger] search.visited[i];
            &&& node == current || is_known(graph, node) && depends_on(graph, current, node)
            &&& is_covered(search, graph, node) || is_queued(search.queue, node)
            &&& node != current && neighbours(graph, node).contains(current) ==> is_reported(
                search.cyclic,
                node,
            )
        }
    &&& forall|i: int|
        0 <= i < search.cyclic.len() ==> is_cycle(graph, current, #[trigger] search.cyclic[i])
}

proof fn lemma_discovered(nodes: Seq<usize>, chain: Seq<usize>, visited: Seq<usize>)
    ensures
        forall|i: int|
            0 <= i < nodes.len() ==> visited.contains(#[trigger] nodes[i]) || is_queued(
                discovered(nodes, chain, visited),
                nodes[i],
            ),
        forall|i: int|
            0 <= i < discovered(nodes, chain, visited).len() ==> {
                let reached = #[trigger] discovered(nodes, chain, visited)[i];
                nodes.contains(reached.node) && reached.chain == chain.push(reached.node)
                    && !visited.contains(reached.node)
            },
    decreases nodes.len(),
{
    if nodes.len() > 0 {
        let shorter = nodes.drop_last();
        let before = discovered(shorter, chain, visited);
        let after = discovered(nodes, chain, visited);
        lemma_discovered(shorter, chain, visited);
        assert forall|i: int| 0 <= i < nodes.len() implies visited.contains(#[trigger] nodes[i])
            || is_queued(after, nodes[i]) by {
            if i < shorter.len() {
                assert(shorter[i] == nodes[i]);
                if !visited.contains(nodes[i]) {
                    let k = choose|k: int|
                        0 <= k < before.len() && (#[trigger] before[k]).node == nodes[i];
                    assert(after[k].node == nodes[i]);
                }
            } else if !visited.contains(nodes[i]) {
                assert(after[before.len() as int].node == nodes[i]);
            }
        }
        assert forall|i: int| 0 <= i < after.len() implies {
            let reached = #[trigger] after[i];
            nodes.contains(reached.node) && reached.chain == chain.push(reached.node)
                && !visited.contains(reached.node)
        } by {
            if i < before.len() {
                assert(after[i] == before[i]);
                let k = choose|k: int| 0 <= k < shorter.len() && shorter[k] == before[i].node;
                assert(nodes[k] == after[i].node);
            } else {
                assert(nodes[nodes.len() - 1] == after[i].node);
            }
        }
    }
}

proof fn lemma_step_is_sound(search: Search, graph: Graph, current: usize)
    requires
        is_sound(search, graph, current),
        search.queue.len() > 0,
    ensures
        is_sound(search.step(graph), graph, current),
{
    let after = search.step(graph);
    let next = search.queue[0];
    let rest = search.queue.drop_first();
    let nodes = neighbours(graph, next.node);
    let found = discovered(nodes, next.chain, search.visited);
    lemma_discovered(nodes, next.chain, search.visited);
    assert(is_chain(graph, next.chain, current) && next.chain.last() == next.node);
    assert forall|node: usize| search.visited.contains(node) implies after.visited.contains(
        node,
    ) by {
        let k = choose|k: int| 0 <= k < search.visited.len() && search.visited[k] == node;
        assert(after.visited[k] == node);
    }
    assert forall|node: usize| #[trigger]
        is_queued(search.queue, node) && node != next.node implies is_queued(
        after.queue,
        node,
    ) by {
        let k = choose|k: int|
            0 <= k < search.queue.len() && (#[trigger] search.queue[k]).node == node;
        assert(k > 0);
        assert(rest[k - 1] == search.queue[k]);
        assert(after.queue[k - 1].node == node);
    }
    if is_known(graph, next.node) {
        assert forall|node: usize| #[trigger] is_queued(found, node) implies is_queued(
            after.queue,
            node,
        ) by {
            let k = choose|k: int| 0 <= k < found.len() && (#[trigger] found[k]).node == node;
            assert(after.queue[rest.len() + k] == found[k]);
        }
        assert(after.visited.contains(next.node)) by {
            if !search.visited.contains(next.node) {
                assert(after.visited[search.visited.len() as int] == next.node);
            }
        }
    }
    assert forall|i: int| 0 <= i < after.queue.len() implies {
        let reached = #[trigger] after.queue[i];
        &&& is_chain(graph, reached.chain, current) && reached.chain.last() == reached.node
        &&& is_simple(reached.chain) && is_behind(reached.chain, after.visited)
    } by {
        if i < rest.len() {
            assert(after.queue[i] == search.queue[i + 1]);
        } else {
            let reached = found[i - rest.len()];
            assert(after.queue[i] == reached);
            let last = next.chain.len() - 1;
            assert forall|k: int| 0 <= k < reached.chain.len() - 1 implies after.visited.contains(
                #[trigger] reached.chain[k],
            ) by {
                assert(reached.chain[k] == next.chain[k]);
                if k < last {
                    assert(search.visited.contains(next.chain[k]));
                }
            }
            assert forall|a: int, b: int|
                0 <= a < b < reached.chain.len() && #[trigger] reached.chain[a]
                    == #[trigger] reached.chain[b] implies b == a + 1 by {
                assert(reached.chain[a] == next.chain[a]);
                if b <= last {
                    assert(reached.chain[b] == next.chain[b]);
                } else if a < last {
                    assert(search.visited.contains(next.chain[a]));
                }
            }
            assert forall|j: int| 0 < j < reached.chain.len() implies neighbours(
                graph,
                reached.chain[j - 1],
            ).contains(#[trigger] reached.chain[j]) by {
                if j < next.chain.len() {
                    assert(reached.chain[j] == next.chain[j]);
                    assert(reached.chain[j - 1] == next.chain[j - 1]);
                } else {
                    assert(reached.chain[j - 1] == next.chain.last());
                }
            }
        }
    }
    assert forall|i: int| 0 <= i < after.cyclic.len() implies is_cycle(
        graph,
        current,
        #[trigger] after.cyclic[i],
    ) by {
        if i < search.cyclic.len() {
            assert(after.cyclic[i] == search.cyclic[i]);
        }
    }
    assert forall|node: usize| #[trigger] is_reported(search.cyclic, node) implies is_reported(
        after.cyclic,
        node,
    ) by {
        let k = choose|k: int|
            0 <= k < search.cyclic.len() && (#[trigger] search.cyclic[k]).1.last() == node;
        assert(after.cyclic[k] == search.cyclic[k]);
    }
    assert forall|node: usize|
        #[trigger] is_covered(search, graph, node) && node != next.node implies is_covered(
        after,
        graph,
        node,
    ) by {
        assert forall|i: int| 0 <= i < neighbours(graph, node).len() implies {
            let m = #[trigger] neighbours(graph, node)[i];
            after.visited.contains(m) || !is_known(graph, m) || is_queued(after.queue, m)
        } by {}
    }
    assert(is_covered(after, graph, next.node)) by {
        assert forall|i: int| 0 <= i < neighbours(graph, next.node).len() implies {
            let m = #[trigger] neighbours(graph, next.node)[i];
            after.visited.contains(m) || !is_known(graph, m) || is_queued(after.queue, m)
        } by {
            assert(nodes[i] == neighbours(graph, next.node)[i]);
        }
    }
    assert forall|i: int| 0 <= i < after.visited.len() implies {
        let node = #[trigger] after.visited[i];
        &&& node == current || is_known(graph, node) && depends_on(graph, current, node)
        &&& is_covered(after, graph, node) || is_queued(after.queue, node)
        &&& node != current && neighbours(graph, node).contains(current) ==> is_reported(
            after.cyclic,
            node,
        )
    } by {
        let node = after.visited[i];
        if i < search.visited.len() {
            assert(search.visited[i] == node);
        } else {
            assert(node == next.node);
            assert(is_chain(graph, next.chain, current));
            if node != current && neighbours(graph, node).contains(current) {
                assert(next.chain.contains(current)) by {
                    assert(next.chain[0] == current);
                }
                let k = choose|k: int| 0 <= k < nodes.len() && nodes[k] == current;
                assert(closes(nodes, next.chain)) by {
                    assert(next.chain.contains(nodes[k]));
                }
                assert(next.chain.len() > 1);
                assert(after.cyclic[search.cyclic.len() as int].1.last() == node);
            }
        }
    }
}

proof fn lemma_finished(search: Search, graph: Graph, current: usize)
    requires
        is_sound(search, graph, current),
    ensures
        is_sound(search.finished(graph), graph, current),
        search.finished(graph).queue.len() == 0,
    decreases
            unvisited(search.visited, graph.len() as int),
            repeated(search.queue, search.visited),
            search.queue.len(),
{
    if search.queue.len() > 0 {
        lemma_step_decreases(search, graph);
        lemma_step_is_sound(search, graph, current);
        lemma_finished(search.step(graph), graph, current);
    }
}

proof fn lemma_search(graph: Graph, current: usize)
    ensures
        is_sound(Search::starting_at(current).finished(graph), graph, current),
        Search::starting_at(current).finished(graph).queue.len() == 0,
{
    let start = Search::starting_at(current);
    assert(start.visited[0] == current);
    assert(start.queue[0].node == current);
    lemma_finished(start, graph, current);
}

proof fn lemma_chain_is_visited(graph: Graph, current: usize, chain: Seq<usize>, n: int)
    requires
        is_chain(graph, chain, current),
        0 <= n < chain.len(),
        is_known(graph, chain[n]) || n == 0,
    ensures
        Search::starting_at(current).finished(graph).visited.contains(chain[n]),
    decreases n,
{
    let after = Search::starting_at(current).finished(graph);
    lemma_search(graph, current);
    if n > 0 {
        assert(neighbours(graph, chain[n - 1]).contains(chain[n]));
        lemma_chain_is_visited(graph, current, chain, n - 1);
        let k = choose|k: int| 0 <= k < after.visited.len() && after.visited[k] == chain[n - 1];
        assert(is_covered(after, graph, after.visited[k]));
        let nodes = neighbours(graph, chain[n - 1]);
        let j = choose|j: int| 0 <= j < nodes.len() && nodes[j] == chain[n];
        assert(neighbours(graph, after.visited[k])[j] == chain[n]);
    }
}

/// Each document is gathered once.
pub proof fn lemma_dependencies_are_distinct(graph: Graph, current: usize)
    ensures
        Search::starting_at(current).finished(graph).visited.no_duplicates(),
{
    lemma_search(graph, current);
}

/// What is gathered for a document is the document itself and every document that it
/// depends on, directly or not.
pub proof fn lemma_dependencies_are_reached(graph: Graph, current: usize, node: usize)
    ensures
        Search::starting_at(current).finished(graph).visited.contains(node) <==> node == current
            || is_known(graph, node) && depends_on(graph, current, node),
{
    let after = Search::starting_at(current).finished(graph);
    lemma_search(graph, current);
    if after.visited.contains(node) {
        let k = choose|k: int| 0 <= k < after.visited.len() && after.visited[k] == node;
        assert(after.visited[k] == node);
    }
    if is_known(graph, node) && depends_on(graph, current, node) {
        let chain = choose|chain: Seq<usize>| #[trigger]
            is_chain(graph, chain, current) && chain.last() == node;
        lemma_chain_is_visited(graph, current, chain, chain.len() - 1);
    }
}

/// Each chain that is reported leads from the document into a cycle.
pub proof fn lemma_cycles_are_genuine(graph: Graph, current: usize)
    ensures
        forall|i: int|
            0 <= i < Search::starting_at(current).finished(graph).cyclic.len() ==> is_cycle(
                graph,
                current,
                #[trigger] Search::starting_at(current).finished(graph).cyclic[i],
            ),
{
    lemma_search(graph, current);
}

/// Every other document that the document depends on and that depends on it directly ends
/// a chain that is reported.
pub proof fn lemma_own_cycles_are_found(graph: Graph, current: usize, node: usize)
    requires
        node != current,
        depends_on(graph, current, node),
        neighbours(graph, node).contains(current),
    ensures
        exists|i: int|
            0 <= i < Search::starting_at(current).finished(graph).cyclic.len() && (
            #[trigger] Search::starting_at(current).finished(graph).cyclic[i]).1.last() == node,
{
    let after = Search::starting_at(current).finished(graph);
    lemma_search(graph, current);
    lemma_dependencies_are_reached(graph, current, node);
    let k = choose|k: int| 0 <= k < after.visited.len() && after.visited[k] == node;
    assert(is_reported(after.cyclic, after.visited[k]));
    let i = choose|i: int| 0 <= i < after.cyclic.len() && (#[trigger] after.cyclic[i]).1.last()
        == node;
    assert(after.cyclic[i].1.last() == node);
}

} // verus!
