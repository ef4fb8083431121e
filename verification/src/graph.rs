use vstd::prelude::*;
use crate::decimal::{decimal, usize_to_string};

verus! {

/// Why a graph operation was refused.
#[derive(Debug, Clone, Copy, PartialEq, Eq, Structural)]
pub enum GraphError {
    NodeNotFound(usize),
    EdgeAlreadyExists(usize),
    EdgeNotFound(usize),
}

impl GraphError {
    /// The sentence that describes the error.
    pub fn message(&self) -> (text: String)
        ensures
            text@ == (match *self {
                GraphError::NodeNotFound(i) => "Node "@ + decimal(i as int) + " not found."@,
                GraphError::EdgeAlreadyExists(i) => "Edge target "@ + decimal(i as int) + " already exists."@,
                GraphError::EdgeNotFound(i) => "Edge target "@ + decimal(i as int) + " not found."@,
            }),
    {
        match *self {
            GraphError::NodeNotFound(i) => {
                let mut text = "Node ".to_owned();
                text.append(usize_to_string(i).as_str());
                text.append(" not found.");
                text
            },
            GraphError::EdgeAlreadyExists(i) => {
                let mut text = "Edge target ".to_owned();
                text.append(usize_to_string(i).as_str());
                text.append(" already exists.");
                text
            },
            GraphError::EdgeNotFound(i) => {
                let mut text = "Edge target ".to_owned();
                text.append(usize_to_string(i).as_str());
                text.append(" not found.");
                text
            },
        }
    }
}

/// One end of an edge as stored in a node's adjacency list: the node at the
/// other end and the edge's weight.
#[derive(Clone, Copy)]
pub struct Edge {
    pub target: usize,
    pub weight: usize,
}

/// Whether some edge in `edges` has `target` as its other end.
pub open spec fn has_target(edges: Seq<Edge>, target: usize) -> bool {
    exists|i: int| 0 <= i < edges.len() && #[trigger] edges[i].target == target
}

/// `edges` with every edge whose other end is `target` left out, order kept.
pub open spec fn without_target(edges: Seq<Edge>, target: usize) -> Seq<Edge> {
    edges.filter(|e: Edge| e.target != target)
}

/// A node of the graph: its payload, its outgoing and incoming adjacency
/// lists, and whether the slot has been deleted.
pub struct Node<T> {
    data: T,
    outgoing: Vec<Edge>,
    incoming: Vec<Edge>,
    deleted: bool,
}

/// The mathematical model of a node.
#[verifier::ext_equal]
pub struct NodeView<T> {
    pub data: T,
    pub outgoing: Seq<Edge>,
    pub incoming: Seq<Edge>,
    pub deleted: bool,
}

impl<T> View for Node<T> {
    type V = NodeView<T>;

    closed spec fn view(&self) -> NodeView<T> {
        NodeView {
            data: self.data,
            outgoing: self.outgoing@,
            incoming: self.incoming@,
            deleted: self.deleted,
        }
    }
}

/// Looks for an edge with the given other end.
fn find_target(edges: &Vec<Edge>, target: usize) -> (found: bool)
    ensures
        found == has_target(edges@, target),
{
    let mut i: usize = 0;
    while i < edges.len()
        invariant
            0 <= i <= edges@.len(),
            forall|j: int| 0 <= j < i ==> edges@[j].target != target,
        decreases edges@.len() - i,
    {
        if edges[i].target == target {
            return true;
        }
        i = i + 1;
    }
    false
}

/// Keeps the edges whose other end is not `target`.
fn retain_other_targets(edges: &Vec<Edge>, target: usize) -> (kept: Vec<Edge>)
    ensures
        kept@ == without_target(edges@, target),
{
    let mut kept: Vec<Edge> = Vec::new();
    let mut i: usize = 0;
    while i < edges.len()
        invariant
            0 <= i <= edges@.len(),
            kept@ == without_target(edges@.take(i as int), target),
        decreases edges@.len() - i,
    {
        let e = edges[i];
        proof {
            let next = edges@.take(i + 1);
            assert(next.drop_last() =~= edges@.take(i as int));
            assert(next.last() == e);
            reveal_with_fuel(Seq::filter, 1);
        }
        if e.target != target {
            kept.push(e);
        }
        i = i + 1;
    }
    assert(edges@.take(edges@.len() as int) =~= edges@);
    kept
}

impl<T> Node<T> {
    /// A live node holding `data`, with no edges.
    pub fn new(data: T) -> (node: Self)
        ensures
            node@ == (NodeView { data, outgoing: Seq::<Edge>::empty(), incoming: Seq::<Edge>::empty(), deleted: false }),
    {
        Node { data, outgoing: Vec::new(), incoming: Vec::new(), deleted: false }
    }

    /// Records an edge to `target`, unless one to `target` is recorded already.
    pub fn add_outgoing_edge(&mut self, target: usize, weight: usize) -> (res: Result<(), GraphError>)
        ensures
            has_target(old(self)@.outgoing, target) ==> res == Err::<(), GraphError>(GraphError::EdgeAlreadyExists(target))
                && final(self)@ == old(self)@,
            !has_target(old(self)@.outgoing, target) ==> res == Ok::<(), GraphError>(())
                && final(self)@ == (NodeView { outgoing: old(self)@.outgoing.push(Edge { target, weight }), ..old(self)@ }),
    {
        if find_target(&self.outgoing, target) {
            return Err(GraphError::EdgeAlreadyExists(target));
        }
        self.outgoing.push(Edge { target, weight });
        Ok(())
    }

    /// Records an edge from `source`, unless one from `source` is recorded already.
    pub fn add_incoming_edge(&mut self, source: usize, weight: usize) -> (res: Result<(), GraphError>)
        ensures
            has_target(old(self)@.incoming, source) ==> res == Err::<(), GraphError>(GraphError::EdgeAlreadyExists(source))
                && final(self)@ == old(self)@,
            !has_target(old(self)@.incoming, source) ==> res == Ok::<(), GraphError>(())
                && final(self)@ == (NodeView { incoming: old(self)@.incoming.push(Edge { target: source, weight }), ..old(self)@ }),
    {
        if find_target(&self.incoming, source) {
            return Err(GraphError::EdgeAlreadyExists(source));
        }
        self.incoming.push(Edge { target: source, weight });
        Ok(())
    }

    /// The node's payload.
    pub fn data(&self) -> (d: &T)
        ensures
            *d == self@.data,
    {
        &self.data
    }

    /// The node's outgoing edges, in the order they were added.
    pub fn outgoing(&self) -> (edges: &Vec<Edge>)
        ensures
            edges@ == self@.outgoing,
    {
        &self.outgoing
    }

    /// The node's incoming edges, in the order they were added.
    pub fn incoming(&self) -> (edges: &Vec<Edge>)
        ensures
            edges@ == self@.incoming,
    {
        &self.incoming
    }

    /// Whether the node's slot has been deleted.
    pub fn is_deleted(&self) -> (b: bool)
        ensures
            b == self@.deleted,
    {
        self.deleted
    }

    /// Marks the node deleted and hands back its incoming and outgoing lists,
    /// leaving both empty.
    fn retire(&mut self) -> (lists: (Vec<Edge>, Vec<Edge>))
        ensures
            final(self)@ == (NodeView { data: old(self)@.data, outgoing: Seq::<Edge>::empty(), incoming: Seq::<Edge>::empty(), deleted: true }),
            lists.0@ == old(self)@.incoming,
            lists.1@ == old(self)@.outgoing,
    {
        self.deleted = true;
        let mut incoming: Vec<Edge> = Vec::new();
        let mut outgoing: Vec<Edge> = Vec::new();
        std::mem::swap(&mut incoming, &mut self.incoming);
        std::mem::swap(&mut outgoing, &mut self.outgoing);
        (incoming, outgoing)
    }

    /// Drops every outgoing edge to `target`.
    pub fn remove_outgoing_edge(&mut self, target: usize)
        ensures
            final(self)@ == (NodeView { outgoing: without_target(old(self)@.outgoing, target), ..old(self)@ }),
    {
        self.outgoing = retain_other_targets(&self.outgoing, target);
    }

    /// Drops every incoming edge from `source`.
    pub fn remove_incoming_edge(&mut self, source: usize)
        ensures
            final(self)@ == (NodeView { incoming: without_target(old(self)@.incoming, source), ..old(self)@ }),
    {
        self.incoming = retain_other_targets(&self.incoming, source);
    }
}


/// Whether every edge in `edges` has its other end below `bound`.
pub open spec fn targets_below(edges: Seq<Edge>, bound: int) -> bool {
    forall|i: int| 0 <= i < edges.len() ==> #[trigger] edges[i].target < bound
}

/// Whether no two edges in `edges` share their other end.
pub open spec fn distinct_targets(edges: Seq<Edge>) -> bool {
    forall|i: int, j: int|
        #![trigger edges[i], edges[j]]
        0 <= i < j < edges.len() ==> edges[i].target != edges[j].target
}

/// Filtering by other end keeps only edges of the original list, drops every
/// edge to `target`, and keeps the bounds and distinctness of the list.
pub proof fn lemma_without_target(edges: Seq<Edge>, target: usize, bound: int)
    ensures
        !has_target(without_target(edges, target), target),
        targets_below(edges, bound) ==> targets_below(without_target(edges, target), bound),
        distinct_targets(edges) ==> distinct_targets(without_target(edges, target)),
        forall|u: usize| has_target(without_target(edges, target), u) ==> has_target(edges, u),
        forall|u: usize| has_target(edges, u) && u != target ==> has_target(without_target(edges, target), u),
        without_target(edges, target).len() <= edges.len(),
    decreases edges.len(),
{
    reveal_with_fuel(Seq::filter, 1);
    if edges.len() > 0 {
        let rest = edges.drop_last();
        lemma_without_target(rest, target, bound);
        let fr = without_target(rest, target);
        let last = edges.last();
        assert(forall|i: int| 0 <= i < rest.len() ==> rest[i] == edges[i]);
        if last.target != target {
            let f = fr.push(last);
            assert(without_target(edges, target) == f);
            assert forall|u: usize| has_target(edges, u) && u != target implies has_target(f, u) by {
                let k = choose|k: int| 0 <= k < edges.len() && #[trigger] edges[k].target == u;
                if k == edges.len() - 1 {
                    assert(f[f.len() - 1].target == u);
                } else {
                    assert(rest[k].target == u);
                    assert(has_target(rest, u));
                    assert(has_target(fr, u));
                    let i = choose|i: int| 0 <= i < fr.len() && #[trigger] fr[i].target == u;
                    assert(f[i].target == u);
                }
            }
            assert forall|u: usize| has_target(f, u) implies has_target(edges, u) by {
                let i = choose|i: int| 0 <= i < f.len() && #[trigger] f[i].target == u;
                if i == f.len() - 1 {
                    assert(edges[edges.len() - 1].target == u);
                } else {
                    assert(fr[i].target == u);
                    assert(has_target(rest, u));
                    let k = choose|k: int| 0 <= k < rest.len() && #[trigger] rest[k].target == u;
                    assert(edges[k].target == u);
                }
            }
            if distinct_targets(edges) {
                assert(distinct_targets(rest));
                assert forall|i: int, j: int| 0 <= i < j < f.len() implies #[trigger] f[i].target != #[trigger] f[j].target by {
                    if j == f.len() - 1 {
                        if f[i].target == last.target {
                            assert(has_target(fr, last.target));
                            assert(has_target(rest, last.target));
                            let k = choose|k: int| 0 <= k < rest.len() && #[trigger] rest[k].target == last.target;
                            assert(edges[k].target == edges[edges.len() - 1].target);
                        }
                    } else {
                        assert(f[i] == fr[i] && f[j] == fr[j]);
                    }
                }
            }
            if targets_below(edges, bound) {
                assert(targets_below(rest, bound));
                assert forall|i: int| 0 <= i < f.len() implies #[trigger] f[i].target < bound by {
                    if i < f.len() - 1 {
                        assert(f[i] == fr[i]);
                    } else {
                        assert(edges[edges.len() - 1].target < bound);
                    }
                }
            }
        } else {
            assert(without_target(edges, target) == fr);
            assert forall|u: usize| has_target(edges, u) && u != target implies has_target(fr, u) by {
                let k = choose|k: int| 0 <= k < edges.len() && #[trigger] edges[k].target == u;
                assert(k != edges.len() - 1);
                assert(rest[k].target == u);
                assert(has_target(rest, u));
            }
            assert forall|u: usize| has_target(fr, u) implies has_target(edges, u) by {
                assert(has_target(rest, u));
                let k = choose|k: int| 0 <= k < rest.len() && #[trigger] rest[k].target == u;
                assert(edges[k].target == u);
            }
            if distinct_targets(edges) {
                assert(distinct_targets(rest));
            }
            if targets_below(edges, bound) {
                assert(targets_below(rest, bound));
            }
        }
    }
}

/// Filtering twice by the same other end is filtering once.
pub proof fn lemma_without_target_twice(edges: Seq<Edge>, target: usize)
    ensures
        without_target(without_target(edges, target), target) == without_target(edges, target),
    decreases edges.len(),
{
    reveal_with_fuel(Seq::filter, 1);
    if edges.len() > 0 {
        let rest = edges.drop_last();
        lemma_without_target_twice(rest, target);
        let fr = without_target(rest, target);
        if edges.last().target != target {
            let f = fr.push(edges.last());
            assert(f.drop_last() =~= fr);
        }
    }
}

/// Filtering a list that has no edge to `target` changes nothing.
pub proof fn lemma_without_absent_target(edges: Seq<Edge>, target: usize)
    requires
        !has_target(edges, target),
    ensures
        without_target(edges, target) == edges,
    decreases edges.len(),
{
    reveal_with_fuel(Seq::filter, 1);
    if edges.len() > 0 {
        let rest = edges.drop_last();
        assert forall|i: int| 0 <= i < rest.len() implies #[trigger] rest[i].target != target by {
            assert(rest[i] == edges[i]);
        }
        lemma_without_absent_target(rest, target);
        assert(edges.last() == edges[edges.len() - 1]);
        assert(rest.push(edges.last()) =~= edges);
    }
}

/// How many entries of `visited` are still `false`.
pub open spec fn count_unvisited(visited: Seq<bool>) -> nat
    decreases visited.len(),
{
    if visited.len() == 0 {
        0
    } else {
        count_unvisited(visited.drop_last()) + if visited.last() {
            0nat
        } else {
            1nat
        }
    }
}

/// Marking an unvisited entry lowers the count by one.
pub proof fn lemma_count_unvisited_mark(visited: Seq<bool>, v: int)
    requires
        0 <= v < visited.len(),
        !visited[v],
    ensures
        count_unvisited(visited.update(v, true)) + 1 == count_unvisited(visited),
    decreases visited.len(),
{
    let marked = visited.update(v, true);
    if v == visited.len() - 1 {
        assert(marked.drop_last() =~= visited.drop_last());
    } else {
        lemma_count_unvisited_mark(visited.drop_last(), v);
        assert(marked.drop_last() =~= visited.drop_last().update(v, true));
    }
}

/// The order in which a depth-first walk reports nodes: pop the top of the
/// stack; if it is a slot not yet visited, report it, mark it, and push the
/// other ends of its outgoing edges in list order; otherwise drop it.
pub open spec fn dfs_order(adj: Seq<Seq<usize>>, visited: Seq<bool>, stack: Seq<usize>) -> Seq<usize>
    decreases count_unvisited(visited), stack.len(),
{
    if stack.len() == 0 {
        Seq::empty()
    } else {
        let v = stack.last();
        let rest = stack.drop_last();
        if v < visited.len() && !visited[v as int] {
            proof {
                lemma_count_unvisited_mark(visited, v as int);
            }
            seq![v] + dfs_order(adj, visited.update(v as int, true), rest + adj[v as int])
        } else {
            dfs_order(adj, visited, rest)
        }
    }
}

/// A walk reports each slot at most once, and only slots unvisited when it
/// started.
pub proof fn lemma_dfs_order_distinct(adj: Seq<Seq<usize>>, visited: Seq<bool>, stack: Seq<usize>)
    ensures
        dfs_order(adj, visited, stack).no_duplicates(),
        forall|i: int| 0 <= i < dfs_order(adj, visited, stack).len() ==>
            #[trigger] dfs_order(adj, visited, stack)[i] < visited.len()
            && !visited[dfs_order(adj, visited, stack)[i] as int],
    decreases count_unvisited(visited), stack.len(),
{
    if stack.len() > 0 {
        let v = stack.last();
        let rest = stack.drop_last();
        if v < visited.len() && !visited[v as int] {
            lemma_count_unvisited_mark(visited, v as int);
            let marked = visited.update(v as int, true);
            let tail = dfs_order(adj, marked, rest + adj[v as int]);
            lemma_dfs_order_distinct(adj, marked, rest + adj[v as int]);
            let all = seq![v] + tail;
            assert(dfs_order(adj, visited, stack) == all);
            assert forall|i: int| 0 <= i < all.len() implies #[trigger] all[i] < visited.len() && !visited[all[i] as int] by {
                if i > 0 {
                    assert(all[i] == tail[i - 1]);
                }
            }
            assert forall|i: int, j: int| 0 <= i < all.len() && 0 <= j < all.len() && i != j implies all[i] != all[j] by {
                if i > 0 && j > 0 {
                    assert(all[i] == tail[i - 1] && all[j] == tail[j - 1]);
                } else if i == 0 {
                    assert(all[j] == tail[j - 1]);
                    assert(!marked[tail[j - 1] as int]);
                } else {
                    assert(all[i] == tail[i - 1]);
                    assert(!marked[tail[i - 1] as int]);
                }
            }
        } else {
            lemma_dfs_order_distinct(adj, visited, rest);
        }
    }
}

/// Whether each step of `p` follows an edge of `adj`.
pub open spec fn is_walk(adj: Seq<Seq<usize>>, p: Seq<usize>) -> bool
    decreases p.len(),
{
    if p.len() <= 1 {
        true
    } else {
        is_walk(adj, p.drop_last()) && adj[p[p.len() - 2] as int].contains(p.last())
    }
}

/// Whether some walk along `adj` leads from `from` to `to` (every slot
/// reaches itself).
pub open spec fn walk_reaches(adj: Seq<Seq<usize>>, from: usize, to: usize) -> bool {
    exists|p: Seq<usize>| #[trigger] is_walk(adj, p) && p.len() > 0 && p[0] == from && p.last() == to
}

/// Whether every slot named in `adj` is below `n`, with one list per slot.
pub open spec fn adj_within(adj: Seq<Seq<usize>>, n: nat) -> bool {
    &&& adj.len() == n
    &&& forall|u: int, k: int| 0 <= u < n && 0 <= k < adj[u].len() ==> #[trigger] adj[u][k] < n
}

/// Whether `x` is marked in `visited` or reported in `t`.
pub open spec fn seen(visited: Seq<bool>, t: Seq<usize>, x: usize) -> bool {
    x < visited.len() && (visited[x as int] || t.contains(x))
}

/// Every successor of a marked slot is marked or still on the stack.
pub open spec fn successors_pending(adj: Seq<Seq<usize>>, visited: Seq<bool>, stack: Seq<usize>) -> bool {
    forall|u: int, k: int|
        0 <= u < visited.len() && visited[u] && 0 <= k < adj[u].len() ==> visited[#[trigger] adj[u][k] as int]
            || stack.contains(adj[u][k])
}

/// A walk whose marked-or-reported set is closed under successors ends up
/// with every slot it can reach from the stack marked or reported.
pub proof fn lemma_dfs_order_closed(adj: Seq<Seq<usize>>, visited: Seq<bool>, stack: Seq<usize>)
    requires
        adj_within(adj, visited.len()),
        forall|i: int| 0 <= i < stack.len() ==> #[trigger] stack[i] < visited.len(),
        successors_pending(adj, visited, stack),
    ensures
        forall|u: usize, k: int|
            seen(visited, dfs_order(adj, visited, stack), u) && 0 <= k < adj[u as int].len() ==> #[trigger] seen(
                visited,
                dfs_order(adj, visited, stack),
                adj[u as int][k],
            ),
        forall|i: int| 0 <= i < stack.len() ==> #[trigger] seen(visited, dfs_order(adj, visited, stack), stack[i]),
    decreases count_unvisited(visited), stack.len(),
{
    let t = dfs_order(adj, visited, stack);
    if stack.len() == 0 {
        assert forall|u: usize, k: int| seen(visited, t, u) && 0 <= k < adj[u as int].len() implies #[trigger] seen(
            visited,
            t,
            adj[u as int][k],
        ) by {
            assert(t.len() == 0);
            assert(visited[u as int]);
            assert(adj[u as int][k] < visited.len());
        }
    } else {
        let v = stack.last();
        let rest = stack.drop_last();
        assert(stack[stack.len() - 1] == v);
        if !visited[v as int] {
            lemma_count_unvisited_mark(visited, v as int);
            let marked = visited.update(v as int, true);
            let next = rest + adj[v as int];
            assert forall|i: int| 0 <= i < next.len() implies #[trigger] next[i] < marked.len() by {
                if i < rest.len() {
                    assert(next[i] == stack[i]);
                } else {
                    assert(next[i] == adj[v as int][i - rest.len()]);
                }
            }
            assert forall|u: int, k: int|
                0 <= u < marked.len() && marked[u] && 0 <= k < adj[u].len() implies marked[#[trigger] adj[u][k] as int]
                || next.contains(adj[u][k]) by {
                let w = adj[u][k];
                if u == v {
                    assert(next[rest.len() + k] == w);
                } else {
                    assert(visited[u]);
                    if !visited[w as int] {
                        assert(stack.contains(w));
                        let i = choose|i: int| 0 <= i < stack.len() && stack[i] == w;
                        if i == stack.len() - 1 {
                            assert(marked[w as int]);
                        } else {
                            assert(next[i] == w);
                        }
                    }
                }
            }
            lemma_dfs_order_closed(adj, marked, next);
            let t2 = dfs_order(adj, marked, next);
            assert(t == seq![v] + t2);
            assert forall|x: usize| seen(marked, t2, x) == seen(visited, t, x) by {
                if x < visited.len() {
                    if t2.contains(x) {
                        let i = choose|i: int| 0 <= i < t2.len() && t2[i] == x;
                        assert(t[i + 1] == x);
                    }
                    if t.contains(x) && x != v {
                        let i = choose|i: int| 0 <= i < t.len() && t[i] == x;
                        assert(t2[i - 1] == x);
                    }
                    if x == v {
                        assert(t[0] == v);
                    }
                }
            }
            assert forall|u: usize, k: int| seen(visited, t, u) && 0 <= k < adj[u as int].len() implies #[trigger] seen(
                visited,
                t,
                adj[u as int][k],
            ) by {
                assert(seen(marked, t2, u));
                assert(seen(marked, t2, adj[u as int][k]));
            }
            assert forall|i: int| 0 <= i < stack.len() implies #[trigger] seen(visited, t, stack[i]) by {
                if i < rest.len() {
                    assert(next[i] == stack[i]);
                    assert(seen(marked, t2, next[i]));
                } else {
                    assert(t[0] == v);
                }
            }
        } else {
            assert forall|u: int, k: int|
                0 <= u < visited.len() && visited[u] && 0 <= k < adj[u].len() implies visited[#[trigger] adj[u][k] as int]
                || rest.contains(adj[u][k]) by {
                let w = adj[u][k];
                if !visited[w as int] {
                    let i = choose|i: int| 0 <= i < stack.len() && stack[i] == w;
                    assert(i != stack.len() - 1);
                    assert(rest[i] == w);
                }
            }
            lemma_dfs_order_closed(adj, visited, rest);
            assert(t == dfs_order(adj, visited, rest));
            assert forall|i: int| 0 <= i < stack.len() implies #[trigger] seen(visited, t, stack[i]) by {
                if i < rest.len() {
                    assert(rest[i] == stack[i]);
                }
            }
        }
    }
}

/// A walk from the stack only reports slots reachable from `from`, when
/// every slot on the stack is.
pub proof fn lemma_dfs_order_reachable(adj: Seq<Seq<usize>>, visited: Seq<bool>, stack: Seq<usize>, from: usize)
    requires
        forall|i: int| 0 <= i < stack.len() ==> #[trigger] walk_reaches(adj, from, stack[i]),
    ensures
        forall|i: int| 0 <= i < dfs_order(adj, visited, stack).len() ==> #[trigger] walk_reaches(
            adj,
            from,
            dfs_order(adj, visited, stack)[i],
        ),
    decreases count_unvisited(visited), stack.len(),
{
    if stack.len() > 0 {
        let v = stack.last();
        let rest = stack.drop_last();
        assert(walk_reaches(adj, from, stack[stack.len() - 1]));
        assert forall|i: int| 0 <= i < rest.len() implies #[trigger] walk_reaches(adj, from, rest[i]) by {
            assert(rest[i] == stack[i]);
        }
        if v < visited.len() && !visited[v as int] {
            lemma_count_unvisited_mark(visited, v as int);
            let marked = visited.update(v as int, true);
            let next = rest + adj[v as int];
            assert forall|i: int| 0 <= i < next.len() implies #[trigger] walk_reaches(adj, from, next[i]) by {
                if i < rest.len() {
                    assert(next[i] == rest[i]);
                } else {
                    let w = next[i];
                    assert(adj[v as int][i - rest.len()] == w);
                    let p = choose|p: Seq<usize>| #[trigger] is_walk(adj, p) && p.len() > 0 && p[0] == from && p.last() == v;
                    let q = p.push(w);
                    assert(q.drop_last() =~= p);
                    assert(is_walk(adj, q));
                    assert(q[0] == from);
                }
            }
            lemma_dfs_order_reachable(adj, marked, next, from);
            let t2 = dfs_order(adj, marked, next);
            let t = seq![v] + t2;
            assert(dfs_order(adj, visited, stack) == t);
            assert forall|i: int| 0 <= i < t.len() implies #[trigger] walk_reaches(adj, from, t[i]) by {
                if i > 0 {
                    assert(t[i] == t2[i - 1]);
                }
            }
        } else {
            lemma_dfs_order_reachable(adj, visited, rest, from);
            assert(dfs_order(adj, visited, stack) == dfs_order(adj, visited, rest));
        }
    }
}

/// Whether `w` is a slot that is neither marked in `visited` nor among the
/// first `i + 1` entries of `order`.
pub open spec fn fresh_at(visited: Seq<bool>, order: Seq<usize>, i: int, w: usize) -> bool {
    w < visited.len() && !visited[w as int] && !order.take(i + 1).contains(w)
}

/// The depth-first step at position `i` of `order`: if the slot reported
/// there has a fresh successor, the next slot reported is its last fresh
/// successor in list order.
pub open spec fn depth_first_step(adj: Seq<Seq<usize>>, visited: Seq<bool>, order: Seq<usize>, i: int) -> bool {
    let succ = adj[order[i] as int];
    (exists|k: int| 0 <= k < succ.len() && #[trigger] fresh_at(visited, order, i, succ[k])) ==> exists|kk: int|
        0 <= kk < succ.len() && succ[kk] == order[i + 1] && fresh_at(visited, order, i, order[i + 1]) && forall|k: int|
            kk < k < succ.len() ==> !#[trigger] fresh_at(visited, order, i, succ[k])
}

/// When the top part `s` of the stack holds an unmarked slot, the walk
/// reports first the last unmarked slot of `s`.
pub proof fn lemma_dfs_order_first(adj: Seq<Seq<usize>>, visited: Seq<bool>, rest: Seq<usize>, s: Seq<usize>)
    requires
        forall|i: int| 0 <= i < s.len() ==> #[trigger] s[i] < visited.len(),
        exists|k: int| 0 <= k < s.len() && !visited[#[trigger] s[k] as int],
    ensures
        dfs_order(adj, visited, rest + s).len() > 0,
        exists|kk: int|
            0 <= kk < s.len() && !visited[s[kk] as int] && dfs_order(adj, visited, rest + s)[0] == s[kk]
                && forall|k: int| kk < k < s.len() ==> visited[#[trigger] s[k] as int],
    decreases s.len(),
{
    let stack = rest + s;
    let top = s[s.len() - 1];
    assert(stack.last() == top);
    assert(stack.drop_last() =~= rest + s.drop_last());
    if !visited[top as int] {
        lemma_count_unvisited_mark(visited, top as int);
        assert(dfs_order(adj, visited, stack)[0] == top);
        let kk = s.len() - 1;
        assert(s[kk] == top);
    } else {
        let s0 = s.drop_last();
        let k0 = choose|k: int| 0 <= k < s.len() && !visited[#[trigger] s[k] as int];
        assert(k0 < s.len() - 1);
        assert(s0[k0] == s[k0]);
        assert forall|i: int| 0 <= i < s0.len() implies #[trigger] s0[i] < visited.len() by {
            assert(s0[i] == s[i]);
        }
        lemma_dfs_order_first(adj, visited, rest, s0);
        assert(dfs_order(adj, visited, stack) == dfs_order(adj, visited, rest + s0));
        let kk = choose|kk: int|
            0 <= kk < s0.len() && !visited[s0[kk] as int] && dfs_order(adj, visited, rest + s0)[0] == s0[kk]
                && forall|k: int| kk < k < s0.len() ==> visited[#[trigger] s0[k] as int];
        assert(s[kk] == s0[kk]);
        assert forall|k: int| kk < k < s.len() implies visited[#[trigger] s[k] as int] by {
            if k < s0.len() {
                assert(s0[k] == s[k]);
            }
        }
    }
}

/// Every step of the walk is a depth-first step.
pub proof fn lemma_dfs_order_depth_first(adj: Seq<Seq<usize>>, visited: Seq<bool>, stack: Seq<usize>)
    requires
        adj_within(adj, visited.len()),
        forall|i: int| 0 <= i < stack.len() ==> #[trigger] stack[i] < visited.len(),
    ensures
        forall|i: int| 0 <= i && i + 1 < dfs_order(adj, visited, stack).len() ==> #[trigger] depth_first_step(
            adj,
            visited,
            dfs_order(adj, visited, stack),
            i,
        ),
    decreases count_unvisited(visited), stack.len(),
{
    let o = dfs_order(adj, visited, stack);
    if stack.len() > 0 {
        let v = stack.last();
        let rest = stack.drop_last();
        assert(v == stack[stack.len() - 1]);
        assert forall|i: int| 0 <= i < rest.len() implies #[trigger] rest[i] < visited.len() by {
            assert(rest[i] == stack[i]);
        }
        if !visited[v as int] {
            lemma_count_unvisited_mark(visited, v as int);
            let marked = visited.update(v as int, true);
            let s = adj[v as int];
            let next = rest + s;
            assert forall|i: int| 0 <= i < next.len() implies #[trigger] next[i] < marked.len() by {
                if i >= rest.len() {
                    assert(next[i] == s[i - rest.len()]);
                }
            }
            lemma_dfs_order_depth_first(adj, marked, next);
            let o2 = dfs_order(adj, marked, next);
            assert(o == seq![v] + o2);
            assert forall|i: int| 0 <= i && i + 1 < o.len() implies #[trigger] depth_first_step(adj, visited, o, i) by {
                if i == 0 {
                    assert(o[0] == v);
                    if exists|k: int| 0 <= k < s.len() && #[trigger] fresh_at(visited, o, 0, s[k]) {
                        let k0 = choose|k: int| 0 <= k < s.len() && #[trigger] fresh_at(visited, o, 0, s[k]);
                        assert(o.take(1) =~= seq![v]);
                        assert(s[k0] != v);
                        assert(!marked[s[k0] as int]);
                        assert forall|j: int| 0 <= j < s.len() implies #[trigger] s[j] < marked.len() by {
                            assert(adj[v as int][j] < visited.len());
                        }
                        lemma_dfs_order_first(adj, marked, rest, s);
                        let kk = choose|kk: int|
                            0 <= kk < s.len() && !marked[s[kk] as int] && o2[0] == s[kk]
                                && forall|k: int| kk < k < s.len() ==> marked[#[trigger] s[k] as int];
                        assert(o[1] == o2[0]);
                        assert(fresh_at(visited, o, 0, o[1]));
                        assert forall|k: int| kk < k < s.len() implies !#[trigger] fresh_at(visited, o, 0, s[k]) by {
                            assert(marked[s[k] as int]);
                        }
                    }
                } else {
                    assert(depth_first_step(adj, marked, o2, i - 1));
                    assert(o[i] == o2[i - 1]);
                    assert(o[i + 1] == o2[i]);
                    assert(o.take(i + 1) =~= seq![v] + o2.take(i));
                    assert forall|w: usize| #[trigger] fresh_at(visited, o, i, w) == fresh_at(marked, o2, i - 1, w) by {
                        let a = o.take(i + 1);
                        let b = o2.take(i);
                        if b.contains(w) {
                            let j = choose|j: int| 0 <= j < b.len() && b[j] == w;
                            assert(a[j + 1] == w);
                        }
                        if a.contains(w) && w != v {
                            let j = choose|j: int| 0 <= j < a.len() && a[j] == w;
                            assert(b[j - 1] == w);
                        }
                        if w == v {
                            assert(o.take(i + 1)[0] == v);
                        }
                    }
                }
            }
        } else {
            lemma_dfs_order_depth_first(adj, visited, rest);
            assert(o == dfs_order(adj, visited, rest));
        }
    }
}

/// Every slot on a walk that starts in a successor-closed set stays in it.
pub proof fn lemma_walk_stays_seen(adj: Seq<Seq<usize>>, visited: Seq<bool>, t: Seq<usize>, p: Seq<usize>)
    requires
        is_walk(adj, p),
        p.len() > 0,
        seen(visited, t, p[0]),
        forall|u: usize, k: int| seen(visited, t, u) && 0 <= k < adj[u as int].len() ==> #[trigger] seen(
            visited,
            t,
            adj[u as int][k],
        ),
    ensures
        seen(visited, t, p.last()),
    decreases p.len(),
{
    if p.len() > 1 {
        let q = p.drop_last();
        assert(q[0] == p[0]);
        lemma_walk_stays_seen(adj, visited, t, q);
        let u = q.last();
        assert(u == p[p.len() - 2]);
        let k = choose|k: int| 0 <= k < adj[u as int].len() && adj[u as int][k] == p.last();
        assert(seen(visited, t, adj[u as int][k]));
    }
}

/// A directed, weighted graph whose node slots are indices into a vector.
/// Deleted slots are kept, marked, and handed out again by `add_node`.
pub struct Graph<T> {
    nodes: Vec<Node<T>>,
    free_nodes: Vec<usize>,
}

/// The mathematical model of a graph: its node slots and its stack of freed
/// slot indices.
#[verifier::ext_equal]
pub struct GraphView<T> {
    pub nodes: Seq<NodeView<T>>,
    pub free: Seq<usize>,
}

impl<T> View for Graph<T> {
    type V = GraphView<T>;

    closed spec fn view(&self) -> GraphView<T> {
        GraphView { nodes: self.nodes@.map_values(|n: Node<T>| n@), free: self.free_nodes@ }
    }
}

/// A fresh live node holding `data`.
pub open spec fn fresh_node<T>(data: T) -> NodeView<T> {
    NodeView { data, outgoing: Seq::empty(), incoming: Seq::empty(), deleted: false }
}

impl<T> GraphView<T> {
    /// Every edge recorded at slot `i` points at an existing slot, and no
    /// adjacency list of slot `i` names the same slot twice.
    pub open spec fn node_wf(self, i: int) -> bool {
        &&& targets_below(self.nodes[i].outgoing, self.nodes.len() as int)
        &&& targets_below(self.nodes[i].incoming, self.nodes.len() as int)
        &&& distinct_targets(self.nodes[i].outgoing)
        &&& distinct_targets(self.nodes[i].incoming)
    }

    /// The graph's invariant: all slots well formed, and every freed index is
    /// an existing slot.
    pub open spec fn wf(self) -> bool {
        &&& forall|i: int| 0 <= i < self.nodes.len() ==> #[trigger] self.node_wf(i)
        &&& forall|k: int| 0 <= k < self.free.len() ==> #[trigger] self.free[k] < self.nodes.len()
        &&& self.nodes.len() <= usize::MAX
    }

    /// Slot `i` exists and has not been deleted.
    pub open spec fn is_live(self, i: int) -> bool {
        0 <= i < self.nodes.len() && !self.nodes[i].deleted
    }

    /// What `add_edge(from, to, _)` answers on this graph.
    pub open spec fn add_edge_outcome(self, from: usize, to: usize) -> Result<(), GraphError> {
        if !self.is_live(from as int) {
            Err(GraphError::NodeNotFound(from))
        } else if has_target(self.nodes[from as int].outgoing, to) {
            Err(GraphError::EdgeAlreadyExists(to))
        } else if !self.is_live(to as int) {
            Err(GraphError::NodeNotFound(to))
        } else if has_target(self.nodes[to as int].incoming, from) {
            Err(GraphError::EdgeAlreadyExists(from))
        } else {
            Ok(())
        }
    }

    /// The graph with the edge `from -> to` recorded at both of its ends.
    pub open spec fn with_edge(self, from: usize, to: usize, weight: usize) -> GraphView<T> {
        let a = self.nodes.update(
            from as int,
            NodeView { outgoing: self.nodes[from as int].outgoing.push(Edge { target: to, weight }), ..self.nodes[from as int] },
        );
        GraphView {
            nodes: a.update(
                to as int,
                NodeView { incoming: a[to as int].incoming.push(Edge { target: from, weight }), ..a[to as int] },
            ),
            free: self.free,
        }
    }

    /// The graph after `remove_edge(from, to)`: every edge `from -> to` gone
    /// from the lists of the slots that exist.
    pub open spec fn without_edge(self, from: usize, to: usize) -> GraphView<T> {
        let a = if from < self.nodes.len() {
            self.nodes.update(
                from as int,
                NodeView { outgoing: without_target(self.nodes[from as int].outgoing, to), ..self.nodes[from as int] },
            )
        } else {
            self.nodes
        };
        let b = if to < a.len() {
            a.update(to as int, NodeView { incoming: without_target(a[to as int].incoming, from), ..a[to as int] })
        } else {
            a
        };
        GraphView { nodes: b, free: self.free }
    }

    /// The index that `add_node` hands out: the most recently freed one, or
    /// a new slot at the end.
    pub open spec fn next_index(self) -> usize {
        if self.free.len() > 0 {
            self.free.last()
        } else {
            self.nodes.len() as usize
        }
    }

    /// The graph after `add_node(data)`: a fresh node inserted at
    /// `next_index()`, shifting the slots from there on by one.
    pub open spec fn with_node(self, data: T) -> GraphView<T> {
        GraphView {
            nodes: self.nodes.insert(self.next_index() as int, fresh_node(data)),
            free: if self.free.len() > 0 {
                self.free.drop_last()
            } else {
                self.free
            },
        }
    }

    /// For each slot, the other ends of its outgoing edges in list order.
    pub open spec fn adjacency(self) -> Seq<Seq<usize>> {
        Seq::new(self.nodes.len(), |i: int| self.nodes[i].outgoing.map_values(|e: Edge| e.target))
    }

    /// Whether following outgoing edges leads from slot `from` to slot `to`.
    pub open spec fn reaches(self, from: usize, to: usize) -> bool {
        walk_reaches(self.adjacency(), from, to)
    }

    /// The slots that `traverse(start)` reports, in order: a depth-first walk
    /// from `start` along outgoing edges, deleted slots included.
    pub open spec fn traversal(self, start: usize) -> Seq<usize> {
        dfs_order(self.adjacency(), Seq::new(self.nodes.len(), |i: int| false), seq![start])
    }

    /// The graph after `remove_node(index)` on a live slot: the slot is marked
    /// deleted with both lists emptied and pushed on the free stack, and the
    /// slots at the other ends of its edges forget their edges with it.
    pub open spec fn without_node(self, index: usize) -> GraphView<T> {
        let n = self.nodes[index as int];
        GraphView {
            nodes: Seq::new(
                self.nodes.len(),
                |j: int|
                    if j == index {
                        NodeView { data: n.data, outgoing: Seq::empty(), incoming: Seq::empty(), deleted: true }
                    } else {
                        NodeView {
                            outgoing: if has_target(n.incoming, j as usize) {
                                without_target(self.nodes[j].outgoing, index)
                            } else {
                                self.nodes[j].outgoing
                            },
                            incoming: if has_target(n.outgoing, j as usize) {
                                without_target(self.nodes[j].incoming, index)
                            } else {
                                self.nodes[j].incoming
                            },
                            ..self.nodes[j]
                        }
                    },
            ),
            free: self.free.push(index),
        }
    }
}

impl<T> GraphView<T> {
    /// A slot named in a list of slot `i` exists.
    pub proof fn lemma_listed_slot_exists(self, i: int, t: usize)
        requires
            self.wf(),
            0 <= i < self.nodes.len(),
            has_target(self.nodes[i].outgoing, t) || has_target(self.nodes[i].incoming, t),
        ensures
            t < self.nodes.len(),
    {
        assert(self.node_wf(i));
        if has_target(self.nodes[i].outgoing, t) {
            let k = choose|k: int| 0 <= k < self.nodes[i].outgoing.len() && #[trigger] self.nodes[i].outgoing[k].target == t;
        } else {
            let k = choose|k: int| 0 <= k < self.nodes[i].incoming.len() && #[trigger] self.nodes[i].incoming[k].target == t;
        }
    }

    /// The walk from `start` reports exactly the slots reachable from it.
    pub proof fn lemma_traversal_reaches(self, start: usize)
        requires
            self.wf(),
            start < self.nodes.len(),
        ensures
            forall|v: usize| #[trigger] self.traversal(start).contains(v) <==> self.reaches(start, v),
    {
        let adj = self.adjacency();
        let n = self.nodes.len();
        let none = Seq::new(n, |i: int| false);
        let stack = seq![start];
        let t = self.traversal(start);
        assert forall|u: int, k: int| 0 <= u < n && 0 <= k < adj[u].len() implies #[trigger] adj[u][k] < n by {
            assert(self.node_wf(u));
            assert(adj[u][k] == self.nodes[u].outgoing[k].target);
        }
        lemma_dfs_order_closed(adj, none, stack);
        let p0 = seq![start];
        assert(is_walk(adj, p0));
        assert(walk_reaches(adj, start, start));
        assert forall|i: int| 0 <= i < stack.len() implies #[trigger] walk_reaches(adj, start, stack[i]) by {}
        lemma_dfs_order_reachable(adj, none, stack, start);
        assert(seen(none, t, stack[0]));
        assert forall|v: usize| #[trigger] t.contains(v) <==> self.reaches(start, v) by {
            if t.contains(v) {
                let i = choose|i: int| 0 <= i < t.len() && t[i] == v;
                assert(walk_reaches(adj, start, t[i]));
            }
            if self.reaches(start, v) {
                let p = choose|p: Seq<usize>| #[trigger] is_walk(adj, p) && p.len() > 0 && p[0] == start && p.last() == v;
                lemma_walk_stays_seen(adj, none, t, p);
            }
        }
    }

    /// Deleting a live node keeps the graph's invariant.
    pub proof fn lemma_without_node_wf(self, index: usize)
        requires
            self.wf(),
            self.is_live(index as int),
        ensures
            self.without_node(index).wf(),
    {
        let g = self.without_node(index);
        let n = self.nodes.len() as int;
        assert forall|j: int| 0 <= j < g.nodes.len() implies #[trigger] g.node_wf(j) by {
            assert(self.node_wf(j));
            if j != index {
                lemma_without_target(self.nodes[j].outgoing, index, n);
                lemma_without_target(self.nodes[j].incoming, index, n);
            }
        }
        assert forall|k: int| 0 <= k < g.free.len() implies #[trigger] g.free[k] < g.nodes.len() by {
            if k < self.free.len() {
                assert(self.free[k] < self.nodes.len());
            }
        }
    }
}

impl<T> Graph<T> {
    /// An empty graph.
    pub fn new() -> (g: Self)
        ensures
            g.wf(),
            g@.nodes.len() == 0,
            g@.free.len() == 0,
    {
        let g = Graph { nodes: Vec::new(), free_nodes: Vec::new() };
        assert(g@.nodes =~= Seq::<NodeView<T>>::empty());
        g
    }

    /// The graph's invariant, on its model.
    pub open spec fn wf(&self) -> bool {
        self@.wf()
    }

    /// Adds the edge `from -> to` with `weight`, recording it at both ends.
    /// On any refusal the graph is left as it was (an edge recorded at `from`
    /// before `to` was checked is taken back).
    pub fn add_edge(&mut self, from: usize, to: usize, weight: usize) -> (res: Result<(), GraphError>)
        requires
            old(self).wf(),
        ensures
            final(self).wf(),
            res == old(self)@.add_edge_outcome(from, to),
            res is Ok ==> final(self)@ == old(self)@.with_edge(from, to, weight),
            res is Err ==> final(self)@ == old(self)@,
    {
        let ghost g0 = self@;
        if from < self.nodes.len() && !self.nodes[from].deleted {
            let r = self.nodes[from].add_outgoing_edge(to, weight);
            if r.is_err() {
                assert(self@ =~= g0);
                return r;
            }
        } else {
            return Err(GraphError::NodeNotFound(from));
        }
        let ghost g1 = self@;
        assert(g1.nodes =~= g0.nodes.update(
            from as int,
            NodeView { outgoing: g0.nodes[from as int].outgoing.push(Edge { target: to, weight }), ..g0.nodes[from as int] },
        ));
        let res: Result<(), GraphError>;
        if to < self.nodes.len() && !self.nodes[to].deleted {
            res = self.nodes[to].add_incoming_edge(from, weight);
            if res.is_ok() {
                assert(self@ =~= g0.with_edge(from, to, weight));
                proof {
                    let g2 = self@;
                    assert forall|i: int| 0 <= i < g2.nodes.len() implies #[trigger] g2.node_wf(i) by {
                        assert(g0.node_wf(i));
                    }
                }
                return Ok(());
            }
        } else {
            res = Err(GraphError::NodeNotFound(to));
        }
        self.nodes[from].remove_outgoing_edge(to);
        proof {
            lemma_without_absent_target(g0.nodes[from as int].outgoing, to);
            let pushed = g0.nodes[from as int].outgoing.push(Edge { target: to, weight });
            reveal_with_fuel(Seq::filter, 1);
            assert(pushed.drop_last() =~= g0.nodes[from as int].outgoing);
            assert(without_target(pushed, to) == g0.nodes[from as int].outgoing);
        }
        assert(self@.nodes =~= g0.nodes);
        assert(self@ =~= g0);
        res
    }

    /// Forgets every edge `from -> to`, at whichever ends exist.
    pub fn remove_edge(&mut self, from: usize, to: usize)
        requires
            old(self).wf(),
        ensures
            final(self).wf(),
            final(self)@ == old(self)@.without_edge(from, to),
    {
        let ghost g0 = self@;
        if from < self.nodes.len() {
            self.nodes[from].remove_outgoing_edge(to);
        }
        if to < self.nodes.len() {
            self.nodes[to].remove_incoming_edge(from);
        }
        assert(self@.nodes =~= g0.without_edge(from, to).nodes);
        assert(self@ =~= g0.without_edge(from, to));
        proof {
            let g2 = self@;
            let n = g0.nodes.len() as int;
            assert forall|i: int| 0 <= i < g2.nodes.len() implies #[trigger] g2.node_wf(i) by {
                assert(g0.node_wf(i));
                lemma_without_target(g0.nodes[i].outgoing, to, n);
                lemma_without_target(g0.nodes[i].incoming, from, n);
                if i == from {
                    lemma_without_target(g0.nodes[i].incoming, from, n);
                    let mid = without_target(g0.nodes[i].outgoing, to);
                    lemma_without_target(mid, to, n);
                }
            }
        }
    }

    /// Adds a live node holding `data` and returns its index: the most
    /// recently freed index if there is one (the node is inserted there and
    /// the slots from there on move up by one), else a new slot at the end.
    pub fn add_node(&mut self, data: T) -> (index: usize)
        requires
            old(self).wf(),
        ensures
            final(self).wf(),
            index == old(self)@.next_index(),
            final(self)@ == old(self)@.with_node(data),
    {
        let ghost g0 = self@;
        let index = match self.free_nodes.pop() {
            Some(free_index) => free_index,
            None => self.nodes.len(),
        };
        assert(index <= self.nodes.len()) by {
            if g0.free.len() > 0 {
                assert(g0.free[g0.free.len() - 1] < g0.nodes.len());
            }
        }
        self.nodes.insert(index, Node::new(data));
        assert(self@.nodes =~= g0.nodes.insert(index as int, fresh_node(data)));
        assert(self@ =~= g0.with_node(data));
        proof {
            let g2 = self@;
            assert(self.nodes.len() == self.nodes@.len());
            assert forall|i: int| 0 <= i < g2.nodes.len() implies #[trigger] g2.node_wf(i) by {
                if i < index {
                    assert(g0.node_wf(i));
                } else if i > index {
                    assert(g0.node_wf(i - 1));
                }
            }
            assert forall|k: int| 0 <= k < g2.free.len() implies #[trigger] g2.free[k] < g2.nodes.len() by {
                assert(g0.free[k] < g0.nodes.len());
            }
        }
        index
    }

    /// Deletes the live node at `index`: marks its slot deleted, pushes the
    /// index on the free stack, empties its lists, and removes the edges with
    /// it from the nodes named in its lists. A missing or already deleted
    /// slot leaves the graph as it was.
    pub fn remove_node(&mut self, index: usize)
        requires
            old(self).wf(),
        ensures
            final(self).wf(),
            old(self)@.is_live(index as int) ==> final(self)@ == old(self)@.without_node(index),
            !old(self)@.is_live(index as int) ==> final(self)@ == old(self)@,
    {
        if index >= self.nodes.len() {
            return;
        }
        if self.nodes[index].deleted {
            return;
        }
        let ghost g0 = self@;
        let ghost n0 = g0.nodes[index as int];
        let ghost len = g0.nodes.len();
        let (incoming_edges, outgoing_edges) = self.nodes[index].retire();
        self.free_nodes.push(index);

        let mut k: usize = 0;
        while k < incoming_edges.len()
            invariant
                0 <= k <= incoming_edges@.len(),
                incoming_edges@ == n0.incoming,
                outgoing_edges@ == n0.outgoing,
                self.nodes@.len() == len,
                g0.nodes.len() == len,
                index < len,
                self@.free == g0.free.push(index),
                self@.nodes[index as int] == (NodeView { data: n0.data, outgoing: Seq::<Edge>::empty(), incoming: Seq::<Edge>::empty(), deleted: true }),
                forall|j: int| 0 <= j < len && j != index ==> #[trigger] self@.nodes[j] == (NodeView {
                    outgoing: if exists|i: int| 0 <= i < k && incoming_edges@[i].target == j {
                        without_target(g0.nodes[j].outgoing, index)
                    } else {
                        g0.nodes[j].outgoing
                    },
                    ..g0.nodes[j]
                }),
            decreases incoming_edges@.len() - k,
        {
            let t = incoming_edges[k].target;
            let ghost before = self@;
            if t < self.nodes.len() {
                self.nodes[t].remove_outgoing_edge(index);
            }
            proof {
                assert forall|j: int| 0 <= j < len && j != index implies #[trigger] self@.nodes[j] == (NodeView {
                    outgoing: if exists|i: int| 0 <= i < k + 1 && incoming_edges@[i].target == j {
                        without_target(g0.nodes[j].outgoing, index)
                    } else {
                        g0.nodes[j].outgoing
                    },
                    ..g0.nodes[j]
                }) by {
                    assert(before.nodes[j] == self@.nodes[j] || j == t);
                    assert(before.nodes[j] == (NodeView {
                        outgoing: if exists|i: int| 0 <= i < k && incoming_edges@[i].target == j {
                            without_target(g0.nodes[j].outgoing, index)
                        } else {
                            g0.nodes[j].outgoing
                        },
                        ..g0.nodes[j]
                    }));
                    if j == t {
                        lemma_without_target_twice(g0.nodes[j].outgoing, index);
                        assert(incoming_edges@[k as int].target == j);
                        assert(self@.nodes[j] == (NodeView { outgoing: without_target(before.nodes[j].outgoing, index), ..before.nodes[j] }));
                    } else {
                        if exists|i: int| 0 <= i < k + 1 && incoming_edges@[i].target == j {
                            let i = choose|i: int| 0 <= i < k + 1 && incoming_edges@[i].target == j;
                            assert(i != k);
                        }
                    }
                }
                if t == index {
                    assert(without_target(Seq::<Edge>::empty(), index) =~= Seq::<Edge>::empty()) by {
                        reveal_with_fuel(Seq::filter, 1);
                    }
                }
            }
            k = k + 1;
        }

        let ghost mid = self@;
        assert(mid.nodes.len() == len);
        let mut k: usize = 0;
        while k < outgoing_edges.len()
            invariant
                0 <= k <= outgoing_edges@.len(),
                outgoing_edges@ == n0.outgoing,
                self.nodes@.len() == len,
                g0.nodes.len() == len,
                mid.nodes.len() == len,
                index < len,
                self@.free == g0.free.push(index),
                self@.nodes[index as int] == (NodeView { data: n0.data, outgoing: Seq::<Edge>::empty(), incoming: Seq::<Edge>::empty(), deleted: true }),
                forall|j: int| 0 <= j < len && j != index ==> #[trigger] self@.nodes[j] == (NodeView {
                    incoming: if exists|i: int| 0 <= i < k && outgoing_edges@[i].target == j {
                        without_target(mid.nodes[j].incoming, index)
                    } else {
                        mid.nodes[j].incoming
                    },
                    ..mid.nodes[j]
                }),
            decreases outgoing_edges@.len() - k,
        {
            let t = outgoing_edges[k].target;
            let ghost before = self@;
            if t < self.nodes.len() {
                self.nodes[t].remove_incoming_edge(index);
            }
            proof {
                assert forall|j: int| 0 <= j < len && j != index implies #[trigger] self@.nodes[j] == (NodeView {
                    incoming: if exists|i: int| 0 <= i < k + 1 && outgoing_edges@[i].target == j {
                        without_target(mid.nodes[j].incoming, index)
                    } else {
                        mid.nodes[j].incoming
                    },
                    ..mid.nodes[j]
                }) by {
                    assert(before.nodes[j] == self@.nodes[j] || j == t);
                    assert(before.nodes[j] == (NodeView {
                        incoming: if exists|i: int| 0 <= i < k && outgoing_edges@[i].target == j {
                            without_target(mid.nodes[j].incoming, index)
                        } else {
                            mid.nodes[j].incoming
                        },
                        ..mid.nodes[j]
                    }));
                    if j == t {
                        lemma_without_target_twice(mid.nodes[j].incoming, index);
                        assert(outgoing_edges@[k as int].target == j);
                        assert(self@.nodes[j] == (NodeView { incoming: without_target(before.nodes[j].incoming, index), ..before.nodes[j] }));
                    } else {
                        if exists|i: int| 0 <= i < k + 1 && outgoing_edges@[i].target == j {
                            let i = choose|i: int| 0 <= i < k + 1 && outgoing_edges@[i].target == j;
                            assert(i != k);
                        }
                    }
                }
                if t == index {
                    assert(without_target(Seq::<Edge>::empty(), index) =~= Seq::<Edge>::empty()) by {
                        reveal_with_fuel(Seq::filter, 1);
                    }
                }
            }
            k = k + 1;
        }
        proof {
            let target = g0.without_node(index);
            assert forall|j: int| 0 <= j < len implies #[trigger] self@.nodes[j] == target.nodes[j] by {
                if j != index {
                    assert((exists|i: int| 0 <= i < n0.incoming.len() && n0.incoming[i].target == j)
                        == has_target(n0.incoming, j as usize));
                    assert((exists|i: int| 0 <= i < n0.outgoing.len() && n0.outgoing[i].target == j)
                        == has_target(n0.outgoing, j as usize));
                }
            }
            assert(self@.nodes =~= target.nodes);
            assert(self@ =~= target);
            g0.lemma_without_node_wf(index);
        }
    }

    /// Walks the graph depth first from `start` along outgoing edges and
    /// returns the slots in the order they are first reached.
    pub fn traverse(&self, start: usize) -> (order: Vec<usize>)
        requires
            self.wf(),
            start < self@.nodes.len(),
        ensures
            order@ == self@.traversal(start),
            order@.no_duplicates(),
            order@.len() > 0 && order@[0] == start,
            forall|i: int| 0 <= i < order@.len() ==> #[trigger] order@[i] < self@.nodes.len(),
            forall|v: usize| #[trigger] order@.contains(v) <==> self@.reaches(start, v),
    {
        let ghost adj = self@.adjacency();
        let ghost g = self@;
        let n = self.nodes.len();
        let mut visited: Vec<bool> = vec![false; n];
        let mut stack: Vec<usize> = Vec::new();
        stack.push(start);
        let mut order: Vec<usize> = Vec::new();
        assert(visited@ =~= Seq::new(n as nat, |i: int| false));
        assert(stack@ =~= seq![start]);
        while stack.len() > 0
            invariant
                g == self@,
                self.wf(),
                adj == g.adjacency(),
                n == g.nodes.len(),
                visited@.len() == n,
                forall|i: int| 0 <= i < stack@.len() ==> #[trigger] stack@[i] < n,
                order@ + dfs_order(adj, visited@, stack@) == g.traversal(start),
            decreases count_unvisited(visited@), stack@.len(),
        {
            let ghost vis0 = visited@;
            let ghost stack0 = stack@;
            let v = stack.pop().unwrap();
            let ghost rest = stack@;
            assert(stack0.last() == v && stack0.drop_last() =~= rest);
            if !visited[v] {
                proof {
                    lemma_count_unvisited_mark(vis0, v as int);
                }
                visited.set(v, true);
                order.push(v);
                let node = &self.nodes[v];
                assert(node.outgoing@ == g.nodes[v as int].outgoing);
                assert(g.node_wf(v as int));
                let mut k: usize = 0;
                while k < node.outgoing.len()
                    invariant
                        0 <= k <= node.outgoing@.len(),
                        node.outgoing@ == g.nodes[v as int].outgoing,
                        targets_below(g.nodes[v as int].outgoing, n as int),
                        stack@ == rest + adj[v as int].take(k as int),
                        adj[v as int] == g.nodes[v as int].outgoing.map_values(|e: Edge| e.target),
                        forall|i: int| 0 <= i < rest.len() ==> #[trigger] rest[i] < n,
                    decreases node.outgoing@.len() - k,
                {
                    stack.push(node.outgoing[k].target);
                    k = k + 1;
                    assert(stack@ =~= rest + adj[v as int].take(k as int));
                }
                assert(adj[v as int].take(k as int) =~= adj[v as int]);
                assert forall|i: int| 0 <= i < stack@.len() implies #[trigger] stack@[i] < n by {
                    if i >= rest.len() {
                        assert(stack@[i] == g.nodes[v as int].outgoing[i - rest.len()].target);
                    }
                }
                assert(order@ + dfs_order(adj, visited@, stack@) =~= (order@.drop_last() + (seq![v] + dfs_order(adj, visited@, stack@))));
            }
        }
        proof {
            lemma_dfs_order_distinct(adj, Seq::new(n as nat, |i: int| false), seq![start]);
            lemma_count_unvisited_mark(Seq::new(n as nat, |i: int| false), start as int);
            let t = g.traversal(start);
            assert(t[0] == start);
            g.lemma_traversal_reaches(start);
        }
        order
    }

    /// The number of node slots, deleted ones included.
    pub fn node_count(&self) -> (n: usize)
        ensures
            n == self@.nodes.len(),
    {
        self.nodes.len()
    }

    /// The node in slot `index`, deleted or not.
    pub fn slot(&self, index: usize) -> (node: &Node<T>)
        requires
            index < self@.nodes.len(),
        ensures
            node@ == self@.nodes[index as int],
    {
        &self.nodes[index]
    }

    /// The live node at `index`, if there is one.
    pub fn get_node(&self, index: usize) -> (r: Option<&Node<T>>)
        ensures
            r is Some <==> self@.is_live(index as int),
            r is Some ==> r.unwrap()@ == self@.nodes[index as int],
    {
        if index < self.nodes.len() && !self.nodes[index].deleted {
            Some(&self.nodes[index])
        } else {
            None
        }
    }
}

} // verus!
