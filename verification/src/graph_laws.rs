use vstd::prelude::*;
use crate::graph::{Edge, GraphError, GraphView, fresh_node, adj_within, depth_first_step, fresh_at, lemma_dfs_order_depth_first, lemma_dfs_order_distinct, has_target, without_target, lemma_without_absent_target, lemma_without_target};

verus! {

/// Filtering out `target` from a list without it, after pushing an edge to
/// `target`, gives the list back.
proof fn lemma_without_pushed(edges: Seq<Edge>, e: Edge, target: usize)
    requires
        e.target == target,
        !has_target(edges, target),
    ensures
        without_target(edges.push(e), target) == edges,
{
    reveal_with_fuel(Seq::filter, 1);
    let pushed = edges.push(e);
    assert(pushed.drop_last() =~= edges);
    lemma_without_absent_target(edges, target);
}

/// Whether every edge is recorded at both of its ends: slot `i` lists an
/// outgoing edge to `t` exactly when slot `t` lists an incoming edge from
/// `i`.
pub open spec fn symmetric<T>(g: GraphView<T>) -> bool {
    &&& forall|i: int, t: usize|
        0 <= i < g.nodes.len() && #[trigger] has_target(g.nodes[i].outgoing, t) ==> has_target(
            g.nodes[t as int].incoming,
            i as usize,
        )
    &&& forall|i: int, t: usize|
        0 <= i < g.nodes.len() && #[trigger] has_target(g.nodes[i].incoming, t) ==> has_target(
            g.nodes[t as int].outgoing,
            i as usize,
        )
}

/// A pushed edge is found, and so is everything found before.
proof fn lemma_has_target_push(edges: Seq<Edge>, e: Edge)
    ensures
        forall|u: usize| #[trigger] has_target(edges.push(e), u) <==> has_target(edges, u) || e.target == u,
{
    let p = edges.push(e);
    assert forall|u: usize| #[trigger] has_target(p, u) <==> has_target(edges, u) || e.target == u by {
        if has_target(p, u) {
            let i = choose|i: int| 0 <= i < p.len() && #[trigger] p[i].target == u;
            if i < edges.len() {
                assert(edges[i].target == u);
            }
        }
        if has_target(edges, u) {
            let i = choose|i: int| 0 <= i < edges.len() && #[trigger] edges[i].target == u;
            assert(p[i].target == u);
        }
        if e.target == u {
            assert(p[edges.len() as int].target == u);
        }
    }
}

/// What filtering by other end keeps: exactly the other ends that differ
/// from the one filtered out.
proof fn lemma_has_target_without(edges: Seq<Edge>, target: usize)
    ensures
        forall|u: usize| #[trigger] has_target(without_target(edges, target), u) <==> has_target(edges, u) && u != target,
{
    lemma_without_target(edges, target, 0);
}

/// Removing an edge that was just added gives back the graph as it was
/// before the addition.
pub proof fn law_remove_edge_undoes_add_edge<T>(g: GraphView<T>, from: usize, to: usize, weight: usize)
    requires
        g.wf(),
        g.add_edge_outcome(from, to) is Ok,
    ensures
        g.with_edge(from, to, weight).without_edge(from, to) == g,
{
    let out0 = g.nodes[from as int].outgoing;
    let in0 = g.nodes[to as int].incoming;
    lemma_without_pushed(out0, Edge { target: to, weight }, to);
    lemma_without_pushed(in0, Edge { target: from, weight }, from);
    let h = g.with_edge(from, to, weight).without_edge(from, to);
    assert(h.nodes =~= g.nodes);
    assert(h =~= g);
}

/// After a successful `add_edge(from, to, _)` the edge is seen from both
/// ends: among the outgoing edges of `from` and the incoming edges of `to`.
pub proof fn law_added_edge_is_recorded<T>(g: GraphView<T>, from: usize, to: usize, weight: usize)
    requires
        g.add_edge_outcome(from, to) is Ok,
    ensures
        has_target(g.with_edge(from, to, weight).nodes[from as int].outgoing, to),
        has_target(g.with_edge(from, to, weight).nodes[to as int].incoming, from),
{
    let h = g.with_edge(from, to, weight);
    let out = h.nodes[from as int].outgoing;
    let inc = h.nodes[to as int].incoming;
    assert(out[out.len() - 1].target == to);
    assert(inc[inc.len() - 1].target == from);
}

/// The same edge cannot be added twice: a second `add_edge(from, to, _)`
/// is refused with `EdgeAlreadyExists(to)`.
pub proof fn law_add_edge_twice_refused<T>(g: GraphView<T>, from: usize, to: usize, w1: usize)
    requires
        g.add_edge_outcome(from, to) is Ok,
    ensures
        g.with_edge(from, to, w1).add_edge_outcome(from, to) == Err::<(), GraphError>(GraphError::EdgeAlreadyExists(to)),
{
    law_added_edge_is_recorded(g, from, to, w1);
}

/// `add_node` hands out an index that then holds a live node with the
/// given data and no edges.
pub proof fn law_added_node_is_live<T>(g: GraphView<T>, data: T)
    requires
        g.wf(),
    ensures
        g.with_node(data).is_live(g.next_index() as int),
        g.with_node(data).nodes[g.next_index() as int].data == data,
        g.with_node(data).nodes[g.next_index() as int].outgoing.len() == 0,
        g.with_node(data).nodes[g.next_index() as int].incoming.len() == 0,
{
    if g.free.len() > 0 {
        assert(g.free[g.free.len() - 1] < g.nodes.len());
    }
}

/// A removed node is no longer live, so `get_node` no longer finds it.
pub proof fn law_removed_node_is_gone<T>(g: GraphView<T>, index: usize)
    requires
        g.wf(),
        g.is_live(index as int),
    ensures
        !g.without_node(index).is_live(index as int),
{
}

/// The slot of the most recently removed node is the one the next
/// `add_node` hands out.
pub proof fn law_freed_slot_is_reused<T>(g: GraphView<T>, index: usize)
    requires
        g.wf(),
        g.is_live(index as int),
    ensures
        g.without_node(index).next_index() == index,
{
}

/// In a graph whose edges are all recorded at both ends, removing a node
/// leaves no edge to or from it anywhere.
pub proof fn law_removed_node_is_isolated<T>(g: GraphView<T>, index: usize)
    requires
        g.wf(),
        symmetric(g),
        g.is_live(index as int),
    ensures
        forall|j: int| 0 <= j < g.nodes.len() ==> !has_target(#[trigger] g.without_node(index).nodes[j].outgoing, index)
            && !has_target(g.without_node(index).nodes[j].incoming, index),
{
    let h = g.without_node(index);
    assert forall|j: int| 0 <= j < g.nodes.len() implies !has_target(#[trigger] h.nodes[j].outgoing, index)
        && !has_target(h.nodes[j].incoming, index) by {
        if j != index {
            lemma_has_target_without(g.nodes[j].outgoing, index);
            lemma_has_target_without(g.nodes[j].incoming, index);
            if has_target(g.nodes[j].outgoing, index) {
                assert(has_target(g.nodes[index as int].incoming, j as usize));
            }
            if has_target(g.nodes[j].incoming, index) {
                assert(has_target(g.nodes[index as int].outgoing, j as usize));
            }
        }
    }
}

/// The other ends listed at slot `x` after adding the edge `from -> to`.
proof fn lemma_with_edge_slot<T>(g: GraphView<T>, from: usize, to: usize, weight: usize, x: int)
    requires
        g.add_edge_outcome(from, to) is Ok,
        0 <= x < g.nodes.len(),
    ensures
        forall|u: usize| #[trigger] has_target(g.with_edge(from, to, weight).nodes[x].outgoing, u)
            <==> has_target(g.nodes[x].outgoing, u) || (x == from && u == to),
        forall|u: usize| #[trigger] has_target(g.with_edge(from, to, weight).nodes[x].incoming, u)
            <==> has_target(g.nodes[x].incoming, u) || (x == to && u == from),
{
    let h = g.with_edge(from, to, weight);
    let eo = Edge { target: to, weight };
    let ei = Edge { target: from, weight };
    lemma_has_target_push(g.nodes[from as int].outgoing, eo);
    lemma_has_target_push(g.nodes[to as int].incoming, ei);
    if x == from {
        assert(h.nodes[x].outgoing == g.nodes[x].outgoing.push(eo));
    } else {
        assert(h.nodes[x].outgoing == g.nodes[x].outgoing);
    }
    if x == to {
        assert(h.nodes[x].incoming == g.nodes[x].incoming.push(ei));
    } else {
        assert(h.nodes[x].incoming == g.nodes[x].incoming);
    }
}

/// Adding an edge keeps every edge recorded at both ends.
pub proof fn law_add_edge_keeps_symmetry<T>(g: GraphView<T>, from: usize, to: usize, weight: usize)
    requires
        g.wf(),
        symmetric(g),
        g.add_edge_outcome(from, to) is Ok,
    ensures
        symmetric(g.with_edge(from, to, weight)),
{
    let h = g.with_edge(from, to, weight);
    assert forall|i: int, t: usize| 0 <= i < h.nodes.len() && #[trigger] has_target(h.nodes[i].outgoing, t) implies has_target(
        h.nodes[t as int].incoming,
        i as usize,
    ) by {
        lemma_with_edge_slot(g, from, to, weight, i);
        if !(i == from && t == to) {
            assert(has_target(g.nodes[t as int].incoming, i as usize));
            g.lemma_listed_slot_exists(i, t);
        }
        lemma_with_edge_slot(g, from, to, weight, t as int);
    }
    assert forall|i: int, t: usize| 0 <= i < h.nodes.len() && #[trigger] has_target(h.nodes[i].incoming, t) implies has_target(
        h.nodes[t as int].outgoing,
        i as usize,
    ) by {
        lemma_with_edge_slot(g, from, to, weight, i);
        if !(i == to && t == from) {
            assert(has_target(g.nodes[t as int].outgoing, i as usize));
            g.lemma_listed_slot_exists(i, t);
        }
        lemma_with_edge_slot(g, from, to, weight, t as int);
    }
}

/// The other ends listed at slot `x` after removing the edge `from -> to`.
proof fn lemma_without_edge_slot<T>(g: GraphView<T>, from: usize, to: usize, x: int)
    requires
        0 <= x < g.nodes.len(),
    ensures
        forall|u: usize| #[trigger] has_target(g.without_edge(from, to).nodes[x].outgoing, u)
            <==> has_target(g.nodes[x].outgoing, u) && !(x == from && u == to),
        forall|u: usize| #[trigger] has_target(g.without_edge(from, to).nodes[x].incoming, u)
            <==> has_target(g.nodes[x].incoming, u) && !(x == to && u == from),
{
    let h = g.without_edge(from, to);
    lemma_has_target_without(g.nodes[x].outgoing, to);
    lemma_has_target_without(g.nodes[x].incoming, from);
    if x == from {
        assert(h.nodes[x].outgoing == without_target(g.nodes[x].outgoing, to));
    } else {
        assert(h.nodes[x].outgoing == g.nodes[x].outgoing);
    }
    if x == to {
        assert(h.nodes[x].incoming == without_target(g.nodes[x].incoming, from));
    } else {
        assert(h.nodes[x].incoming == g.nodes[x].incoming);
    }
}

/// Removing an edge keeps every edge recorded at both ends.
pub proof fn law_remove_edge_keeps_symmetry<T>(g: GraphView<T>, from: usize, to: usize)
    requires
        g.wf(),
        symmetric(g),
    ensures
        symmetric(g.without_edge(from, to)),
{
    let h = g.without_edge(from, to);
    assert forall|i: int, t: usize| 0 <= i < h.nodes.len() && #[trigger] has_target(h.nodes[i].outgoing, t) implies has_target(
        h.nodes[t as int].incoming,
        i as usize,
    ) by {
        lemma_without_edge_slot(g, from, to, i);
        g.lemma_listed_slot_exists(i, t);
        assert(has_target(g.nodes[t as int].incoming, i as usize));
        lemma_without_edge_slot(g, from, to, t as int);
    }
    assert forall|i: int, t: usize| 0 <= i < h.nodes.len() && #[trigger] has_target(h.nodes[i].incoming, t) implies has_target(
        h.nodes[t as int].outgoing,
        i as usize,
    ) by {
        lemma_without_edge_slot(g, from, to, i);
        g.lemma_listed_slot_exists(i, t);
        assert(has_target(g.nodes[t as int].outgoing, i as usize));
        lemma_without_edge_slot(g, from, to, t as int);
    }
}

/// The other ends listed at slot `x` after removing node `index`, in a
/// graph whose edges are recorded at both ends.
proof fn lemma_without_node_slot<T>(g: GraphView<T>, index: usize, x: int)
    requires
        g.wf(),
        symmetric(g),
        g.is_live(index as int),
        0 <= x < g.nodes.len(),
    ensures
        forall|u: usize| #[trigger] has_target(g.without_node(index).nodes[x].outgoing, u)
            <==> x != index && has_target(g.nodes[x].outgoing, u) && u != index,
        forall|u: usize| #[trigger] has_target(g.without_node(index).nodes[x].incoming, u)
            <==> x != index && has_target(g.nodes[x].incoming, u) && u != index,
{
    let h = g.without_node(index);
    lemma_has_target_without(g.nodes[x].outgoing, index);
    lemma_has_target_without(g.nodes[x].incoming, index);
    if x != index {
        if !has_target(g.nodes[index as int].incoming, x as usize) {
            assert forall|u: usize| has_target(g.nodes[x].outgoing, u) implies u != index by {
                if u == index {
                    assert(has_target(g.nodes[index as int].incoming, x as usize));
                }
            }
        }
        if !has_target(g.nodes[index as int].outgoing, x as usize) {
            assert forall|u: usize| has_target(g.nodes[x].incoming, u) implies u != index by {
                if u == index {
                    assert(has_target(g.nodes[index as int].outgoing, x as usize));
                }
            }
        }
    } else {
        assert forall|u: usize| !has_target(h.nodes[x].outgoing, u) && !has_target(h.nodes[x].incoming, u) by {
            assert(h.nodes[x].outgoing.len() == 0);
            assert(h.nodes[x].incoming.len() == 0);
        }
    }
}

/// Removing a node keeps every remaining edge recorded at both ends.
pub proof fn law_remove_node_keeps_symmetry<T>(g: GraphView<T>, index: usize)
    requires
        g.wf(),
        symmetric(g),
        g.is_live(index as int),
    ensures
        symmetric(g.without_node(index)),
{
    let h = g.without_node(index);
    assert forall|i: int, t: usize| 0 <= i < h.nodes.len() && #[trigger] has_target(h.nodes[i].outgoing, t) implies has_target(
        h.nodes[t as int].incoming,
        i as usize,
    ) by {
        lemma_without_node_slot(g, index, i);
        g.lemma_listed_slot_exists(i, t);
        assert(has_target(g.nodes[t as int].incoming, i as usize));
        lemma_without_node_slot(g, index, t as int);
    }
    assert forall|i: int, t: usize| 0 <= i < h.nodes.len() && #[trigger] has_target(h.nodes[i].incoming, t) implies has_target(
        h.nodes[t as int].outgoing,
        i as usize,
    ) by {
        lemma_without_node_slot(g, index, i);
        g.lemma_listed_slot_exists(i, t);
        assert(has_target(g.nodes[t as int].outgoing, i as usize));
        lemma_without_node_slot(g, index, t as int);
    }
}

/// A node added at the end (no freed slot to reuse) keeps every edge
/// recorded at both ends. (Reusing a freed slot inserts the node there and
/// moves the later slots up by one, which the recorded edges do not follow.)
pub proof fn law_add_node_at_end_keeps_symmetry<T>(g: GraphView<T>, data: T)
    requires
        g.wf(),
        symmetric(g),
        g.free.len() == 0,
    ensures
        symmetric(g.with_node(data)),
{
    let h = g.with_node(data);
    let n = g.nodes.len();
    assert(h.nodes =~= g.nodes.push(fresh_node(data)));
    assert forall|i: int, t: usize| 0 <= i < h.nodes.len() && #[trigger] has_target(h.nodes[i].outgoing, t) implies has_target(
        h.nodes[t as int].incoming,
        i as usize,
    ) by {
        if i == n {
            let k = choose|k: int| 0 <= k < h.nodes[i].outgoing.len() && #[trigger] h.nodes[i].outgoing[k].target == t;
        } else {
            assert(h.nodes[i] == g.nodes[i]);
            g.lemma_listed_slot_exists(i, t);
            assert(has_target(g.nodes[t as int].incoming, i as usize));
            assert(h.nodes[t as int] == g.nodes[t as int]);
        }
    }
    assert forall|i: int, t: usize| 0 <= i < h.nodes.len() && #[trigger] has_target(h.nodes[i].incoming, t) implies has_target(
        h.nodes[t as int].outgoing,
        i as usize,
    ) by {
        if i == n {
            let k = choose|k: int| 0 <= k < h.nodes[i].incoming.len() && #[trigger] h.nodes[i].incoming[k].target == t;
        } else {
            assert(h.nodes[i] == g.nodes[i]);
            g.lemma_listed_slot_exists(i, t);
            assert(has_target(g.nodes[t as int].outgoing, i as usize));
            assert(h.nodes[t as int] == g.nodes[t as int]);
        }
    }
}

/// `traverse` goes depth first: whenever the slot it reports at position
/// `i` has an outgoing edge to a slot not reported so far, the slot it
/// reports next is the other end of the last such edge, in the order the
/// edges were added.
pub proof fn law_traverse_goes_depth_first<T>(g: GraphView<T>, start: usize)
    requires
        g.wf(),
        start < g.nodes.len(),
    ensures
        forall|i: int|
            #![trigger g.traversal(start)[i]]
            0 <= i && i + 1 < g.traversal(start).len() && (exists|k: int|
                0 <= k < g.nodes[g.traversal(start)[i] as int].outgoing.len() && !g.traversal(start).take(i + 1).contains(
                    #[trigger] g.nodes[g.traversal(start)[i] as int].outgoing[k].target,
                )) ==> exists|kk: int|
                0 <= kk < g.nodes[g.traversal(start)[i] as int].outgoing.len()
                    && g.nodes[g.traversal(start)[i] as int].outgoing[kk].target == g.traversal(start)[i + 1]
                    && !g.traversal(start).take(i + 1).contains(g.traversal(start)[i + 1]) && forall|k: int|
                    kk < k < g.nodes[g.traversal(start)[i] as int].outgoing.len() ==> g.traversal(start).take(
                        i + 1,
                    ).contains(#[trigger] g.nodes[g.traversal(start)[i] as int].outgoing[k].target),
{
    let adj = g.adjacency();
    let n = g.nodes.len();
    let none = Seq::new(n, |i: int| false);
    let stack = seq![start];
    let o = g.traversal(start);
    assert forall|u: int, k: int| 0 <= u < n && 0 <= k < adj[u].len() implies #[trigger] adj[u][k] < n by {
        assert(g.node_wf(u));
        assert(adj[u][k] == g.nodes[u].outgoing[k].target);
    }
    assert(adj_within(adj, none.len()));
    lemma_dfs_order_depth_first(adj, none, stack);
    lemma_dfs_order_distinct(adj, none, stack);
    assert forall|i: int|
        #![trigger o[i]]
        0 <= i && i + 1 < o.len() && (exists|k: int|
            0 <= k < g.nodes[o[i] as int].outgoing.len() && !o.take(i + 1).contains(
                #[trigger] g.nodes[o[i] as int].outgoing[k].target,
            )) implies exists|kk: int|
            0 <= kk < g.nodes[o[i] as int].outgoing.len() && g.nodes[o[i] as int].outgoing[kk].target == o[i + 1]
                && !o.take(i + 1).contains(o[i + 1]) && forall|k: int|
                kk < k < g.nodes[o[i] as int].outgoing.len() ==> o.take(i + 1).contains(
                    #[trigger] g.nodes[o[i] as int].outgoing[k].target,
                ) by {
        let v = o[i];
        assert(v < n);
        let out = g.nodes[v as int].outgoing;
        let succ = adj[v as int];
        assert(succ.len() == out.len());
        assert forall|k: int| 0 <= k < out.len() implies #[trigger] succ[k] == out[k].target && out[k].target < n by {
            assert(g.node_wf(v as int));
        }
        assert(depth_first_step(adj, none, o, i));
        let k0 = choose|k: int| 0 <= k < out.len() && !o.take(i + 1).contains(#[trigger] out[k].target);
        assert(fresh_at(none, o, i, succ[k0]));
        let kk = choose|kk: int|
            0 <= kk < succ.len() && succ[kk] == o[i + 1] && fresh_at(none, o, i, o[i + 1]) && forall|k: int|
                kk < k < succ.len() ==> !#[trigger] fresh_at(none, o, i, succ[k]);
        assert(out[kk].target == o[i + 1]);
        assert forall|k: int| kk < k < out.len() implies o.take(i + 1).contains(#[trigger] out[k].target) by {
            assert(!fresh_at(none, o, i, succ[k]));
        }
    }
}

} // verus!
