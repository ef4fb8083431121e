use vstd::prelude::*;
use crate::graph::{Edge, GraphView, fresh_node, has_target, without_target};

verus! {

/// Every edge is recorded at both of its ends with the same weight: an
/// outgoing edge of slot `i` to `t` of weight `w` has, at slot `t`, an
/// incoming edge from `i` of weight `w`, and the other way round.
pub open spec fn mirrored<T>(g: GraphView<T>) -> bool {
    &&& forall|i: int, e: Edge|
        0 <= i < g.nodes.len() && #[trigger] g.nodes[i].outgoing.contains(e) ==> g.nodes[e.target as int].incoming.contains(
            Edge { target: i as usize, weight: e.weight },
        )
    &&& forall|i: int, e: Edge|
        0 <= i < g.nodes.len() && #[trigger] g.nodes[i].incoming.contains(e) ==> g.nodes[e.target as int].outgoing.contains(
            Edge { target: i as usize, weight: e.weight },
        )
}

/// Every deleted slot has both of its lists empty.
pub open spec fn deleted_slots_empty<T>(g: GraphView<T>) -> bool {
    forall|i: int|
        0 <= i < g.nodes.len() && #[trigger] g.nodes[i].deleted ==> g.nodes[i].outgoing.len() == 0
            && g.nodes[i].incoming.len() == 0
}

/// The free stack holds exactly the deleted slots, each once.
pub open spec fn free_matches_deleted<T>(g: GraphView<T>) -> bool {
    &&& forall|k: int| 0 <= k < g.free.len() ==> g.nodes[#[trigger] g.free[k] as int].deleted
    &&& forall|i: int| 0 <= i < g.nodes.len() && #[trigger] g.nodes[i].deleted ==> g.free.contains(i as usize)
    &&& g.free.no_duplicates()
}

/// An edge is in a list after a push exactly if it was before or is the
/// pushed one.
proof fn lemma_contains_push(edges: Seq<Edge>, x: Edge)
    ensures
        forall|e: Edge| #[trigger] edges.push(x).contains(e) <==> edges.contains(e) || e == x,
{
    let p = edges.push(x);
    assert forall|e: Edge| #[trigger] p.contains(e) <==> edges.contains(e) || e == x by {
        if p.contains(e) {
            let i = choose|i: int| 0 <= i < p.len() && p[i] == e;
            if i < edges.len() {
                assert(edges[i] == e);
            }
        }
        if edges.contains(e) {
            let i = choose|i: int| 0 <= i < edges.len() && edges[i] == e;
            assert(p[i] == e);
        }
        if e == x {
            assert(p[edges.len() as int] == e);
        }
    }
}

/// An edge is in a filtered list exactly if it was in the list and its
/// other end is not the one filtered out.
proof fn lemma_contains_without(edges: Seq<Edge>, target: usize)
    ensures
        forall|e: Edge| #[trigger] without_target(edges, target).contains(e) <==> edges.contains(e) && e.target != target,
    decreases edges.len(),
{
    reveal_with_fuel(Seq::filter, 1);
    let f = without_target(edges, target);
    if edges.len() == 0 {
        assert forall|e: Edge| !(#[trigger] f.contains(e)) && !edges.contains(e) by {}
    } else {
        let rest = edges.drop_last();
        let last = edges.last();
        lemma_contains_without(rest, target);
        let fr = without_target(rest, target);
        assert forall|e: Edge| #[trigger] edges.contains(e) <==> rest.contains(e) || e == last by {
            assert(rest.push(last) =~= edges);
            lemma_contains_push(rest, last);
        }
        if last.target != target {
            assert(f == fr.push(last));
            lemma_contains_push(fr, last);
        } else {
            assert(f == fr);
        }
    }
}

/// The edges at slot `x` after adding `from -> to` of weight `weight`.
proof fn lemma_with_edge_contains<T>(g: GraphView<T>, from: usize, to: usize, weight: usize, x: int)
    requires
        g.add_edge_outcome(from, to) is Ok,
        0 <= x < g.nodes.len(),
    ensures
        forall|e: Edge| #[trigger] g.with_edge(from, to, weight).nodes[x].outgoing.contains(e)
            <==> g.nodes[x].outgoing.contains(e) || (x == from && e == Edge { target: to, weight }),
        forall|e: Edge| #[trigger] g.with_edge(from, to, weight).nodes[x].incoming.contains(e)
            <==> g.nodes[x].incoming.contains(e) || (x == to && e == Edge { target: from, weight }),
        g.with_edge(from, to, weight).nodes[x].deleted == g.nodes[x].deleted,
{
    let h = g.with_edge(from, to, weight);
    lemma_contains_push(g.nodes[from as int].outgoing, Edge { target: to, weight });
    lemma_contains_push(g.nodes[to as int].incoming, Edge { target: from, weight });
    if x == from {
        assert(h.nodes[x].outgoing == g.nodes[x].outgoing.push(Edge { target: to, weight }));
    } else {
        assert(h.nodes[x].outgoing == g.nodes[x].outgoing);
    }
    if x == to {
        assert(h.nodes[x].incoming == g.nodes[x].incoming.push(Edge { target: from, weight }));
    } else {
        assert(h.nodes[x].incoming == g.nodes[x].incoming);
    }
}

/// The edges at slot `x` after removing `from -> to`.
proof fn lemma_without_edge_contains<T>(g: GraphView<T>, from: usize, to: usize, x: int)
    requires
        0 <= x < g.nodes.len(),
    ensures
        forall|e: Edge| #[trigger] g.without_edge(from, to).nodes[x].outgoing.contains(e)
            <==> g.nodes[x].outgoing.contains(e) && !(x == from && e.target == to),
        forall|e: Edge| #[trigger] g.without_edge(from, to).nodes[x].incoming.contains(e)
            <==> g.nodes[x].incoming.contains(e) && !(x == to && e.target == from),
        g.without_edge(from, to).nodes[x].deleted == g.nodes[x].deleted,
        g.nodes[x].outgoing.len() == 0 ==> g.without_edge(from, to).nodes[x].outgoing.len() == 0,
        g.nodes[x].incoming.len() == 0 ==> g.without_edge(from, to).nodes[x].incoming.len() == 0,
{
    let h = g.without_edge(from, to);
    lemma_contains_without(g.nodes[x].outgoing, to);
    lemma_contains_without(g.nodes[x].incoming, from);
    crate::graph::lemma_without_target(g.nodes[x].outgoing, to, 0);
    crate::graph::lemma_without_target(g.nodes[x].incoming, from, 0);
    if x == from {
        assert(h.nodes[x].outgoing == without_target(g.nodes[x].outgoing, to));
    } else {
        assert(h.nodes[x].outgoing == g.nodes[x].outgoing);
    }
    if x == to {
        assert(h.nodes[x].incoming == without_target(g.nodes[x].incoming, from));
    } else {
        assert(h.nodes[x].incoming == g.nodes[x].incoming);
    }
}

/// The edges at slot `x` after removing the live node `index` from a
/// mirrored graph: the slot's own lists are empty, and elsewhere exactly
/// the edges with it are gone.
proof fn lemma_without_node_contains<T>(g: GraphView<T>, index: usize, x: int)
    requires
        g.wf(),
        mirrored(g),
        g.is_live(index as int),
        0 <= x < g.nodes.len(),
    ensures
        forall|e: Edge| #[trigger] g.without_node(index).nodes[x].outgoing.contains(e)
            <==> x != index && g.nodes[x].outgoing.contains(e) && e.target != index,
        forall|e: Edge| #[trigger] g.without_node(index).nodes[x].incoming.contains(e)
            <==> x != index && g.nodes[x].incoming.contains(e) && e.target != index,
{
    let h = g.without_node(index);
    let n = g.nodes[index as int];
    if x == index {
        assert forall|e: Edge| !(#[trigger] h.nodes[x].outgoing.contains(e)) && !h.nodes[x].incoming.contains(e) by {
            assert(h.nodes[x].outgoing.len() == 0);
            assert(h.nodes[x].incoming.len() == 0);
        }
    } else {
        lemma_contains_without(g.nodes[x].outgoing, index);
        lemma_contains_without(g.nodes[x].incoming, index);
        if !has_target(n.incoming, x as usize) {
            assert forall|e: Edge| g.nodes[x].outgoing.contains(e) implies e.target != index by {
                if e.target == index {
                    let back = Edge { target: x as usize, weight: e.weight };
                    assert(n.incoming.contains(back));
                    let k = choose|k: int| 0 <= k < n.incoming.len() && n.incoming[k] == back;
                    assert(n.incoming[k].target == x);
                }
            }
        }
        if !has_target(n.outgoing, x as usize) {
            assert forall|e: Edge| g.nodes[x].incoming.contains(e) implies e.target != index by {
                if e.target == index {
                    let back = Edge { target: x as usize, weight: e.weight };
                    assert(n.outgoing.contains(back));
                    let k = choose|k: int| 0 <= k < n.outgoing.len() && n.outgoing[k] == back;
                    assert(n.outgoing[k].target == x);
                }
            }
        }
    }
}

/// An edge found in a list of slot `i` names an existing slot.
proof fn lemma_contained_edge_in_range<T>(g: GraphView<T>, i: int, e: Edge)
    requires
        g.wf(),
        0 <= i < g.nodes.len(),
        g.nodes[i].outgoing.contains(e) || g.nodes[i].incoming.contains(e),
    ensures
        e.target < g.nodes.len(),
{
    assert(g.node_wf(i));
    if g.nodes[i].outgoing.contains(e) {
        let k = choose|k: int| 0 <= k < g.nodes[i].outgoing.len() && g.nodes[i].outgoing[k] == e;
        assert(g.nodes[i].outgoing[k].target < g.nodes.len());
    } else {
        let k = choose|k: int| 0 <= k < g.nodes[i].incoming.len() && g.nodes[i].incoming[k] == e;
        assert(g.nodes[i].incoming[k].target < g.nodes.len());
    }
}

/// A successful `add_edge` keeps each of these invariants that held: edges
/// mirrored with their weights, deleted slots empty, and the free stack
/// holding exactly the deleted slots.
pub proof fn law_add_edge_keeps_invariants<T>(g: GraphView<T>, from: usize, to: usize, weight: usize)
    requires
        g.wf(),
        g.add_edge_outcome(from, to) is Ok,
    ensures
        mirrored(g) ==> mirrored(g.with_edge(from, to, weight)),
        deleted_slots_empty(g) ==> deleted_slots_empty(g.with_edge(from, to, weight)),
        free_matches_deleted(g) ==> free_matches_deleted(g.with_edge(from, to, weight)),
{
    let h = g.with_edge(from, to, weight);
    if mirrored(g) {
        assert forall|i: int, e: Edge| 0 <= i < h.nodes.len() && #[trigger] h.nodes[i].outgoing.contains(e) implies h.nodes[e.target as int].incoming.contains(
            Edge { target: i as usize, weight: e.weight },
        ) by {
            lemma_with_edge_contains(g, from, to, weight, i);
            if !(i == from && e == (Edge { target: to, weight })) {
                lemma_contained_edge_in_range(g, i, e);
            }
            lemma_with_edge_contains(g, from, to, weight, e.target as int);
        }
        assert forall|i: int, e: Edge| 0 <= i < h.nodes.len() && #[trigger] h.nodes[i].incoming.contains(e) implies h.nodes[e.target as int].outgoing.contains(
            Edge { target: i as usize, weight: e.weight },
        ) by {
            lemma_with_edge_contains(g, from, to, weight, i);
            if !(i == to && e == (Edge { target: from, weight })) {
                lemma_contained_edge_in_range(g, i, e);
            }
            lemma_with_edge_contains(g, from, to, weight, e.target as int);
        }
    }
    assert forall|i: int| 0 <= i < h.nodes.len() implies #[trigger] h.nodes[i].deleted == g.nodes[i].deleted by {
        lemma_with_edge_contains(g, from, to, weight, i);
    }
    if deleted_slots_empty(g) {
        assert forall|i: int| 0 <= i < h.nodes.len() && #[trigger] h.nodes[i].deleted implies h.nodes[i].outgoing.len() == 0
            && h.nodes[i].incoming.len() == 0 by {
            assert(g.nodes[i].deleted);
            assert(i != from && i != to);
            assert(h.nodes[i] == g.nodes[i]);
        }
    }
    if free_matches_deleted(g) {
        assert forall|k: int| 0 <= k < h.free.len() implies h.nodes[#[trigger] h.free[k] as int].deleted by {
            assert(g.free[k] < g.nodes.len());
            assert(g.nodes[g.free[k] as int].deleted);
        }
        assert forall|i: int| 0 <= i < h.nodes.len() && #[trigger] h.nodes[i].deleted implies h.free.contains(i as usize) by {
            assert(g.nodes[i].deleted);
        }
    }
}

/// `remove_edge` keeps each of these invariants that held: edges mirrored
/// with their weights, deleted slots empty, and the free stack holding
/// exactly the deleted slots.
pub proof fn law_remove_edge_keeps_invariants<T>(g: GraphView<T>, from: usize, to: usize)
    requires
        g.wf(),
    ensures
        mirrored(g) ==> mirrored(g.without_edge(from, to)),
        deleted_slots_empty(g) ==> deleted_slots_empty(g.without_edge(from, to)),
        free_matches_deleted(g) ==> free_matches_deleted(g.without_edge(from, to)),
{
    let h = g.without_edge(from, to);
    if mirrored(g) {
        assert forall|i: int, e: Edge| 0 <= i < h.nodes.len() && #[trigger] h.nodes[i].outgoing.contains(e) implies h.nodes[e.target as int].incoming.contains(
            Edge { target: i as usize, weight: e.weight },
        ) by {
            lemma_without_edge_contains(g, from, to, i);
            lemma_contained_edge_in_range(g, i, e);
            lemma_without_edge_contains(g, from, to, e.target as int);
        }
        assert forall|i: int, e: Edge| 0 <= i < h.nodes.len() && #[trigger] h.nodes[i].incoming.contains(e) implies h.nodes[e.target as int].outgoing.contains(
            Edge { target: i as usize, weight: e.weight },
        ) by {
            lemma_without_edge_contains(g, from, to, i);
            lemma_contained_edge_in_range(g, i, e);
            lemma_without_edge_contains(g, from, to, e.target as int);
        }
    }
    assert forall|i: int| 0 <= i < h.nodes.len() implies #[trigger] h.nodes[i].deleted == g.nodes[i].deleted by {
        lemma_without_edge_contains(g, from, to, i);
    }
    if deleted_slots_empty(g) {
        assert forall|i: int| 0 <= i < h.nodes.len() && #[trigger] h.nodes[i].deleted implies h.nodes[i].outgoing.len() == 0
            && h.nodes[i].incoming.len() == 0 by {
            lemma_without_edge_contains(g, from, to, i);
            assert(g.nodes[i].deleted);
        }
    }
    if free_matches_deleted(g) {
        assert forall|k: int| 0 <= k < h.free.len() implies h.nodes[#[trigger] h.free[k] as int].deleted by {
            assert(g.free[k] < g.nodes.len());
            assert(g.nodes[g.free[k] as int].deleted);
        }
        assert forall|i: int| 0 <= i < h.nodes.len() && #[trigger] h.nodes[i].deleted implies h.free.contains(i as usize) by {
            assert(g.nodes[i].deleted);
        }
    }
}

/// Removing a live node keeps each of these invariants that held: edges
/// mirrored with their weights (given that, before), deleted slots empty,
/// and the free stack holding exactly the deleted slots.
pub proof fn law_remove_node_keeps_invariants<T>(g: GraphView<T>, index: usize)
    requires
        g.wf(),
        g.is_live(index as int),
    ensures
        mirrored(g) ==> mirrored(g.without_node(index)),
        deleted_slots_empty(g) ==> deleted_slots_empty(g.without_node(index)),
        free_matches_deleted(g) ==> free_matches_deleted(g.without_node(index)),
{
    let h = g.without_node(index);
    if mirrored(g) {
        assert forall|i: int, e: Edge| 0 <= i < h.nodes.len() && #[trigger] h.nodes[i].outgoing.contains(e) implies h.nodes[e.target as int].incoming.contains(
            Edge { target: i as usize, weight: e.weight },
        ) by {
            lemma_without_node_contains(g, index, i);
            lemma_contained_edge_in_range(g, i, e);
            lemma_without_node_contains(g, index, e.target as int);
        }
        assert forall|i: int, e: Edge| 0 <= i < h.nodes.len() && #[trigger] h.nodes[i].incoming.contains(e) implies h.nodes[e.target as int].outgoing.contains(
            Edge { target: i as usize, weight: e.weight },
        ) by {
            lemma_without_node_contains(g, index, i);
            lemma_contained_edge_in_range(g, i, e);
            lemma_without_node_contains(g, index, e.target as int);
        }
    }
    if deleted_slots_empty(g) {
        assert forall|i: int| 0 <= i < h.nodes.len() && #[trigger] h.nodes[i].deleted implies h.nodes[i].outgoing.len() == 0
            && h.nodes[i].incoming.len() == 0 by {
            if i != index {
                assert(g.nodes[i].deleted);
                crate::graph::lemma_without_target(g.nodes[i].outgoing, index, 0);
                crate::graph::lemma_without_target(g.nodes[i].incoming, index, 0);
            }
        }
    }
    if free_matches_deleted(g) {
        assert forall|k: int| 0 <= k < h.free.len() implies h.nodes[#[trigger] h.free[k] as int].deleted by {
            if k < g.free.len() {
                assert(g.free[k] < g.nodes.len());
                assert(g.nodes[g.free[k] as int].deleted);
                assert(h.free[k] == g.free[k]);
            }
        }
        assert forall|i: int| 0 <= i < h.nodes.len() && #[trigger] h.nodes[i].deleted implies h.free.contains(i as usize) by {
            if i == index {
                assert(h.free[g.free.len() as int] == index);
            } else {
                assert(g.nodes[i].deleted);
                let k = choose|k: int| 0 <= k < g.free.len() && g.free[k] == i as usize;
                assert(h.free[k] == i);
            }
        }
        assert(!g.free.contains(index)) by {
            if g.free.contains(index) {
                let k = choose|k: int| 0 <= k < g.free.len() && g.free[k] == index;
                assert(g.nodes[g.free[k] as int].deleted);
            }
        }
        assert forall|a: int, b: int| 0 <= a < h.free.len() && 0 <= b < h.free.len() && a != b implies h.free[a] != h.free[b] by {
            if a < g.free.len() && b < g.free.len() {
            } else if a < g.free.len() {
                assert(g.free[a] != index);
            } else {
                assert(g.free[b] != index);
            }
        }
    }
}

/// `add_node` keeps deleted slots empty. When no freed slot exists it also
/// keeps the edges mirrored and the free stack matching the deleted slots;
/// reusing a freed slot does not (see `law_reused_slot_shifts_later_slots`).
pub proof fn law_add_node_keeps_invariants<T>(g: GraphView<T>, data: T)
    requires
        g.wf(),
    ensures
        deleted_slots_empty(g) ==> deleted_slots_empty(g.with_node(data)),
        g.free.len() == 0 && mirrored(g) ==> mirrored(g.with_node(data)),
        g.free.len() == 0 && free_matches_deleted(g) ==> free_matches_deleted(g.with_node(data)),
{
    let h = g.with_node(data);
    let idx = g.next_index() as int;
    if g.free.len() > 0 {
        assert(g.free[g.free.len() - 1] < g.nodes.len());
    }
    if deleted_slots_empty(g) {
        assert forall|i: int| 0 <= i < h.nodes.len() && #[trigger] h.nodes[i].deleted implies h.nodes[i].outgoing.len() == 0
            && h.nodes[i].incoming.len() == 0 by {
            if i < idx {
                assert(h.nodes[i] == g.nodes[i]);
            } else if i > idx {
                assert(h.nodes[i] == g.nodes[i - 1]);
            }
        }
    }
    if g.free.len() == 0 {
        let n = g.nodes.len();
        assert(h.nodes =~= g.nodes.push(fresh_node(data)));
        if mirrored(g) {
            assert forall|i: int, e: Edge| 0 <= i < h.nodes.len() && #[trigger] h.nodes[i].outgoing.contains(e) implies h.nodes[e.target as int].incoming.contains(
                Edge { target: i as usize, weight: e.weight },
            ) by {
                if i == n {
                    assert(h.nodes[i].outgoing.len() == 0);
                } else {
                    assert(h.nodes[i] == g.nodes[i]);
                    lemma_contained_edge_in_range(g, i, e);
                    assert(h.nodes[e.target as int] == g.nodes[e.target as int]);
                }
            }
            assert forall|i: int, e: Edge| 0 <= i < h.nodes.len() && #[trigger] h.nodes[i].incoming.contains(e) implies h.nodes[e.target as int].outgoing.contains(
                Edge { target: i as usize, weight: e.weight },
            ) by {
                if i == n {
                    assert(h.nodes[i].incoming.len() == 0);
                } else {
                    assert(h.nodes[i] == g.nodes[i]);
                    lemma_contained_edge_in_range(g, i, e);
                    assert(h.nodes[e.target as int] == g.nodes[e.target as int]);
                }
            }
        }
        if free_matches_deleted(g) {
            assert forall|i: int| 0 <= i < h.nodes.len() && #[trigger] h.nodes[i].deleted implies h.free.contains(i as usize) by {
                if i < n {
                    assert(h.nodes[i] == g.nodes[i]);
                    assert(g.free.contains(i as usize));
                }
            }
        }
    }
}

/// Reusing a freed slot inserts the new node there and moves every later
/// slot up by one, lists unchanged: edges naming those slots are not
/// renumbered, so they now name the slot below the one they meant.
pub proof fn law_reused_slot_shifts_later_slots<T>(g: GraphView<T>, data: T)
    requires
        g.wf(),
        g.free.len() > 0,
    ensures
        g.next_index() == g.free.last(),
        g.with_node(data).nodes.len() == g.nodes.len() + 1,
        g.with_node(data).nodes[g.next_index() as int] == fresh_node(data),
        forall|k: int| 0 <= k < g.next_index() ==> #[trigger] g.with_node(data).nodes[k] == g.nodes[k],
        forall|k: int| g.next_index() < k <= g.nodes.len() ==> #[trigger] g.with_node(data).nodes[k] == g.nodes[k - 1],
        g.with_node(data).free == g.free.drop_last(),
{
    assert(g.free[g.free.len() - 1] < g.nodes.len());
}

} // verus!
