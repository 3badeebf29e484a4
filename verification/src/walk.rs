//! Walks and cycles over an adjacency-list graph.
//!
//! A graph is modelled as a sequence of adjacency rows: `g[i]` lists the
//! destination indices of the edges leaving node `i`, in insertion order.

use vstd::prelude::*;

verus! {

/// Every destination index stored in an adjacency row is a valid node index.
pub open spec fn graph_wf(g: Seq<Seq<usize>>) -> bool {
    forall|i: int, j: int|
        0 <= i < g.len() && 0 <= j < g[i].len() ==> (#[trigger] g[i][j]) < g.len()
}

/// There is an edge from node `from` to node `to`: both indices are in range
/// and `to` occurs somewhere in `from`'s adjacency row.
pub open spec fn edge_between(g: Seq<Seq<usize>>, from: usize, to: usize) -> bool {
    from < g.len() && to < g.len() && g[from as int].contains(to)
}

/// `w` is a directed walk through `g`: a non-empty sequence of node indices
/// in which each node is followed by one of its successors.
pub open spec fn is_walk(g: Seq<Seq<usize>>, w: Seq<usize>) -> bool {
    &&& 1 <= w.len()
    &&& forall|k: int| 0 <= k < w.len() ==> (#[trigger] w[k]) < g.len()
    &&& forall|k: int| 0 <= k < w.len() - 1 ==> g[(#[trigger] w[k]) as int].contains(w[k + 1])
}

/// `w` is a walk that starts at `a` and ends at `b`.
pub open spec fn walk_from_to(g: Seq<Seq<usize>>, w: Seq<usize>, a: usize, b: usize) -> bool {
    is_walk(g, w) && w[0] == a && w.last() == b
}

/// `w` is a cycle through `t`: a walk of at least one edge that both starts
/// and ends at `t`.
pub open spec fn is_cycle_through(g: Seq<Seq<usize>>, t: usize, w: Seq<usize>) -> bool {
    walk_from_to(g, w, t, t) && w.len() >= 2
}

/// Some cycle passes through node `t`.
pub open spec fn on_cycle(g: Seq<Seq<usize>>, t: usize) -> bool {
    exists|w: Seq<usize>| is_cycle_through(g, t, w)
}

/// A walk from `a` to `b` extends along the edge `(b, c)` into a walk from
/// `a` to `c`.
pub proof fn lemma_walk_extend(g: Seq<Seq<usize>>, w: Seq<usize>, a: usize, b: usize, c: usize)
    requires
        walk_from_to(g, w, a, b),
        c < g.len(),
        g[b as int].contains(c),
    ensures
        walk_from_to(g, w.push(c), a, c),
{
    let w2 = w.push(c);
    assert forall|k: int| 0 <= k < w2.len() implies (#[trigger] w2[k]) < g.len() by {
        if k < w.len() {
            assert(w2[k] == w[k]);
        } else {
            assert(w2[k] == c);
        }
    }
    assert forall|k: int| 0 <= k < w2.len() - 1 implies
        g[(#[trigger] w2[k]) as int].contains(w2[k + 1]) by {
        if k < w.len() - 1 {
            assert(w2[k] == w[k] && w2[k + 1] == w[k + 1]);
            assert(g[(w[k]) as int].contains(w[k + 1]));
        } else {
            assert(w2[k] == w.last() && w2[k + 1] == c);
        }
    }
    assert(w2[0] == w[0]);
    assert(w2.last() == c);
}

/// Along any walk whose start lies in a set of nodes closed under successors
/// (here the set of `v` with `vis[v]`), every node of the walk lies in the
/// set as well.
proof fn lemma_walk_stays_in_closed_set(g: Seq<Seq<usize>>, vis: Seq<bool>, w: Seq<usize>, k: int)
    requires
        vis.len() == g.len(),
        is_walk(g, w),
        vis[w[0] as int],
        forall|v: int, j: int|
            0 <= v < g.len() && vis[v] && 0 <= j < g[v].len()
                ==> vis[(#[trigger] g[v][j]) as int],
        0 <= k < w.len(),
    ensures
        vis[w[k] as int],
    decreases k,
{
    if k > 0 {
        lemma_walk_stays_in_closed_set(g, vis, w, k - 1);
        let prev = w[k - 1] as int;
        assert(g[prev].contains(w[k]));
        let j = choose|j: int| 0 <= j < g[prev].len() && g[prev][j] == w[k];
        assert(vis[(g[prev][j]) as int]);
    }
}

/// If a set of nodes (the `v` with `vis[v]`) contains `t`, is closed under
/// successors, and no member has an edge to `t`, then no cycle passes
/// through `t`.
pub proof fn lemma_closed_set_no_cycle(g: Seq<Seq<usize>>, vis: Seq<bool>, t: usize)
    requires
        vis.len() == g.len(),
        t < g.len(),
        vis[t as int],
        forall|v: int, j: int|
            0 <= v < g.len() && vis[v] && 0 <= j < g[v].len()
                ==> vis[(#[trigger] g[v][j]) as int],
        forall|v: int| 0 <= v < g.len() && #[trigger] vis[v] ==> !g[v].contains(t),
    ensures
        !on_cycle(g, t),
{
    if on_cycle(g, t) {
        let w = choose|w: Seq<usize>| is_cycle_through(g, t, w);
        let last = w.len() - 1;
        lemma_walk_stays_in_closed_set(g, vis, w, last - 1);
        assert(g[(w[last - 1]) as int].contains(w[last]));
        assert(vis[(w[last - 1]) as int]);
        assert(w[last] == t);
        assert(false);
    }
}

} // verus!
