//! An append-only directed multigraph with a single structural query:
//! does some cycle pass through a given node?
//!
//! Nodes are identified by dense indices, handed out in creation order and
//! never removed; edges are entries in per-node adjacency rows, kept in
//! insertion order. The cycle query is an iterative depth-first search,
//! verified against the mathematical notion of a directed walk that leaves
//! a node and returns to it (see the [`walk`] module).

use vstd::prelude::*;

pub mod walk;

use crate::walk::edge_between;
use crate::walk::graph_wf;
use crate::walk::lemma_closed_set_no_cycle;
use crate::walk::lemma_walk_extend;
use crate::walk::on_cycle;
use crate::walk::walk_from_to;
use crate::walk::is_cycle_through;

verus! {

/// The number of nodes not yet marked visited.
spec fn count_unvisited(vis: Seq<bool>) -> nat
    decreases vis.len(),
{
    if vis.len() == 0 {
        0
    } else {
        count_unvisited(vis.drop_last()) + (if vis.last() {
            0nat
        } else {
            1nat
        })
    }
}

/// The number of stack entries whose node is already marked visited.
spec fn count_settled(st: Seq<usize>, vis: Seq<bool>) -> nat
    decreases st.len(),
{
    if st.len() == 0 {
        0
    } else {
        count_settled(st.drop_last(), vis) + (if (st.last() as int) < vis.len()
            && vis[st.last() as int] {
            1nat
        } else {
            0nat
        })
    }
}

/// Marking an unvisited node visited lowers the unvisited count by one.
proof fn lemma_count_unvisited_mark(vis: Seq<bool>, i: int)
    requires
        0 <= i < vis.len(),
        !vis[i],
    ensures
        count_unvisited(vis.update(i, true)) == count_unvisited(vis) - 1,
    decreases vis.len(),
{
    let v2 = vis.update(i, true);
    if i == vis.len() - 1 {
        assert(v2.drop_last() =~= vis.drop_last());
    } else {
        assert(v2.drop_last() =~= vis.drop_last().update(i, true));
        lemma_count_unvisited_mark(vis.drop_last(), i);
    }
}

/// Pushing an entry adds one to the settled count exactly when the pushed
/// node is already visited.
proof fn lemma_count_settled_push(st: Seq<usize>, vis: Seq<bool>, n: usize)
    ensures
        count_settled(st.push(n), vis) == count_settled(st, vis) + (if (n as int) < vis.len()
            && vis[n as int] {
            1nat
        } else {
            0nat
        }),
{
    assert(st.push(n).drop_last() =~= st);
    assert(st.push(n).last() == n);
}

/// An opaque handle to a node of a [`DiGraph`]: a dense index into the
/// graph's adjacency table. Only valid for the graph that produced it.
#[derive(Debug, Clone, Copy, PartialEq, Eq, Structural)]
pub struct Node(usize);

/// An opaque handle to a directed edge of a [`DiGraph`]: the ordered pair
/// of source and destination node indices.
#[derive(Debug, Clone, Copy, PartialEq, Eq, Structural)]
pub struct Edge(usize, usize);

impl Node {
    /// The index this handle stands for.
    pub closed spec fn idx(self) -> usize {
        self.0
    }
}

impl Edge {
    /// The source node index of this edge.
    pub closed spec fn from_idx(self) -> usize {
        self.0
    }

    /// The destination node index of this edge.
    pub closed spec fn to_idx(self) -> usize {
        self.1
    }
}

/// A directed multigraph stored as one adjacency row per node. Row `i`
/// holds the destinations of the edges leaving node `i`, in insertion
/// order. The graph is append-only: nodes and edges are never removed.
#[derive(Debug)]
pub struct DiGraph {
    assoc: Vec<Vec<usize>>,
}

impl View for DiGraph {
    type V = Seq<Seq<usize>>;

    closed spec fn view(&self) -> Seq<Seq<usize>> {
        self.assoc@.map_values(|row: Vec<usize>| row@)
    }
}

impl DiGraph {
    /// Every destination stored in an adjacency row is a valid node index.
    /// Established by [`DiGraph::new`] and preserved by every method.
    pub open spec fn wf(self) -> bool {
        graph_wf(self@)
    }

    /// Creates an empty graph: no nodes, no edges.
    pub fn new() -> (g: Self)
        ensures
            g@ == Seq::<Seq<usize>>::empty(),
            g.wf(),
    {
        let g = Self { assoc: Vec::new() };
        proof {
            assert(g@ =~= Seq::<Seq<usize>>::empty());
        }
        g
    }

    /// The number of nodes in the graph.
    pub fn len(&self) -> (n: usize)
        ensures
            n == self@.len(),
    {
        self.assoc.len()
    }

    /// Adds a node and returns its handle. The new node gets the next free
    /// index and an empty adjacency row; no other row changes.
    pub fn node(&mut self) -> (n: Node)
        ensures
            n.idx() == old(self)@.len(),
            final(self)@ == old(self)@.push(Seq::<usize>::empty()),
            final(self)@.len() == old(self)@.len() + 1,
            old(self).wf() ==> final(self).wf(),
    {
        let index = self.assoc.len();
        self.assoc.push(Vec::new());
        proof {
            assert(self@ =~= old(self)@.push(Seq::<usize>::empty()));
            if old(self).wf() {
                assert forall|i: int, j: int|
                    0 <= i < self@.len() && 0 <= j < self@[i].len()
                        implies (#[trigger] self@[i][j]) < self@.len() by {
                    assert(i < old(self)@.len() && self@[i] == old(self)@[i]);
                }
            }
        }
        Node(index)
    }

    /// Adds a directed edge from `from` to `to` and returns its handle.
    /// The destination is appended to `from`'s adjacency row, after every
    /// edge added from `from` earlier; duplicates are allowed and kept.
    pub fn edge(&mut self, from: Node, to: Node) -> (e: Edge)
        requires
            from.idx() < old(self)@.len(),
            to.idx() < old(self)@.len(),
        ensures
            e.from_idx() == from.idx(),
            e.to_idx() == to.idx(),
            final(self)@ == old(self)@.update(
                from.idx() as int,
                old(self)@[from.idx() as int].push(to.idx()),
            ),
            final(self)@.len() == old(self)@.len(),
            old(self).wf() ==> final(self).wf(),
    {
        let from_i = from.0;
        let to_i = to.0;
        self.assoc[from_i].push(to_i);
        proof {
            assert(self@ =~= old(self)@.update(
                from_i as int,
                old(self)@[from_i as int].push(to_i),
            ));
            if old(self).wf() {
                assert forall|i: int, j: int|
                    0 <= i < self@.len() && 0 <= j < self@[i].len()
                        implies (#[trigger] self@[i][j]) < self@.len() by {
                    if i == from_i && j == self@[i].len() - 1 {
                        assert(self@[i][j] == to_i);
                    } else {
                        assert(self@[i][j] == old(self)@[i][j]);
                    }
                }
            }
        }
        Edge(from_i, to_i)
    }

    /// Reports whether an edge from `from` to `to` exists: a linear scan of
    /// `from`'s adjacency row.
    #[verifier::loop_isolation(false)]
    pub fn has_edge(&self, from: Node, to: Node) -> (r: bool)
        requires
            from.idx() < self@.len(),
            to.idx() < self@.len(),
        ensures
            r == edge_between(self@, from.idx(), to.idx()),
    {
        let from_i = from.0;
        let to_i = to.0;
        let row_len = self.assoc[from_i].len();
        let mut j: usize = 0;
        while j < row_len
            invariant
                j <= row_len,
                forall|k: int| 0 <= k < j ==> self@[from_i as int][k] != to_i,
            decreases row_len - j,
        {
            if self.assoc[from_i][j] == to_i {
                return true;
            }
            j += 1;
        }
        false
    }

    /// Returns the handle of the node with the given raw index, or `None`
    /// if the index is out of range.
    pub fn get_node(&self, index: usize) -> (r: Option<Node>)
        ensures
            index < self@.len() ==> (r matches Some(n) && n.idx() == index),
            index >= self@.len() ==> r is None,
    {
        if index < self.assoc.len() {
            Some(Node(index))
        } else {
            None
        }
    }

    /// Returns the handle of an existing edge between the given raw
    /// indices, or `None` if either index is out of range or no such edge
    /// exists. Never creates an edge.
    pub fn get_edge(&self, from: usize, to: usize) -> (r: Option<Edge>)
        ensures
            edge_between(self@, from, to)
                ==> (r matches Some(e) && e.from_idx() == from && e.to_idx() == to),
            !edge_between(self@, from, to) ==> r is None,
    {
        if match (self.get_node(from), self.get_node(to)) {
            (Some(f), Some(t)) => self.has_edge(f, t),
            _ => false,
        } {
            Some(Edge(from, to))
        } else {
            None
        }
    }

    /// Reports whether some cycle passes through `target`: a directed walk
    /// of at least one edge that starts at `target` and returns to it. A
    /// single self-loop counts.
    ///
    /// Iterative depth-first search with an explicit stack; a node is
    /// marked visited when it is popped, and the search answers true as
    /// soon as `target` shows up among the neighbours of a popped node.
    #[verifier::loop_isolation(false)]
    pub fn cycle_from(&self, target: Node) -> (r: bool)
        requires
            self.wf(),
            target.idx() < self@.len(),
        ensures
            r == on_cycle(self@, target.idx()),
    {
        let t = target.0;
        let n = self.assoc.len();
        let mut visited: Vec<bool> = Vec::new();
        while visited.len() < n
            invariant
                visited@.len() <= n,
                forall|i: int| 0 <= i < visited@.len() ==> !visited@[i],
            decreases n - visited@.len(),
        {
            visited.push(false);
        }
        let mut stack: Vec<usize> = Vec::new();
        stack.push(t);
        // For every node ever pushed, a walk from `target` to it, as the
        // evidence behind a positive answer.
        let ghost mut wit: Map<usize, Seq<usize>> = Map::empty().insert(t, seq![t]);
        proof {
            assert(seq![t][0] == t && seq![t].last() == t);
            assert(walk_from_to(self@, seq![t], t, t));
        }
        while stack.len() != 0
            invariant
                visited@.len() == self@.len(),
                forall|i: int| 0 <= i < stack@.len() ==> (#[trigger] stack@[i]) < self@.len(),
                forall|i: int| 0 <= i < stack@.len() ==> wit.dom().contains(#[trigger] stack@[i]),
                forall|v: usize| #[trigger] wit.dom().contains(v)
                    ==> walk_from_to(self@, wit[v], t, v),
                visited@[t as int] || (stack@ =~= seq![t] && forall|i: int|
                    0 <= i < visited@.len() ==> !visited@[i]),
                forall|v: int, j: int|
                    0 <= v < self@.len() && visited@[v] && 0 <= j < self@[v].len()
                        ==> visited@[(#[trigger] self@[v][j]) as int]
                            || stack@.contains(self@[v][j]),
                forall|v: int| 0 <= v < self@.len() && #[trigger] visited@[v]
                    ==> !self@[v].contains(t),
            decreases count_unvisited(visited@), count_settled(stack@, visited@),
        {
            let ghost vis0 = visited@;
            let ghost stack0 = stack@;
            let current = stack.pop().unwrap();
            let ghost was_visited = vis0[current as int];
            proof {
                assert(current == stack0.last());
                assert(stack@ =~= stack0.drop_last());
                assert(wit.dom().contains(stack0[stack0.len() - 1]));
            }
            visited.set(current, true);
            let ghost stack1 = stack@;
            proof {
                if was_visited {
                    assert(visited@ =~= vis0);
                } else {
                    lemma_count_unvisited_mark(vis0, current as int);
                }
                assert(visited@[t as int]) by {
                    if !vis0[t as int] {
                        assert(stack0 =~= seq![t]);
                        assert(current == t);
                    }
                }
                // After the pop, every neighbour of an already-visited node
                // other than `current` is still visited or still stacked.
                assert forall|v: int, j: int|
                    0 <= v < self@.len() && visited@[v] && v != current as int
                        && 0 <= j < self@[v].len()
                        implies visited@[(#[trigger] self@[v][j]) as int]
                            || stack@.contains(self@[v][j]) by {
                    assert(vis0[v]);
                    let nb = self@[v][j];
                    if !vis0[nb as int] {
                        assert(stack0.contains(nb));
                        let i = choose|i: int| 0 <= i < stack0.len() && stack0[i] == nb;
                        if i < stack0.len() - 1 {
                            assert(stack@[i] == nb);
                            assert(stack@.contains(nb));
                        } else {
                            assert(nb == current);
                        }
                    }
                }
            }
            let row_len = self.assoc[current].len();
            let mut j: usize = 0;
            while j < row_len
                invariant
                    j <= row_len,
                    forall|i: int| 0 <= i < stack@.len()
                        ==> (#[trigger] stack@[i]) < self@.len(),
                    forall|i: int| 0 <= i < stack@.len()
                        ==> wit.dom().contains(#[trigger] stack@[i]),
                    forall|v: usize| #[trigger] wit.dom().contains(v)
                        ==> walk_from_to(self@, wit[v], t, v),
                    wit.dom().contains(current),
                    forall|v: int, jj: int|
                        0 <= v < self@.len() && visited@[v] && v != current as int
                            && 0 <= jj < self@[v].len()
                            ==> visited@[(#[trigger] self@[v][jj]) as int]
                                || stack@.contains(self@[v][jj]),
                    forall|jj: int| 0 <= jj < j
                        ==> visited@[(#[trigger] self@[current as int][jj]) as int]
                            || stack@.contains(self@[current as int][jj]),
                    forall|jj: int| 0 <= jj < j ==> self@[current as int][jj] != t,
                    count_settled(stack@, visited@) == count_settled(stack1, visited@),
                decreases row_len - j,
            {
                let node = self.assoc[current][j];
                proof {
                    assert(node == self@[current as int][j as int]);
                    assert((node as int) < self@.len());
                }
                if !visited[node] {
                    let ghost pre = stack@;
                    stack.push(node);
                    proof {
                        assert forall|x: usize| pre.contains(x) implies stack@.contains(x) by {
                            let i = choose|i: int| 0 <= i < pre.len() && pre[i] == x;
                            assert(stack@[i] == x);
                        }
                        lemma_count_settled_push(pre, visited@, node);
                        assert(self@[current as int].contains(node)) by {
                            assert(self@[current as int][j as int] == node);
                        }
                        lemma_walk_extend(self@, wit[current], t, current, node);
                        wit = wit.insert(node, wit[current].push(node));
                    }
                } else if node == t {
                    proof {
                        assert(self@[current as int].contains(t)) by {
                            assert(self@[current as int][j as int] == t);
                        }
                        lemma_walk_extend(self@, wit[current], t, current, t);
                        let wcy = wit[current].push(t);
                        assert(wit[current].len() >= 1);
                        assert(is_cycle_through(self@, t, wcy));
                    }
                    return true;
                }
                j += 1;
            }
            proof {
                // `current` is now visited with all its neighbours examined:
                // none of them was `target`, and each is visited or stacked.
                assert(!self@[current as int].contains(t)) by {
                    if self@[current as int].contains(t) {
                        let jj = choose|jj: int|
                            0 <= jj < self@[current as int].len()
                                && self@[current as int][jj] == t;
                        assert(self@[current as int][jj] != t);
                    }
                }
                assert forall|v: int, jj: int|
                    0 <= v < self@.len() && visited@[v] && 0 <= jj < self@[v].len()
                        implies visited@[(#[trigger] self@[v][jj]) as int]
                            || stack@.contains(self@[v][jj]) by {
                    if v == current as int {
                        assert(visited@[(self@[current as int][jj]) as int]
                            || stack@.contains(self@[current as int][jj]));
                    }
                }
                // The measure shrinks: popping an unvisited node lowers the
                // unvisited count; popping a visited one keeps it and lowers
                // the settled count.
                if was_visited {
                    assert(count_settled(stack1, visited@)
                        == count_settled(stack0, visited@) - 1) by {
                        assert(stack1 =~= stack0.drop_last());
                        assert((stack0.last() as int) < visited@.len()
                            && visited@[stack0.last() as int]);
                    }
                    assert(count_unvisited(visited@) == count_unvisited(vis0));
                }
            }
        }
        proof {
            assert(visited@[t as int]);
            lemma_closed_set_no_cycle(self@, visited@, t);
        }
        false
    }
}

/// After an edge from `from` to `to` is added — the adjacency update that
/// [`DiGraph::edge`] performs — an edge between the two exists, so
/// [`DiGraph::has_edge`] answers true on that pair.
pub proof fn lemma_edge_then_has_edge(
    pre: Seq<Seq<usize>>,
    post: Seq<Seq<usize>>,
    from: usize,
    to: usize,
)
    requires
        from < pre.len(),
        to < pre.len(),
        post == pre.update(from as int, pre[from as int].push(to)),
    ensures
        edge_between(post, from, to),
{
    assert(post[from as int].contains(to)) by {
        assert(post[from as int][post[from as int].len() - 1] == to);
    }
}

/// The answer of [`DiGraph::has_edge`] does not depend on the order in
/// which the edges were inserted: two graphs whose adjacency rows for
/// `from` hold the same destinations (with multiplicity) agree on every
/// edge query from that node.
pub proof fn lemma_has_edge_order_independent(
    g1: Seq<Seq<usize>>,
    g2: Seq<Seq<usize>>,
    from: usize,
    to: usize,
)
    requires
        g1.len() == g2.len(),
        from < g1.len(),
        g1[from as int].to_multiset() == g2[from as int].to_multiset(),
    ensures
        edge_between(g1, from, to) == edge_between(g2, from, to),
{
    g1[from as int].to_multiset_ensures();
    g2[from as int].to_multiset_ensures();
    assert(g1[from as int].contains(to) <==> g1[from as int].to_multiset().count(to) > 0);
    assert(g2[from as int].contains(to) <==> g2[from as int].to_multiset().count(to) > 0);
}

} // verus!
