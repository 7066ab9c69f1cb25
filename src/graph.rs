//! Adjacency-list graphs and the mathematical facts about colorings of them.
pub mod hash;

use crate::Node;
use vstd::prelude::*;

verus! {

/// Every neighbor index is a node.
pub open spec fn neighbors_in_range(adj: Seq<Seq<usize>>) -> bool {
    forall|a: int, j: int| 0 <= a < adj.len() && 0 <= j < adj[a].len() ==> #[trigger] adj[a][j] < adj.len()
}

/// No node is its own neighbor.
pub open spec fn loop_free(adj: Seq<Seq<usize>>) -> bool {
    forall|a: int, j: int| 0 <= a < adj.len() && 0 <= j < adj[a].len() ==> #[trigger] adj[a][j] != a
}

/// Every neighbor index is a node, and adjacency is symmetric.
pub open spec fn adj_wf(adj: Seq<Seq<usize>>) -> bool {
    &&& neighbors_in_range(adj)
    &&& forall|a: int, j: int|
        0 <= a < adj.len() && 0 <= j < adj[a].len() ==> adj[#[trigger] adj[a][j] as int].contains(
            a as usize,
        )
}

/// No node has a neighbor of its own color.
pub open spec fn proper(adj: Seq<Seq<usize>>, col: Seq<usize>) -> bool {
    forall|a: int, j: int|
        0 <= a < adj.len() && 0 <= j < adj[a].len() ==> col[a] != col[#[trigger] adj[a][j] as int]
}

/// `col` colors every node with one of the colors `0..k`, properly.
pub open spec fn is_coloring(adj: Seq<Seq<usize>>, k: nat, col: Seq<usize>) -> bool {
    &&& col.len() == adj.len()
    &&& forall|v: int| 0 <= v < col.len() ==> #[trigger] col[v] < k
    &&& proper(adj, col)
}

/// Some proper coloring with `k` colors exists.
pub open spec fn colorable(adj: Seq<Seq<usize>>, k: nat) -> bool {
    exists|col: Seq<usize>| is_coloring(adj, k, col)
}

/// The adjacency as pairs `(from, to)`, node by node, for the nodes below `n`.
pub open spec fn edge_list(adj: Seq<Seq<usize>>, n: int) -> Seq<(usize, usize)>
    decreases n,
{
    if n <= 0 {
        Seq::empty()
    } else {
        edge_list(adj, n - 1) + adj[n - 1].map_values(|t: usize| ((n - 1) as usize, t))
    }
}

/// Each pair of `edge_list(adj, n)` is an adjacency of a node below `n`, and each
/// such adjacency is listed.
pub proof fn lemma_edge_list_members(adj: Seq<Seq<usize>>, n: int)
    requires
        0 <= n <= adj.len(),
        adj.len() <= usize::MAX,
    ensures
        forall|i: int|
            0 <= i < edge_list(adj, n).len() ==> {
                let e = #[trigger] edge_list(adj, n)[i];
                e.0 < n && adj[e.0 as int].contains(e.1)
            },
        forall|a: int, j: int|
            0 <= a < n && 0 <= j < adj[a].len() ==> edge_list(adj, n).contains(
                (a as usize, #[trigger] adj[a][j]),
            ),
    decreases n,
{
    if n > 0 {
        lemma_edge_list_members(adj, n - 1);
        let prev = edge_list(adj, n - 1);
        let last = adj[n - 1].map_values(|t: usize| ((n - 1) as usize, t));
        let all = edge_list(adj, n);
        assert(all == prev + last);
        assert forall|i: int| 0 <= i < all.len() implies {
            let e = #[trigger] all[i];
            e.0 < n && adj[e.0 as int].contains(e.1)
        } by {
            if i >= prev.len() {
                let j = i - prev.len();
                assert(all[i] == last[j]);
                assert(adj[n - 1][j] == all[i].1);
            } else {
                assert(all[i] == prev[i]);
            }
        }
        assert forall|a: int, j: int| 0 <= a < n && 0 <= j < adj[a].len() implies all.contains(
            (a as usize, #[trigger] adj[a][j]),
        ) by {
            if a == n - 1 {
                let i = prev.len() + j;
                assert(all[i] == last[j]);
            } else {
                let i = choose|i: int| 0 <= i < prev.len() && prev[i] == (a as usize, adj[a][j]);
                assert(all[i] == prev[i]);
            }
        }
    }
}

/// A coloring with `k` colors is also one with any larger budget.
pub proof fn lemma_colorable_monotone(adj: Seq<Seq<usize>>, k: nat, k2: nat)
    requires
        colorable(adj, k),
        k <= k2,
    ensures
        colorable(adj, k2),
{
    let col = choose|col: Seq<usize>| is_coloring(adj, k, col);
    assert(is_coloring(adj, k2, col));
}

/// Every two distinct nodes are adjacent.
pub open spec fn complete(adj: Seq<Seq<usize>>) -> bool {
    forall|a: int, b: int|
        0 <= a < adj.len() && 0 <= b < adj.len() && a != b ==> #[trigger] adj[a].contains(b as usize)
}

/// A complete graph on `k` nodes can be colored with `k` colors and with no fewer.
pub proof fn lemma_complete_graph_colors(adj: Seq<Seq<usize>>, k: nat)
    requires
        adj_wf(adj),
        loop_free(adj),
        complete(adj),
        adj.len() == k,
        k <= usize::MAX,
    ensures
        colorable(adj, k),
        forall|m: nat| m < k ==> !colorable(adj, m),
{
    let id = Seq::new(k, |i: int| i as usize);
    assert forall|a: int, j: int| 0 <= a < adj.len() && 0 <= j < adj[a].len() implies id[a]
        != id[#[trigger] adj[a][j] as int] by {
        assert(adj[a][j] != a);
    }
    assert(is_coloring(adj, k, id));
    assert forall|m: nat| m < k implies !colorable(adj, m) by {
        if colorable(adj, m) {
            let f = choose|f: Seq<usize>| is_coloring(adj, m, f);
            let g = f.map_values(|x: usize| x as int);
            assert(g.no_duplicates()) by {
                assert forall|a: int, b: int| 0 <= a < g.len() && 0 <= b < g.len() && a != b implies g[a]
                    != g[b] by {
                    assert(adj[a].contains(b as usize));
                    let j = choose|j: int| 0 <= j < adj[a].len() && adj[a][j] == b as usize;
                    assert(f[a] != f[adj[a][j] as int]);
                }
            }
            g.unique_seq_to_set();
            assert(g.to_set().subset_of(vstd::set_lib::set_int_range(0, m as int))) by {
                assert forall|x: int| g.to_set().contains(x) implies 0 <= x < m by {
                    let i = choose|i: int| 0 <= i < g.len() && g[i] == x;
                    assert(f[i] < m);
                }
            }
            vstd::set_lib::lemma_int_range(0, m as int);
            vstd::set_lib::lemma_len_subset(g.to_set(), vstd::set_lib::set_int_range(0, m as int));
        }
    }
}

/// A read-only adjacency view of an undirected graph.
pub trait Graph {
    /// The neighbor list of each node.
    spec fn adjacency(&self) -> Seq<Seq<usize>>;

    fn size(&self) -> (r: usize)
        ensures
            r == self.adjacency().len(),
    ;

    fn neighbors(&self, node: Node) -> (r: &[Node])
        requires
            node < self.adjacency().len(),
        ensures
            r@ == self.adjacency()[node as int],
    ;

    /// Every adjacency as a pair `(from, to)`; an undirected edge shows up once from
    /// each end.
    fn edges(&self) -> (r: Vec<(Node, Node)>)
        ensures
            r@ == edge_list(self.adjacency(), self.adjacency().len() as int),
    ;
}

/// A graph stored as one neighbor list per node.
pub struct VecVecGraph {
    edges: Vec<Vec<Node>>,
}

impl VecVecGraph {
    /// A graph of `size` nodes and no edges.
    pub fn new(size: usize) -> (r: Self)
        ensures
            r.adjacency() == Seq::new(size as nat, |i: int| Seq::<usize>::empty()),
            adj_wf(r.adjacency()),
    {
        let mut edges: Vec<Vec<Node>> = Vec::new();
        let mut i: usize = 0;
        while i < size
            invariant
                i <= size,
                edges@.len() == i,
                forall|k: int| 0 <= k < i ==> (#[trigger] edges@[k])@ == Seq::<usize>::empty(),
            decreases size - i,
        {
            edges.push(Vec::new());
            i = i + 1;
        }
        let r = VecVecGraph { edges };
        assert(r.adjacency() =~= Seq::new(size as nat, |i: int| Seq::<usize>::empty()));
        r
    }

    /// Adds the undirected edge `from`-`to`: each end is appended to the other's list.
    pub fn add_edge(&mut self, from: Node, to: Node)
        requires
            from < old(self).adjacency().len(),
            to < old(self).adjacency().len(),
        ensures
            final(self).adjacency() == old(self).adjacency().update(
                from as int,
                old(self).adjacency()[from as int].push(to),
            ).update(
                to as int,
                old(self).adjacency().update(
                    from as int,
                    old(self).adjacency()[from as int].push(to),
                )[to as int].push(from),
            ),
            adj_wf(old(self).adjacency()) ==> adj_wf(final(self).adjacency()),
    {
        let ghost a0 = self.adjacency();
        self.edges[from].push(to);
        let ghost a1 = self.adjacency();
        assert(a1 =~= a0.update(from as int, a0[from as int].push(to)));
        self.edges[to].push(from);
        let ghost a2 = self.adjacency();
        assert(a2 =~= a1.update(to as int, a1[to as int].push(from)));
        proof {
            if adj_wf(a0) {
                assert forall|a: int, j: int| 0 <= a < a2.len() && 0 <= j < a2[a].len() implies
                #[trigger] a2[a][j] < a2.len() && a2[a2[a][j] as int].contains(a as usize) by {
                if a == from && a == to && j == a0[a].len() {
                    assert(a2[a][j] == to);
                    assert(a2[to as int].last() == from);
                } else if a == from && a == to && j == a0[a].len() + 1 {
                    assert(a2[a][j] == from);
                    assert(a2[from as int][a0[a].len() as int] == to);
                } else if a == from && j == a0[a].len() && a != to {
                    assert(a2[a][j] == to);
                    assert(a2[to as int].last() == from);
                } else if a == to && j == a1[a].len() {
                    assert(a2[a][j] == from);
                    assert(a1[from as int].last() == to);
                    assert(a2[from as int].contains(to));
                } else if a == from && a == to && j == a0[a].len() {
                    assert(a2[a][j] == to);
                    assert(a2[to as int].last() == from);
                } else {
                    assert(j < a0[a].len());
                    assert(a2[a][j] == a0[a][j]);
                    let b = a0[a][j] as int;
                    assert(a0[b].contains(a as usize));
                    let k = choose|k: int| 0 <= k < a0[b].len() && a0[b][k] == a as usize;
                    assert(a2[b][k] == a as usize);
                }
            }
            }
        }
    }
}

impl Graph for VecVecGraph {
    closed spec fn adjacency(&self) -> Seq<Seq<usize>> {
        self.edges@.map_values(|v: Vec<Node>| v@)
    }

    fn size(&self) -> (r: usize) {
        self.edges.len()
    }

    fn neighbors(&self, node: Node) -> (r: &[Node]) {
        self.edges[node].as_slice()
    }

    fn edges(&self) -> (r: Vec<(Node, Node)>) {
        let ghost adj = self.adjacency();
        let mut out: Vec<(Node, Node)> = Vec::new();
        let mut from: usize = 0;
        while from < self.edges.len()
            invariant
                adj == self.adjacency(),
                from <= self.edges@.len(),
                out@ == edge_list(adj, from as int),
            decreases self.edges@.len() - from,
        {
            let neighbors = &self.edges[from];
            let mut j: usize = 0;
            while j < neighbors.len()
                invariant
                    adj == self.adjacency(),
                    from < self.edges@.len(),
                    neighbors@ == adj[from as int],
                    j <= neighbors@.len(),
                    out@ == edge_list(adj, from as int) + adj[from as int].take(j as int).map_values(
                        |t: usize| (from, t),
                    ),
                decreases neighbors@.len() - j,
            {
                out.push((from, neighbors[j]));
                j = j + 1;
                assert(adj[from as int].take(j as int) == adj[from as int].take(j - 1).push(neighbors@[j - 1]));
                assert(out@ =~= edge_list(adj, from as int) + adj[from as int].take(j as int).map_values(
                    |t: usize| (from, t),
                ));
            }
            assert(adj[from as int].take(j as int) == adj[from as int]);
            assert(out@ =~= edge_list(adj, from + 1));
            from = from + 1;
        }
        out
    }
}

} // verus!
