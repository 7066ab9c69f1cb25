//! The coloring searches and what they share: the contract of a search, partial
//! colorings, and the validator.

mod domains;
mod heuristic;
mod naive;

pub use heuristic::HeuristicColoring;
pub use naive::NaiveColoring;

use crate::graph::{
    adj_wf, colorable, edge_list, is_coloring, lemma_edge_list_members, loop_free, neighbors_in_range,
    proper, Graph,
};
use crate::{Color, Node};
use vstd::prelude::*;

verus! {

/// `f` gives every node a color and keeps the color of each node that `partial`
/// has colored.
pub open spec fn extends(f: Seq<usize>, partial: Seq<Option<usize>>) -> bool {
    &&& f.len() == partial.len()
    &&& forall|v: int| 0 <= v < f.len() && (#[trigger] partial[v]) is Some ==> partial[v] == Some(f[v])
}

/// Some proper coloring with `k` colors keeps the colors of `partial`.
pub open spec fn completable(adj: Seq<Seq<usize>>, k: nat, partial: Seq<Option<usize>>) -> bool {
    exists|f: Seq<usize>| is_coloring(adj, k, f) && extends(f, partial)
}

/// No two adjacent colored nodes share a color.
pub open spec fn partial_proper(adj: Seq<Seq<usize>>, partial: Seq<Option<usize>>) -> bool {
    forall|a: int, j: int|
        0 <= a < adj.len() && 0 <= j < adj[a].len() && partial[a] is Some ==> partial[a]
            != #[trigger] partial[adj[a][j] as int]
}

/// Some neighbor of `v` is colored `c`.
pub open spec fn neighbor_holds(adj: Seq<Seq<usize>>, colors: Seq<Option<usize>>, v: int, c: usize) -> bool {
    exists|j: int| 0 <= j < adj[v].len() && colors[#[trigger] adj[v][j] as int] == Some(c)
}

/// Coloring `node` with a color that no neighbor holds keeps the coloring proper.
pub proof fn lemma_assign_proper(adj: Seq<Seq<usize>>, colors: Seq<Option<usize>>, node: int, color: usize)
    requires
        adj_wf(adj),
        adj.len() <= usize::MAX,
        colors.len() == adj.len(),
        0 <= node < adj.len(),
        loop_free(adj),
        partial_proper(adj, colors),
        !neighbor_holds(adj, colors, node, color),
    ensures
        partial_proper(adj, colors.update(node, Some(color))),
{
    let colors1 = colors.update(node, Some(color));
    assert forall|a: int, j: int|
        0 <= a < adj.len() && 0 <= j < adj[a].len() && colors1[a] is Some implies colors1[a]
            != #[trigger] colors1[adj[a][j] as int] by {
        let b = adj[a][j] as int;
        if a == node {
            assert(colors[adj[node][j] as int] != Some(color));
        } else if b == node {
            assert(adj[b].contains(a as usize));
            let i = choose|i: int| 0 <= i < adj[b].len() && adj[b][i] == a as usize;
            assert(colors[adj[node][i] as int] != Some(color));
        } else {
            assert(colors[a] != colors[b]);
        }
    }
}

/// Every node is colored.
pub open spec fn all_colored(partial: Seq<Option<usize>>) -> bool {
    forall|v: int| 0 <= v < partial.len() ==> (#[trigger] partial[v]) is Some
}

/// The colors of a coloring in which every node is colored.
pub open spec fn unwrap_all(partial: Seq<Option<usize>>) -> Seq<usize> {
    partial.map_values(|o: Option<usize>| o.unwrap())
}

/// Nothing is colored.
pub open spec fn none_colored(partial: Seq<Option<usize>>) -> bool {
    forall|v: int| 0 <= v < partial.len() ==> (#[trigger] partial[v]) is None
}

/// Every assigned color is below `k`.
pub open spec fn within_budget(colors: Seq<Option<usize>>, k: nat) -> bool {
    forall|v: int| 0 <= v < colors.len() && (#[trigger] colors[v]) is Some ==> colors[v].unwrap() < k
}

/// `a` comes before `b` in lexicographic order.
pub open spec fn lex_less(a: Seq<usize>, b: Seq<usize>) -> bool {
    exists|i: int|
        0 <= i < a.len() && i < b.len() && (forall|j: int| 0 <= j < i ==> a[j] == b[j]) && #[trigger] a[i]
            < b[i]
}

/// `c` is the first completion of `partial` in lexicographic order.
pub open spec fn least_completion(
    adj: Seq<Seq<usize>>,
    k: nat,
    partial: Seq<Option<usize>>,
    c: Seq<usize>,
) -> bool {
    &&& is_coloring(adj, k, c)
    &&& extends(c, partial)
    &&& forall|f: Seq<usize>| is_coloring(adj, k, f) && extends(f, partial) ==> !lex_less(f, c)
}

/// When every node is colored, the coloring is its own first completion.
pub proof fn lemma_least_when_full(adj: Seq<Seq<usize>>, k: nat, partial: Seq<Option<usize>>)
    requires
        partial.len() == adj.len(),
        adj_wf(adj),
        all_colored(partial),
        partial_proper(adj, partial),
        forall|v: int| 0 <= v < partial.len() ==> (#[trigger] partial[v]).unwrap() < k,
    ensures
        least_completion(adj, k, partial, unwrap_all(partial)),
{
    lemma_full_is_coloring(adj, k, partial);
    let c = unwrap_all(partial);
    assert forall|v: int| 0 <= v < c.len() && (#[trigger] partial[v]) is Some implies partial[v] == Some(c[v]) by {
    }
    assert forall|f: Seq<usize>| is_coloring(adj, k, f) && extends(f, partial) implies !lex_less(f, c) by {
        if lex_less(f, c) {
            let i = choose|i: int|
                0 <= i < f.len() && i < c.len() && (forall|j: int| 0 <= j < i ==> f[j] == c[j]) && #[trigger] f[i]
                    < c[i];
            assert(partial[i] is Some);
        }
    }
}

/// The first completion of a branch that colors `node` with `c` is the first
/// completion overall, when every completion gives `node` at least `c` and the nodes
/// before `node` are colored.
pub proof fn lemma_least_from_branch(
    adj: Seq<Seq<usize>>,
    k: nat,
    partial: Seq<Option<usize>>,
    node: int,
    c: usize,
    r: Seq<usize>,
)
    requires
        partial.len() == adj.len(),
        0 <= node < partial.len(),
        partial[node] is None,
        forall|v: int| 0 <= v < node ==> (#[trigger] partial[v]) is Some,
        least_completion(adj, k, partial.update(node, Some(c)), r),
        forall|f: Seq<usize>| is_coloring(adj, k, f) && extends(f, partial) ==> #[trigger] f[node] >= c,
    ensures
        least_completion(adj, k, partial, r),
{
    let branch = partial.update(node, Some(c));
    assert forall|v: int| 0 <= v < r.len() && (#[trigger] partial[v]) is Some implies partial[v] == Some(r[v]) by {
        assert(branch[v] == partial[v]);
    }
    assert(r[node] == c) by {
        assert(branch[node] is Some);
    }
    assert forall|f: Seq<usize>| is_coloring(adj, k, f) && extends(f, partial) implies !lex_less(f, r) by {
        if f[node] == c {
            assert forall|v: int| 0 <= v < f.len() && (#[trigger] branch[v]) is Some implies branch[v] == Some(f[v]) by {
                if v != node {
                    assert(partial[v] == branch[v]);
                }
            }
            assert(extends(f, branch));
        } else if lex_less(f, r) {
            let i = choose|i: int|
                0 <= i < f.len() && i < r.len() && (forall|j: int| 0 <= j < i ==> f[j] == r[j]) && #[trigger] f[i]
                    < r[i];
            if i < node {
                assert(partial[i] is Some);
            } else if i > node {
                assert(f[node] == r[node]);
            }
        }
    }
}

/// With nothing colored yet, a completion is just a coloring.
pub proof fn lemma_completable_from_nothing(adj: Seq<Seq<usize>>, k: nat, partial: Seq<Option<usize>>)
    requires
        partial.len() == adj.len(),
        none_colored(partial),
    ensures
        completable(adj, k, partial) == colorable(adj, k),
{
    if colorable(adj, k) {
        let f = choose|f: Seq<usize>| is_coloring(adj, k, f);
        assert(extends(f, partial));
    }
}

/// A full coloring that is proper and within the budget is a coloring.
pub proof fn lemma_full_is_coloring(adj: Seq<Seq<usize>>, k: nat, partial: Seq<Option<usize>>)
    requires
        partial.len() == adj.len(),
        adj_wf(adj),
        all_colored(partial),
        partial_proper(adj, partial),
        forall|v: int| 0 <= v < partial.len() ==> (#[trigger] partial[v]).unwrap() < k,
    ensures
        is_coloring(adj, k, unwrap_all(partial)),
{
    let f = unwrap_all(partial);
    assert forall|a: int, j: int| 0 <= a < adj.len() && 0 <= j < adj[a].len() implies f[a]
        != f[#[trigger] adj[a][j] as int] by {
        assert(partial[a] != partial[adj[a][j] as int]);
        assert(partial[a] is Some);
        assert(partial[adj[a][j] as int] is Some);
    }
    assert forall|v: int| 0 <= v < f.len() implies #[trigger] f[v] < k by {
        assert(partial[v].unwrap() < k);
    }
}

/// Whether a colored neighbor of `node` holds `color`.
pub(crate) fn neighbor_has_color<G: Graph>(
    graph: &G,
    colors: &Vec<Option<Color>>,
    node: Node,
    color: Color,
) -> (r: bool)
    requires
        adj_wf(graph.adjacency()),
        colors@.len() == graph.adjacency().len(),
        node < graph.adjacency().len(),
    ensures
        r == neighbor_holds(graph.adjacency(), colors@, node as int, color),
{
    let neighbors = graph.neighbors(node);
    let mut j: usize = 0;
    while j < neighbors.len()
        invariant
            adj_wf(graph.adjacency()),
            colors@.len() == graph.adjacency().len(),
            node < graph.adjacency().len(),
            neighbors@ == graph.adjacency()[node as int],
            j <= neighbors@.len(),
            forall|i: int| 0 <= i < j ==> colors@[#[trigger] neighbors@[i] as int] != Some(color),
        decreases neighbors@.len() - j,
    {
        let nb = neighbors[j];
        if colors[nb] == Some(color) {
            return true;
        }
        j = j + 1;
    }
    false
}

/// `n` uncolored nodes.
pub(crate) fn none_colors(n: usize) -> (r: Vec<Option<Color>>)
    ensures
        r@.len() == n,
        none_colored(r@),
{
    let mut colors: Vec<Option<Color>> = Vec::new();
    let mut i: usize = 0;
    while i < n
        invariant
            i <= n,
            colors@.len() == i,
            none_colored(colors@),
        decreases n - i,
    {
        colors.push(None);
        i = i + 1;
    }
    colors
}

/// The colors of a coloring in which every node is colored.
pub(crate) fn unwrap_colors(colors: &Vec<Option<Color>>) -> (r: Vec<Color>)
    requires
        all_colored(colors@),
    ensures
        r@ == unwrap_all(colors@),
{
    let mut out: Vec<Color> = Vec::new();
    let mut i: usize = 0;
    while i < colors.len()
        invariant
            all_colored(colors@),
            i <= colors@.len(),
            out@ == unwrap_all(colors@).take(i as int),
        decreases colors@.len() - i,
    {
        match colors[i] {
            Some(c) => out.push(c),
            None => {},
        }
        i = i + 1;
        assert(out@ =~= unwrap_all(colors@).take(i as int));
    }
    assert(out@ =~= unwrap_all(colors@));
    out
}

/// Whether some node is its own neighbor.
pub(crate) fn has_self_loop<G: Graph>(graph: &G) -> (r: bool)
    requires
        neighbors_in_range(graph.adjacency()),
    ensures
        r == !loop_free(graph.adjacency()),
        r ==> forall|k: nat| !colorable(graph.adjacency(), k),
{
    let ghost adj = graph.adjacency();
    let n = graph.size();
    let mut a: usize = 0;
    while a < n
        invariant
            adj == graph.adjacency(),
            n == adj.len(),
            a <= n,
            forall|b: int, j: int| 0 <= b < a && 0 <= j < adj[b].len() ==> #[trigger] adj[b][j] != b,
        decreases n - a,
    {
        let neighbors = graph.neighbors(a);
        let mut j: usize = 0;
        while j < neighbors.len()
            invariant
                adj == graph.adjacency(),
                n == adj.len(),
                a < n,
                neighbors@ == adj[a as int],
                j <= neighbors@.len(),
                forall|b: int, i: int| 0 <= b < a && 0 <= i < adj[b].len() ==> #[trigger] adj[b][i] != b,
                forall|i: int| 0 <= i < j ==> #[trigger] neighbors@[i] != a,
            decreases neighbors@.len() - j,
        {
            if neighbors[j] == a {
                proof {
                    assert(adj[a as int][j as int] == a);
                    assert forall|k: nat| !colorable(adj, k) by {
                        if colorable(adj, k) {
                            let f = choose|f: Seq<usize>| is_coloring(adj, k, f);
                            assert(f[a as int] != f[adj[a as int][j as int] as int]);
                        }
                    }
                }
                return true;
            }
            j = j + 1;
        }
        a = a + 1;
    }
    false
}

/// A search for a coloring of a graph within a color budget.
pub trait ColorAlgorithm<G: Graph> {
    /// The adjacency of the graph searched.
    spec fn graph_adjacency(&self) -> Seq<Seq<usize>>;

    /// The number of colors that a search may use.
    spec fn budget(&self) -> nat;

    /// The search's state is ready for a call of `color`.
    spec fn wf(&self) -> bool;

    /// Attempts to color the graph within the budget; `None` when no coloring exists.
    /// `num` is not consulted: the budget is the one given at creation.
    fn color(&mut self, num: usize) -> (r: Option<Vec<Color>>)
        requires
            old(self).wf(),
        ensures
            final(self).wf(),
            final(self).graph_adjacency() == old(self).graph_adjacency(),
            final(self).budget() == old(self).budget(),
            r is Some <==> colorable(old(self).graph_adjacency(), old(self).budget()),
            r matches Some(c) ==> is_coloring(old(self).graph_adjacency(), old(self).budget(), c@),
    ;

    /// Whether no edge of the graph joins two nodes of one color.
    fn validate(&self, color: &[Color]) -> (r: bool)
        requires
            neighbors_in_range(self.graph_adjacency()),
            color@.len() >= self.graph_adjacency().len(),
        ensures
            r == proper(self.graph_adjacency(), color@),
    {
        let graph = self.graph();
        let n = graph.size();
        let edges = graph.edges();
        let ghost adj = self.graph_adjacency();
        proof {
            lemma_edge_list_members(adj, adj.len() as int);
        }
        let mut i: usize = 0;
        while i < edges.len()
            invariant
                adj == self.graph_adjacency(),
                neighbors_in_range(adj),
                n == adj.len(),
                color@.len() >= n,
                edges@ == edge_list(adj, n as int),
                i <= edges@.len(),
                forall|m: int|
                    0 <= m < edges@.len() ==> {
                        let e = #[trigger] edges@[m];
                        e.0 < n && adj[e.0 as int].contains(e.1)
                    },
                forall|m: int| 0 <= m < i ==> color@[(#[trigger] edges@[m]).0 as int] != color@[edges@[m].1 as int],
            decreases edges@.len() - i,
        {
            let (from, to) = edges[i];
            proof {
                let e = edges@[i as int];
                let j = choose|j: int| 0 <= j < adj[e.0 as int].len() && adj[e.0 as int][j] == e.1;
                assert(adj[from as int][j] < n);
            }
            if color[from] == color[to] {
                proof {
                    let e = edges@[i as int];
                    let j = choose|j: int| 0 <= j < adj[e.0 as int].len() && adj[e.0 as int][j] == e.1;
                    assert(color@[from as int] == color@[adj[from as int][j] as int]);
                }
                return false;
            }
            i = i + 1;
        }
        proof {
            assert forall|a: int, j: int| 0 <= a < adj.len() && 0 <= j < adj[a].len() implies color@[a]
                != color@[#[trigger] adj[a][j] as int] by {
                assert(edge_list(adj, n as int).contains((a as usize, adj[a][j])));
                let m = choose|m: int| 0 <= m < edges@.len() && edges@[m] == (a as usize, adj[a][j]);
                assert(color@[edges@[m].0 as int] != color@[edges@[m].1 as int]);
            }
        }
        true
    }

    /// The graph searched.
    fn graph(&self) -> (r: &G)
        ensures
            r.adjacency() == self.graph_adjacency(),
    ;
}

} // verus!
