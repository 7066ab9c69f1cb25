//! The state of the heuristic search in mathematical terms: the colors still open
//! to each node, the colors nobody holds, the pool of uncolored nodes, and the facts
//! that make the search complete.
use super::{extends, neighbor_holds, partial_proper, within_budget};
use crate::graph::{adj_wf, is_coloring, loop_free};
use vstd::prelude::*;

verus! {

/// The colors below `k` that no colored neighbor of `v` holds.
pub open spec fn allowed(adj: Seq<Seq<usize>>, colors: Seq<Option<usize>>, k: nat, v: int) -> Set<usize> {
    Set::new(|c: usize| c < k && !neighbor_holds(adj, colors, v, c))
}

/// The colors below `k` that no node holds.
pub open spec fn unused_colors(colors: Seq<Option<usize>>, k: nat) -> Set<usize> {
    Set::new(|c: usize| c < k && !(exists|v: int| 0 <= v < colors.len() && #[trigger] colors[v] == Some(c)))
}

/// The domain of every uncolored node is exactly the set of colors still allowed for it.
pub open spec fn domains_exact(
    adj: Seq<Seq<usize>>,
    colors: Seq<Option<usize>>,
    k: nat,
    dom: Seq<Set<usize>>,
) -> bool {
    forall|v: int| 0 <= v < colors.len() && colors[v] is None ==> #[trigger] dom[v] == allowed(adj, colors, k, v)
}

/// The pool holds each uncolored node once, and nothing else.
pub open spec fn pool_exact(colors: Seq<Option<usize>>, pool: Seq<usize>) -> bool {
    &&& pool.no_duplicates()
    &&& forall|i: int| 0 <= i < pool.len() ==> #[trigger] pool[i] < colors.len()
    &&& forall|v: int| 0 <= v < colors.len() ==> ((#[trigger] colors[v]) is None <==> pool.contains(v as usize))
}

/// How many of the first `j` entries of `nbrs` are uncolored nodes whose domain holds `c`.
pub open spec fn impact_upto(
    nbrs: Seq<usize>,
    colors: Seq<Option<usize>>,
    dom: Seq<Set<usize>>,
    c: usize,
    j: int,
) -> nat
    decreases j,
{
    if j <= 0 {
        0
    } else {
        impact_upto(nbrs, colors, dom, c, j - 1) + if colors[nbrs[j - 1] as int] is None && dom[nbrs[j
            - 1] as int].contains(c) {
            1nat
        } else {
            0nat
        }
    }
}

/// The number of uncolored neighbors whose domain still holds `c` (each neighbor
/// counted as often as it is listed).
pub open spec fn impact(nbrs: Seq<usize>, colors: Seq<Option<usize>>, dom: Seq<Set<usize>>, c: usize) -> nat {
    impact_upto(nbrs, colors, dom, c, nbrs.len() as int)
}

/// The domains after `c` is taken out of the domain of each uncolored node listed in
/// `nbrs`.
pub open spec fn pruned(
    nbrs: Seq<usize>,
    colors: Seq<Option<usize>>,
    dom: Seq<Set<usize>>,
    c: usize,
) -> Seq<Set<usize>> {
    Seq::new(
        dom.len(),
        |v: int|
            if colors[v] is None && nbrs.contains(v as usize) {
                dom[v].remove(c)
            } else {
                dom[v]
            },
    )
}

/// Every domain is a finite set.
pub open spec fn domains_finite(dom: Seq<Set<usize>>) -> bool {
    forall|v: int| 0 <= v < dom.len() ==> (#[trigger] dom[v]).finite()
}

/// `f` with the colors `a` and `b` exchanged.
pub open spec fn swap_colors(f: Seq<usize>, a: usize, b: usize) -> Seq<usize> {
    f.map_values(|x: usize| if x == a { b } else if x == b { a } else { x })
}

/// A completion gives each node a color that its domain would allow.
pub proof fn lemma_completion_allowed(
    adj: Seq<Seq<usize>>,
    k: nat,
    f: Seq<usize>,
    colors: Seq<Option<usize>>,
    v: int,
)
    requires
        adj_wf(adj),
        is_coloring(adj, k, f),
        extends(f, colors),
        0 <= v < adj.len(),
    ensures
        allowed(adj, colors, k, v).contains(f[v]),
{
    if neighbor_holds(adj, colors, v, f[v]) {
        let j = choose|j: int| 0 <= j < adj[v].len() && colors[#[trigger] adj[v][j] as int] == Some(f[v]);
        let m = adj[v][j] as int;
        assert(m < f.len());
        assert(colors[m] == Some(f[m]));
        assert(f[v] != f[m]);
    }
}

/// Two colors that no node holds yet can be exchanged in any completion.
pub proof fn lemma_swap_completion(
    adj: Seq<Seq<usize>>,
    k: nat,
    f: Seq<usize>,
    colors: Seq<Option<usize>>,
    a: usize,
    b: usize,
)
    requires
        adj_wf(adj),
        is_coloring(adj, k, f),
        extends(f, colors),
        unused_colors(colors, k).contains(a),
        unused_colors(colors, k).contains(b),
    ensures
        is_coloring(adj, k, swap_colors(f, a, b)),
        extends(swap_colors(f, a, b), colors),
        forall|v: int| 0 <= v < f.len() && f[v] == a ==> #[trigger] swap_colors(f, a, b)[v] == b,
{
    let g = swap_colors(f, a, b);
    assert forall|x: int, j: int| 0 <= x < adj.len() && 0 <= j < adj[x].len() implies g[x]
        != g[#[trigger] adj[x][j] as int] by {
        let y = adj[x][j] as int;
        assert(y < f.len());
        assert(f[x] != f[y]);
        assert(g[x] == (if f[x] == a { b } else if f[x] == b { a } else { f[x] }));
        assert(g[y] == (if f[y] == a { b } else if f[y] == b { a } else { f[y] }));
    }
    assert forall|v: int| 0 <= v < g.len() implies #[trigger] g[v] < k by {
        assert(f[v] < k);
    }
    assert forall|v: int| 0 <= v < g.len() && (#[trigger] colors[v]) is Some implies colors[v] == Some(g[v]) by {
        assert(colors[v] == Some(f[v]));
        if f[v] == a {
            assert(!unused_colors(colors, k).contains(a));
        }
        if f[v] == b {
            assert(!unused_colors(colors, k).contains(b));
        }
    }
}

/// Taking `c` out of a set that holds more than `c` leaves something.
pub proof fn lemma_remove_nonempty(s: Set<usize>, c: usize)
    requires
        s.contains(c),
        s != Set::<usize>::empty().insert(c),
    ensures
        s.remove(c) != Set::<usize>::empty(),
{
    if s.remove(c) == Set::<usize>::empty() {
        assert forall|x: usize| s.contains(x) implies x == c by {
            if x != c {
                assert(s.remove(c).contains(x));
            }
        }
        assert(s =~= Set::<usize>::empty().insert(c));
    }
}

/// Forward checking after coloring `node` keeps every domain exact.
pub proof fn lemma_assign_exact(
    adj: Seq<Seq<usize>>,
    k: nat,
    colors: Seq<Option<usize>>,
    dom: Seq<Set<usize>>,
    node: int,
    color: usize,
)
    requires
        adj_wf(adj),
        adj.len() <= usize::MAX,
        colors.len() == adj.len(),
        dom.len() == adj.len(),
        0 <= node < adj.len(),
        colors[node] is None,
        domains_exact(adj, colors, k, dom),
    ensures
        domains_exact(
            adj,
            colors.update(node, Some(color)),
            k,
            pruned(adj[node], colors, dom, color),
        ),
{
    let colors1 = colors.update(node, Some(color));
    let p = pruned(adj[node], colors, dom, color);
    assert forall|v: int| 0 <= v < colors1.len() && colors1[v] is None implies #[trigger] p[v] == allowed(
        adj,
        colors1,
        k,
        v,
    ) by {
        assert(v != node);
        assert(colors[v] is None);
        assert(adj[node].contains(v as usize) == adj[v].contains(node as usize)) by {
            if adj[node].contains(v as usize) {
                let j = choose|j: int| 0 <= j < adj[node].len() && adj[node][j] == v as usize;
                assert(adj[adj[node][j] as int].contains(node as usize));
            }
            if adj[v].contains(node as usize) {
                let j = choose|j: int| 0 <= j < adj[v].len() && adj[v][j] == node as usize;
                assert(adj[adj[v][j] as int].contains(v as usize));
            }
        }
        assert forall|c: usize| neighbor_holds(adj, colors1, v, c) <==> (neighbor_holds(adj, colors, v, c) || (c
            == color && adj[v].contains(node as usize))) by {
            if neighbor_holds(adj, colors1, v, c) {
                let j = choose|j: int| 0 <= j < adj[v].len() && colors1[#[trigger] adj[v][j] as int] == Some(c);
                if adj[v][j] as int != node {
                    assert(colors[adj[v][j] as int] == Some(c));
                }
            }
            if neighbor_holds(adj, colors, v, c) {
                let j = choose|j: int| 0 <= j < adj[v].len() && colors[#[trigger] adj[v][j] as int] == Some(c);
                assert(adj[v][j] as int != node);
                assert(colors1[adj[v][j] as int] == Some(c));
            }
            if c == color && adj[v].contains(node as usize) {
                let j = choose|j: int| 0 <= j < adj[v].len() && adj[v][j] == node as usize;
                assert(colors1[adj[v][j] as int] == Some(c));
            }
        }
        assert(p[v] =~= allowed(adj, colors1, k, v));
    }
}

/// The state that the search works on is consistent: domains exact, the unused
/// colors exactly those that nobody holds, the pool exactly the uncolored nodes.
pub open spec fn search_state(
    adj: Seq<Seq<usize>>,
    k: nat,
    colors: Seq<Option<usize>>,
    dom: Seq<Set<usize>>,
    unused: Set<usize>,
    pool: Seq<usize>,
) -> bool {
    &&& adj_wf(adj)
    &&& adj.len() <= usize::MAX
    &&& colors.len() == adj.len()
    &&& dom.len() == adj.len()
    &&& domains_finite(dom)
    &&& domains_exact(adj, colors, k, dom)
    &&& unused == unused_colors(colors, k)
    &&& pool_exact(colors, pool)
    &&& within_budget(colors, k)
    &&& loop_free(adj)
    &&& partial_proper(adj, colors)
}

} // verus!
