use super::{
    all_colored, completable, extends, has_self_loop, lemma_assign_proper, lemma_completable_from_nothing,
    lemma_full_is_coloring, neighbor_has_color, neighbor_holds, none_colored, none_colors, partial_proper,
    unwrap_colors, within_budget, ColorAlgorithm,
};
use super::domains::{
    allowed, domains_finite, impact, impact_upto, lemma_assign_exact, lemma_remove_nonempty,
    lemma_completion_allowed, lemma_swap_completion, pool_exact, pruned, search_state,
    swap_colors, unused_colors,
};
use crate::color_set::ColorSet;
use crate::graph::{adj_wf, is_coloring, Graph};
use crate::{Color, Node};
use std::rc::Rc;
use vstd::prelude::*;

verus! {

/// The pairs are in ascending order of their first component.
pub open spec fn sorted_by_key(s: Seq<(usize, usize)>) -> bool {
    forall|i: int, j: int| 0 <= i < j < s.len() ==> (#[trigger] s[i]).0 <= (#[trigger] s[j]).0
}

/// What a sequence holds after a push.
proof fn lemma_push_contains(s: Seq<usize>, x: usize)
    ensures
        forall|y: usize| #[trigger] s.push(x).contains(y) <==> (s.contains(y) || y == x),
{
    assert forall|y: usize| #[trigger] s.push(x).contains(y) <==> (s.contains(y) || y == x) by {
        if s.push(x).contains(y) {
            let i = choose|i: int| 0 <= i < s.push(x).len() && s.push(x)[i] == y;
            if i < s.len() {
                assert(s[i] == y);
            }
        }
        if s.contains(y) {
            let i = choose|i: int| 0 <= i < s.len() && s[i] == y;
            assert(s.push(x)[i] == y);
        }
        if y == x {
            assert(s.push(x)[s.len() as int] == y);
        }
    }
}

/// Sorts pairs by their first component.
fn sort_by_key(items: &Vec<(usize, usize)>) -> (r: Vec<(usize, usize)>)
    ensures
        sorted_by_key(r@),
        forall|x: (usize, usize)| r@.contains(x) <==> items@.contains(x),
        items@.no_duplicates() ==> r@.no_duplicates(),
{
    let mut out: Vec<(usize, usize)> = Vec::new();
    let mut t: usize = 0;
    while t < items.len()
        invariant
            t <= items@.len(),
            sorted_by_key(out@),
            forall|x: (usize, usize)| out@.contains(x) <==> items@.take(t as int).contains(x),
            items@.no_duplicates() ==> out@.no_duplicates(),
        decreases items@.len() - t,
    {
        let x = items[t];
        let mut p: usize = 0;
        while p < out.len() && out[p].0 <= x.0
            invariant
                p <= out@.len(),
                forall|i: int| 0 <= i < p ==> (#[trigger] out@[i]).0 <= x.0,
            decreases out@.len() - p,
        {
            p = p + 1;
        }
        let ghost before = out@;
        out.insert(p, x);
        proof {
            assert(out@ == before.insert(p as int, x));
            assert forall|i: int, j: int| 0 <= i < j < out@.len() implies (#[trigger] out@[i]).0 <= (
            #[trigger] out@[j]).0 by {
                if j < p {
                } else if j == p {
                } else if i < p {
                    assert(out@[j] == before[j - 1]);
                } else if i == p {
                    assert(out@[j] == before[j - 1]);
                    assert(before[p as int].0 > x.0);
                    if j - 1 > p {
                        assert(before[p as int].0 <= before[j - 1].0);
                    }
                } else {
                    assert(out@[j] == before[j - 1]);
                    assert(out@[i] == before[i - 1]);
                }
            }
            assert(items@.take(t + 1) == items@.take(t as int).push(x));
            if items@.no_duplicates() {
                assert(!before.contains(x)) by {
                    if before.contains(x) {
                        let tt = items@.take(t as int);
                        let q = choose|q: int| 0 <= q < t && tt[q] == x;
                        assert(items@[q] == items@[t as int]);
                    }
                }
                assert forall|a: int, b: int| 0 <= a < b < out@.len() implies out@[a] != out@[b] by {
                    if a < p && b < p {
                    } else if a < p && b == p {
                        assert(before[a] == out@[a]);
                    } else if a < p {
                        assert(before[a] == out@[a]);
                        assert(before[b - 1] == out@[b]);
                    } else if a == p {
                        assert(before[b - 1] == out@[b]);
                    } else {
                        assert(before[a - 1] == out@[a]);
                        assert(before[b - 1] == out@[b]);
                    }
                }
            }
            assert forall|y: (usize, usize)| out@.contains(y) <==> items@.take(t + 1).contains(y) by {
                if out@.contains(y) {
                    let i = choose|i: int| 0 <= i < out@.len() && out@[i] == y;
                    if i < p {
                        assert(before[i] == y);
                    } else if i > p {
                        assert(before[i - 1] == y);
                    }
                    assert(y == x || before.contains(y));
                    if y != x {
                        assert(items@.take(t as int).contains(y));
                        let tt = items@.take(t as int);
                        let q = choose|q: int| 0 <= q < t && tt[q] == y;
                        assert(items@.take(t + 1)[q] == y);
                    } else {
                        assert(items@.take(t + 1)[t as int] == y);
                    }
                }
                if items@.take(t + 1).contains(y) {
                    let tk = items@.take(t + 1);
                    let q = choose|q: int| 0 <= q < t + 1 && tk[q] == y;
                    if q == t {
                        assert(out@[p as int] == y);
                    } else {
                        assert(items@.take(t as int)[q] == y);
                        assert(before.contains(y));
                        let i = choose|i: int| 0 <= i < before.len() && before[i] == y;
                        if i < p {
                            assert(out@[i] == y);
                        } else {
                            assert(out@[i + 1] == y);
                        }
                    }
                }
            }
        }
        t = t + 1;
    }
    assert(items@.take(items@.len() as int) == items@);
    out
}

/// A backtracking search with forward checking: each uncolored node keeps a domain
/// of the colors still open to it, the next node is one with the smallest domain,
/// its colors are tried least constraining first, and of the colors that nobody
/// holds yet only one is tried.
pub struct HeuristicColoring<G: Graph> {
    color_num: usize,
    graph: Rc<G>,
    colors: Vec<Option<Color>>,
    domains: Vec<ColorSet>,
}

impl<G: Graph> HeuristicColoring<G> {
    /// The domain of each node, as a set of colors.
    pub closed spec fn domain_sets(&self) -> Seq<Set<usize>> {
        self.domains@.map_values(|s: ColorSet| s@)
    }

    /// The color of each node, `None` where it has none.
    pub closed spec fn colors_view(&self) -> Seq<Option<usize>> {
        self.colors@
    }

    /// A search of `graph` with the colors `0..color_num`.
    pub fn create(color_num: usize, graph: Rc<G>) -> (r: Self)
        requires
            adj_wf(graph.adjacency()),
        ensures
            r.wf(),
            r.graph_adjacency() == graph.adjacency(),
            r.budget() == color_num,
            r.colors_view().len() == graph.adjacency().len(),
            none_colored(r.colors_view()),
            r.domain_sets() == Seq::new(
                graph.adjacency().len(),
                |v: int| Set::new(|c: usize| c < color_num),
            ),
    {
        let size = graph.size();
        let domains = full_domains(size, color_num);
        let colors = none_colors(size);
        HeuristicColoring { color_num, graph, colors, domains }
    }

    /// Whether `node` holds a color.
    fn colored(&self, node: Node) -> (r: bool)
        requires
            node < self.colors@.len(),
        ensures
            r == self.colors@[node as int] is Some,
    {
        self.colors[node].is_some()
    }

    /// The position in `pool` of a node with the smallest domain.
    fn pick_node(&self, pool: &Vec<Node>) -> (r: usize)
        requires
            pool@.len() > 0,
            forall|i: int| 0 <= i < pool@.len() ==> #[trigger] pool@[i] < self.domains@.len(),
        ensures
            r < pool@.len(),
            forall|i: int|
                0 <= i < pool@.len() ==> self.domain_sets()[pool@[r as int] as int].len()
                    <= self.domain_sets()[#[trigger] pool@[i] as int].len(),
    {
        let mut best: usize = 0;
        let mut best_len = self.domains[pool[0]].len();
        let mut i: usize = 1;
        while i < pool.len()
            invariant
                pool@.len() > 0,
                forall|q: int| 0 <= q < pool@.len() ==> #[trigger] pool@[q] < self.domains@.len(),
                1 <= i <= pool@.len(),
                best < pool@.len(),
                best_len == self.domain_sets()[pool@[best as int] as int].len(),
                forall|q: int|
                    0 <= q < i ==> best_len <= self.domain_sets()[#[trigger] pool@[q] as int].len(),
            decreases pool@.len() - i,
        {
            let l = self.domains[pool[i]].len();
            if l < best_len {
                best = i;
                best_len = l;
            }
            i = i + 1;
        }
        best
    }

    /// How many uncolored neighbors of `node` still have `color` in their domain.
    fn impact_of(&self, node: Node, color: Color) -> (r: usize)
        requires
            adj_wf(self.graph.adjacency()),
            node < self.graph.adjacency().len(),
            self.colors@.len() == self.graph.adjacency().len(),
            self.domains@.len() == self.graph.adjacency().len(),
        ensures
            r == impact(self.graph.adjacency()[node as int], self.colors@, self.domain_sets(), color),
    {
        let ghost adj = self.graph.adjacency();
        let neighbors = self.graph.neighbors(node);
        let mut count: usize = 0;
        let mut j: usize = 0;
        while j < neighbors.len()
            invariant
                adj == self.graph.adjacency(),
                adj_wf(adj),
                node < adj.len(),
                neighbors@ == adj[node as int],
                self.colors@.len() == adj.len(),
                self.domains@.len() == adj.len(),
                j <= neighbors@.len(),
                count <= j,
                count == impact_upto(neighbors@, self.colors@, self.domain_sets(), color, j as int),
            decreases neighbors@.len() - j,
        {
            let m = neighbors[j];
            if !self.colored(m) && self.domains[m].contains(color) {
                count = count + 1;
            }
            j = j + 1;
        }
        count
    }

    /// The colors to try at `node`, least constraining first. When some colors are
    /// held by no node, only one of them is among the candidates.
    fn order_colors(&self, node: Node, unused_colors: &ColorSet) -> (r: Vec<Color>)
        requires
            adj_wf(self.graph.adjacency()),
            node < self.graph.adjacency().len(),
            self.colors@.len() == self.graph.adjacency().len(),
            self.domains@.len() == self.graph.adjacency().len(),
        ensures
            r@.no_duplicates(),
            unused_colors@ == Set::<usize>::empty() ==> forall|c: usize|
                r@.contains(c) <==> self.domain_sets()[node as int].contains(c),
            unused_colors@ != Set::<usize>::empty() ==> exists|rep: usize|
                #[trigger] unused_colors@.contains(rep) && forall|c: usize|
                    r@.contains(c) <==> ((self.domain_sets()[node as int].contains(c)
                        && !unused_colors@.contains(c)) || c == rep),
            forall|i: int, j: int|
                0 <= i < j < r@.len() ==> impact(
                    self.graph.adjacency()[node as int],
                    self.colors@,
                    self.domain_sets(),
                    #[trigger] r@[i],
                ) <= impact(
                    self.graph.adjacency()[node as int],
                    self.colors@,
                    self.domain_sets(),
                    #[trigger] r@[j],
                ),
    {
        let ghost adj = self.graph.adjacency();
        let ghost dom = self.domain_sets()[node as int];
        let domain = self.domains[node].to_vec();
        let unused = unused_colors.to_vec();
        let ghost mut rep: usize = 0;
        let mut cands: Vec<Color> = Vec::new();
        if unused.len() == 0 {
            cands = domain;
            proof {
                assert(unused_colors@ =~= Set::<usize>::empty()) by {
                    assert forall|c: usize| !unused_colors@.contains(c) by {
                        if unused_colors@.contains(c) {
                            assert(unused@.contains(c));
                        }
                    }
                }
            }
        } else {
            let first = unused[0];
            proof {
                rep = first;
                assert(unused@.contains(first));
            }
            let mut t: usize = 0;
            while t < domain.len()
                invariant
                    t <= domain@.len(),
                    forall|c: usize| domain@.contains(c) <==> dom.contains(c),
                    unused_colors@.contains(rep),
                    forall|c: usize|
                        cands@.contains(c) <==> (domain@.take(t as int).contains(c) && !unused_colors@.contains(
                            c,
                        )),
                    domain@.no_duplicates(),
                    cands@.no_duplicates(),
                decreases domain@.len() - t,
            {
                let c = domain[t];
                proof {
                    assert(domain@.take(t + 1) == domain@.take(t as int).push(c));
                    lemma_push_contains(domain@.take(t as int), c);
                }
                if !unused_colors.contains(c) {
                    proof {
                        lemma_push_contains(cands@, c);
                        assert(!domain@.take(t as int).contains(c)) by {
                            if domain@.take(t as int).contains(c) {
                                let tt = domain@.take(t as int);
                                let q = choose|q: int| 0 <= q < t && tt[q] == c;
                                assert(domain@[q] == domain@[t as int]);
                            }
                        }
                        assert(!cands@.contains(c));
                    }
                    let ghost c0 = cands@;
                    cands.push(c);
                    proof {
                        assert forall|a: int, b: int| 0 <= a < b < cands@.len() implies cands@[a] != cands@[b] by {
                            assert(cands@[a] == c0[a]);
                            if b < c0.len() {
                                assert(cands@[b] == c0[b]);
                            }
                        }
                    }
                }
                t = t + 1;
            }
            proof {
                assert(domain@.take(domain@.len() as int) == domain@);
                lemma_push_contains(cands@, first);
                assert(!cands@.contains(first));
            }
            let ghost c0 = cands@;
            cands.push(first);
            proof {
                assert forall|a: int, b: int| 0 <= a < b < cands@.len() implies cands@[a] != cands@[b] by {
                    assert(cands@[a] == c0[a]);
                    if b < c0.len() {
                        assert(cands@[b] == c0[b]);
                    }
                }
                assert(unused_colors@ != Set::<usize>::empty()) by {
                    assert(unused_colors@.contains(rep));
                }
            }
        }
        let ghost cset = cands@;
        let mut keyed: Vec<(usize, Color)> = Vec::new();
        let mut t: usize = 0;
        while t < cands.len()
            invariant
                adj == self.graph.adjacency(),
                adj_wf(adj),
                node < adj.len(),
                self.colors@.len() == adj.len(),
                self.domains@.len() == adj.len(),
                t <= cands@.len(),
                forall|p: (usize, usize)|
                    #[trigger] keyed@.contains(p) ==> p.0 == impact(
                        adj[node as int],
                        self.colors@,
                        self.domain_sets(),
                        p.1,
                    ),
                forall|c: usize|
                    cands@.take(t as int).contains(c) <==> exists|p: (usize, usize)|
                        #[trigger] keyed@.contains(p) && p.1 == c,
                keyed@.len() == t,
                forall|i: int| 0 <= i < t ==> (#[trigger] keyed@[i]).1 == cands@[i],
            decreases cands@.len() - t,
        {
            let c = cands[t];
            let key = self.impact_of(node, c);
            let ghost k0 = keyed@;
            keyed.push((key, c));
            proof {
                assert(cands@.take(t + 1) == cands@.take(t as int).push(c));
                lemma_push_contains(cands@.take(t as int), c);
                assert forall|p: (usize, usize)| #[trigger] keyed@.contains(p) implies (k0.contains(p) || p == (key, c)) by {
                    let i = choose|i: int| 0 <= i < keyed@.len() && keyed@[i] == p;
                    if i < k0.len() {
                        assert(k0[i] == p);
                    }
                }
                assert forall|p: (usize, usize)| k0.contains(p) implies #[trigger] keyed@.contains(p) by {
                    let i = choose|i: int| 0 <= i < k0.len() && k0[i] == p;
                    assert(keyed@[i] == p);
                }
                assert(keyed@[k0.len() as int] == (key, c));
                assert(keyed@.contains((key, c)));
                assert forall|d: usize| #[trigger] cands@.take(t + 1).contains(d) <==> exists|p: (usize, usize)|
                    #[trigger] keyed@.contains(p) && p.1 == d by {
                    if cands@.take(t + 1).contains(d) {
                        if d == c {
                            assert(keyed@.contains((key, c)));
                        } else {
                            assert(cands@.take(t as int).contains(d));
                            let p = choose|p: (usize, usize)| #[trigger] k0.contains(p) && p.1 == d;
                            assert(keyed@.contains(p));
                        }
                    }
                    if exists|p: (usize, usize)| #[trigger] keyed@.contains(p) && p.1 == d {
                        let p = choose|p: (usize, usize)| #[trigger] keyed@.contains(p) && p.1 == d;
                        if p != (key, c) {
                            assert(k0.contains(p));
                        }
                    }
                }
            }
            t = t + 1;
        }
        proof {
            assert(cands@.take(cands@.len() as int) == cands@);
            assert forall|a: int, b: int| 0 <= a < b < keyed@.len() implies keyed@[a] != keyed@[b] by {
                assert(keyed@[a].1 == cands@[a]);
                assert(keyed@[b].1 == cands@[b]);
            }
        }
        let sorted = sort_by_key(&keyed);
        let mut out: Vec<Color> = Vec::new();
        let mut t: usize = 0;
        while t < sorted.len()
            invariant
                t <= sorted@.len(),
                out@.len() == t,
                forall|i: int| 0 <= i < t ==> #[trigger] out@[i] == sorted@[i].1,
            decreases sorted@.len() - t,
        {
            out.push(sorted[t].1);
            t = t + 1;
        }
        proof {
            let nb = adj[node as int];
            let ds = self.domain_sets();
            assert forall|i: int| 0 <= i < sorted@.len() implies #[trigger] sorted@[i].0 == impact(
                nb,
                self.colors@,
                ds,
                sorted@[i].1,
            ) by {
                assert(sorted@.contains(sorted@[i]));
                assert(keyed@.contains(sorted@[i]));
            }
            assert forall|i: int, j: int| 0 <= i < j < out@.len() implies impact(
                nb,
                self.colors@,
                ds,
                #[trigger] out@[i],
            ) <= impact(nb, self.colors@, ds, #[trigger] out@[j]) by {
                assert(sorted@[i].0 <= sorted@[j].0);
            }
            assert forall|a: int, b: int| 0 <= a < b < out@.len() implies out@[a] != out@[b] by {
                assert(sorted@[a] != sorted@[b]);
                assert(sorted@[a].0 == impact(nb, self.colors@, ds, sorted@[a].1));
                assert(sorted@[b].0 == impact(nb, self.colors@, ds, sorted@[b].1));
            }
            assert forall|c: usize| out@.contains(c) <==> cands@.contains(c) by {
                if out@.contains(c) {
                    let i = choose|i: int| 0 <= i < out@.len() && out@[i] == c;
                    assert(sorted@.contains(sorted@[i]));
                    assert(keyed@.contains(sorted@[i]));
                }
                if cands@.contains(c) {
                    let p = choose|p: (usize, usize)| #[trigger] keyed@.contains(p) && p.1 == c;
                    assert(sorted@.contains(p));
                    let i = choose|i: int| 0 <= i < sorted@.len() && sorted@[i] == p;
                    assert(out@[i] == c);
                }
            }
        }
        out
    }

    /// Colors the nodes of the pool, most constrained first. On failure everything is
    /// as it was, and no completion of the current coloring exists.
    fn search(&mut self, unused: &mut ColorSet, pool: &mut Vec<Node>) -> (r: bool)
        requires
            search_state(
                old(self).graph.adjacency(),
                old(self).color_num as nat,
                old(self).colors@,
                old(self).domain_sets(),
                old(unused)@,
                old(pool)@,
            ),
            old(self).domains@.len() == old(self).colors@.len(),
        ensures
            final(self).graph == old(self).graph,
            final(self).color_num == old(self).color_num,
            final(self).colors@.len() == old(self).colors@.len(),
            final(self).domains@.len() == old(self).domains@.len(),
            r ==> all_colored(final(self).colors@) && partial_proper(final(self).graph.adjacency(), final(self).colors@)
                && within_budget(final(self).colors@, final(self).color_num as nat),
            r ==> forall|v: int|
                0 <= v < old(self).colors@.len() && (#[trigger] old(self).colors@[v]) is Some ==> final(self).colors@[v]
                    == old(self).colors@[v],
            r ==> final(unused)@ == unused_colors(final(self).colors@, old(self).color_num as nat),
            r ==> forall|v: int|
                0 <= v < old(self).domains@.len() ==> (#[trigger] final(self).domain_sets()[v]).subset_of(
                    old(self).domain_sets()[v],
                ),
            !r ==> final(self).colors@ == old(self).colors@ && final(self).domain_sets() == old(self).domain_sets()
                && final(unused)@ == old(unused)@ && final(pool)@ == old(pool)@
                && !completable(old(self).graph.adjacency(), old(self).color_num as nat, old(self).colors@),
        decreases old(pool)@.len(),
    {
        let ghost adj = self.graph.adjacency();
        let ghost k = self.color_num as nat;
        let ghost colors0 = self.colors@;
        let ghost dom0 = self.domain_sets();
        let ghost unused0 = unused@;
        let ghost pool0 = pool@;
        if pool.len() == 0 {
            proof {
                assert forall|v: int| 0 <= v < dom0.len() implies (#[trigger] self.domain_sets()[v]).subset_of(
                    dom0[v],
                ) by {}
                assert forall|v: int| 0 <= v < colors0.len() implies (#[trigger] colors0[v]) is Some by {
                    if colors0[v] is None {
                        assert(pool0.contains(v as usize));
                    }
                }
            }
            return true;
        }
        let i = self.pick_node(pool);
        let node = pool.remove(i);
        let ghost pool1 = pool@;
        proof {
            assert(pool0.contains(node));
            assert(colors0[node as int] is None);
        }
        let cands = self.order_colors(node, unused);
        let ghost rep: usize = if unused0 == Set::<usize>::empty() {
            0
        } else {
            choose|rep: usize|
                #[trigger] unused0.contains(rep) && forall|c: usize|
                    cands@.contains(c) <==> ((dom0[node as int].contains(c) && !unused0.contains(c)) || c == rep)
        };
        proof {
            assert forall|c: usize| cands@.contains(c) implies #[trigger] dom0[node as int].contains(c) by {
                if unused0 != Set::<usize>::empty() && c == rep {
                    assert(allowed(adj, colors0, k, node as int).contains(rep)) by {
                        if neighbor_holds(adj, colors0, node as int, rep) {
                            let j = choose|j: int|
                                0 <= j < adj[node as int].len() && colors0[#[trigger] adj[node as int][j] as int] == Some(rep);
                            assert(!unused_colors(colors0, k).contains(rep));
                        }
                    }
                }
            }
        }
        let mut t: usize = 0;
        while t < cands.len()
            invariant
                self.graph == old(self).graph,
                self.color_num == old(self).color_num,
                adj == self.graph.adjacency(),
                k == self.color_num,
                colors0 == old(self).colors@,
                dom0 == old(self).domain_sets(),
                unused0 == old(unused)@,
                pool0 == old(pool)@,
                search_state(adj, k, colors0, dom0, unused0, pool0),
                self.colors@ == colors0,
                self.domain_sets() == dom0,
                self.domains@.len() == colors0.len(),
                unused@ == unused0,
                pool@ == pool1,
                pool1 == pool0.remove(i as int),
                i < pool0.len(),
                node == pool0[i as int],
                node < adj.len(),
                colors0[node as int] is None,
                forall|c: usize| cands@.contains(c) ==> #[trigger] dom0[node as int].contains(c),
                unused0 == Set::<usize>::empty() ==> forall|c: usize|
                    cands@.contains(c) <==> dom0[node as int].contains(c),
                unused0 != Set::<usize>::empty() ==> unused0.contains(rep) && forall|c: usize|
                    cands@.contains(c) <==> ((dom0[node as int].contains(c) && !unused0.contains(c)) || c == rep),
                t <= cands@.len(),
                forall|q: int|
                    0 <= q < t ==> !completable(adj, k, colors0.update(node as int, Some(#[trigger] cands@[q]))),
            decreases cands@.len() - t,
        {
            let color = cands[t];
            let ghost colors1 = colors0.update(node as int, Some(color));
            proof {
                assert(cands@.contains(color));
                assert(dom0[node as int].contains(color));
            }
            let taken = neighbor_has_color(&*self.graph, &self.colors, node, color);
            if taken {
                proof {
                    let j = choose|j: int|
                        0 <= j < adj[node as int].len() && colors0[#[trigger] adj[node as int][j] as int] == Some(color);
                    assert forall|f: Seq<usize>| is_coloring(adj, k, f) && extends(f, colors1) implies false by {
                        assert(colors1[adj[node as int][j] as int] == Some(color));
                        assert(f[adj[node as int][j] as int] == color);
                        assert(colors1[node as int] == Some(color));
                    }
                }
            } else {
                let (ok, removals) = self.forward_check(node, color);
                if ok {
                    let removed = unused.remove(color);
                    self.colors[node] = Some(color);
                    proof {
                        assert(self.colors@ == colors1);
                        lemma_assign_exact(adj, k, colors0, dom0, node as int, color);
                        lemma_assign_proper(adj, colors0, node as int, color);
                        assert(unused@ =~= unused_colors(colors1, k)) by {
                            assert forall|c: usize| unused@.contains(c) <==> unused_colors(colors1, k).contains(c) by {
                                if c != color {
                                    if exists|v: int| 0 <= v < colors1.len() && #[trigger] colors1[v] == Some(c) {
                                        let v = choose|v: int| 0 <= v < colors1.len() && #[trigger] colors1[v] == Some(c);
                                        assert(colors0[v] == Some(c));
                                    }
                                    if exists|v: int| 0 <= v < colors0.len() && #[trigger] colors0[v] == Some(c) {
                                        let v = choose|v: int| 0 <= v < colors0.len() && #[trigger] colors0[v] == Some(c);
                                        assert(colors1[v] == Some(c));
                                    }
                                } else {
                                    assert(colors1[node as int] == Some(c));
                                }
                            }
                        }
                        assert(pool_exact(colors1, pool1)) by {
                            assert forall|v: int| 0 <= v < colors1.len() implies ((#[trigger] colors1[v]) is None
                                <==> pool1.contains(v as usize)) by {
                                if pool1.contains(v as usize) {
                                    let q = choose|q: int| 0 <= q < pool1.len() && pool1[q] == v as usize;
                                    if q < i {
                                        assert(pool0[q] == v as usize);
                                    } else {
                                        assert(pool0[q + 1] == v as usize);
                                    }
                                    assert(pool0.contains(v as usize));
                                    assert(v != node);
                                }
                                if v != node && colors1[v] is None {
                                    assert(pool0.contains(v as usize));
                                    let q = choose|q: int| 0 <= q < pool0.len() && pool0[q] == v as usize;
                                    assert(q != i);
                                    if q < i {
                                        assert(pool1[q] == v as usize);
                                    } else {
                                        assert(pool1[q - 1] == v as usize);
                                    }
                                }
                            }
                            assert forall|q: int| 0 <= q < pool1.len() implies #[trigger] pool1[q] < colors1.len() by {
                                if q < i {
                                    assert(pool1[q] == pool0[q]);
                                } else {
                                    assert(pool1[q] == pool0[q + 1]);
                                }
                            }
                            assert(pool1.no_duplicates()) by {
                                assert forall|x: int, y: int| 0 <= x < y < pool1.len() implies pool1[x] != pool1[y] by {
                                    let x0 = if x < i { x } else { x + 1 };
                                    let y0 = if y < i { y } else { y + 1 };
                                    assert(pool1[x] == pool0[x0]);
                                    assert(pool1[y] == pool0[y0]);
                                }
                            }
                        }
                        assert(within_budget(colors1, k)) by {
                            assert(allowed(adj, colors0, k, node as int).contains(color));
                        }
                    }
                    let ghost dom1 = self.domain_sets();
                    if self.search(unused, pool) {
                        proof {
                            assert forall|v: int| 0 <= v < colors0.len() && (#[trigger] colors0[v]) is Some implies self.colors@[v]
                                == colors0[v] by {
                                assert(colors1[v] == colors0[v]);
                            }
                            assert forall|v: int| 0 <= v < dom0.len() implies (#[trigger] self.domain_sets()[v]).subset_of(
                                dom0[v],
                            ) by {
                                assert(self.domain_sets()[v].subset_of(dom1[v]));
                            }
                        }
                        return true;
                    }
                    self.colors[node] = None;
                    if removed {
                        unused.insert(color);
                    }
                    self.backtrack(&removals, color);
                    proof {
                        assert(self.colors@ =~= colors0);
                        assert(unused@ =~= unused0);
                        assert forall|v: int| 0 <= v < dom0.len() implies #[trigger] self.domain_sets()[v] == dom0[v] by {
                            if removals@.contains(v as usize) {
                                let q = choose|q: int| 0 <= q < removals@.len() && removals@[q] == v as usize;
                                assert(dom0[v].contains(color));
                                assert(dom0[v].remove(color).insert(color) =~= dom0[v]);
                            } else if colors0[v] is None && adj[node as int].contains(v as usize) {
                                assert(!dom0[v].contains(color));
                                assert(dom0[v].remove(color) =~= dom0[v]);
                            }
                        }
                        assert(self.domain_sets() =~= dom0);
                    }
                } else {
                    proof {
                        let j = choose|j: int|
                            0 <= j < adj[node as int].len() && colors0[#[trigger] adj[node as int][j] as int] is None
                                && forall|c: usize| dom0[adj[node as int][j] as int].contains(c) ==> c == color;
                        let m = adj[node as int][j] as int;
                        assert forall|f: Seq<usize>| is_coloring(adj, k, f) && extends(f, colors1) implies false by {
                            assert forall|x: int| 0 <= x < f.len() && (#[trigger] colors0[x]) is Some implies colors0[x]
                                == Some(f[x]) by {
                                assert(colors1[x] == colors0[x]);
                            }
                            assert(extends(f, colors0));
                            lemma_completion_allowed(adj, k, f, colors0, m);
                            assert(dom0[m].contains(f[m]));
                            assert(f[m] == color);
                            assert(colors1[node as int] == Some(color));
                            assert(f[node as int] == color);
                        }
                    }
                }
            }
            t = t + 1;
        }
        proof {
            assert forall|f: Seq<usize>| is_coloring(adj, k, f) && extends(f, colors0) implies false by {
                let c = f[node as int];
                lemma_completion_allowed(adj, k, f, colors0, node as int);
                assert(dom0[node as int].contains(c));
                if cands@.contains(c) {
                    let q = choose|q: int| 0 <= q < cands@.len() && cands@[q] == c;
                    assert(extends(f, colors0.update(node as int, Some(cands@[q]))));
                } else {
                    assert(unused0.contains(c));
                    assert(unused0 != Set::<usize>::empty());
                    lemma_swap_completion(adj, k, f, colors0, c, rep);
                    let g = swap_colors(f, c, rep);
                    assert(g[node as int] == rep);
                    assert(cands@.contains(rep));
                    let q = choose|q: int| 0 <= q < cands@.len() && cands@[q] == rep;
                    assert(extends(g, colors0.update(node as int, Some(cands@[q]))));
                }
            }
        }
        pool.insert(i, node);
        proof {
            assert(pool@ =~= pool0);
        }
        false
    }

    /// Puts `color` back into the domain of each node of `removals`.
    fn backtrack(&mut self, removals: &Vec<Node>, color: Color)
        requires
            forall|i: int| 0 <= i < removals@.len() ==> #[trigger] removals@[i] < old(self).domains@.len(),
        ensures
            final(self).graph == old(self).graph,
            final(self).color_num == old(self).color_num,
            final(self).colors == old(self).colors,
            final(self).domains@.len() == old(self).domains@.len(),
            final(self).domain_sets() == Seq::new(
                old(self).domains@.len() as nat,
                |v: int|
                    if removals@.contains(v as usize) {
                        old(self).domain_sets()[v].insert(color)
                    } else {
                        old(self).domain_sets()[v]
                    },
            ),
    {
        let ghost dom0 = self.domain_sets();
        let dn = self.domains.len();
        let mut t: usize = 0;
        while t < removals.len()
            invariant
                dn == dom0.len(),
                self.graph == old(self).graph,
                self.color_num == old(self).color_num,
                self.colors == old(self).colors,
                dom0 == old(self).domain_sets(),
                self.domains@.len() == old(self).domains@.len(),
                forall|i: int| 0 <= i < removals@.len() ==> #[trigger] removals@[i] < old(self).domains@.len(),
                t <= removals@.len(),
                forall|v: int|
                    0 <= v < dom0.len() ==> #[trigger] self.domain_sets()[v] == if removals@.take(
                        t as int,
                    ).contains(v as usize) {
                        dom0[v].insert(color)
                    } else {
                        dom0[v]
                    },
            decreases removals@.len() - t,
        {
            let v = removals[t];
            let ghost before = self.domain_sets();
            self.domains[v].insert(color);
            proof {
                assert(removals@.take(t + 1) == removals@.take(t as int).push(v));
                lemma_push_contains(removals@.take(t as int), v);
                assert forall|w: int| 0 <= w < dom0.len() implies #[trigger] self.domain_sets()[w] == if removals@.take(
                    t + 1,
                ).contains(w as usize) {
                    dom0[w].insert(color)
                } else {
                    dom0[w]
                } by {
                    if w == v {
                        assert(removals@.take(t + 1).contains(v));
                        assert(self.domain_sets()[w] == before[w].insert(color));
                        assert(before[w].insert(color) =~= dom0[w].insert(color));
                    } else {
                        assert(self.domain_sets()[w] == before[w]);
                        assert(removals@.take(t + 1).contains(w as usize) == removals@.take(t as int).contains(
                            w as usize,
                        ));
                    }
                }
            }
            t = t + 1;
        }
        assert(removals@.take(removals@.len() as int) == removals@);
        assert(self.domain_sets() =~= Seq::new(
            old(self).domains@.len() as nat,
            |v: int|
                if removals@.contains(v as usize) {
                    dom0[v].insert(color)
                } else {
                    dom0[v]
                },
        ));
    }

    /// Forward checking: takes `color` out of the domain of each uncolored neighbor of
    /// `node`. When that empties a domain, the domains are left as they were and the
    /// result is `false`; else it is `true`, with the nodes whose domain lost `color`.
    fn forward_check(&mut self, node: Node, color: Color) -> (r: (bool, Vec<Node>))
        requires
            adj_wf(old(self).graph.adjacency()),
            node < old(self).graph.adjacency().len(),
            old(self).colors@.len() == old(self).graph.adjacency().len(),
            old(self).domains@.len() == old(self).graph.adjacency().len(),
            domains_finite(old(self).domain_sets()),
        ensures
            final(self).graph == old(self).graph,
            final(self).color_num == old(self).color_num,
            final(self).colors == old(self).colors,
            final(self).domains@.len() == old(self).domains@.len(),
            domains_finite(final(self).domain_sets()),
            r.0 ==> final(self).domain_sets() == pruned(
                old(self).graph.adjacency()[node as int],
                old(self).colors@,
                old(self).domain_sets(),
                color,
            ),
            r.1@.no_duplicates(),
            !r.0 ==> r.1@.len() == 0,
            r.0 ==> forall|i: int|
                0 <= i < r.1@.len() ==> #[trigger] r.1@[i] < old(self).domains@.len()
                    && old(self).colors@[r.1@[i] as int] is None
                    && old(self).graph.adjacency()[node as int].contains(r.1@[i])
                    && old(self).domain_sets()[r.1@[i] as int].contains(color),
            r.0 ==> forall|v: int|
                0 <= v < old(self).domains@.len() && old(self).colors@[v] is None
                    && old(self).graph.adjacency()[node as int].contains(v as usize)
                    && #[trigger] old(self).domain_sets()[v].contains(color) ==> r.1@.contains(v as usize)
                    && final(self).domain_sets()[v] != Set::<usize>::empty(),
            !r.0 ==> final(self).domain_sets() == old(self).domain_sets(),
            !r.0 <==> exists|j: int|
                0 <= j < old(self).graph.adjacency()[node as int].len() && old(self).colors@[
                    #[trigger] old(self).graph.adjacency()[node as int][j] as int] is None
                    && old(self).domain_sets()[old(self).graph.adjacency()[node as int][j] as int]
                    == Set::<usize>::empty().insert(color),
    {
        let ghost adj = self.graph.adjacency();
        let ghost dom0 = self.domain_sets();
        let ghost colors0 = self.colors@;
        let n = self.graph.size();
        let neighbors = self.graph.neighbors(node);
        let mut removals: Vec<Node> = Vec::new();
        assert(dom0.len() == n);
        let mut j: usize = 0;
        while j < neighbors.len()
            invariant
                self.graph == old(self).graph,
                self.color_num == old(self).color_num,
                self.colors == old(self).colors,
                adj == self.graph.adjacency(),
                adj_wf(adj),
                dom0 == old(self).domain_sets(),
                colors0 == self.colors@,
                n == adj.len(),
                node < n,
                neighbors@ == adj[node as int],
                colors0.len() == n,
                self.domains@.len() == n,
                dom0.len() == n,
                domains_finite(dom0),
                domains_finite(self.domain_sets()),
                j <= neighbors@.len(),
                forall|v: int|
                    0 <= v < n ==> #[trigger] self.domain_sets()[v] == if removals@.contains(v as usize) {
                        dom0[v].remove(color)
                    } else {
                        dom0[v]
                    },
                forall|i: int|
                    0 <= i < removals@.len() ==> #[trigger] removals@[i] < n && colors0[removals@[i] as int]
                        is None && dom0[removals@[i] as int].contains(color) && neighbors@.contains(
                        removals@[i],
                    ),
                forall|i: int|
                    0 <= i < j && colors0[neighbors@[i] as int] is None && dom0[#[trigger] neighbors@[i] as int].contains(
                        color,
                    ) ==> removals@.contains(neighbors@[i]),
                removals@.no_duplicates(),
                forall|i: int|
                    0 <= i < removals@.len() ==> dom0[#[trigger] removals@[i] as int] != Set::<usize>::empty().insert(
                        color,
                    ),
                forall|i: int|
                    0 <= i < j && colors0[#[trigger] neighbors@[i] as int] is None ==> dom0[neighbors@[i] as int]
                        != Set::<usize>::empty().insert(color),
            decreases neighbors@.len() - j,
        {
            let m = neighbors[j];
            if !self.colored(m) && self.domains[m].contains(color) {
                let ghost before = self.domain_sets();
                let ghost rem0 = removals@;
                proof {
                    if rem0.contains(m) {
                        assert(before[m as int] == dom0[m as int].remove(color));
                    }
                    assert(!rem0.contains(m));
                    assert(before[m as int] == dom0[m as int]);
                }
                removals.push(m);
                self.domains[m].remove(color);
                proof {
                    lemma_push_contains(rem0, m);
                    assert forall|v: int| 0 <= v < n implies (#[trigger] self.domain_sets()[v]).finite() by {
                        if v == m {
                            assert(self.domain_sets()[v] == before[v].remove(color));
                            vstd::set::axiom_set_remove_finite(before[v], color);
                        } else {
                            assert(self.domain_sets()[v] == before[v]);
                        }
                    }
                    assert forall|v: int| 0 <= v < n implies #[trigger] self.domain_sets()[v] == if removals@.contains(
                        v as usize,
                    ) {
                        dom0[v].remove(color)
                    } else {
                        dom0[v]
                    } by {
                        if v == m {
                            assert(removals@.contains(m));
                            assert(self.domain_sets()[v] == before[v].remove(color));
                        } else {
                            assert(self.domain_sets()[v] == before[v]);
                            assert(removals@.contains(v as usize) == rem0.contains(v as usize));
                        }
                    }
                    assert forall|i: int|
                        0 <= i < j + 1 && colors0[neighbors@[i] as int] is None && dom0[#[trigger] neighbors@[i] as int].contains(
                            color,
                        ) implies removals@.contains(neighbors@[i]) by {
                        if i == j {
                            assert(removals@[rem0.len() as int] == m);
                        } else {
                            let q = choose|q: int| 0 <= q < rem0.len() && rem0[q] == neighbors@[i];
                            assert(removals@[q] == neighbors@[i]);
                        }
                    }
                    assert(neighbors@.contains(m)) by {
                        assert(neighbors@[j as int] == m);
                    }
                }
                if self.domains[m].len() == 0 {
                    proof {
                        assert(self.domain_sets()[m as int] == dom0[m as int].remove(color));
                        vstd::set::axiom_set_remove_finite(dom0[m as int], color);
                        self.domain_sets()[m as int].lemma_len0_is_empty();
                        assert forall|c: usize| dom0[m as int].contains(c) implies c == color by {
                            if c != color {
                                assert(self.domain_sets()[m as int].contains(c));
                            }
                        }
                        assert(dom0[m as int] =~= Set::<usize>::empty().insert(color));
                    }
                    let ghost mid = self.domain_sets();
                    self.backtrack(&removals, color);
                    proof {
                        assert forall|v: int| 0 <= v < n implies #[trigger] self.domain_sets()[v] == dom0[v] by {
                            if removals@.contains(v as usize) {
                                let i = choose|i: int| 0 <= i < removals@.len() && removals@[i] == v as usize;
                                assert(dom0[v].contains(color));
                                assert(mid[v] == dom0[v].remove(color));
                                assert(self.domain_sets()[v] == mid[v].insert(color));
                                assert(dom0[v].remove(color).insert(color) =~= dom0[v]);
                            } else {
                                assert(mid[v] == dom0[v]);
                                assert(self.domain_sets()[v] == mid[v]);
                            }
                        }
                        assert(self.domain_sets().len() == n);
                        assert(dom0.len() == n);
                        assert(self.domain_sets() =~= dom0);
                        assert(colors0[adj[node as int][j as int] as int] is None);
                    }
                    return (false, Vec::new());
                }
                proof {
                    assert(self.domain_sets()[m as int] == dom0[m as int].remove(color));
                    if dom0[m as int] == Set::<usize>::empty().insert(color) {
                        assert(dom0[m as int].remove(color) =~= Set::<usize>::empty());
                    }
                    assert(removals@[rem0.len() as int] == m);
                    assert forall|i: int| 0 <= i < removals@.len() implies dom0[#[trigger] removals@[i] as int]
                        != Set::<usize>::empty().insert(color) by {
                        if i < rem0.len() {
                            assert(removals@[i] == rem0[i]);
                        }
                    }
                    assert forall|x: int, y: int| 0 <= x < y < removals@.len() implies removals@[x] != removals@[y] by {
                        if y == rem0.len() {
                            assert(rem0[x] == removals@[x]);
                        } else {
                            assert(rem0[x] == removals@[x]);
                            assert(rem0[y] == removals@[y]);
                        }
                    }
                }
            } else {
                proof {
                    if self.colors@[m as int] is None && !removals@.contains(m) {
                        assert(self.domain_sets()[m as int] == dom0[m as int]);
                        assert(!dom0[m as int].contains(color));
                    }
                    if self.colors@[m as int] is None && removals@.contains(m) {
                        let q = choose|q: int| 0 <= q < removals@.len() && removals@[q] == m;
                        assert(dom0[removals@[q] as int] != Set::<usize>::empty().insert(color));
                    }
                    assert forall|i: int|
                        0 <= i < j + 1 && colors0[neighbors@[i] as int] is None && dom0[#[trigger] neighbors@[i] as int].contains(
                            color,
                        ) implies removals@.contains(neighbors@[i]) by {
                        if i == j {
                            if !removals@.contains(m) {
                                assert(self.domain_sets()[m as int] == dom0[m as int]);
                            }
                        }
                    }
                }
            }
            j = j + 1;
        }
        proof {
            let p = pruned(adj[node as int], colors0, dom0, color);
            assert forall|v: int| 0 <= v < n implies #[trigger] self.domain_sets()[v] == p[v] by {
                if removals@.contains(v as usize) {
                    let i = choose|i: int| 0 <= i < removals@.len() && removals@[i] == v as usize;
                    assert(colors0[v] is None && neighbors@.contains(v as usize));
                } else if colors0[v] is None && neighbors@.contains(v as usize) {
                    let i = choose|i: int| 0 <= i < neighbors@.len() && neighbors@[i] == v as usize;
                    assert(!dom0[v].contains(color));
                    assert(dom0[v].remove(color) =~= dom0[v]);
                }
            }
            assert(self.domain_sets() =~= p);
            assert forall|v: int| 0 <= v < n && colors0[v] is None && adj[node as int].contains(v as usize)
                && #[trigger] dom0[v].contains(color) implies removals@.contains(v as usize)
                && self.domain_sets()[v] != Set::<usize>::empty() by {
                let i = choose|i: int| 0 <= i < neighbors@.len() && neighbors@[i] == v as usize;
                assert(removals@.contains(v as usize));
                let q = choose|q: int| 0 <= q < removals@.len() && removals@[q] == v as usize;
                assert(dom0[removals@[q] as int] != Set::<usize>::empty().insert(color));
                lemma_remove_nonempty(dom0[v], color);
            }
            assert forall|i: int| 0 <= i < removals@.len() implies adj[node as int].contains(#[trigger] removals@[i]) by {
                assert(neighbors@.contains(removals@[i]));
            }
        }
        (true, removals)
    }
}

/// The nodes `0..n`, in order.
fn all_nodes(n: usize) -> (r: Vec<Node>)
    ensures
        r@.len() == n,
        forall|i: int| 0 <= i < n ==> #[trigger] r@[i] == i as usize,
        r@.no_duplicates(),
{
    let mut nodes: Vec<Node> = Vec::new();
    let mut i: usize = 0;
    while i < n
        invariant
            i <= n,
            nodes@.len() == i,
            forall|q: int| 0 <= q < i ==> #[trigger] nodes@[q] == q as usize,
        decreases n - i,
    {
        nodes.push(i);
        i = i + 1;
    }
    nodes
}

/// `n` uncolored nodes, as a sequence.
pub open spec fn none_seq(n: nat) -> Seq<Option<usize>> {
    Seq::new(n, |v: int| None::<usize>)
}

/// `n` domains, each of all the colors `0..k`.
fn full_domains(n: usize, k: usize) -> (r: Vec<ColorSet>)
    ensures
        r@.len() == n,
        forall|v: int| 0 <= v < n ==> (#[trigger] r@[v])@ == Set::new(|c: usize| c < k),
        forall|v: int| 0 <= v < n ==> (#[trigger] r@[v])@.finite(),
{
    let mut domains: Vec<ColorSet> = Vec::new();
    let mut i: usize = 0;
    while i < n
        invariant
            i <= n,
            domains@.len() == i,
            forall|v: int| 0 <= v < i ==> (#[trigger] domains@[v])@ == Set::new(|c: usize| c < k),
            forall|v: int| 0 <= v < i ==> (#[trigger] domains@[v])@.finite(),
        decreases n - i,
    {
        domains.push(ColorSet::range(k));
        i = i + 1;
    }
    domains
}

impl<G: Graph> ColorAlgorithm<G> for HeuristicColoring<G> {
    closed spec fn graph_adjacency(&self) -> Seq<Seq<usize>> {
        self.graph.adjacency()
    }

    closed spec fn budget(&self) -> nat {
        self.color_num as nat
    }

    closed spec fn wf(&self) -> bool {
        adj_wf(self.graph.adjacency())
    }

    /// On failure every domain is back to all the colors and no node is colored.
    fn color(&mut self, num: usize) -> (r: Option<Vec<Color>>)
        ensures
            r is None ==> final(self).domain_sets() == Seq::new(
                old(self).graph_adjacency().len(),
                |v: int| Set::new(|c: usize| c < old(self).budget()),
            ),
            final(self).colors_view().len() == old(self).graph_adjacency().len(),
            r is None ==> none_colored(final(self).colors_view()),
    {
        let ghost adj = self.graph.adjacency();
        let ghost k = self.color_num as nat;
        let n = self.graph.size();
        self.colors = none_colors(n);
        self.domains = full_domains(n, self.color_num);
        let mut unused = ColorSet::range(self.color_num);
        let mut pool = all_nodes(n);
        let ghost full = Seq::new(n as nat, |v: int| Set::new(|c: usize| c < self.color_num));
        proof {
            assert(self.domain_sets() =~= full);
        }
        if has_self_loop(&*self.graph) {
            return None;
        }
        proof {
            let colors = self.colors@;
            assert forall|v: int| 0 <= v < n && colors[v] is None implies #[trigger] self.domain_sets()[v] == allowed(
                adj,
                colors,
                k,
                v,
            ) by {
                assert forall|c: usize| !neighbor_holds(adj, colors, v, c) by {
                    if neighbor_holds(adj, colors, v, c) {
                        let j = choose|j: int| 0 <= j < adj[v].len() && colors[#[trigger] adj[v][j] as int] == Some(c);
                        assert(colors[adj[v][j] as int] is None);
                    }
                }
                assert(self.domain_sets()[v] =~= allowed(adj, colors, k, v));
            }
            assert forall|v: int| 0 <= v < n implies (#[trigger] self.domain_sets()[v]).finite() by {
                assert(self.domains@[v]@.finite());
            }
            assert forall|c: usize| #[trigger] unused@.contains(c) <==> unused_colors(colors, k).contains(c) by {
                if exists|v: int| 0 <= v < colors.len() && #[trigger] colors[v] == Some(c) {
                    let v = choose|v: int| 0 <= v < colors.len() && #[trigger] colors[v] == Some(c);
                    assert(colors[v] is None);
                }
            }
            assert(unused@ =~= unused_colors(colors, k));
            assert forall|v: int| 0 <= v < n implies ((#[trigger] colors[v]) is None <==> pool@.contains(v as usize)) by {
                assert(pool@[v] == v as usize);
            }
        }
        if self.search(&mut unused, &mut pool) {
            proof {
                lemma_full_is_coloring(adj, k, self.colors@);
            }
            Some(unwrap_colors(&self.colors))
        } else {
            proof {
                lemma_completable_from_nothing(adj, k, none_seq(n as nat));
                assert(none_seq(n as nat) =~= self.colors@);
            }
            None
        }
    }

    fn graph(&self) -> (r: &G) {
        &*self.graph
    }
}

} // verus!
