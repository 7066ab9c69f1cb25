use super::{
    all_colored, completable, extends, has_self_loop, least_completion, lemma_assign_proper,
    lemma_completable_from_nothing, lemma_full_is_coloring, lemma_least_from_branch,
    lemma_least_when_full, lex_less,
    neighbor_has_color, none_colored, none_colors, partial_proper, unwrap_all, unwrap_colors,
    ColorAlgorithm,
};
use crate::graph::{adj_wf, is_coloring, loop_free, Graph};
use crate::{Color, Node};
use std::rc::Rc;
use vstd::prelude::*;

verus! {

/// An exhaustive backtracking search: colors the nodes in index order, each with the
/// first color that no colored neighbor holds, and backs up when none is left.
pub struct NaiveColoring<G: Graph> {
    color_num: usize,
    graph: Rc<G>,
    colors: Vec<Option<Color>>,
}

impl<G: Graph> NaiveColoring<G> {
    /// The color of each node, `None` where it has none.
    pub closed spec fn colors_view(&self) -> Seq<Option<usize>> {
        self.colors@
    }

    /// A search of `graph` with the colors `0..color_num`.
    pub fn create(color_num: usize, graph: Rc<G>) -> (r: Self)
        requires
            adj_wf(graph.adjacency()),
        ensures
            r.wf(),
            r.graph_adjacency() == graph.adjacency(),
            r.budget() == color_num,
            r.colors_view().len() == graph.adjacency().len(),
            none_colored(r.colors_view()),
    {
        let n = graph.size();
        let colors = none_colors(n);
        NaiveColoring { color_num, graph, colors }
    }

    /// Colors `node` and the nodes after it, given that the nodes before it are colored.
    /// On success the coloring is the first completion in lexicographic order; on
    /// failure the colors are as they were, and no completion exists.
    fn search(&mut self, node: Node, size: usize) -> (r: bool)
        requires
            adj_wf(old(self).graph.adjacency()),
            loop_free(old(self).graph.adjacency()),
            old(self).colors@.len() == old(self).graph.adjacency().len(),
            size == old(self).colors@.len(),
            node <= old(self).colors@.len(),
            forall|v: int| 0 <= v < node ==> (#[trigger] old(self).colors@[v]) is Some,
            forall|v: int| node <= v < old(self).colors@.len() ==> (#[trigger] old(self).colors@[v]) is None,
            forall|v: int| 0 <= v < node ==> (#[trigger] old(self).colors@[v]).unwrap() < old(self).color_num,
            partial_proper(old(self).graph.adjacency(), old(self).colors@),
        ensures
            final(self).graph == old(self).graph,
            final(self).color_num == old(self).color_num,
            final(self).colors@.len() == old(self).colors@.len(),
            r ==> all_colored(final(self).colors@) && partial_proper(final(self).graph.adjacency(), final(self).colors@)
                && forall|v: int| 0 <= v < final(self).colors@.len() ==> (#[trigger] final(self).colors@[v]).unwrap() < final(self).color_num,
            r ==> least_completion(
                old(self).graph.adjacency(),
                old(self).color_num as nat,
                old(self).colors@,
                unwrap_all(final(self).colors@),
            ),
            !r ==> final(self).colors@ == old(self).colors@
                && !completable(old(self).graph.adjacency(), old(self).color_num as nat, old(self).colors@),
        decreases size - node,
    {
        let ghost adj = self.graph.adjacency();
        let ghost k = self.color_num as nat;
        let ghost colors0 = self.colors@;
        let ghost graph0 = self.graph;
        if node == size {
            proof {
                lemma_least_when_full(adj, k, colors0);
            }
            return true;
        }
        let mut color: usize = 0;
        while color < self.color_num
            invariant
                adj == self.graph.adjacency(),
                self.graph == graph0,
                graph0 == old(self).graph,
                self.color_num == old(self).color_num,
                k == self.color_num,
                adj_wf(adj),
                loop_free(adj),
                self.colors@ == colors0,
                colors0 == old(self).colors@,
                colors0.len() == adj.len(),
                node < adj.len(),
                adj.len() == size,
                colors0[node as int] is None,
                forall|v: int| 0 <= v < node ==> (#[trigger] colors0[v]) is Some,
                forall|v: int| node <= v < colors0.len() ==> (#[trigger] colors0[v]) is None,
                forall|v: int| 0 <= v < node ==> (#[trigger] colors0[v]).unwrap() < k,
                partial_proper(adj, colors0),
                color <= self.color_num,
                forall|f: Seq<usize>|
                    is_coloring(adj, k, f) && extends(f, colors0) ==> #[trigger] f[node as int] >= color,
            decreases self.color_num - color,
        {
            let taken = neighbor_has_color(&*self.graph, &self.colors, node, color);
            if taken {
                proof {
                    let j = choose|j: int|
                        0 <= j < adj[node as int].len() && colors0[#[trigger] adj[node as int][j] as int] == Some(color);
                    assert forall|f: Seq<usize>| is_coloring(adj, k, f) && extends(f, colors0) implies #[trigger] f[node as int]
                        != color by {
                        assert(f[adj[node as int][j] as int] == color);
                    }
                }
            } else {
                self.colors[node] = Some(color);
                let ghost colors1 = self.colors@;
                proof {
                    assert(colors1 == colors0.update(node as int, Some(color)));
                    lemma_assign_proper(adj, colors0, node as int, color);
                }
                assert(self.colors@.len() == colors0.len());
                if self.search(node + 1, size) {
                    proof {
                        lemma_least_from_branch(adj, k, colors0, node as int, color, unwrap_all(self.colors@));
                    }
                    return true;
                }
                self.colors[node] = None;
                proof {
                    assert(self.colors@ =~= colors0);
                    assert forall|f: Seq<usize>| is_coloring(adj, k, f) && extends(f, colors0) implies #[trigger] f[node as int]
                        != color by {
                        if f[node as int] == color {
                            assert(extends(f, colors1));
                        }
                    }
                }
            }
            color = color + 1;
        }
        proof {
            assert forall|f: Seq<usize>| is_coloring(adj, k, f) && extends(f, colors0) implies false by {
                assert(f[node as int] < k);
            }
        }
        false
    }
}

impl<G: Graph> ColorAlgorithm<G> for NaiveColoring<G> {
    closed spec fn graph_adjacency(&self) -> Seq<Seq<usize>> {
        self.graph.adjacency()
    }

    closed spec fn budget(&self) -> nat {
        self.color_num as nat
    }

    closed spec fn wf(&self) -> bool {
        adj_wf(self.graph.adjacency())
    }

    /// Nodes are colored in index order, each with the lowest color that works, so a
    /// coloring found is the first in lexicographic order. After a failure no node is
    /// colored.
    fn color(&mut self, num: usize) -> (r: Option<Vec<Color>>)
        ensures
            r matches Some(c) ==> forall|f: Seq<usize>|
                is_coloring(old(self).graph_adjacency(), old(self).budget(), f) ==> !lex_less(f, c@),
            final(self).colors_view().len() == old(self).graph_adjacency().len(),
            r is None ==> none_colored(final(self).colors_view()),
    {
        let n = self.graph.size();
        self.colors = none_colors(n);
        if has_self_loop(&*self.graph) {
            return None;
        }
        let ghost start = self.colors@;
        proof {
            lemma_completable_from_nothing(self.graph.adjacency(), self.color_num as nat, self.colors@);
        }
        if self.search(0, n) {
            proof {
                lemma_full_is_coloring(self.graph.adjacency(), self.color_num as nat, self.colors@);
                assert forall|f: Seq<usize>| is_coloring(self.graph.adjacency(), self.color_num as nat, f) implies extends(
                    f,
                    start,
                ) by {}
            }
            let r = unwrap_colors(&self.colors);
            Some(r)
        } else {
            None
        }
    }

    fn graph(&self) -> (r: &G) {
        &*self.graph
    }
}

} // verus!
