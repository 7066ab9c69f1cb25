//! A structural hash of a graph by Weisfeiler-Lehman label refinement: isomorphic
//! graphs hash alike.
use crate::graph::Graph;
use vstd::bytes::{spec_u64_to_le_bytes, u64_to_le_bytes};
use vstd::prelude::*;
use vstd::relations::{sorted_by, total_ordering};
use nohash::IntMap;
use xxhash_rust::xxh3::xxh3_64;

verus! {

/// The number of refinement rounds.
pub const WL_TEST_ROUNDS: usize = 5;

/// What XXH3 (64-bit, no seed) gives for `bytes`.
pub uninterp spec fn xxh3_of(bytes: Seq<u8>) -> u64;

/// Relies on `xxhash_rust::xxh3::xxh3_64`: the digest depends on the bytes alone.
#[verifier::external_body]
fn xxh3(bytes: &[u8]) -> (r: u64)
    ensures
        r == xxh3_of(bytes@),
{
    xxh3_64(bytes)
}

/// The ascending order on labels.
pub open spec fn label_leq() -> spec_fn(u64, u64) -> bool {
    |a: u64, b: u64| a <= b
}

/// The labels of `s` in ascending order.
pub open spec fn sorted_labels(s: Seq<u64>) -> Seq<u64> {
    s.sort_by(label_leq())
}

/// Sorts the labels into ascending order, by insertion.
fn sort_labels(v: &mut Vec<u64>)
    ensures
        sorted_by(final(v)@, label_leq()),
        final(v)@.to_multiset() == old(v)@.to_multiset(),
{
    broadcast use vstd::seq_lib::group_to_multiset_ensures;

    let mut out: Vec<u64> = Vec::new();
    let mut t: usize = 0;
    while t < v.len()
        invariant
            t <= v@.len(),
            v@ == old(v)@,
            forall|i: int, j: int| 0 <= i < j < out@.len() ==> out@[i] <= out@[j],
            out@.to_multiset() == v@.take(t as int).to_multiset(),
        decreases v@.len() - t,
    {
        let x = v[t];
        let mut p: usize = 0;
        while p < out.len() && out[p] <= x
            invariant
                p <= out@.len(),
                forall|i: int| 0 <= i < p ==> out@[i] <= x,
            decreases out@.len() - p,
        {
            p = p + 1;
        }
        let ghost before = out@;
        out.insert(p, x);
        proof {
            assert(out@ == before.insert(p as int, x));
            assert(v@.take(t + 1) == v@.take(t as int).push(x));
            vstd::seq_lib::to_multiset_insert(before, p as int, x);
            vstd::seq_lib::to_multiset_build(v@.take(t as int), x);
            assert(out@.to_multiset() == v@.take(t + 1).to_multiset());
            assert forall|i: int, j: int| 0 <= i < j < out@.len() implies out@[i] <= out@[j] by {
                if j < p {
                } else if j == p {
                } else if i < p {
                    assert(out@[j] == before[j - 1]);
                } else if i == p {
                    assert(out@[j] == before[j - 1]);
                    if j - 1 > p {
                        assert(before[p as int] <= before[j - 1]);
                    }
                } else {
                    assert(out@[j] == before[j - 1]);
                    assert(out@[i] == before[i - 1]);
                }
            }
        }
        t = t + 1;
    }
    proof {
        assert(v@.take(v@.len() as int) == v@);
    }
    *v = out;
}

/// A sorted copy of the labels is the one ascending order of them.
proof fn lemma_sorted_is_sorted_labels(before: Seq<u64>, after: Seq<u64>)
    requires
        sorted_by(after, label_leq()),
        after.to_multiset() == before.to_multiset(),
    ensures
        after == sorted_labels(before),
{
    let leq = label_leq();
    assert(total_ordering(leq));
    before.lemma_sort_by_ensures(leq);
    vstd::seq_lib::lemma_sorted_unique(after, sorted_labels(before), leq);
}

/// The little-endian bytes of each label, one label after another.
pub open spec fn label_bytes(s: Seq<u64>) -> Seq<u8>
    decreases s.len(),
{
    if s.len() == 0 {
        Seq::empty()
    } else {
        label_bytes(s.drop_last()) + spec_u64_to_le_bytes(s.last())
    }
}

/// The label of node `m`, or zero where `m` has none.
pub open spec fn label_at(labels: Seq<u64>, m: usize) -> u64 {
    if m < labels.len() {
        labels[m as int]
    } else {
        0
    }
}

/// The labels before refinement: each node's degree.
pub open spec fn initial_labels(adj: Seq<Seq<usize>>) -> Seq<u64> {
    Seq::new(adj.len(), |v: int| adj[v].len() as u64)
}

/// The labels of the neighbors of `v`, then the label of `v` itself.
pub open spec fn signature(adj: Seq<Seq<usize>>, labels: Seq<u64>, v: int) -> Seq<u64> {
    adj[v].map_values(|m: usize| label_at(labels, m)).push(label_at(labels, v as usize))
}

/// One round of refinement: each node's new label digests its sorted signature.
pub open spec fn refine(adj: Seq<Seq<usize>>, labels: Seq<u64>) -> Seq<u64> {
    Seq::new(adj.len(), |v: int| xxh3_of(label_bytes(sorted_labels(signature(adj, labels, v)))))
}

/// The labels after `rounds` rounds of refinement.
pub open spec fn labels_after(adj: Seq<Seq<usize>>, rounds: nat) -> Seq<u64>
    decreases rounds,
{
    if rounds == 0 {
        initial_labels(adj)
    } else {
        refine(adj, labels_after(adj, (rounds - 1) as nat))
    }
}

/// The sorted labels of each of the first `rounds` rounds, as bytes.
pub open spec fn round_bytes(adj: Seq<Seq<usize>>, rounds: nat) -> Seq<u8>
    decreases rounds,
{
    if rounds == 0 {
        Seq::empty()
    } else {
        round_bytes(adj, (rounds - 1) as nat) + label_bytes(sorted_labels(labels_after(adj, rounds)))
    }
}

/// The structural hash of a graph.
pub open spec fn structure_hash(adj: Seq<Seq<usize>>) -> u64 {
    xxh3_of(round_bytes(adj, WL_TEST_ROUNDS as nat))
}

/// The little-endian bytes of `labels`.
fn bytes_of(labels: &Vec<u64>) -> (r: Vec<u8>)
    ensures
        r@ == label_bytes(labels@),
{
    let mut out: Vec<u8> = Vec::new();
    let mut i: usize = 0;
    while i < labels.len()
        invariant
            i <= labels@.len(),
            out@ == label_bytes(labels@.take(i as int)),
        decreases labels@.len() - i,
    {
        let mut b = u64_to_le_bytes(labels[i]);
        out.append(&mut b);
        proof {
            assert(labels@.take(i + 1).drop_last() == labels@.take(i as int));
        }
        i = i + 1;
    }
    assert(labels@.take(labels@.len() as int) == labels@);
    out
}

/// A label for each node, kept in a `nohash::IntMap`.
#[verifier::external_body]
pub struct LabelMap {
    inner: IntMap<usize, u64>,
}

/// The labels that a `LabelMap` holds, by node.
pub uninterp spec fn label_map_contents(m: LabelMap) -> Map<usize, u64>;

impl LabelMap {
    /// Relies on `IntMap`'s `Default` (std's `HashMap`): a map with no entries.
    #[verifier::external_body]
    fn new() -> (r: LabelMap)
        ensures
            label_map_contents(r).dom() == Set::<usize>::empty(),
    {
        LabelMap { inner: IntMap::default() }
    }

    /// Relies on `HashMap::insert`: `k` maps to `v` afterwards, the rest is unchanged.
    #[verifier::external_body]
    fn insert(&mut self, k: usize, v: u64)
        ensures
            label_map_contents(*final(self)) == label_map_contents(*old(self)).insert(k, v),
    {
        self.inner.insert(k, v);
    }

    /// Relies on `HashMap::get`: the label of `k`, if it has one.
    #[verifier::external_body]
    fn get(&self, k: usize) -> (r: Option<u64>)
        ensures
            r == if label_map_contents(*self).contains_key(k) {
                Some(label_map_contents(*self)[k])
            } else {
                None::<u64>
            },
    {
        self.inner.get(&k).cloned()
    }

    /// The label of `k`, or zero where it has none.
    fn label_or_zero(&self, k: usize) -> (r: u64)
        ensures
            r == if label_map_contents(*self).contains_key(k) {
                label_map_contents(*self)[k]
            } else {
                0
            },
    {
        match self.get(k) {
            Some(l) => l,
            None => 0,
        }
    }
}

/// The labels of a sequence, keyed by position.
pub open spec fn map_of(labels: Seq<u64>) -> Map<usize, u64> {
    Map::new(|k: usize| k < labels.len(), |k: usize| labels[k as int])
}

/// Adding the next label to a map of the first `i` labels.
proof fn lemma_map_of_push(s: Seq<u64>, i: int)
    requires
        0 <= i < s.len(),
        i <= usize::MAX,
    ensures
        map_of(s.take(i + 1)) == map_of(s.take(i)).insert(i as usize, s[i]),
{
    assert(map_of(s.take(i + 1)) =~= map_of(s.take(i)).insert(i as usize, s[i]));
}

/// The labels of a sequence, keyed by position: a label per node, zero elsewhere.
proof fn lemma_map_of_lookup(s: Seq<u64>, k: usize)
    ensures
        (if map_of(s).contains_key(k) {
            map_of(s)[k]
        } else {
            0
        }) == label_at(s, k),
{
}

/// A value that can be hashed.
pub trait Hashable<T> {
    /// Returns a hash of the value.
    fn hash(&self) -> T;
}

impl<G: Graph> Hashable<u64> for G {
    /// The structural hash of the graph.
    fn hash(&self) -> (r: u64)
        ensures
            r == structure_hash(self.adjacency()),
    {
        let ghost adj = self.adjacency();
        let n = self.size();
        let mut labels = LabelMap::new();
        let ghost mut lab: Seq<u64> = initial_labels(adj);
        let mut v: usize = 0;
        assert(map_of(lab.take(0)) =~= label_map_contents(labels));
        while v < n
            invariant
                adj == self.adjacency(),
                n == adj.len(),
                lab == initial_labels(adj),
                v <= n,
                label_map_contents(labels) == map_of(lab.take(v as int)),
            decreases n - v,
        {
            labels.insert(v, self.neighbors(v).len() as u64);
            proof {
                lemma_map_of_push(lab, v as int);
            }
            v = v + 1;
        }
        assert(lab.take(n as int) == lab);
        assert(lab == labels_after(adj, 0));
        let mut hashes: Vec<u8> = Vec::new();
        let mut round: usize = 0;
        while round < WL_TEST_ROUNDS
            invariant
                adj == self.adjacency(),
                n == adj.len(),
                round <= WL_TEST_ROUNDS,
                lab == labels_after(adj, round as nat),
                lab.len() == n,
                label_map_contents(labels) == map_of(lab),
                hashes@ == round_bytes(adj, round as nat),
            decreases WL_TEST_ROUNDS - round,
        {
            let ghost next = refine(adj, lab);
            let mut new_labels = LabelMap::new();
            assert(map_of(next.take(0)) =~= label_map_contents(new_labels));
            let mut node: usize = 0;
            while node < n
                invariant
                    adj == self.adjacency(),
                    n == adj.len(),
                    lab.len() == n,
                    next == refine(adj, lab),
                    label_map_contents(labels) == map_of(lab),
                    node <= n,
                    label_map_contents(new_labels) == map_of(next.take(node as int)),
                decreases n - node,
            {
                let neighbors = self.neighbors(node);
                let mut sig: Vec<u64> = Vec::new();
                let mut j: usize = 0;
                while j < neighbors.len()
                    invariant
                        label_map_contents(labels) == map_of(lab),
                        lab.len() == n,
                        node < n,
                        neighbors@ == adj[node as int],
                        j <= neighbors@.len(),
                        sig@ == neighbors@.take(j as int).map_values(|m: usize| label_at(lab, m)),
                    decreases neighbors@.len() - j,
                {
                    let label = labels.label_or_zero(neighbors[j]);
                    proof {
                        lemma_map_of_lookup(lab, neighbors@[j as int]);
                    }
                    sig.push(label);
                    j = j + 1;
                    assert(sig@ =~= neighbors@.take(j as int).map_values(|m: usize| label_at(lab, m)));
                }
                let own = labels.label_or_zero(node);
                proof {
                    lemma_map_of_lookup(lab, node);
                }
                sig.push(own);
                proof {
                    assert(neighbors@.take(j as int) == neighbors@);
                    assert(sig@ =~= signature(adj, lab, node as int));
                }
                let ghost unsorted = sig@;
                sort_labels(&mut sig);
                proof {
                    lemma_sorted_is_sorted_labels(unsorted, sig@);
                }
                let bytes = bytes_of(&sig);
                new_labels.insert(node, xxh3(bytes.as_slice()));
                proof {
                    lemma_map_of_push(next, node as int);
                }
                node = node + 1;
            }
            labels = new_labels;
            proof {
                assert(next.take(n as int) == next);
                lab = next;
            }
            let mut values: Vec<u64> = Vec::new();
            let mut node: usize = 0;
            while node < n
                invariant
                    n == adj.len(),
                    lab.len() == n,
                    label_map_contents(labels) == map_of(lab),
                    node <= n,
                    values@ == lab.take(node as int),
                decreases n - node,
            {
                let label = labels.label_or_zero(node);
                proof {
                    lemma_map_of_lookup(lab, node);
                }
                values.push(label);
                node = node + 1;
                assert(values@ =~= lab.take(node as int));
            }
            assert(lab.take(n as int) == lab);
            let ghost unsorted = values@;
            sort_labels(&mut values);
            proof {
                lemma_sorted_is_sorted_labels(unsorted, values@);
            }
            let mut bytes = bytes_of(&values);
            hashes.append(&mut bytes);
            round = round + 1;
        }
        xxh3(hashes.as_slice())
    }
}

} // verus!
