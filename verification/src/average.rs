//! The average distance from a node to the nodes it reaches.

use crate::graph::{
    graph_view, is_distance_map, lemma_distance_map_unique, lemma_distance_to_self,
    lemma_node_set_bounded, node_limit, reachable,
};
use crate::search::bfs;
use std::collections::HashMap;
use vstd::prelude::*;
use vstd::std_specs::iter::IteratorSpec;

verus! {

/// The average distance from one source to the other nodes it reaches, kept
/// exact: the average is the fraction `total / others`.
#[derive(Clone, Copy, Debug, PartialEq, Eq, Structural)]
pub struct AvgDistance {
    /// The sum of the distances from the source to the nodes it reaches.
    pub total: u64,
    /// The number of nodes that the source reaches, itself not counted.
    pub others: u64,
}

impl AvgDistance {
    /// An average over no node is undefined.
    pub open spec fn defined(self) -> bool {
        self.others > 0
    }

    /// Is the average defined: does the source reach a node other than itself?
    pub fn is_defined(&self) -> (yes: bool)
        ensures
            yes == self.defined(),
    {
        self.others > 0
    }
}

/// The sum of the values of a finite map.
pub open spec fn sum_values(m: Map<u32, u32>) -> nat
    decreases m.dom().len(),
    when m.dom().finite()
{
    if m.dom().len() == 0 {
        0
    } else {
        let k = m.dom().choose();
        m[k] as nat + sum_values(m.remove(k))
    }
}

/// The sum of the numbers of a sequence.
pub open spec fn sum_seq(s: Seq<u32>) -> nat
    decreases s.len(),
{
    if s.len() == 0 {
        0
    } else {
        sum_seq(s.drop_last()) + s.last() as nat
    }
}

/// The function that looks a key up in `m`.
pub open spec fn value_in(m: Map<u32, u32>) -> spec_fn(u32) -> u32 {
    |k: u32| m[k]
}

/// Is `avg` the average distance that the distance map `dist` gives: the sum
/// of all distances, over the number of entries less the source's own?
pub open spec fn is_average_of(avg: AvgDistance, dist: Map<u32, u32>) -> bool {
    &&& avg.total == sum_values(dist)
    &&& avg.others == if dist.len() == 0 {
        0
    } else {
        dist.len() - 1
    }
}

/// The sum of the values is the value at any one key plus the sum of the
/// values at the other keys.
pub proof fn lemma_sum_values_remove(m: Map<u32, u32>, k: u32)
    requires
        m.contains_key(k),
    ensures
        sum_values(m) == m[k] + sum_values(m.remove(k)),
    decreases m.dom().len(),
{
    lemma_node_set_bounded(m.dom());
    let c = m.dom().choose();
    if c != k {
        lemma_sum_values_remove(m.remove(c), k);
        lemma_sum_values_remove(m.remove(k), c);
        assert(m.remove(c).remove(k) =~= m.remove(k).remove(c));
    }
}

/// The sum of the values of a map is the sum along any sequence that holds
/// each key once.
pub proof fn lemma_sum_values_enumerated(m: Map<u32, u32>, keys: Seq<u32>)
    requires
        keys.no_duplicates(),
        forall|k: u32|
            #![trigger keys.contains(k)]
            #![trigger m.contains_key(k)]
            keys.contains(k) <==> m.contains_key(k),
    ensures
        sum_values(m) == sum_seq(keys.map_values(value_in(m))),
    decreases keys.len(),
{
    lemma_node_set_bounded(m.dom());
    if keys.len() == 0 {
        assert forall|k: u32| !m.dom().contains(k) by {
            assert(!keys.contains(k));
        }
        assert(m.dom() =~= Set::<u32>::empty());
    } else {
        let k = keys.last();
        let rest = keys.drop_last();
        let fewer = m.remove(k);
        assert(keys.contains(k));
        assert forall|j: u32| rest.contains(j) <==> fewer.contains_key(j) by {
            if rest.contains(j) {
                let i = choose|i: int| 0 <= i < rest.len() && rest[i] == j;
                assert(keys[i] == j);
                assert(keys.contains(j));
            }
            if fewer.contains_key(j) {
                assert(keys.contains(j));
                let i = choose|i: int| 0 <= i < keys.len() && keys[i] == j;
                assert(rest[i] == j);
            }
        }
        lemma_sum_values_enumerated(fewer, rest);
        lemma_sum_values_remove(m, k);
        assert(rest.map_values(value_in(fewer)) =~= keys.map_values(value_in(m)).drop_last());
    }
}

/// The projection of an entry to its value.
pub open spec fn entry_value() -> spec_fn((u32, u32)) -> u32 {
    |e: (u32, u32)| e.1
}

/// The projection of an entry to its key.
pub open spec fn entry_key<V>() -> spec_fn((u32, V)) -> u32 {
    |e: (u32, V)| e.0
}

/// A sequence that holds each entry of a map once holds each key once.
pub proof fn lemma_entries_enumerate<V>(m: Map<u32, V>, pairs: Seq<(u32, V)>)
    requires
        pairs.no_duplicates(),
        pairs.to_set() == m.kv_pairs(),
    ensures
        pairs.map_values(entry_key()).no_duplicates(),
        forall|k: u32|
            #![trigger pairs.map_values(entry_key()).contains(k)]
            #![trigger m.contains_key(k)]
            pairs.map_values(entry_key()).contains(k) <==> m.contains_key(k),
        forall|i: int| 0 <= i < pairs.len() ==> (#[trigger] pairs[i]).1 == m[pairs[i].0],
{
    let keys = pairs.map_values(entry_key());
    assert forall|i: int| 0 <= i < pairs.len() implies m.contains_key((#[trigger] pairs[i]).0)
        && pairs[i].1 == m[pairs[i].0] by {
        assert(pairs.to_set().contains(pairs[i]));
    }
    assert forall|i: int, j: int| 0 <= i < keys.len() && 0 <= j < keys.len() && i != j implies
        keys[i] != keys[j] by {
        assert(pairs[i] != pairs[j]);
    }
    assert forall|k: u32| keys.contains(k) <==> m.contains_key(k) by {
        if keys.contains(k) {
            let i = choose|i: int| 0 <= i < keys.len() && keys[i] == k;
            assert(m.contains_key(pairs[i].0));
        }
        if m.contains_key(k) {
            assert(m.kv_pairs().contains((k, m[k])));
            assert(pairs.to_set().contains((k, m[k])));
            let i = choose|i: int| 0 <= i < pairs.len() && pairs[i] == (k, m[k]);
            assert(keys[i] == k);
        }
    }
}

/// Computes the average distance that a distance map gives.
///
/// The sum runs over all entries, the source's own 0 included; the count
/// leaves the source out. A map with fewer than two entries gives an
/// undefined average.
pub fn average_distance(dist: &HashMap<u32, u32>) -> (avg: AvgDistance)
    ensures
        is_average_of(avg, dist@),
        avg.defined() <==> dist@.len() >= 2,
{
    let mut total: u64 = 0;
    proof {
        lemma_node_set_bounded(dist@.dom());
    }
    for entry in it: dist.iter()
        invariant
            dist@.len() <= node_limit(),
            it.seq() == dist.iter().remaining(),
            it.seq().no_duplicates(),
            total == sum_seq(it.seq().unref().map_values(entry_value()).take(it.index())),
            total <= it.index() * u32::MAX,
    {
        proof {
            let values = it.seq().unref().map_values(entry_value());
            assert(values.take(it.index() + 1).drop_last() =~= values.take(it.index()));
            assert((it.index() + 1) * u32::MAX <= node_limit() * u32::MAX) by (nonlinear_arith)
                requires
                    it.index() + 1 <= node_limit(),
            ;
        }
        total += *entry.1 as u64;
    }
    proof {
        let pairs = dist.iter().remaining().unref();
        let keys = pairs.map_values(entry_key());
        let values = pairs.map_values(entry_value());
        assert(values.take(values.len() as int) =~= values);
        lemma_entries_enumerate(dist@, pairs);
        lemma_sum_values_enumerated(dist@, keys);
        assert(values =~= keys.map_values(value_in(dist@)));
    }
    let entries: usize = dist.len();
    AvgDistance { total, others: if entries == 0 { 0 } else { (entries - 1) as u64 } }
}

/// Is `avg` the average distance from source `s`: the one that the distance
/// map of `s` gives?
pub open spec fn is_average_from(g: Map<u32, Seq<u32>>, s: u32, avg: AvgDistance) -> bool {
    exists|dist: Map<u32, u32>| #[trigger] is_distance_map(g, s, dist) && is_average_of(avg, dist)
}

/// The average distance is undefined exactly when the distance map has one
/// entry, the source's own.
pub proof fn lemma_undefined_iff_alone(
    g: Map<u32, Seq<u32>>,
    s: u32,
    dist: Map<u32, u32>,
    avg: AvgDistance,
)
    requires
        is_distance_map(g, s, dist),
        is_average_of(avg, dist),
    ensures
        !avg.defined() <==> dist.len() == 1,
        !avg.defined() <==> dist.dom() == set![s],
{
    lemma_node_set_bounded(dist.dom());
    lemma_distance_to_self(g, s, dist);
    if dist.len() == 1 {
        assert(dist.dom().remove(s).len() == 0);
        assert(dist.dom() =~= dist.dom().remove(s).insert(s));
        assert(dist.dom() =~= set![s]);
    }
    if dist.dom() == set![s] {
        assert(set![s].len() == 1);
    }
}

/// The average distance from a source is undefined exactly when the source
/// reaches no node but itself.
pub proof fn lemma_undefined_iff_reaches_none(g: Map<u32, Seq<u32>>, s: u32, avg: AvgDistance)
    requires
        is_average_from(g, s, avg),
    ensures
        !avg.defined() <==> forall|t: u32| reachable(g, s, t) ==> t == s,
{
    let dist = choose|d: Map<u32, u32>| #[trigger]
        is_distance_map(g, s, d) && is_average_of(avg, d);
    lemma_undefined_iff_alone(g, s, dist, avg);
    lemma_distance_to_self(g, s, dist);
    if forall|t: u32| reachable(g, s, t) ==> t == s {
        assert(dist.dom() =~= set![s]);
    }
    if dist.dom() == set![s] {
        assert forall|t: u32| reachable(g, s, t) implies t == s by {
            assert(dist.contains_key(t));
        }
    }
}

/// A source has one average distance.
pub proof fn lemma_average_from_unique(
    g: Map<u32, Seq<u32>>,
    s: u32,
    first: AvgDistance,
    second: AvgDistance,
)
    requires
        is_average_from(g, s, first),
        is_average_from(g, s, second),
    ensures
        first == second,
{
    let d1 = choose|d: Map<u32, u32>| #[trigger]
        is_distance_map(g, s, d) && is_average_of(first, d);
    let d2 = choose|d: Map<u32, u32>| #[trigger]
        is_distance_map(g, s, d) && is_average_of(second, d);
    lemma_distance_map_unique(g, s, d1, d2);
}

/// Does `per_node` hold, for each key of the graph and for no other node,
/// the average distance from it?
pub open spec fn is_per_node_average(
    g: Map<u32, Seq<u32>>,
    per_node: Map<u32, AvgDistance>,
) -> bool {
    &&& per_node.dom() == g.dom()
    &&& forall|k: u32|
        per_node.contains_key(k) ==> is_average_from(g, k, #[trigger] per_node[k])
}

/// A graph has one map of per-node averages.
pub proof fn lemma_per_node_average_unique(
    g: Map<u32, Seq<u32>>,
    first: Map<u32, AvgDistance>,
    second: Map<u32, AvgDistance>,
)
    requires
        is_per_node_average(g, first),
        is_per_node_average(g, second),
    ensures
        first == second,
{
    assert forall|k: u32| first.contains_key(k) implies first[k] == second[k] by {
        assert(second.contains_key(k));
        lemma_average_from_unique(g, k, first[k], second[k]);
    }
    assert(first =~= second);
}

/// Computes the average distance from every key of the adjacency structure.
///
/// Each key is the source of one breadth-first search. A node that occurs
/// only as a neighbour is no source and gets no entry. A source that reaches
/// no other node gets an undefined average.
pub fn bfs_all_nodes(adj_list: &HashMap<u32, Vec<u32>>) -> (avg_dists: HashMap<u32, AvgDistance>)
    ensures
        is_per_node_average(graph_view(*adj_list), avg_dists@),
{
    let mut avg_dists: HashMap<u32, AvgDistance> = HashMap::new();
    for node in it: adj_list.keys()
        invariant
            it.seq() == adj_list.keys().remaining(),
            avg_dists@.dom() == it.seq().unref().take(it.index()).to_set(),
            forall|k: u32|
                avg_dists@.contains_key(k) ==> is_average_from(
                    graph_view(*adj_list),
                    k,
                    #[trigger] avg_dists@[k],
                ),
    {
        let dist = bfs(*node, adj_list);
        let avg = average_distance(&dist);
        avg_dists.insert(*node, avg);
        proof {
            let sources = it.seq().unref();
            assert(sources.take(it.index() + 1) =~= sources.take(it.index()).push(*node));
            sources.take(it.index()).lemma_push_to_set_commute(*node);
            assert(avg_dists@.dom() =~= sources.take(it.index() + 1).to_set());
            assert(is_distance_map(graph_view(*adj_list), *node, dist@));
        }
    }
    proof {
        let sources = adj_list.keys().remaining().unref();
        assert(sources.take(sources.len() as int) =~= sources);
        assert(avg_dists@.dom() =~= graph_view(*adj_list).dom());
    }
    avg_dists
}

} // verus!
