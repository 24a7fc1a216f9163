//! The graph-wide average: the mean of the defined per-node averages.

use crate::average::{
    bfs_all_nodes, entry_key, is_per_node_average, lemma_entries_enumerate,
    lemma_per_node_average_unique, lemma_undefined_iff_reaches_none, AvgDistance,
};
use crate::graph::{adjacency_list, adjacency_of, reachable};
use std::collections::HashMap;
use vstd::prelude::*;
use vstd::seq_lib::{lemma_seq_contains_after_push, to_multiset_build, to_multiset_remove};
use vstd::std_specs::iter::IteratorSpec;

verus! {

/// The function that looks a node's average up in `per_node`.
pub open spec fn average_in(per_node: Map<u32, AvgDistance>) -> spec_fn(u32) -> AvgDistance {
    |k: u32| per_node[k]
}

/// Does `nodes` hold each node whose average is defined, once, and no other
/// node, and is each term the average of the node at its index?
pub open spec fn lists_defined_averages(
    nodes: Seq<u32>,
    terms: Seq<AvgDistance>,
    per_node: Map<u32, AvgDistance>,
) -> bool {
    &&& nodes.no_duplicates()
    &&& forall|k: u32|
        #![trigger nodes.contains(k)]
        #![trigger per_node.contains_key(k)]
        nodes.contains(k) <==> per_node.contains_key(k) && per_node[k].defined()
    &&& terms == nodes.map_values(average_in(per_node))
}

/// Are `terms` the defined averages of `per_node`: one term for each node
/// whose average is defined, in some order, and no other term?
pub open spec fn holds_defined_averages(
    terms: Seq<AvgDistance>,
    per_node: Map<u32, AvgDistance>,
) -> bool {
    exists|nodes: Seq<u32>| #[trigger] lists_defined_averages(nodes, terms, per_node)
}

/// Two sequences that hold the same nodes, each once, give the same terms
/// when each node is replaced by its average: the same averages, each as
/// often, in whatever order.
pub proof fn lemma_same_nodes_same_terms(
    per_node: Map<u32, AvgDistance>,
    first: Seq<u32>,
    second: Seq<u32>,
)
    requires
        first.no_duplicates(),
        second.no_duplicates(),
        forall|k: u32|
            #![trigger first.contains(k)]
            #![trigger second.contains(k)]
            first.contains(k) <==> second.contains(k),
    ensures
        first.map_values(average_in(per_node)).to_multiset() == second.map_values(
            average_in(per_node),
        ).to_multiset(),
    decreases first.len(),
{
    let f = average_in(per_node);
    if first.len() == 0 {
        if second.len() > 0 {
            assert(second.contains(second[0]));
            assert(first.contains(second[0]));
        }
        assert(first.map_values(f) =~= second.map_values(f));
    } else {
        let x: u32 = first.last();
        let shorter = first.drop_last();
        assert(first.contains(x));
        assert(second.contains(x));
        let j = choose|j: int| 0 <= j < second.len() && second[j] == x;
        let without = second.remove(j);
        assert forall|a: int, b: int|
            0 <= a < without.len() && 0 <= b < without.len() && a != b implies without[a]
            != without[b] by {
            let a2: int = if a < j {
                a
            } else {
                a + 1
            };
            let b2: int = if b < j {
                b
            } else {
                b + 1
            };
            assert(without[a] == second[a2] && without[b] == second[b2]);
        }
        assert forall|k: u32|
            #![trigger shorter.contains(k)]
            #![trigger without.contains(k)]
            shorter.contains(k) <==> without.contains(k) by {
            if shorter.contains(k) {
                let i = choose|i: int| 0 <= i < shorter.len() && shorter[i] == k;
                assert(first[i] == k);
                assert(first.contains(k));
                assert(second.contains(k));
                let m = choose|m: int| 0 <= m < second.len() && second[m] == k;
                let m2: int = if m < j {
                    m
                } else {
                    m - 1
                };
                assert(without[m2] == k);
            }
            if without.contains(k) {
                let m = choose|m: int| 0 <= m < without.len() && without[m] == k;
                let m2: int = if m < j {
                    m
                } else {
                    m + 1
                };
                assert(second[m2] == k);
                assert(second.contains(k));
                assert(first.contains(k));
                let i = choose|i: int| 0 <= i < first.len() && first[i] == k;
                assert(shorter[i] == k);
            }
        }
        lemma_same_nodes_same_terms(per_node, shorter, without);
        let terms1 = first.map_values(f);
        let terms2 = second.map_values(f);
        assert(terms1 =~= shorter.map_values(f).push(f(x)));
        assert(terms2.remove(j) =~= without.map_values(f));
        to_multiset_build(shorter.map_values(f), f(x));
        to_multiset_remove(terms2, j);
        terms2.to_multiset_ensures();
        assert(terms2.contains(terms2[j]));
        assert(terms2.to_multiset() =~= terms2.to_multiset().remove(f(x)).insert(f(x)));
    }
}

/// The defined averages of a map are determined up to their order.
pub proof fn lemma_defined_averages_unique(
    per_node: Map<u32, AvgDistance>,
    first: Seq<AvgDistance>,
    second: Seq<AvgDistance>,
)
    requires
        holds_defined_averages(first, per_node),
        holds_defined_averages(second, per_node),
    ensures
        first.to_multiset() == second.to_multiset(),
{
    let nodes1 = choose|nodes: Seq<u32>| #[trigger] lists_defined_averages(nodes, first, per_node);
    let nodes2 = choose|nodes: Seq<u32>| #[trigger] lists_defined_averages(nodes, second, per_node);
    lemma_same_nodes_same_terms(per_node, nodes1, nodes2);
}

/// There is no defined average to collect exactly when no node has one.
pub proof fn lemma_no_term_iff_none_defined(
    per_node: Map<u32, AvgDistance>,
    terms: Seq<AvgDistance>,
)
    requires
        holds_defined_averages(terms, per_node),
    ensures
        terms.len() == 0 <==> forall|k: u32|
            per_node.contains_key(k) ==> !(#[trigger] per_node[k]).defined(),
{
    let nodes = choose|nodes: Seq<u32>| #[trigger] lists_defined_averages(nodes, terms, per_node);
    if terms.len() > 0 {
        assert(nodes.contains(nodes[0]));
    }
    if terms.len() == 0 {
        assert forall|k: u32| per_node.contains_key(k) implies !(#[trigger] per_node[k]).defined()
        by {
            if per_node[k].defined() {
                assert(nodes.contains(k));
            }
        }
    }
}

/// Collects the defined averages, leaving the undefined ones out.
///
/// The result holds one term for each node whose average is defined. The
/// order of the terms is that in which the map hands its entries out.
pub fn defined_averages(avg_dists: &HashMap<u32, AvgDistance>) -> (terms: Vec<AvgDistance>)
    ensures
        holds_defined_averages(terms@, avg_dists@),
{
    let mut terms: Vec<AvgDistance> = Vec::new();
    let ghost mut nodes: Seq<u32> = Seq::empty();
    for entry in it: avg_dists.iter()
        invariant
            it.seq() == avg_dists.iter().remaining(),
            it.seq().no_duplicates(),
            nodes.no_duplicates(),
            forall|k: u32|
                #![trigger nodes.contains(k)]
                nodes.contains(k) <==> it.seq().unref().map_values(entry_key()).take(
                    it.index(),
                ).contains(k) && avg_dists@[k].defined(),
            terms@ == nodes.map_values(average_in(avg_dists@)),
    {
        let ghost pairs = it.seq().unref();
        let ghost keys = pairs.map_values(entry_key());
        let ghost before = nodes;
        proof {
            lemma_entries_enumerate(avg_dists@, pairs);
            assert(keys.take(it.index() + 1) =~= keys.take(it.index()).push(*entry.0));
            assert(!keys.take(it.index()).contains(*entry.0)) by {
                if keys.take(it.index()).contains(*entry.0) {
                    let i = choose|i: int|
                        0 <= i < it.index() && keys.take(it.index())[i] == *entry.0;
                    assert(keys[i] == keys[it.index()]);
                }
            }
            assert(pairs[it.index()].1 == avg_dists@[*entry.0]);
        }
        if entry.1.is_defined() {
            terms.push(*entry.1);
            proof {
                nodes = nodes.push(*entry.0);
                before.lemma_push_map_commute(average_in(avg_dists@), *entry.0);
                assert(!before.contains(*entry.0));
                assert forall|i: int, j: int|
                    0 <= i < nodes.len() && 0 <= j < nodes.len() && i != j implies nodes[i]
                    != nodes[j] by {
                    if i < before.len() {
                        assert(before.contains(before[i]));
                    }
                    if j < before.len() {
                        assert(before.contains(before[j]));
                    }
                }
            }
        }
        proof {
            lemma_seq_contains_after_push(keys.take(it.index()), *entry.0, *entry.0);
            assert forall|k: u32| #![trigger nodes.contains(k)] nodes.contains(k) <==> keys.take(
                it.index() + 1,
            ).contains(k) && avg_dists@[k].defined() by {
                lemma_seq_contains_after_push(keys.take(it.index()), *entry.0, k);
                lemma_seq_contains_after_push(before, *entry.0, k);
            }
        }
    }
    proof {
        let pairs = avg_dists.iter().remaining().unref();
        let keys = pairs.map_values(entry_key());
        lemma_entries_enumerate(avg_dists@, pairs);
        assert(keys.take(keys.len() as int) =~= keys);
        assert(lists_defined_averages(nodes, terms@, avg_dists@));
    }
    terms
}

/// The graph-wide average in exact form: the mean of the fractions in `terms`.
#[derive(Debug)]
pub struct GraphAverage {
    /// The defined per-node averages, one for each source that reaches
    /// another node.
    pub terms: Vec<AvgDistance>,
}

impl GraphAverage {
    /// A mean over no term is undefined.
    pub open spec fn defined(self) -> bool {
        self.terms@.len() > 0
    }

    /// Is the graph-wide average defined: has any node a defined average?
    pub fn is_defined(&self) -> (yes: bool)
        ensures
            yes == self.defined(),
    {
        self.terms.len() > 0
    }
}

/// Are `terms` the terms of the graph-wide average of the graph that `edges`
/// describes: the defined averages among those of its keys?
pub open spec fn is_graph_average(edges: Seq<(u32, u32)>, terms: Seq<AvgDistance>) -> bool {
    exists|per_node: Map<u32, AvgDistance>| #[trigger]
        is_per_node_average(adjacency_of(edges), per_node) && holds_defined_averages(
            terms,
            per_node,
        )
}

/// A list of edges has one graph-wide average: the same per-node averages
/// and, up to their order, the same terms, however often it is computed.
pub proof fn lemma_graph_average_unique(
    edges: Seq<(u32, u32)>,
    first: Seq<AvgDistance>,
    second: Seq<AvgDistance>,
)
    requires
        is_graph_average(edges, first),
        is_graph_average(edges, second),
    ensures
        first.to_multiset() == second.to_multiset(),
{
    let g = adjacency_of(edges);
    let per1 = choose|per_node: Map<u32, AvgDistance>| #[trigger]
        is_per_node_average(g, per_node) && holds_defined_averages(first, per_node);
    let per2 = choose|per_node: Map<u32, AvgDistance>| #[trigger]
        is_per_node_average(g, per_node) && holds_defined_averages(second, per_node);
    lemma_per_node_average_unique(g, per1, per2);
    lemma_defined_averages_unique(per1, first, second);
}

/// The graph-wide average is defined exactly when some key of the graph
/// reaches a node other than itself.
pub proof fn lemma_graph_average_defined(edges: Seq<(u32, u32)>, terms: Seq<AvgDistance>)
    requires
        is_graph_average(edges, terms),
    ensures
        terms.len() > 0 <==> exists|k: u32, t: u32|
            adjacency_of(edges).contains_key(k) && #[trigger] reachable(adjacency_of(edges), k, t)
                && t != k,
{
    let g = adjacency_of(edges);
    let per_node = choose|per_node: Map<u32, AvgDistance>| #[trigger]
        is_per_node_average(g, per_node) && holds_defined_averages(terms, per_node);
    lemma_no_term_iff_none_defined(per_node, terms);
    if terms.len() > 0 {
        let k = choose|k: u32| per_node.contains_key(k) && (#[trigger] per_node[k]).defined();
        lemma_undefined_iff_reaches_none(g, k, per_node[k]);
        let t = choose|t: u32| reachable(g, k, t) && t != k;
        assert(g.contains_key(k) && reachable(g, k, t) && t != k);
    }
    if exists|k: u32, t: u32| g.contains_key(k) && #[trigger] reachable(g, k, t) && t != k {
        let (k, t) = choose|k: u32, t: u32|
            g.contains_key(k) && #[trigger] reachable(g, k, t) && t != k;
        assert(per_node.contains_key(k));
        lemma_undefined_iff_reaches_none(g, k, per_node[k]);
        assert(per_node[k].defined());
    }
}

/// Computing twice from the same edges gives the same adjacency structure,
/// the same per-node averages and, up to their order, the same terms of the
/// graph-wide average.
pub proof fn lemma_same_edges_same_results(
    edges: Seq<(u32, u32)>,
    adj1: Map<u32, Seq<u32>>,
    adj2: Map<u32, Seq<u32>>,
    per_node1: Map<u32, AvgDistance>,
    per_node2: Map<u32, AvgDistance>,
    terms1: Seq<AvgDistance>,
    terms2: Seq<AvgDistance>,
)
    requires
        adj1 == adjacency_of(edges),
        adj2 == adjacency_of(edges),
        is_per_node_average(adj1, per_node1),
        is_per_node_average(adj2, per_node2),
        holds_defined_averages(terms1, per_node1),
        holds_defined_averages(terms2, per_node2),
    ensures
        adj1 == adj2,
        per_node1 == per_node2,
        terms1.to_multiset() == terms2.to_multiset(),
{
    lemma_per_node_average_unique(adj1, per_node1, per_node2);
    lemma_defined_averages_unique(per_node1, terms1, terms2);
}

/// Computes the graph-wide average of the graph that a list of edges describes.
///
/// The adjacency structure is built, the average distance is computed from
/// each of its keys, and the undefined averages are left out. With no defined
/// average the result has no term and is itself undefined.
pub fn avg_degrees_of_separation(edges: &[(u32, u32)]) -> (mean: GraphAverage)
    ensures
        is_graph_average(edges@, mean.terms@),
{
    let adj_list = adjacency_list(edges);
    let avg_dists = bfs_all_nodes(&adj_list);
    let terms = defined_averages(&avg_dists);
    assert(is_per_node_average(adjacency_of(edges@), avg_dists@));
    GraphAverage { terms }
}

} // verus!
