//! Breadth-first search from one source.

use crate::graph::{
    graph_view, has_edge, has_walk, is_distance, is_distance_map, is_step, is_walk,
    lemma_distance_along_edge, lemma_distance_to_self, lemma_walk_empty, lemma_walk_extend,
    lemma_node_set_bounded, neighbors, node_limit, reachable,
};
use std::collections::HashMap;
use std::collections::VecDeque;
use vstd::prelude::*;

verus! {

/// The order of discovery, continued from a state of the search: `order` holds
/// the nodes discovered so far, and those before index `head` have been
/// expanded. Expanding a node appends its neighbours that are not yet in
/// `order`, each once, in the order of its neighbour list.
pub open spec fn discover(g: Map<u32, Seq<u32>>, order: Seq<u32>, head: nat) -> Seq<u32>
    decreases node_limit() - head,
{
    if head < order.len() && head < node_limit() {
        discover(g, neighbors(g, order[head as int]).remove_duplicates(order), head + 1)
    } else {
        order
    }
}

/// The order in which a breadth-first search from `s` discovers the nodes.
pub open spec fn visit_order(g: Map<u32, Seq<u32>>, s: u32) -> Seq<u32> {
    discover(g, seq![s], 0)
}

/// What a breadth-first search found.
#[derive(Debug)]
pub struct Traversal {
    /// The distance from the source to each node it reaches.
    pub dist: HashMap<u32, u32>,
    /// The reached nodes in the order of their discovery, the source first.
    pub order: Vec<u32>,
}

/// A sequence of distinct node identifiers is no longer than there are
/// identifiers.
pub proof fn lemma_distinct_nodes_bounded(nodes: Seq<u32>)
    requires
        nodes.no_duplicates(),
    ensures
        nodes.len() <= node_limit(),
{
    nodes.unique_seq_to_set();
    lemma_node_set_bounded(nodes.to_set());
}

/// Are the neighbours of every key of `dist` keys of `dist` too, each at most
/// one step further from the source than the key?
pub open spec fn is_closed(g: Map<u32, Seq<u32>>, dist: Map<u32, u32>) -> bool {
    forall|u: u32, w: u32|
        dist.contains_key(u) && #[trigger] has_edge(g, u, w) ==> dist.contains_key(w) && dist[w]
            <= dist[u] + 1
}

/// In a closed map that holds the source at 0, the end of every walk from
/// the source is a key, and its value is at most the number of edges walked.
pub proof fn lemma_closed_bounds_walk(
    g: Map<u32, Seq<u32>>,
    s: u32,
    dist: Map<u32, u32>,
    t: u32,
    p: Seq<u32>,
)
    requires
        is_closed(g, dist),
        dist.contains_key(s),
        dist[s] == 0,
        is_walk(g, s, t, p),
    ensures
        dist.contains_key(t),
        dist[t] <= p.len() - 1,
    decreases p.len(),
{
    if p.len() > 1 {
        let q = p.drop_last();
        let u: u32 = q[q.len() - 1];
        assert forall|i: int| 0 <= i < q.len() - 1 implies #[trigger] is_step(g, q, i) by {
            assert(is_step(g, p, i));
        }
        lemma_closed_bounds_walk(g, s, dist, u, q);
        assert(is_step(g, p, p.len() - 2));
        assert(has_edge(g, u, t));
    }
}

/// A closed map that holds the source at 0, and each key at the length of
/// some walk to it, is the distance map.
pub proof fn lemma_closed_is_distance_map(g: Map<u32, Seq<u32>>, s: u32, dist: Map<u32, u32>)
    requires
        is_closed(g, dist),
        dist.contains_key(s),
        dist[s] == 0,
        forall|t: u32| dist.contains_key(t) ==> has_walk(g, s, t, #[trigger] dist[t] as nat),
    ensures
        is_distance_map(g, s, dist),
{
    assert forall|t: u32| dist.contains_key(t) implies reachable(g, s, t) by {
        assert(has_walk(g, s, t, dist[t] as nat));
    }
    assert forall|t: u32| reachable(g, s, t) implies dist.contains_key(t) by {
        let n = choose|n: nat| has_walk(g, s, t, n);
        let p = choose|p: Seq<u32>| #[trigger] is_walk(g, s, t, p) && p.len() == n + 1;
        lemma_closed_bounds_walk(g, s, dist, t, p);
    }
    assert forall|t: u32| dist.contains_key(t) implies is_distance(
        g,
        s,
        t,
        #[trigger] dist[t] as nat,
    ) by {
        assert forall|n: nat| has_walk(g, s, t, n) implies dist[t] as nat <= n by {
            let p = choose|p: Seq<u32>| #[trigger] is_walk(g, s, t, p) && p.len() == n + 1;
            lemma_closed_bounds_walk(g, s, dist, t, p);
        }
    }
}

/// What holds of the nodes discovered so far, whatever has been expanded:
/// the source comes first, no node occurs twice, the keys of `dist` are the
/// nodes of `order`, the values do not fall along `order` and are bounded by
/// the index, and each is the length of some walk from the source.
pub open spec fn is_discovery(
    g: Map<u32, Seq<u32>>,
    s: u32,
    dist: Map<u32, u32>,
    order: Seq<u32>,
) -> bool {
    &&& order.len() > 0
    &&& order[0] == s
    &&& order.no_duplicates()
    &&& forall|v: u32|
        #![trigger dist.contains_key(v)]
        #![trigger order.contains(v)]
        dist.contains_key(v) <==> order.contains(v)
    &&& forall|i: int| 0 <= i < order.len() ==> dist[#[trigger] order[i]] <= i
    &&& forall|i: int, j: int|
        0 <= i <= j < order.len() ==> dist[#[trigger] order[i]] <= dist[#[trigger] order[j]]
    &&& forall|v: u32| dist.contains_key(v) ==> has_walk(g, s, v, #[trigger] dist[v] as nat)
}

/// Have the first `head` nodes of `order` been expanded: are their neighbours
/// keys of `dist`, at most one step further than they?
pub open spec fn is_expanded(
    g: Map<u32, Seq<u32>>,
    dist: Map<u32, u32>,
    order: Seq<u32>,
    head: int,
) -> bool {
    forall|i: int, w: u32|
        0 <= i < head && #[trigger] has_edge(g, order[i], w) ==> dist.contains_key(w) && dist[w]
            <= dist[order[i]] + 1
}

/// A search starts with the source alone, at distance 0.
pub proof fn lemma_discovery_start(g: Map<u32, Seq<u32>>, s: u32)
    ensures
        is_discovery(g, s, map![s => 0u32], seq![s]),
{
    let dist = map![s => 0u32];
    let order = seq![s];
    lemma_walk_empty(g, s);
    assert forall|v: u32| dist.contains_key(v) <==> order.contains(v) by {
        if v == s {
            assert(order[0] == v);
        }
    }
}

/// Discovering a new neighbour of the node at `head`, one step further than
/// that node, keeps the discovery in order.
pub proof fn lemma_discover_neighbor(
    g: Map<u32, Seq<u32>>,
    s: u32,
    dist: Map<u32, u32>,
    order: Seq<u32>,
    head: int,
    next: u32,
)
    requires
        is_discovery(g, s, dist, order),
        0 <= head < order.len(),
        !dist.contains_key(next),
        has_edge(g, order[head], next),
        dist[order[order.len() - 1]] <= dist[order[head]] + 1,
        dist[order[head]] < u32::MAX,
    ensures
        is_discovery(
            g,
            s,
            dist.insert(next, (dist[order[head]] + 1) as u32),
            order.push(next),
        ),
{
    let curr: u32 = order[head];
    let level: u32 = (dist[curr] + 1) as u32;
    let dist2 = dist.insert(next, level);
    let order2 = order.push(next);
    assert(order.contains(curr));
    assert forall|i: int| 0 <= i < order.len() implies order[i] != next && dist2[order2[i]]
        == dist[order[i]] by {
        assert(order.contains(order[i]));
    }
    assert forall|v: u32| dist2.contains_key(v) <==> order2.contains(v) by {
        if order2.contains(v) {
            let i = choose|i: int| 0 <= i < order2.len() && order2[i] == v;
            if i < order.len() {
                assert(order.contains(order[i]));
            }
        }
        if dist.contains_key(v) {
            let i = choose|i: int| 0 <= i < order.len() && order[i] == v;
            assert(order2[i] == v);
        }
        if v == next {
            assert(order2[order.len() as int] == v);
        }
    }
    assert forall|i: int, j: int| 0 <= i <= j < order2.len() implies dist2[#[trigger] order2[i]]
        <= dist2[#[trigger] order2[j]] by {
        if j == order.len() && i < j {
            assert(dist[order[i]] <= dist[order[order.len() - 1]]);
        }
    }
    assert forall|v: u32| dist2.contains_key(v) implies has_walk(
        g,
        s,
        v,
        #[trigger] dist2[v] as nat,
    ) by {
        if v == next {
            lemma_walk_extend(g, s, curr, next, dist[curr] as nat);
        } else {
            assert(has_walk(g, s, v, dist[v] as nat));
        }
    }
    assert(dist[order[head]] <= head);
}

/// Once every discovered node has been expanded, `dist` is the distance map.
pub proof fn lemma_search_complete(
    g: Map<u32, Seq<u32>>,
    s: u32,
    dist: Map<u32, u32>,
    order: Seq<u32>,
)
    requires
        is_discovery(g, s, dist, order),
        is_expanded(g, dist, order, order.len() as int),
    ensures
        is_distance_map(g, s, dist),
{
    assert forall|u: u32, w: u32| dist.contains_key(u) && #[trigger] has_edge(g, u, w) implies
        dist.contains_key(w) && dist[w] <= dist[u] + 1 by {
        let i = choose|i: int| 0 <= i < order.len() && order[i] == u;
        assert(has_edge(g, order[i], w));
    }
    assert(order.contains(order[0]));
    lemma_closed_is_distance_map(g, s, dist);
}

/// Runs a breadth-first search from `node` and records the order of
/// discovery beside the distances.
///
/// The search starts with `node` at distance 0. It takes the discovered nodes
/// first in, first out; for each it goes through the neighbours in the order
/// of the adjacency structure, and a neighbour not seen before is discovered
/// at one more than the distance of the node it was reached from. A node
/// without an entry in `adj_list` has no neighbours.
pub fn traverse(node: u32, adj_list: &HashMap<u32, Vec<u32>>) -> (found: Traversal)
    ensures
        is_distance_map(graph_view(*adj_list), node, found.dist@),
        found.order@ == visit_order(graph_view(*adj_list), node),
        found.order@.len() > 0 && found.order@[0] == node,
        found.order@.no_duplicates(),
        forall|v: u32| found.dist@.contains_key(v) <==> found.order@.contains(v),
        forall|i: int, j: int|
            0 <= i <= j < found.order@.len() ==> found.dist@[found.order@[i]]
                <= found.dist@[found.order@[j]],
{
    let ghost g = graph_view(*adj_list);
    let mut dist: HashMap<u32, u32> = HashMap::new();
    let mut order: Vec<u32> = Vec::new();
    let mut queue: VecDeque<u32> = VecDeque::new();
    let no_neighbors: Vec<u32> = Vec::new();
    dist.insert(node, 0);
    order.push(node);
    queue.push_back(node);
    let ghost mut head: int = 0;
    proof {
        lemma_discovery_start(g, node);
        assert(order@ =~= seq![node]);
        assert(dist@ =~= map![node => 0u32]);
        assert(queue@ =~= order@.skip(0));
    }
    while queue.len() > 0
        invariant
            g == graph_view(*adj_list),
            no_neighbors@.len() == 0,
            is_discovery(g, node, dist@, order@),
            0 <= head <= order@.len(),
            queue@ == order@.skip(head),
            is_expanded(g, dist@, order@, head),
            head < order@.len() ==> dist@[order@.last()] <= dist@[order@[head]] + 1,
            discover(g, order@, head as nat) == visit_order(g, node),
        decreases node_limit() - head,
    {
        let curr: u32 = queue.pop_front().unwrap();
        assert(curr == order@[head] && order@.contains(curr));
        let curr_dist: u32 = *dist.get(&curr).unwrap();
        let neighbors_of_curr: &Vec<u32> = match adj_list.get(&curr) {
            Some(list) => list,
            None => &no_neighbors,
        };
        let ghost order0 = order@;
        proof {
            lemma_distinct_nodes_bounded(order0);
            assert(neighbors_of_curr@ =~= neighbors(g, curr));
            assert(neighbors_of_curr@.take(0).remove_duplicates(order0) == order0);
            assert(queue@ =~= order@.skip(head + 1));
        }
        let mut k: usize = 0;
        while k < neighbors_of_curr.len()
            invariant
                neighbors_of_curr@ == neighbors(g, curr),
                is_discovery(g, node, dist@, order@),
                0 <= head < order@.len(),
                0 <= head < order0.len(),
                order@[head] == curr,
                order0[head] == curr,
                dist@[curr] == curr_dist,
                queue@ == order@.skip(head + 1),
                is_expanded(g, dist@, order@, head),
                0 <= k <= neighbors_of_curr@.len(),
                forall|n: int|
                    0 <= n < k ==> dist@.contains_key(#[trigger] neighbors_of_curr@[n])
                        && dist@[neighbors_of_curr@[n]] <= curr_dist + 1,
                dist@[order@.last()] <= curr_dist + 1,
                order@ == neighbors_of_curr@.take(k as int).remove_duplicates(order0),
            decreases neighbors_of_curr@.len() - k,
        {
            let next: u32 = neighbors_of_curr[k];
            proof {
                let seen = neighbors_of_curr@.take(k as int);
                seen.lemma_remove_duplicates_properties(order0);
                seen.lemma_remove_duplicates_append(next, order0);
                assert(neighbors_of_curr@.take(k as int + 1) =~= seen + seq![next]);
                assert(has_edge(g, curr, next));
            }
            if !dist.contains_key(&next) {
                proof {
                    lemma_distinct_nodes_bounded(order@.push(next));
                    lemma_discover_neighbor(g, node, dist@, order@, head, next);
                }
                dist.insert(next, curr_dist + 1);
                order.push(next);
                queue.push_back(next);
                proof {
                    assert(queue@ =~= order@.skip(head + 1));
                }
            } else {
                proof {
                    let j = choose|j: int| 0 <= j < order@.len() && order@[j] == next;
                    assert(dist@[order@[j]] <= dist@[order@.last()]);
                }
            }
            k += 1;
        }
        proof {
            assert(neighbors_of_curr@.take(k as int) =~= neighbors_of_curr@);
            let ghost nodes = order@;
            let ghost found = dist@;
            assert forall|i: int, w: u32| 0 <= i <= head && #[trigger] has_edge(g, nodes[i], w)
                implies found.contains_key(w) && found[w] <= found[nodes[i]] + 1 by {
                if i == head {
                    let n = choose|n: int|
                        0 <= n < neighbors_of_curr@.len() && neighbors_of_curr@[n] == w;
                    assert(found.contains_key(neighbors_of_curr@[n]));
                }
            }
            head = head + 1;
        }
    }
    proof {
        assert(head == order@.len());
        lemma_search_complete(g, node, dist@, order@);
    }
    Traversal { dist, order }
}

/// Computes the distance from `node` to every node it reaches.
///
/// The keys of the result are the nodes that a walk from `node` leads to,
/// `node` itself among them at distance 0; each is mapped to the least number
/// of edges of such a walk. A node that cannot be reached is no key.
pub fn bfs(node: u32, adj_list: &HashMap<u32, Vec<u32>>) -> (dist: HashMap<u32, u32>)
    ensures
        is_distance_map(graph_view(*adj_list), node, dist@),
        dist@.contains_key(node) && dist@[node] == 0,
        forall|t: u32| #[trigger]
            has_edge(graph_view(*adj_list), node, t) ==> dist@.contains_key(t) && dist@[t] <= 1
                && (t != node ==> dist@[t] == 1),
{
    let found = traverse(node, adj_list);
    proof {
        let g = graph_view(*adj_list);
        lemma_distance_to_self(g, node, found.dist@);
        assert forall|t: u32| #[trigger] has_edge(g, node, t) implies found.dist@.contains_key(t)
            && found.dist@[t] <= 1 && (t != node ==> found.dist@[t] == 1) by {
            lemma_distance_along_edge(g, node, t, found.dist@);
        }
    }
    found.dist
}

} // verus!
