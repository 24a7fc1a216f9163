//! The adjacency structure and the mathematical model of the graph.

use std::collections::HashMap;
use vstd::prelude::*;
use vstd::set_lib::*;

verus! {

/// The number of node identifiers there are.
pub open spec fn node_limit() -> nat {
    0x1_0000_0000
}

/// A set of node identifiers is finite, and no larger than there are
/// identifiers.
pub proof fn lemma_node_set_bounded(nodes: Set<u32>)
    ensures
        nodes.finite(),
        nodes.len() <= node_limit(),
{
    let all = Set::<u32>::full();
    let below_max = Set::<u32>::range(0, u32::MAX);
    u32::full_properties();
    u32::range_properties(0, u32::MAX);
    assert(all =~= below_max.insert(u32::MAX));
    assert(nodes.subset_of(all));
    lemma_len_subset(nodes, all);
}

/// The model of an adjacency structure: each key is mapped to the sequence of
/// its out-neighbours.
pub open spec fn graph_view(adj: HashMap<u32, Vec<u32>>) -> Map<u32, Seq<u32>> {
    Map::new(|k: u32| adj@.contains_key(k), |k: u32| adj@[k]@)
}

/// The out-neighbours of `u`. A node that is no key has none.
pub open spec fn neighbors(g: Map<u32, Seq<u32>>, u: u32) -> Seq<u32> {
    if g.contains_key(u) {
        g[u]
    } else {
        Seq::empty()
    }
}

/// Is there an edge from `u` to `v`?
pub open spec fn has_edge(g: Map<u32, Seq<u32>>, u: u32, v: u32) -> bool {
    neighbors(g, u).contains(v)
}

/// Is the `i`-th node of `p` linked to the next one by an edge?
pub open spec fn is_step(g: Map<u32, Seq<u32>>, p: Seq<u32>, i: int) -> bool {
    has_edge(g, p[i], p[i + 1])
}

/// A walk from `s` to `t`: a sequence of nodes that starts with `s`, ends with
/// `t`, and follows an edge from each node to the next. It has one node more
/// than it has edges.
pub open spec fn is_walk(g: Map<u32, Seq<u32>>, s: u32, t: u32, p: Seq<u32>) -> bool {
    &&& p.len() > 0
    &&& p[0] == s
    &&& p[p.len() - 1] == t
    &&& forall|i: int| 0 <= i < p.len() - 1 ==> #[trigger] is_step(g, p, i)
}

/// Is there a walk of exactly `n` edges from `s` to `t`?
pub open spec fn has_walk(g: Map<u32, Seq<u32>>, s: u32, t: u32, n: nat) -> bool {
    exists|p: Seq<u32>| #[trigger] is_walk(g, s, t, p) && p.len() == n + 1
}

/// Can `t` be reached from `s`? Every node reaches itself.
pub open spec fn reachable(g: Map<u32, Seq<u32>>, s: u32, t: u32) -> bool {
    exists|n: nat| has_walk(g, s, t, n)
}

/// Is `d` the distance from `s` to `t`: the least number of edges over all
/// walks from `s` to `t`?
pub open spec fn is_distance(g: Map<u32, Seq<u32>>, s: u32, t: u32, d: nat) -> bool {
    &&& has_walk(g, s, t, d)
    &&& forall|n: nat| has_walk(g, s, t, n) ==> d <= n
}

/// Is `dist` the distance map of source `s`: its keys are the nodes that `s`
/// reaches, and each is mapped to its distance from `s`?
pub open spec fn is_distance_map(g: Map<u32, Seq<u32>>, s: u32, dist: Map<u32, u32>) -> bool {
    &&& forall|t: u32| dist.contains_key(t) <==> reachable(g, s, t)
    &&& forall|t: u32| dist.contains_key(t) ==> is_distance(g, s, t, #[trigger] dist[t] as nat)
}

/// The walk without edges leads from every node to itself.
pub proof fn lemma_walk_empty(g: Map<u32, Seq<u32>>, s: u32)
    ensures
        has_walk(g, s, s, 0),
        reachable(g, s, s),
{
    assert(is_walk(g, s, s, seq![s]));
    assert(has_walk(g, s, s, 0));
}

/// A walk of `n` edges to `u`, followed by an edge from `u` to `v`, is a walk
/// of `n + 1` edges to `v`.
pub proof fn lemma_walk_extend(g: Map<u32, Seq<u32>>, s: u32, u: u32, v: u32, n: nat)
    requires
        has_walk(g, s, u, n),
        has_edge(g, u, v),
    ensures
        has_walk(g, s, v, n + 1),
{
    let p = choose|p: Seq<u32>| #[trigger] is_walk(g, s, u, p) && p.len() == n + 1;
    let q = p.push(v);
    assert forall|i: int| 0 <= i < q.len() - 1 implies #[trigger] is_step(g, q, i) by {
        if i < p.len() - 1 {
            assert(is_step(g, p, i));
        }
    }
    assert(is_walk(g, s, v, q));
}

/// A walk without edges ends where it starts.
pub proof fn lemma_walk_zero(g: Map<u32, Seq<u32>>, s: u32, t: u32)
    requires
        has_walk(g, s, t, 0),
    ensures
        s == t,
{
}

/// The distance from a node to itself is 0, whatever the graph.
pub proof fn lemma_distance_to_self(g: Map<u32, Seq<u32>>, s: u32, dist: Map<u32, u32>)
    requires
        is_distance_map(g, s, dist),
    ensures
        dist.contains_key(s),
        dist[s] == 0,
{
    lemma_walk_empty(g, s);
    assert(is_distance(g, s, s, dist[s] as nat));
}

/// The target of an edge is at distance at most 1 from the source of the
/// edge: at distance 1, unless the edge is a self-loop.
pub proof fn lemma_distance_along_edge(
    g: Map<u32, Seq<u32>>,
    s: u32,
    t: u32,
    dist: Map<u32, u32>,
)
    requires
        is_distance_map(g, s, dist),
        has_edge(g, s, t),
    ensures
        dist.contains_key(t),
        dist[t] <= 1,
        t != s ==> dist[t] == 1,
{
    lemma_walk_empty(g, s);
    lemma_walk_extend(g, s, s, t, 0);
    assert(has_walk(g, s, t, 1));
    assert(is_distance(g, s, t, dist[t] as nat));
    if dist[t] == 0 {
        lemma_walk_zero(g, s, t);
    }
}

/// A source has one distance map: two maps that both are one are equal.
pub proof fn lemma_distance_map_unique(
    g: Map<u32, Seq<u32>>,
    s: u32,
    first: Map<u32, u32>,
    second: Map<u32, u32>,
)
    requires
        is_distance_map(g, s, first),
        is_distance_map(g, s, second),
    ensures
        first == second,
{
    assert forall|t: u32| first.contains_key(t) implies first[t] == second[t] by {
        assert(is_distance(g, s, t, first[t] as nat));
        assert(is_distance(g, s, t, second[t] as nat));
    }
    assert(first =~= second);
}

/// Does some edge of `edges` start at `from`?
pub open spec fn is_source(edges: Seq<(u32, u32)>, from: u32) -> bool {
    exists|i: int| 0 <= i < edges.len() && (#[trigger] edges[i]).0 == from
}

/// The test "this edge starts at `from`".
pub open spec fn starts_at(from: u32) -> spec_fn((u32, u32)) -> bool {
    |e: (u32, u32)| e.0 == from
}

/// The projection of an edge to its target.
pub open spec fn target() -> spec_fn((u32, u32)) -> u32 {
    |e: (u32, u32)| e.1
}

/// The targets of the edges that start at `from`, in the order in which the
/// edges appear. A target occurs as often as its edge does.
pub open spec fn targets_of(edges: Seq<(u32, u32)>, from: u32) -> Seq<u32> {
    edges.filter(starts_at(from)).map_values(target())
}

/// The adjacency structure that a list of edges describes: the keys are the
/// nodes with at least one outgoing edge.
pub open spec fn adjacency_of(edges: Seq<(u32, u32)>) -> Map<u32, Seq<u32>> {
    Map::new(|k: u32| is_source(edges, k), |k: u32| targets_of(edges, k))
}

/// Adding one edge at the end adds its source as a key and its target at the
/// end of that key's neighbours; nothing else changes.
pub proof fn lemma_adjacency_push(edges: Seq<(u32, u32)>, from: u32, to: u32)
    ensures
        adjacency_of(edges.push((from, to))) == adjacency_of(edges).insert(
            from,
            targets_of(edges, from).push(to),
        ),
{
    let longer = edges.push((from, to));
    let expected = adjacency_of(edges).insert(from, targets_of(edges, from).push(to));
    assert forall|k: u32| is_source(longer, k) <==> (k == from || is_source(edges, k)) by {
        if is_source(longer, k) {
            let i = choose|i: int| 0 <= i < longer.len() && (#[trigger] longer[i]).0 == k;
            if i < edges.len() {
                assert(edges[i].0 == k);
            }
        }
        if is_source(edges, k) {
            let i = choose|i: int| 0 <= i < edges.len() && (#[trigger] edges[i]).0 == k;
            assert(longer[i].0 == k);
        }
        if k == from {
            assert(longer[edges.len() as int].0 == k);
        }
    }
    assert forall|k: u32| #[trigger] targets_of(longer, k) == if k == from {
        targets_of(edges, k).push(to)
    } else {
        targets_of(edges, k)
    } by {
        edges.lemma_filter_push((from, to), starts_at(k));
        if k == from {
            edges.filter(starts_at(k)).lemma_push_map_commute(target(), (from, to));
        }
    }
    assert(adjacency_of(longer) =~= expected);
}

/// A node that no edge starts at has no targets.
pub proof fn lemma_targets_of_non_source(edges: Seq<(u32, u32)>, from: u32)
    requires
        !is_source(edges, from),
    ensures
        targets_of(edges, from) == Seq::<u32>::empty(),
{
    let kept = edges.filter(starts_at(from));
    if kept.len() > 0 {
        edges.lemma_filter_pred(starts_at(from), 0);
        assert(kept.contains(kept[0]));
        edges.lemma_filter_contains_rev(starts_at(from), kept[0]);
        let i = choose|i: int| 0 <= i < edges.len() && edges[i] == kept[0];
        assert(edges[i].0 == from);
    }
    assert(targets_of(edges, from) =~= Seq::<u32>::empty());
}

/// Builds the adjacency structure of a list of directed edges.
///
/// Every node that some edge starts at becomes a key; its neighbours are the
/// targets of those edges, in the order of the edges, duplicates and
/// self-loops kept. A node that occurs only as a target is no key.
pub fn adjacency_list(edges: &[(u32, u32)]) -> (adj: HashMap<u32, Vec<u32>>)
    ensures
        graph_view(adj) == adjacency_of(edges@),
{
    let mut adj: HashMap<u32, Vec<u32>> = HashMap::new();
    let mut i: usize = 0;
    assert(graph_view(adj) =~= adjacency_of(edges@.take(0)));
    while i < edges.len()
        invariant
            i <= edges.len(),
            graph_view(adj) == adjacency_of(edges@.take(i as int)),
        decreases edges.len() - i,
    {
        let (from, to): (u32, u32) = edges[i];
        let ghost before = adj;
        adj.entry(from).or_insert(Vec::new()).push(to);
        proof {
            lemma_adjacency_push(edges@.take(i as int), from, to);
            if !before@.contains_key(from) {
                assert(!graph_view(before).contains_key(from));
                lemma_targets_of_non_source(edges@.take(i as int), from);
            } else {
                assert(graph_view(before)[from] == before@[from]@);
            }
            assert(edges@.take(i as int + 1) =~= edges@.take(i as int).push((from, to)));
            assert(graph_view(adj) =~= graph_view(before).insert(
                from,
                targets_of(edges@.take(i as int), from).push(to),
            ));
        }
        i += 1;
    }
    assert(edges@.take(edges.len() as int) =~= edges@);
    adj
}

} // verus!
