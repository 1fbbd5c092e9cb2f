//! Weighted directed graphs held as neighbour lists.
use vstd::prelude::*;

verus! {

/// An edge to node `to` of weight `weight`.
#[derive(Debug, Clone, Copy, PartialEq, Eq, Structural)]
pub struct EdgeTo {
    pub to: usize,
    pub weight: usize,
}

impl EdgeTo {
    pub fn new(to: usize, weight: usize) -> (r: EdgeTo)
        ensures
            r == (EdgeTo { to, weight }),
    {
        EdgeTo { to, weight }
    }
}

/// A graph whose node `i` has the outgoing edges `nodes[i]`.
#[derive(Debug)]
pub struct WGraph {
    pub nodes: Vec<Vec<EdgeTo>>,
}

impl WGraph {
    /// A graph of `amount_of_nodes` nodes and no edges.
    pub fn with_nodes(amount_of_nodes: usize) -> (r: WGraph)
        ensures
            r.nodes@.len() == amount_of_nodes,
            forall|i: int| 0 <= i < amount_of_nodes ==> (#[trigger] r.nodes@[i])@.len() == 0,
    {
        let mut nodes: Vec<Vec<EdgeTo>> = Vec::new();
        let mut i: usize = 0;
        while i < amount_of_nodes
            invariant
                i <= amount_of_nodes,
                nodes@.len() == i,
                forall|k: int| 0 <= k < i ==> (#[trigger] nodes@[k])@.len() == 0,
            decreases amount_of_nodes - i,
        {
            nodes.push(Vec::new());
            i = i + 1;
        }
        WGraph { nodes }
    }
}

/// A queue entry of a shortest-path search: node `number`, reached at
/// `cost`, with its outgoing edges at hand.
#[derive(Debug, Clone, Copy)]
pub struct Priority<'a> {
    pub number: usize,
    pub nodes: &'a Vec<EdgeTo>,
    pub cost: usize,
}

impl<'a> Priority<'a> {
    pub fn new(number: usize, cost: usize, nodes: &'a Vec<EdgeTo>) -> (r: Priority<'a>)
        ensures
            r.number == number,
            r.cost == cost,
            r.nodes == nodes,
    {
        Priority { number, nodes, cost }
    }
}

/// The distance of a node that no path reaches.
pub const UNREACHED: usize = usize::MAX / 2;

/// Every edge leads to a node of the graph.
pub open spec fn edges_valid(nodes: Seq<Vec<EdgeTo>>) -> bool {
    forall|u: int, k: int|
        0 <= u < nodes.len() && 0 <= k < nodes[u]@.len() ==> #[trigger] nodes[u]@[k].to
            < nodes.len()
}

/// `p` is a path from `from` to `to`: each step names a node and one of its
/// edges, which leads to the node of the next step, or to `to` after the
/// last step.
pub open spec fn is_path(nodes: Seq<Vec<EdgeTo>>, p: Seq<(usize, usize)>, from: int, to: int) -> bool
    decreases p.len(),
{
    if p.len() == 0 {
        from == to
    } else {
        let (u, k) = p.last();
        &&& 0 <= u < nodes.len()
        &&& 0 <= k < nodes[u as int]@.len()
        &&& nodes[u as int]@[k as int].to == to
        &&& is_path(nodes, p.drop_last(), from, u as int)
    }
}

/// The total weight of the edges of `p`.
pub open spec fn path_weight(nodes: Seq<Vec<EdgeTo>>, p: Seq<(usize, usize)>) -> int
    decreases p.len(),
{
    if p.len() == 0 {
        0
    } else {
        path_weight(nodes, p.drop_last()) + nodes[p.last().0 as int]@[p.last().1 as int].weight
    }
}

/// No edge out of `u` leads to a node that it would bring closer.
pub open spec fn relaxed_at(nodes: Seq<Vec<EdgeTo>>, dist: Seq<usize>, u: int) -> bool {
    forall|k: int|
        0 <= k < nodes[u]@.len() ==> dist[nodes[u]@[k].to as int] <= dist[u] + (
        #[trigger] nodes[u]@[k]).weight
}

/// The predecessor recorded for `v` is the start of an edge into `v` that
/// is at most `v`'s distance away from it (exactly that far when `exact`);
/// a node without one is unreached.
pub open spec fn pred_fits(nodes: Seq<Vec<EdgeTo>>, dist: Seq<usize>, pred: Option<usize>, v: int, exact: bool) -> bool {
    match pred {
        Some(x) => x < nodes.len() && dist[v] < UNREACHED && exists|j: int|
            0 <= j < nodes[x as int]@.len() && (#[trigger] nodes[x as int]@[j]).to == v && if exact {
                dist[x as int] + nodes[x as int]@[j].weight == dist[v]
            } else {
                dist[x as int] + nodes[x as int]@[j].weight <= dist[v]
            },
        None => dist[v] == UNREACHED,
    }
}

/// The sum of the distances.
pub open spec fn dist_sum(d: Seq<usize>) -> int
    decreases d.len(),
{
    if d.len() == 0 {
        0
    } else {
        dist_sum(d.drop_last()) + d.last()
    }
}

proof fn lemma_dist_sum_update(d: Seq<usize>, i: int, v: usize)
    requires
        0 <= i < d.len(),
    ensures
        dist_sum(d.update(i, v)) == dist_sum(d) - d[i] + v,
    decreases d.len(),
{
    if i < d.len() - 1 {
        assert(d.update(i, v).drop_last() =~= d.drop_last().update(i, v));
        lemma_dist_sum_update(d.drop_last(), i, v);
    } else {
        assert(d.update(i, v).drop_last() =~= d.drop_last());
    }
}

proof fn lemma_dist_sum_nonneg(d: Seq<usize>)
    ensures
        dist_sum(d) >= 0,
    decreases d.len(),
{
    if d.len() > 0 {
        lemma_dist_sum_nonneg(d.drop_last());
    }
}

proof fn lemma_path_push(nodes: Seq<Vec<EdgeTo>>, p: Seq<(usize, usize)>, from: int, u: usize, k: usize)
    requires
        is_path(nodes, p, from, u as int),
        u < nodes.len(),
        k < nodes[u as int]@.len(),
    ensures
        is_path(nodes, p.push((u, k)), from, nodes[u as int]@[k as int].to as int),
        path_weight(nodes, p.push((u, k))) == path_weight(nodes, p) + nodes[u as int]@[k as int].weight,
{
    assert(p.push((u, k)).drop_last() =~= p);
}

/// Distances that start at 0 at the source and that no edge can improve
/// are at most the weight of any path from the source: with the paths that
/// realise them, they are the shortest distances.
pub proof fn lemma_relaxed_below_paths(
    nodes: Seq<Vec<EdgeTo>>,
    dist: Seq<usize>,
    source: int,
    p: Seq<(usize, usize)>,
    v: int,
)
    requires
        dist.len() == nodes.len(),
        0 <= source < nodes.len(),
        dist[source] == 0,
        forall|u: int| 0 <= u < nodes.len() ==> #[trigger] relaxed_at(nodes, dist, u),
        is_path(nodes, p, source, v),
    ensures
        dist[v] <= path_weight(nodes, p),
    decreases p.len(),
{
    if p.len() > 0 {
        let (u, k) = p.last();
        lemma_relaxed_below_paths(nodes, dist, source, p.drop_last(), u as int);
        assert(relaxed_at(nodes, dist, u as int));
        assert(dist[nodes[u as int]@[k as int].to as int] <= dist[u as int] + nodes[u as int]@[k as int].weight);
    }
}

/// The position of the cheapest queue entry; the first one on ties.
fn cheapest(queue: &Vec<Priority>) -> (r: usize)
    requires
        queue@.len() > 0,
    ensures
        r < queue@.len(),
        forall|i: int| 0 <= i < queue@.len() ==> queue@[r as int].cost <= #[trigger] queue@[i].cost,
{
    let mut best: usize = 0;
    let mut i: usize = 1;
    while i < queue.len()
        invariant
            best < i <= queue@.len(),
            forall|j: int| 0 <= j < i ==> queue@[best as int].cost <= #[trigger] queue@[j].cost,
        decreases queue@.len() - i,
    {
        if queue[i].cost < queue[best].cost {
            best = i;
        }
        i = i + 1;
    }
    best
}

/// Shortest distances from `source`, and for each node the node before it
/// on a shortest path. A node that no path reaches keeps the distance
/// `UNREACHED` and no predecessor, as does one whose every path weighs
/// `UNREACHED` or more.
///
/// The distances are pinned down by three facts: the source is at 0, no
/// edge leads to a node farther than its start plus the edge's weight, and
/// every distance below `UNREACHED` is the weight of a path, which follows
/// the predecessors back to the source.
pub fn djikstra(graph: WGraph, source: usize) -> (r: (Vec<usize>, Vec<Option<usize>>))
    requires
        source < graph.nodes@.len(),
        edges_valid(graph.nodes@),
    ensures
        r.0@.len() == graph.nodes@.len(),
        r.1@.len() == graph.nodes@.len(),
        r.0@[source as int] == 0,
        forall|v: int| 0 <= v < r.0@.len() ==> #[trigger] r.0@[v] <= UNREACHED,
        forall|u: int| 0 <= u < graph.nodes@.len() ==> #[trigger] relaxed_at(graph.nodes@, r.0@, u),
        forall|v: int|
            0 <= v < r.0@.len() && #[trigger] r.0@[v] < UNREACHED ==> exists|p: Seq<(usize, usize)>|
                is_path(graph.nodes@, p, source as int, v) && path_weight(graph.nodes@, p)
                    == r.0@[v],
        forall|v: int|
            0 <= v < r.0@.len() && v != source ==> pred_fits(graph.nodes@, r.0@, #[trigger] r.1@[v], v, true),
{
    let length = graph.nodes.len();
    let ghost g = graph.nodes@;
    let mut shortest_distances: Vec<usize> = Vec::new();
    let mut previous: Vec<Option<usize>> = Vec::new();
    let mut i: usize = 0;
    while i < length
        invariant
            i <= length,
            shortest_distances@.len() == i,
            previous@.len() == i,
            forall|v: int| 0 <= v < i ==> #[trigger] shortest_distances@[v] == UNREACHED,
            forall|v: int| 0 <= v < i ==> #[trigger] previous@[v] is None,
        decreases length - i,
    {
        shortest_distances.push(UNREACHED);
        previous.push(None);
        i = i + 1;
    }
    shortest_distances.set(source, 0);
    let ghost mut paths: Seq<Seq<(usize, usize)>> = Seq::new(length as nat, |v: int| Seq::empty());
    let mut priority_queue: Vec<Priority> = Vec::new();
    priority_queue.push(Priority::new(source, 0, &graph.nodes[source]));
    assert(is_path(g, paths[source as int], source as int, source as int));
    proof {
        assert forall|u: int| 0 <= u < length implies (exists|q: int|
            0 <= q < priority_queue@.len() && (#[trigger] priority_queue@[q]).number == u)
            || #[trigger] relaxed_at(g, shortest_distances@, u) by {
            if u == source {
                assert(priority_queue@[0].number == u);
            } else {
                assert forall|k: int| 0 <= k < g[u]@.len() implies shortest_distances@[g[u]@[k].to as int]
                    <= shortest_distances@[u] + (#[trigger] g[u]@[k]).weight by {
                    assert(g[u]@[k].to < length);
                }
            }
        }
    }
    while priority_queue.len() > 0
        invariant
            g == graph.nodes@,
            length == g.len(),
            source < length,
            edges_valid(g),
            shortest_distances@.len() == length,
            previous@.len() == length,
            paths.len() == length,
            shortest_distances@[source as int] == 0,
            forall|v: int| 0 <= v < length ==> #[trigger] shortest_distances@[v] <= UNREACHED,
            forall|q: int|
                0 <= q < priority_queue@.len() ==> {
                    &&& (#[trigger] priority_queue@[q]).number < length
                    &&& *priority_queue@[q].nodes == g[priority_queue@[q].number as int]
                    &&& shortest_distances@[priority_queue@[q].number as int] < UNREACHED
                },
            forall|u: int|
                0 <= u < length ==> (exists|q: int|
                    0 <= q < priority_queue@.len() && (#[trigger] priority_queue@[q]).number == u)
                    || #[trigger] relaxed_at(g, shortest_distances@, u),
            forall|v: int|
                0 <= v < length && #[trigger] shortest_distances@[v] < UNREACHED ==> is_path(
                    g,
                    paths[v],
                    source as int,
                    v,
                ) && path_weight(g, paths[v]) == shortest_distances@[v],
            forall|v: int|
                0 <= v < length && v != source ==> pred_fits(g, shortest_distances@, #[trigger] previous@[v], v, false),
        decreases dist_sum(shortest_distances@), priority_queue@.len(),
    {
        let at = cheapest(&priority_queue);
        let ghost q_before = priority_queue@;
        let priority = priority_queue.remove(at);
        proof {
            assert forall|w: int| 0 <= w < length && w != priority.number implies (exists|q: int|
                0 <= q < priority_queue@.len() && (#[trigger] priority_queue@[q]).number == w)
                || #[trigger] relaxed_at(g, shortest_distances@, w) by {
                if exists|q: int| 0 <= q < q_before.len() && (#[trigger] q_before[q]).number == w {
                    let q = choose|q: int| 0 <= q < q_before.len() && (#[trigger] q_before[q]).number == w;
                    if q < at {
                        assert(priority_queue@[q] == q_before[q]);
                    } else {
                        assert(q != at);
                        assert(priority_queue@[q - 1] == q_before[q]);
                    }
                }
            }
        }
        let u = priority.number;
        let edges = priority.nodes;
        let ghost sum0 = dist_sum(shortest_distances@);
        let ghost len0 = priority_queue@.len();
        let ghost mut changed = false;
        let mut k: usize = 0;
        while k < edges.len()
            invariant
                g == graph.nodes@,
                length == g.len(),
                source < length,
                u < length,
                *edges == g[u as int],
                edges_valid(g),
                k <= edges@.len(),
                shortest_distances@.len() == length,
                previous@.len() == length,
                paths.len() == length,
                shortest_distances@[source as int] == 0,
                shortest_distances@[u as int] < UNREACHED,
                forall|v: int| 0 <= v < length ==> #[trigger] shortest_distances@[v] <= UNREACHED,
                forall|j: int|
                    0 <= j < k ==> shortest_distances@[edges@[j].to as int] <= shortest_distances@[u as int]
                        + (#[trigger] edges@[j]).weight,
                forall|q: int|
                    0 <= q < priority_queue@.len() ==> {
                        &&& (#[trigger] priority_queue@[q]).number < length
                        &&& *priority_queue@[q].nodes == g[priority_queue@[q].number as int]
                        &&& shortest_distances@[priority_queue@[q].number as int] < UNREACHED
                    },
                forall|w: int|
                    0 <= w < length && w != u ==> (exists|q: int|
                        0 <= q < priority_queue@.len() && (#[trigger] priority_queue@[q]).number
                            == w) || #[trigger] relaxed_at(g, shortest_distances@, w),
                forall|v: int|
                    0 <= v < length && #[trigger] shortest_distances@[v] < UNREACHED ==> is_path(
                        g,
                        paths[v],
                        source as int,
                        v,
                    ) && path_weight(g, paths[v]) == shortest_distances@[v],
                forall|v: int|
                    0 <= v < length && v != source ==> pred_fits(g, shortest_distances@, #[trigger] previous@[v], v, false),
                dist_sum(shortest_distances@) + (if changed { 1int } else { 0int }) <= sum0,
                !changed ==> priority_queue@.len() == len0,
            decreases edges@.len() - k,
        {
            let neighbour = edges[k];
            let w = neighbour.to;
            let du = shortest_distances[u];
            let alt = if neighbour.weight > usize::MAX - du {
                usize::MAX
            } else {
                du + neighbour.weight
            };
            if alt < shortest_distances[w] {
                let ghost d_old = shortest_distances@;
                let ghost q_old = priority_queue@;
                let ghost p_old = previous@;
                assert(u != w);
                proof {
                    lemma_dist_sum_update(shortest_distances@, w as int, alt);
                    lemma_path_push(g, paths[u as int], source as int, u, k);
                    paths = paths.update(w as int, paths[u as int].push((u, k)));
                    changed = true;
                }
                shortest_distances.set(w, alt);
                previous.set(w, Some(u));
                priority_queue.push(Priority::new(w, alt, &graph.nodes[w]));
                proof {
                    assert(priority_queue@[priority_queue@.len() - 1].number == w);
                    assert forall|x: int| 0 <= x < length && x != u implies (exists|q: int|
                        0 <= q < priority_queue@.len() && (#[trigger] priority_queue@[q]).number == x)
                        || #[trigger] relaxed_at(g, shortest_distances@, x) by {
                        if x == w {
                            assert(priority_queue@[priority_queue@.len() - 1].number == x);
                        } else if exists|q: int| 0 <= q < q_old.len() && (#[trigger] q_old[q]).number == x {
                            let q = choose|q: int| 0 <= q < q_old.len() && (#[trigger] q_old[q]).number == x;
                            assert(priority_queue@[q] == q_old[q]);
                        } else {
                            assert(relaxed_at(g, d_old, x));
                            assert forall|j: int| 0 <= j < g[x]@.len() implies shortest_distances@[g[x]@[j].to as int]
                                <= shortest_distances@[x] + (#[trigger] g[x]@[j]).weight by {
                                assert(d_old[g[x]@[j].to as int] <= d_old[x] + g[x]@[j].weight);
                            }
                        }
                    }
                    assert forall|v: int| 0 <= v < length && v != source implies pred_fits(g, shortest_distances@, #[trigger] previous@[v], v, false) by {
                        if v == w {
                            assert(neighbour == g[u as int]@[k as int]);
                            assert(0 <= k < g[u as int]@.len() && g[u as int]@[k as int].to == v
                                && shortest_distances@[u as int] + g[u as int]@[k as int].weight
                                <= shortest_distances@[v]);
                            assert(pred_fits(g, shortest_distances@, previous@[v], v, false));
                        } else {
                            assert(previous@[v] == p_old[v]);
                            assert(pred_fits(g, d_old, p_old[v], v, false));
                            match p_old[v] {
                                Some(x) => {
                                    let j = choose|j: int| 0 <= j < g[x as int]@.len() && (#[trigger] g[x as int]@[j]).to == v
                                        && d_old[x as int] + g[x as int]@[j].weight <= d_old[v];
                                    assert(shortest_distances@[x as int] <= d_old[x as int]);
                                    assert(shortest_distances@[v] == d_old[v]);
                                    assert(0 <= j < g[x as int]@.len() && g[x as int]@[j].to == v
                                        && shortest_distances@[x as int] + g[x as int]@[j].weight
                                        <= shortest_distances@[v]);
                                },
                                None => {
                                    assert(shortest_distances@[v] == d_old[v]);
                                },
                            }
                        }
                    }
                }
            }
            k = k + 1;
        }
        proof {
            assert(relaxed_at(g, shortest_distances@, u as int));
            lemma_dist_sum_nonneg(shortest_distances@);
        }
    }
    proof {
        assert forall|v: int| 0 <= v < length && v != source implies pred_fits(g, shortest_distances@, #[trigger] previous@[v], v, true) by {
            assert(pred_fits(g, shortest_distances@, previous@[v], v, false));
            match previous@[v] {
                Some(x) => {
                    let j = choose|j: int| 0 <= j < g[x as int]@.len() && (#[trigger] g[x as int]@[j]).to == v
                        && shortest_distances@[x as int] + g[x as int]@[j].weight <= shortest_distances@[v];
                    assert(relaxed_at(g, shortest_distances@, x as int));
                    assert(shortest_distances@[g[x as int]@[j].to as int] <= shortest_distances@[x as int]
                        + g[x as int]@[j].weight);
                },
                None => {},
            }
        }
    }
    (shortest_distances, previous)
}

} // verus!
