//! Decoders for syndrome graphs: Union-Find cluster growth with peeling, a
//! greedy nearest-pair matcher, and a minimum-weight matcher.
//!
//! A correction is a list of edge indices. Applying it flips, at every node,
//! the parity of the number of listed edges that end there; a correction
//! explains a set of defects when the nodes it flips are exactly the defects
//! (the boundary node, which absorbs any parity, excepted).
use vstd::prelude::*;

verus! {

#[derive(Clone, Debug)]
pub struct Edge {
    pub u: usize,
    pub v: usize,
    pub id: usize,
}

pub struct SyndromeGraph {
    /// Number of detector nodes. The boundary node is `num_nodes`.
    pub num_nodes: usize,
    pub edges: Vec<Edge>,
    pub edge_to_qubit: Vec<Option<usize>>,
}

impl SyndromeGraph {
    /// Every edge joins two nodes of the graph, the boundary included.
    pub open spec fn well_formed(&self) -> bool {
        &&& self.num_nodes < usize::MAX
        &&& forall|e: int|
            0 <= e < self.edges@.len() ==> (#[trigger] self.edges@[e]).u <= self.num_nodes
                && self.edges@[e].v <= self.num_nodes
    }

    /// Well formed and small enough for every decoder's tables.
    pub open spec fn decodable(&self) -> bool {
        &&& self.well_formed()
        &&& self.num_nodes <= usize::MAX / 4
        &&& self.edges@.len() <= usize::MAX / 2
    }
}

/// Whether edge `e` changes the parity seen at `node`. A self-loop does not.
pub open spec fn toggles(e: Edge, node: int) -> bool {
    (e.u == node) != (e.v == node)
}

/// Whether applying the edges listed in `corr` flips `node`.
pub open spec fn flipped(edges: Seq<Edge>, corr: Seq<usize>, node: int) -> bool
    decreases corr.len(),
{
    if corr.len() == 0 {
        false
    } else {
        flipped(edges, corr.drop_last(), node) != toggles(edges[corr.last() as int], node)
    }
}

/// All listed edges exist.
pub open spec fn valid_correction(edges: Seq<Edge>, corr: Seq<usize>) -> bool {
    forall|k: int| 0 <= k < corr.len() ==> #[trigger] corr[k] < edges.len()
}

/// No node below `n` is a defect.
pub open spec fn no_defects(defects: Seq<bool>, n: int) -> bool {
    forall|x: int| 0 <= x < n ==> !#[trigger] defects[x]
}

/// Cost of crossing edge `e`: an erased edge is free.
pub open spec fn edge_cost(erased: Seq<bool>, e: int) -> nat {
    if e < erased.len() && erased[e] {
        0
    } else {
        1
    }
}

/// Total cost of a correction.
pub open spec fn correction_weight(erased: Seq<bool>, corr: Seq<usize>) -> nat
    decreases corr.len(),
{
    if corr.len() == 0 {
        0
    } else {
        correction_weight(erased, corr.drop_last()) + edge_cost(erased, corr.last() as int)
    }
}

proof fn lemma_flipped_push(edges: Seq<Edge>, corr: Seq<usize>, e: usize, node: int)
    ensures
        flipped(edges, corr.push(e), node) == (flipped(edges, corr, node) != toggles(
            edges[e as int],
            node,
        )),
{
    assert(corr.push(e).drop_last() =~= corr);
}

/// Flipping is additive over concatenation.
proof fn lemma_flipped_append(edges: Seq<Edge>, a: Seq<usize>, b: Seq<usize>, node: int)
    ensures
        flipped(edges, a + b, node) == (flipped(edges, a, node) != flipped(edges, b, node)),
    decreases b.len(),
{
    if b.len() > 0 {
        lemma_flipped_append(edges, a, b.drop_last(), node);
        assert((a + b).drop_last() =~= a + b.drop_last());
    } else {
        assert(a + b =~= a);
    }
}

/* ---------------------------------------------------------------------- */
/* Shortest-path trees                                                    */
/* ---------------------------------------------------------------------- */

/// Adjacency lists: each entry `(other, edge)` says edge `edge` joins `node`
/// to `other`.
pub open spec fn adjacency_ok(adj: Seq<Vec<(usize, usize)>>, edges: Seq<Edge>, t: nat) -> bool {
    &&& adj.len() == t
    &&& forall|node: int, k: int|
        0 <= node < t && 0 <= k < adj[node]@.len() ==> {
            let (other, e) = #[trigger] adj[node]@[k];
            &&& e < edges.len()
            &&& other < t
            &&& ((edges[e as int].u == node && edges[e as int].v == other) || (edges[e as int].v
                == node && edges[e as int].u == other))
        }
}

/// Each of the first `n` edges is listed at both of its ends.
pub open spec fn adjacency_complete(adj: Seq<Vec<(usize, usize)>>, edges: Seq<Edge>, n: int) -> bool {
    forall|e: int|
        0 <= e < n ==> adj[(#[trigger] edges[e]).u as int]@.contains((edges[e].v, e as usize))
            && adj[edges[e].v as int]@.contains((edges[e].u, e as usize))
}

/// Every neighbour of a reached node is at most one step further away.
pub open spec fn adj_closed(adj: Seq<Vec<(usize, usize)>>, dist: Seq<usize>) -> bool {
    forall|x: int| 0 <= x < adj.len() && dist[x] < usize::MAX ==> #[trigger] neighbours_near(adj, dist, x)
}

pub open spec fn neighbours_near(adj: Seq<Vec<(usize, usize)>>, dist: Seq<usize>, x: int) -> bool {
    forall|k: int| 0 <= k < adj[x]@.len() ==> dist[(#[trigger] adj[x]@[k]).0 as int] <= dist[x] + 1
}

/// Parent pointers forming a tree rooted at `start`: following them from any
/// reached node strictly decreases `(dist, time)`, so the walk ends, and it
/// can only end at `start`.
pub open spec fn is_path_tree(
    edges: Seq<Edge>,
    start: int,
    t: nat,
    dist: Seq<usize>,
    pe: Seq<Option<usize>>,
    pn: Seq<Option<usize>>,
    time: Seq<nat>,
) -> bool {
    &&& 0 <= start < t
    &&& dist.len() == t
    &&& pe.len() == t
    &&& pn.len() == t
    &&& time.len() == t
    &&& dist[start] == 0
    &&& forall|v: int|
        0 <= v < t ==> (#[trigger] pn[v] is None <==> (v == start || dist[v] == usize::MAX))
    &&& forall|v: int|
        0 <= v < t && pn[v] is Some ==> {
            let p = (#[trigger] pn[v])->0 as int;
            &&& pe[v] is Some
            &&& p < t
            &&& pe[v]->0 < edges.len()
            &&& ((edges[pe[v]->0 as int].u == p && edges[pe[v]->0 as int].v == v) || (
            edges[pe[v]->0 as int].v == p && edges[pe[v]->0 as int].u == v))
            &&& (dist[p] < dist[v] || (dist[p] == dist[v] && time[p] < time[v]))
        }
}

pub open spec fn dist_sum(dist: Seq<usize>) -> nat
    decreases dist.len(),
{
    if dist.len() == 0 {
        0
    } else {
        dist_sum(dist.drop_last()) + dist.last() as nat
    }
}

proof fn lemma_dist_sum_decrease(dist: Seq<usize>, i: int, val: usize)
    requires
        0 <= i < dist.len(),
        val < dist[i],
    ensures
        dist_sum(dist.update(i, val)) < dist_sum(dist),
    decreases dist.len(),
{
    if i < dist.len() - 1 {
        lemma_dist_sum_decrease(dist.drop_last(), i, val);
        assert(dist.update(i, val).drop_last() =~= dist.drop_last().update(i, val));
    } else {
        assert(dist.update(i, val).drop_last() =~= dist.drop_last());
    }
}

/// Pops the entry with the lowest cost, ties going to the highest position:
/// the order a max-heap of `(Reverse(cost), position)` pops in.
fn pop_min(heap: &mut Vec<(usize, usize)>) -> (top: Option<(usize, usize)>)
    ensures
        old(heap)@.len() == 0 ==> top is None && final(heap)@ == old(heap)@,
        old(heap)@.len() > 0 ==> top is Some && final(heap)@.len() == old(heap)@.len() - 1
            && old(heap)@.contains(top->0) && forall|k: int|
            0 <= k < final(heap)@.len() ==> old(heap)@.contains(#[trigger] final(heap)@[k]),
        old(heap)@.len() > 0 ==> forall|e: (usize, usize)|
            #[trigger] old(heap)@.contains(e) && e != top->0 ==> final(heap)@.contains(e),
{
    if heap.len() == 0 {
        return None;
    }
    let mut best: usize = 0;
    let mut k: usize = 1;
    while k < heap.len()
        invariant
            0 <= best < heap.len(),
            1 <= k <= heap.len(),
            heap@ == old(heap)@,
        decreases heap.len() - k,
    {
        let (c, p) = heap[k];
        let (bc, bp) = heap[best];
        if c < bc || (c == bc && p > bp) {
            best = k;
        }
        k += 1;
    }
    let ghost before = heap@;
    let top = heap.swap_remove(best);
    proof {
        assert(before.contains(top));
        assert forall|k: int| 0 <= k < heap@.len() implies before.contains(#[trigger] heap@[k]) by {
            if k == best {
                assert(heap@[k] == before[before.len() - 1]);
            } else {
                assert(heap@[k] == before[k]);
            }
        }
        assert forall|e: (usize, usize)| #[trigger] before.contains(e) && e != top implies heap@.contains(e) by {
            let j = choose|j: int| 0 <= j < before.len() && before[j] == e;
            if j == before.len() - 1 {
                assert(heap@[best as int] == e);
            } else {
                assert(heap@[j] == e);
            }
        }
    }
    Some(top)
}

/// Dijkstra from `start`, where crossing an erased edge is free and any other
/// costs one. Returns the distances and the shortest-path tree as parent edge
/// and parent node per node.
fn shortest_path_tree(
    adj: &Vec<Vec<(usize, usize)>>,
    edges: &Vec<Edge>,
    erased_edges: &[bool],
    start: usize,
) -> (res: (Vec<usize>, Vec<Option<usize>>, Vec<Option<usize>>, Ghost<Seq<nat>>))
    requires
        adjacency_ok(adj@, edges@, adj@.len()),
        start < adj@.len(),
    ensures
        is_path_tree(edges@, start as int, adj@.len(), res.0@, res.1@, res.2@, res.3@),
        adj_closed(adj@, res.0@),
{
    let t = adj.len();
    let mut dist: Vec<usize> = vec![usize::MAX; t];
    let mut pe: Vec<Option<usize>> = vec![None; t];
    let mut pn: Vec<Option<usize>> = vec![None; t];
    let ghost mut time: Seq<nat> = Seq::new(t as nat, |i: int| 0nat);
    let ghost mut clock: nat = 1;
    proof {
        assert forall|k: int| 0 <= k < t implies dist@[k] == usize::MAX && pn@[k] is None
            && pe@[k] is None by {}
    }
    dist.set(start, 0);
    let mut heap: Vec<(usize, usize)> = Vec::new();
    heap.push((0, start));
    proof {
        assert(heap@[0] == (0usize, start));
        assert(heap@.contains((dist@[start as int], start)));
    }
    loop
        invariant
            adjacency_ok(adj@, edges@, t as nat),
            t == adj@.len(),
            start < t,
            is_path_tree(edges@, start as int, t as nat, dist@, pe@, pn@, time),
            forall|v: int| 0 <= v < t && dist@[v] < usize::MAX ==> #[trigger] time[v] < clock,
            forall|k: int|
                0 <= k < heap@.len() ==> (#[trigger] heap@[k]).1 < t && heap@[k].0 >= dist@[heap@[k].1 as int] && heap@[k].0 < usize::MAX,
            forall|x: int|
                0 <= x < t && dist@[x] < usize::MAX ==> heap@.contains((dist@[x], x as usize))
                    || #[trigger] neighbours_near(adj@, dist@, x),
        ensures
            adj_closed(adj@, dist@),
            is_path_tree(edges@, start as int, t as nat, dist@, pe@, pn@, time),
        decreases dist_sum(dist@), heap@.len(),
    {
        let ghost heap_before = heap@;
        let top = pop_min(&mut heap);
        match top {
            None => break,
            Some((cost, position)) => {
                proof {
                    let k = choose|k: int| 0 <= k < heap_before.len() && heap_before[k] == (cost, position);
                    assert(heap_before[k].0 >= dist@[heap_before[k].1 as int]);
                    assert forall|k: int| 0 <= k < heap@.len() implies (#[trigger] heap@[k]).1 < t
                        && heap@[k].0 >= dist@[heap@[k].1 as int] by {
                        let j = choose|j: int| 0 <= j < heap_before.len() && heap_before[j] == heap@[k];
                        assert(heap_before[j].0 >= dist@[heap_before[j].1 as int]);
                    }
                }
                proof {
                    assert forall|x: int|
                        0 <= x < t && dist@[x] < usize::MAX && !(x == position && cost == dist@[x]) implies heap@.contains(
                        (dist@[x], x as usize),
                    ) || #[trigger] neighbours_near(adj@, dist@, x) by {
                        if heap_before.contains((dist@[x], x as usize)) {
                            assert((dist@[x], x as usize) != (cost, position));
                        }
                    }
                }
                if cost > dist[position] {
                    continue;
                }
                let nbrs = &adj[position];
                let ghost sum0 = dist_sum(dist@);
                let ghost len0 = heap@.len();
                let mut k: usize = 0;
                while k < nbrs.len()
                    invariant
                        adjacency_ok(adj@, edges@, t as nat),
                        t == adj@.len(),
                        start < t,
                        position < t,
                        nbrs@ == adj@[position as int]@,
                        cost == dist@[position as int],
                        cost < usize::MAX,
                        is_path_tree(edges@, start as int, t as nat, dist@, pe@, pn@, time),
                        forall|v: int| 0 <= v < t && dist@[v] < usize::MAX ==> #[trigger] time[v] < clock,
                        forall|k: int|
                            0 <= k < heap@.len() ==> (#[trigger] heap@[k]).1 < t && heap@[k].0 >= dist@[heap@[k].1 as int] && heap@[k].0 < usize::MAX,
                        dist_sum(dist@) <= sum0,
                        dist_sum(dist@) == sum0 ==> heap@.len() == len0,
                        forall|x: int|
                            0 <= x < t && dist@[x] < usize::MAX && x != position ==> heap@.contains(
                                (dist@[x], x as usize),
                            ) || #[trigger] neighbours_near(adj@, dist@, x),
                        forall|j: int| 0 <= j < k ==> dist@[(#[trigger] nbrs@[j]).0 as int] <= cost + 1,
                        k <= nbrs@.len(),
                    decreases nbrs.len() - k,
                {
                    let (v, edge_idx) = nbrs[k];
                    let weight: usize = if edge_idx < erased_edges.len() && erased_edges[edge_idx] {
                        0
                    } else {
                        1
                    };
                    let next_cost = cost + weight;
                    if next_cost < dist[v] {
                        proof {
                            lemma_dist_sum_decrease(dist@, v as int, next_cost);
                            assert(v != position);
                            assert(v != start);
                        }
                        let ghost old_dist = dist@;
                        dist.set(v, next_cost);
                        pe.set(v, Some(edge_idx));
                        pn.set(v, Some(position));
                        proof {
                            time = time.update(v as int, clock);
                            clock = clock + 1;
                            assert forall|c: int| 0 <= c < t && pn@[c] is Some implies {
                                let p = (#[trigger] pn@[c])->0 as int;
                                dist@[p] < dist@[c] || (dist@[p] == dist@[c] && time[p] < time[c])
                            } by {
                                if c != v {
                                    let p = pn@[c]->0 as int;
                                    assert(old_dist[p] <= old_dist[c]);
                                }
                            }
                        }
                        let ghost d1 = dist@;
                        let ghost h1 = heap@;
                        heap.push((next_cost, v));
                        proof {
                            assert forall|x: int|
                                0 <= x < t && dist@[x] < usize::MAX && x != position implies heap@.contains(
                                    (dist@[x], x as usize),
                                ) || #[trigger] neighbours_near(adj@, dist@, x) by {
                                if x == v {
                                    assert(heap@[heap@.len() - 1] == (dist@[x], x as usize));
                                } else if h1.contains((dist@[x], x as usize)) {
                                    let j = choose|j: int| 0 <= j < h1.len() && h1[j] == (dist@[x], x as usize);
                                    assert(heap@[j] == h1[j]);
                                } else {
                                    assert(old_dist[x] == dist@[x]);
                                    assert(neighbours_near(adj@, old_dist, x));
                                    assert forall|q: int| 0 <= q < adj@[x]@.len() implies dist@[(#[trigger] adj@[x]@[q]).0 as int]
                                        <= dist@[x] + 1 by {
                                        assert(old_dist[adj@[x]@[q].0 as int] <= old_dist[x] + 1);
                                    }
                                }
                            }
                        }
                    }
                    k += 1;
                }
                proof {
                    assert(neighbours_near(adj@, dist@, position as int));
                }
            },
        }
    }
    (dist, pe, pn, Ghost(time))
}

/// Walk the tree from `from` back to its root, appending the edges crossed.
/// The edges appended flip exactly `from` and the root.
fn append_path(
    edges: &Vec<Edge>,
    dist: &Vec<usize>,
    pe: &Vec<Option<usize>>,
    pn: &Vec<Option<usize>>,
    Ghost(time): Ghost<Seq<nat>>,
    Ghost(start): Ghost<int>,
    from: usize,
    out: &mut Vec<usize>,
)
    requires
        is_path_tree(edges@, start, dist@.len(), dist@, pe@, pn@, time),
        from < dist@.len(),
        dist@[from as int] < usize::MAX,
    ensures
        final(out)@.len() >= old(out)@.len(),
        final(out)@.subrange(0, old(out)@.len() as int) == old(out)@,
        forall|k: int|
            old(out)@.len() <= k < final(out)@.len() ==> #[trigger] final(out)@[k] < edges@.len(),
        forall|node: int|
            flipped(edges@, final(out)@, node) == (flipped(edges@, old(out)@, node) != ((node
                == from) != (node == start))),
{
    let ghost out0 = out@;
    let mut curr = from;
    loop
        invariant_except_break
            is_path_tree(edges@, start, dist@.len(), dist@, pe@, pn@, time),
            curr < dist@.len(),
            dist@[curr as int] < usize::MAX,
            out@.len() >= out0.len(),
            out@.subrange(0, out0.len() as int) == out0,
            forall|k: int| out0.len() <= k < out@.len() ==> #[trigger] out@[k] < edges@.len(),
            forall|node: int|
                flipped(edges@, out@, node) == (flipped(edges@, out0, node) != ((node == from) != (
                node == curr))),
        ensures
            out@.len() >= out0.len(),
            out@.subrange(0, out0.len() as int) == out0,
            forall|k: int| out0.len() <= k < out@.len() ==> #[trigger] out@[k] < edges@.len(),
            forall|node: int|
                flipped(edges@, out@, node) == (flipped(edges@, out0, node) != ((node == from) != (
                node == start))),
        decreases dist@[curr as int], time[curr as int],
    {
        match pn[curr] {
            None => {
                break;
            },
            Some(p) => {
                if let Some(edge_idx) = pe[curr] {
                    let ghost before = out@;
                    out.push(edge_idx);
                    proof {
                        assert forall|node: int|
                            flipped(edges@, out@, node) == (flipped(edges@, out0, node) != ((node
                                == from) != (node == p))) by {
                            lemma_flipped_push(edges@, before, edge_idx, node);
                        }
                        assert(out@.subrange(0, out0.len() as int) =~= before.subrange(
                            0,
                            out0.len() as int,
                        ));
                    }
                }
                curr = p;
            },
        }
    }
}


/// Incidence lists of the graph over `t` nodes.
fn build_adjacency(graph: &SyndromeGraph, t: usize) -> (adj: Vec<Vec<(usize, usize)>>)
    requires
        graph.well_formed(),
        t == graph.num_nodes + 1,
    ensures
        adjacency_ok(adj@, graph.edges@, t as nat),
        adjacency_complete(adj@, graph.edges@, graph.edges@.len() as int),
{
    let mut adj: Vec<Vec<(usize, usize)>> = Vec::new();
    for i in 0..t
        invariant
            adj@.len() == i,
            forall|n: int| 0 <= n < i ==> (#[trigger] adj@[n])@.len() == 0,
    {
        adj.push(Vec::new());
    }
    for edge_idx in 0..graph.edges.len()
        invariant
            graph.well_formed(),
            t == graph.num_nodes + 1,
            adjacency_ok(adj@, graph.edges@, t as nat),
            adjacency_complete(adj@, graph.edges@, edge_idx as int),
    {
        let u = graph.edges[edge_idx].u;
        let v = graph.edges[edge_idx].v;
        let ghost a0 = adj@;
        adj[u].push((v, edge_idx));
        let ghost a1 = adj@;
        adj[v].push((u, edge_idx));
        proof {
            assert forall|e: int| 0 <= e < edge_idx + 1 implies adj@[(#[trigger] graph.edges@[e]).u as int]@.contains(
                (graph.edges@[e].v, e as usize),
            ) && adj@[graph.edges@[e].v as int]@.contains((graph.edges@[e].u, e as usize)) by {
                if e < edge_idx {
                    let eu = graph.edges@[e].u as int;
                    let ev = graph.edges@[e].v as int;
                    let j1 = choose|j: int| 0 <= j < a0[eu]@.len() && a0[eu]@[j] == (graph.edges@[e].v, e as usize);
                    assert(a1[eu]@[j1] == a0[eu]@[j1]);
                    assert(adj@[eu]@[j1] == a1[eu]@[j1]);
                    let j2 = choose|j: int| 0 <= j < a0[ev]@.len() && a0[ev]@[j] == (graph.edges@[e].u, e as usize);
                    assert(a1[ev]@[j2] == a0[ev]@[j2]);
                    assert(adj@[ev]@[j2] == a1[ev]@[j2]);
                } else {
                    let j1 = a0[u as int]@.len() as int;
                    assert(a1[u as int]@[j1] == (v, edge_idx));
                    assert(adj@[u as int]@[j1] == a1[u as int]@[j1]);
                    let j2 = a1[v as int]@.len() as int;
                    assert(adj@[v as int]@[j2] == (u, edge_idx));
                }
            }
            assert forall|node: int, k: int|
                0 <= node < t && 0 <= k < adj@[node]@.len() implies {
                let (other, e) = #[trigger] adj@[node]@[k];
                &&& e < graph.edges@.len()
                &&& other < t
                &&& ((graph.edges@[e as int].u == node && graph.edges@[e as int].v == other) || (
                graph.edges@[e as int].v == node && graph.edges@[e as int].u == other))
            } by {
                if node == v && k == adj@[node]@.len() - 1 {
                } else if node == u && (node != v) && k == adj@[node]@.len() - 1 {
                } else if node == u && node == v && k == adj@[node]@.len() - 2 {
                } else {
                    if node == u && node == v {
                        assert(adj@[node]@[k] == a0[node]@[k]);
                    } else if node == u || node == v {
                        assert(adj@[node]@[k] == a0[node]@[k]);
                    } else {
                        assert(adj@[node] == a0[node]);
                    }
                }
            }
        }
    }
    adj
}

/// Stable insertion sort of matching candidates by their first field.
fn sort_by_cost(cands: Vec<(usize, usize, usize)>) -> (out: Vec<(usize, usize, usize)>)
    ensures
        out@.len() == cands@.len(),
        forall|k: int| 0 <= k < out@.len() ==> cands@.contains(#[trigger] out@[k]),
        forall|a: int, b: int| 0 <= a < b < out@.len() ==> (#[trigger] out@[a]).0 <= (#[trigger] out@[b]).0,
        out@.to_multiset() == cands@.to_multiset(),
{
    let mut out: Vec<(usize, usize, usize)> = Vec::new();
    proof {
        assert(cands@.subrange(0, 0) =~= out@);
    }
    for i in 0..cands.len()
        invariant
            out@.len() == i,
            i <= cands@.len(),
            forall|k: int| 0 <= k < out@.len() ==> cands@.contains(#[trigger] out@[k]),
            forall|a: int, b: int| 0 <= a < b < out@.len() ==> (#[trigger] out@[a]).0 <= (#[trigger] out@[b]).0,
            out@.to_multiset() == cands@.subrange(0, i as int).to_multiset(),
    {
        let x = cands[i];
        let mut pos = out.len();
        while pos > 0 && out[pos - 1].0 > x.0
            invariant
                0 <= pos <= out@.len(),
                forall|k: int| pos <= k < out@.len() ==> (#[trigger] out@[k]).0 > x.0,
            decreases pos,
        {
            pos -= 1;
        }
        let ghost before = out@;
        out.insert(pos, x);
        proof {
            assert(cands@[i as int] == x);
            assert forall|k: int| 0 <= k < out@.len() implies cands@.contains(#[trigger] out@[k]) by {
                if k < pos {
                    assert(out@[k] == before[k]);
                } else if k > pos {
                    assert(out@[k] == before[k - 1]);
                }
            }
            assert forall|a: int, b: int| 0 <= a < b < out@.len() implies (#[trigger] out@[a]).0 <= (#[trigger] out@[b]).0 by {
                if a < pos && b < pos {
                    assert(out@[a] == before[a] && out@[b] == before[b]);
                } else if a < pos && b == pos {
                    assert(out@[a] == before[a]);
                    if pos > 0 {
                        assert(before[a].0 <= before[pos - 1].0);
                    }
                } else if a < pos && b > pos {
                    assert(out@[a] == before[a] && out@[b] == before[b - 1]);
                } else if a == pos {
                    assert(out@[b] == before[b - 1]);
                } else {
                    assert(out@[a] == before[a - 1] && out@[b] == before[b - 1]);
                }
            }
            vstd::seq_lib::to_multiset_insert(before, pos as int, x);
            vstd::seq_lib::to_multiset_build(cands@.subrange(0, i as int), x);
            assert(cands@.subrange(0, i + 1) =~= cands@.subrange(0, i as int).push(x));
        }
    }
    proof {
        assert(cands@.subrange(0, cands@.len() as int) =~= cands@);
    }
    out
}

/// Shortest-path trees rooted at each defect, in the order of `roots`.
fn trees_from(
    adj: &Vec<Vec<(usize, usize)>>,
    edges: &Vec<Edge>,
    erased_edges: &[bool],
    roots: &Vec<usize>,
) -> (res: (Vec<Vec<usize>>, Vec<Vec<Option<usize>>>, Vec<Vec<Option<usize>>>, Ghost<Seq<Seq<nat>>>))
    requires
        adjacency_ok(adj@, edges@, adj@.len()),
        forall|i: int| 0 <= i < roots@.len() ==> #[trigger] roots@[i] < adj@.len(),
    ensures
        res.0@.len() == roots@.len(),
        res.1@.len() == roots@.len(),
        res.2@.len() == roots@.len(),
        res.3@.len() == roots@.len(),
        forall|i: int|
            0 <= i < roots@.len() ==> #[trigger] is_path_tree(
                edges@,
                roots@[i] as int,
                adj@.len(),
                res.0@[i]@,
                res.1@[i]@,
                res.2@[i]@,
                res.3@[i],
            ),
        forall|i: int| 0 <= i < roots@.len() ==> adj_closed(adj@, #[trigger] res.0@[i]@),
{
    let mut dists: Vec<Vec<usize>> = Vec::new();
    let mut pes: Vec<Vec<Option<usize>>> = Vec::new();
    let mut pns: Vec<Vec<Option<usize>>> = Vec::new();
    let ghost mut times: Seq<Seq<nat>> = Seq::empty();
    for i in 0..roots.len()
        invariant
            adjacency_ok(adj@, edges@, adj@.len()),
            forall|i: int| 0 <= i < roots@.len() ==> #[trigger] roots@[i] < adj@.len(),
            dists@.len() == i,
            pes@.len() == i,
            pns@.len() == i,
            times.len() == i,
            forall|k: int|
                0 <= k < i ==> #[trigger] is_path_tree(
                    edges@,
                    roots@[k] as int,
                    adj@.len(),
                    dists@[k]@,
                    pes@[k]@,
                    pns@[k]@,
                    times[k],
                ),
            forall|k: int| 0 <= k < i ==> adj_closed(adj@, #[trigger] dists@[k]@),
    {
        let (d, pe, pn, Ghost(tm)) = shortest_path_tree(adj, edges, erased_edges, roots[i]);
        dists.push(d);
        pes.push(pe);
        pns.push(pn);
        proof {
            times = times.push(tm);
        }
    }
    (dists, pes, pns, Ghost(times))
}

/// Edge `edge` runs between nodes `x` and `y`.
pub open spec fn edge_joins(edge: Edge, x: int, y: int) -> bool {
    (edge.u == x && edge.v == y) || (edge.v == x && edge.u == y)
}

/// Some edge runs between nodes `x` and `y`.
pub open spec fn adjacent(edges: Seq<Edge>, x: int, y: int) -> bool {
    exists|e: int| 0 <= e < edges.len() && #[trigger] edge_joins(edges[e], x, y)
}

/// `p` is a path in the graph: each node is joined to the next by an edge.
pub open spec fn is_walk(edges: Seq<Edge>, p: Seq<int>) -> bool {
    &&& p.len() >= 1
    &&& forall|j: int| 0 <= j < p.len() - 1 ==> #[trigger] adjacent(edges, p[j], p[j + 1])
}

/// A path of at most `bound` edges leads from `x` to `y`.
pub open spec fn joined(edges: Seq<Edge>, x: int, y: int, bound: nat) -> bool {
    exists|p: Seq<int>| #[trigger] is_walk(edges, p) && p.len() <= bound + 1 && p[0] == x && p.last() == y
}

/// A path walked backwards is a path.
proof fn lemma_walk_reversed(edges: Seq<Edge>, p: Seq<int>)
    requires
        is_walk(edges, p),
    ensures
        is_walk(edges, Seq::new(p.len(), |i: int| p[p.len() - 1 - i])),
{
    let q = Seq::new(p.len(), |i: int| p[p.len() - 1 - i]);
    assert forall|j: int| 0 <= j < q.len() - 1 implies #[trigger] adjacent(edges, q[j], q[j + 1]) by {
        let a = p.len() - 2 - j;
        assert(adjacent(edges, p[a], p[a + 1]));
        let e = choose|e: int| 0 <= e < edges.len() && #[trigger] edge_joins(edges[e], p[a], p[a + 1]);
        assert(edge_joins(edges[e], q[j], q[j + 1]));
    }
}

/// The `i`-th node of a path from the root of a tree whose distances are
/// closed under the adjacency is at most `i` away.
proof fn lemma_walk_dist(
    edges: Seq<Edge>,
    adj: Seq<Vec<(usize, usize)>>,
    dist: Seq<usize>,
    p: Seq<int>,
    d0: int,
    i: int,
)
    requires
        adjacency_ok(adj, edges, adj.len()),
        adjacency_complete(adj, edges, edges.len() as int),
        forall|e: int| 0 <= e < edges.len() ==> (#[trigger] edges[e]).u < adj.len() && edges[e].v < adj.len(),
        adj_closed(adj, dist),
        dist.len() == adj.len(),
        is_walk(edges, p),
        0 <= p[0] < adj.len(),
        dist[p[0]] <= d0,
        0 <= d0,
        0 <= i < p.len(),
        d0 + p.len() <= usize::MAX,
    ensures
        0 <= p[i] < adj.len(),
        dist[p[i]] <= d0 + i,
    decreases i,
{
    if i > 0 {
        lemma_walk_dist(edges, adj, dist, p, d0, i - 1);
        let jj = i - 1;
        assert(adjacent(edges, p[jj], p[jj + 1]));
        let z = p[jj];
        let y = p[jj + 1];
        assert(y == p[i]);
        let e = choose|e: int| 0 <= e < edges.len() && #[trigger] edge_joins(edges[e], z, y);
        let ed = edges[e];
        if ed.u == z && ed.v == y {
            assert(adj[ed.u as int]@.contains((ed.v, e as usize)));
        } else {
            assert(adj[ed.v as int]@.contains((ed.u, e as usize)));
        }
        assert(adj[z]@.contains((y as usize, e as usize)));
        let j = choose|j: int| 0 <= j < adj[z]@.len() && adj[z]@[j] == (y as usize, e as usize);
        assert(neighbours_near(adj, dist, z));
        assert(dist[(adj[z]@[j]).0 as int] <= dist[z] + 1);
    }
}

/// Nodes `u < num_nodes` flipped by a correction are exactly the matched ones.
pub open spec fn flips_match(edges: Seq<Edge>, corr: Seq<usize>, matched: Seq<bool>, num_nodes: int) -> bool {
    forall|node: int| 0 <= node < num_nodes ==> #[trigger] flipped(edges, corr, node) == matched[node]
}

/// Greedy matching: pair the closest defects first, each defect either with
/// another defect or with the boundary, and correct along shortest paths.
///
/// Every node the correction flips is a defect.
pub fn decode_greedy(graph: &SyndromeGraph, defects: &[bool], erased_edges: &[bool]) -> (correction: Vec<usize>)
    requires
        graph.well_formed(),
        defects@.len() >= graph.num_nodes,
    ensures
        valid_correction(graph.edges@, correction@),
        forall|node: int|
            0 <= node < graph.num_nodes && #[trigger] flipped(graph.edges@, correction@, node)
                ==> defects@[node],
        no_defects(defects@, graph.num_nodes as int) ==> correction@.len() == 0,
        forall|node: int|
            0 <= node < graph.num_nodes && defects@[node] && joined(
                graph.edges@,
                node,
                graph.num_nodes as int,
                graph.num_nodes as nat,
            ) ==> #[trigger] flipped(graph.edges@, correction@, node),
{
    let ghost clean = no_defects(defects@, graph.num_nodes as int);
    let total_nodes = graph.num_nodes + 1;
    let boundary = graph.num_nodes;
    let mut unmatched: Vec<usize> = Vec::new();
    for u in 0..graph.num_nodes
        invariant
            defects@.len() >= graph.num_nodes,
            clean == no_defects(defects@, graph.num_nodes as int),
            clean ==> unmatched@.len() == 0,
            forall|k: int| 0 <= k < unmatched@.len() ==> #[trigger] unmatched@[k] < u && defects@[unmatched@[k] as int],
            forall|a: int, b: int| 0 <= a < b < unmatched@.len() ==> #[trigger] unmatched@[a] < #[trigger] unmatched@[b],
            forall|x: int| 0 <= x < u && defects@[x] ==> #[trigger] unmatched@.contains(x as usize),
    {
        let ghost before = unmatched@;
        if defects[u] {
            unmatched.push(u);
        }
        proof {
            assert forall|x: int| 0 <= x < u + 1 && defects@[x] implies #[trigger] unmatched@.contains(x as usize) by {
                if x < u {
                    assert(before.contains(x as usize));
                    let k = choose|k: int| 0 <= k < before.len() && before[k] == x as usize;
                    assert(unmatched@[k] == before[k]);
                } else {
                    assert(unmatched@[unmatched@.len() - 1] == x as usize);
                }
            }
        }
    }
    if unmatched.len() == 0 {
        proof {
            assert forall|x: int| 0 <= x < graph.num_nodes implies !defects@[x] by {
                if defects@[x] {
                    assert(unmatched@.contains(x as usize));
                }
            }
        }
        return Vec::new();
    }

    let adj = build_adjacency(graph, total_nodes);
    let (dists, parent_edges, parent_nodes, Ghost(times)) = trees_from(&adj, &graph.edges, erased_edges, &unmatched);
    let m = unmatched.len();
    proof {
        assert forall|i: int| 0 <= i < m implies (#[trigger] dists@[i])@.len() == total_nodes by {
            assert(is_path_tree(graph.edges@, unmatched@[i] as int, adj@.len(), dists@[i]@, parent_edges@[i]@, parent_nodes@[i]@, times[i]));
        }
    }

    // Candidates: (distance, i, j) pairs defect i with defect j, or with the
    // boundary when j == m.
    let mut candidates: Vec<(usize, usize, usize)> = Vec::new();
    for i in 0..m
        invariant
            m == unmatched@.len(),
            dists@.len() == m,
            forall|k: int| 0 <= k < unmatched@.len() ==> #[trigger] unmatched@[k] < boundary,
            forall|i: int| 0 <= i < m ==> (#[trigger] dists@[i])@.len() == total_nodes,
            total_nodes == boundary + 1,
            forall|k: int|
                0 <= k < candidates@.len() ==> {
                    let (d, a, b) = #[trigger] candidates@[k];
                    &&& a < m
                    &&& b <= m
                    &&& a != b
                    &&& d < usize::MAX
                    &&& b == m ==> d == dists@[a as int]@[boundary as int]
                    &&& b < m ==> d == dists@[a as int]@[unmatched@[b as int] as int]
                },
            forall|a: int|
                0 <= a < i && dists@[a]@[boundary as int] < usize::MAX ==> #[trigger] candidates@.contains(
                    (dists@[a]@[boundary as int], a as usize, m),
                ),
    {
        let d_boundary = dists[i][boundary];
        let ghost c0 = candidates@;
        if d_boundary != usize::MAX {
            candidates.push((d_boundary, i, m));
        }
        proof {
            assert forall|a: int|
                0 <= a < i + 1 && dists@[a]@[boundary as int] < usize::MAX implies #[trigger] candidates@.contains(
                (dists@[a]@[boundary as int], a as usize, m),
            ) by {
                if a < i {
                    assert(c0.contains((dists@[a]@[boundary as int], a as usize, m)));
                    let k = choose|k: int| 0 <= k < c0.len() && c0[k] == (dists@[a]@[boundary as int], a as usize, m);
                    assert(candidates@[k] == c0[k]);
                } else {
                    assert(candidates@[candidates@.len() - 1] == (dists@[a]@[boundary as int], a as usize, m));
                }
            }
        }
        for j in (i + 1)..m
            invariant
                forall|a: int|
                    0 <= a < i + 1 && dists@[a]@[boundary as int] < usize::MAX ==> #[trigger] candidates@.contains(
                        (dists@[a]@[boundary as int], a as usize, m),
                    ),
                m == unmatched@.len(),
                dists@.len() == m,
                i < m,
                forall|k: int| 0 <= k < unmatched@.len() ==> #[trigger] unmatched@[k] < boundary,
                forall|i: int| 0 <= i < m ==> (#[trigger] dists@[i])@.len() == total_nodes,
                total_nodes == boundary + 1,
                forall|k: int|
                    0 <= k < candidates@.len() ==> {
                        let (d, a, b) = #[trigger] candidates@[k];
                        &&& a < m
                        &&& b <= m
                        &&& a != b
                        &&& d < usize::MAX
                        &&& b == m ==> d == dists@[a as int]@[boundary as int]
                        &&& b < m ==> d == dists@[a as int]@[unmatched@[b as int] as int]
                    },
        {
            let d_uv = dists[i][unmatched[j]];
            let ghost c1 = candidates@;
            if d_uv != usize::MAX {
                candidates.push((d_uv, i, j));
            }
            proof {
                assert forall|a: int|
                    0 <= a < i + 1 && dists@[a]@[boundary as int] < usize::MAX implies #[trigger] candidates@.contains(
                    (dists@[a]@[boundary as int], a as usize, m),
                ) by {
                    assert(c1.contains((dists@[a]@[boundary as int], a as usize, m)));
                    let k = choose|k: int| 0 <= k < c1.len() && c1[k] == (dists@[a]@[boundary as int], a as usize, m);
                    assert(candidates@[k] == c1[k]);
                }
            }
        }
    }
    let ghost cands0 = candidates@;
    let candidates = sort_by_cost(candidates);

    let mut is_matched: Vec<bool> = vec![false; total_nodes];
    let mut correction_edges: Vec<usize> = Vec::new();
    proof {
        assert forall|node: int| 0 <= node < graph.num_nodes implies #[trigger] flipped(
            graph.edges@, correction_edges@, node) == is_matched@[node] by {}
    }
    for c in 0..candidates.len()
        invariant
            graph.well_formed(),
            m == unmatched@.len(),
            dists@.len() == m,
            parent_edges@.len() == m,
            parent_nodes@.len() == m,
            times.len() == m,
            total_nodes == boundary + 1,
            boundary == graph.num_nodes,
            adj@.len() == total_nodes,
            is_matched@.len() == total_nodes,
            defects@.len() >= graph.num_nodes,
            forall|k: int| 0 <= k < unmatched@.len() ==> #[trigger] unmatched@[k] < boundary && defects@[unmatched@[k] as int],
            forall|i: int|
                0 <= i < m ==> #[trigger] is_path_tree(
                    graph.edges@,
                    unmatched@[i] as int,
                    adj@.len(),
                    dists@[i]@,
                    parent_edges@[i]@,
                    parent_nodes@[i]@,
                    times[i],
                ),
            forall|k: int|
                0 <= k < candidates@.len() ==> {
                    let (d, a, b) = #[trigger] candidates@[k];
                    &&& a < m
                    &&& b <= m
                    &&& a != b
                    &&& d < usize::MAX
                    &&& b == m ==> d == dists@[a as int]@[boundary as int]
                    &&& b < m ==> d == dists@[a as int]@[unmatched@[b as int] as int]
                },
            valid_correction(graph.edges@, correction_edges@),
            flips_match(graph.edges@, correction_edges@, is_matched@, graph.num_nodes as int),
            forall|node: int| 0 <= node < graph.num_nodes && #[trigger] is_matched@[node] ==> defects@[node],
            forall|a: int, b: int| 0 <= a < b < unmatched@.len() ==> #[trigger] unmatched@[a] < #[trigger] unmatched@[b],
            forall|cc: int|
                0 <= cc < c && (#[trigger] candidates@[cc]).2 == m ==> is_matched@[unmatched@[candidates@[cc].1 as int] as int],
    {
        let (_d, i, j) = candidates[c];
        let u = unmatched[i];
        let ghost im0 = is_matched@;
        if j == m {
            if !is_matched[u] {
                let ghost m0 = is_matched@;
                is_matched.set(u, true);
                let ghost before = correction_edges@;
                proof {
                    assert(is_path_tree(graph.edges@, unmatched@[i as int] as int, adj@.len(), dists@[i as int]@, parent_edges@[i as int]@, parent_nodes@[i as int]@, times[i as int]));
                }
                append_path(&graph.edges, &dists[i], &parent_edges[i], &parent_nodes[i], Ghost(times[i as int]), Ghost(u as int), boundary, &mut correction_edges);
                proof {
                    assert forall|k: int| 0 <= k < correction_edges@.len() implies #[trigger] correction_edges@[k] < graph.edges@.len() by {
                        if k < before.len() {
                            assert(correction_edges@[k] == correction_edges@.subrange(0, before.len() as int)[k]);
                        }
                    }
                    assert forall|node: int| 0 <= node < graph.num_nodes implies #[trigger] flipped(
                        graph.edges@, correction_edges@, node) == is_matched@[node] by {
                        assert(flipped(graph.edges@, before, node) == m0[node]);
                    }
                }
            }
        } else {
            let v = unmatched[j];
            if !is_matched[u] && !is_matched[v] {
                let ghost m0 = is_matched@;
                is_matched.set(u, true);
                is_matched.set(v, true);
                let ghost before = correction_edges@;
                proof {
                    assert(is_path_tree(graph.edges@, unmatched@[i as int] as int, adj@.len(), dists@[i as int]@, parent_edges@[i as int]@, parent_nodes@[i as int]@, times[i as int]));
                }
                append_path(&graph.edges, &dists[i], &parent_edges[i], &parent_nodes[i], Ghost(times[i as int]), Ghost(u as int), v, &mut correction_edges);
                proof {
                    assert forall|k: int| 0 <= k < correction_edges@.len() implies #[trigger] correction_edges@[k] < graph.edges@.len() by {
                        if k < before.len() {
                            assert(correction_edges@[k] == correction_edges@.subrange(0, before.len() as int)[k]);
                        }
                    }
                    assert forall|node: int| 0 <= node < graph.num_nodes implies #[trigger] flipped(
                        graph.edges@, correction_edges@, node) == is_matched@[node] by {
                        assert(flipped(graph.edges@, before, node) == m0[node]);
                        assert(u != v) by {
                            if i < j {
                                assert(unmatched@[i as int] < unmatched@[j as int]);
                            } else {
                                assert(unmatched@[j as int] < unmatched@[i as int]);
                            }
                        }
                    }
                }
            }
        }
        proof {
            assert forall|cc: int|
                0 <= cc < c + 1 && (#[trigger] candidates@[cc]).2 == m implies is_matched@[unmatched@[candidates@[cc].1 as int] as int] by {
                if cc < c {
                    assert(im0[unmatched@[candidates@[cc].1 as int] as int]);
                }
            }
        }
    }
    proof {
        assert forall|node: int|
            0 <= node < graph.num_nodes && defects@[node] && joined(
                graph.edges@,
                node,
                graph.num_nodes as int,
                graph.num_nodes as nat,
            ) implies #[trigger] flipped(graph.edges@, correction_edges@, node) by {
            assert(unmatched@.contains(node as usize));
            let i = choose|i: int| 0 <= i < unmatched@.len() && unmatched@[i] == node as usize;
            let p = choose|p: Seq<int>|
                #[trigger] is_walk(graph.edges@, p) && p.len() <= graph.num_nodes + 1 && p[0] == node && p.last()
                    == graph.num_nodes as int;
            assert(is_path_tree(graph.edges@, unmatched@[i] as int, adj@.len(), dists@[i]@, parent_edges@[i]@, parent_nodes@[i]@, times[i]));
            assert(adj_closed(adj@, dists@[i]@));
            lemma_walk_dist(graph.edges@, adj@, dists@[i]@, p, 0, p.len() - 1);
            let el = (dists@[i]@[boundary as int], i as usize, m);
            assert(cands0.contains(el));
            vstd::seq_lib::to_multiset_contains(cands0, el);
            vstd::seq_lib::to_multiset_contains(candidates@, el);
            let cc = choose|cc: int| 0 <= cc < candidates@.len() && candidates@[cc] == el;
            assert(candidates@[cc].2 == m);
            assert(is_matched@[node]);
        }
    }
    correction_edges
}


/* ---------------------------------------------------------------------- */
/* Union-Find                                                             */
/* ---------------------------------------------------------------------- */

/// Number of indices `i < k` with `p[i] == i`.
/// Where `k` steps along the parents from `x` lead.
pub open spec fn climb(p: Seq<usize>, x: int, k: nat) -> int
    decreases k,
{
    if k == 0 {
        x
    } else {
        climb(p, p[x] as int, (k - 1) as nat)
    }
}

/// Climbing `a + b` steps is climbing `a` steps, then `b` more.
proof fn lemma_climb_add(p: Seq<usize>, x: int, a: nat, b: nat)
    ensures
        climb(p, x, a + b) == climb(p, climb(p, x, a), b),
    decreases a,
{
    if a > 0 {
        lemma_climb_add(p, p[x] as int, (a - 1) as nat, b);
        assert((a + b - 1) as nat == ((a - 1) as nat + b) as nat);
    }
}

/// A root climbs to itself.
proof fn lemma_climb_root(p: Seq<usize>, r: int, k: nat)
    requires
        0 <= r < p.len(),
        p[r] == r,
    ensures
        climb(p, r, k) == r,
    decreases k,
{
    if k > 0 {
        lemma_climb_root(p, r, (k - 1) as nat);
    }
}

/// A chain ends at one root at most.
proof fn lemma_unique_root(p: Seq<usize>, x: int, k1: nat, k2: nat)
    requires
        0 <= climb(p, x, k1) < p.len(),
        p[climb(p, x, k1)] == climb(p, x, k1),
        0 <= climb(p, x, k2) < p.len(),
        p[climb(p, x, k2)] == climb(p, x, k2),
    ensures
        climb(p, x, k1) == climb(p, x, k2),
{
    if k1 <= k2 {
        lemma_climb_add(p, x, k1, (k2 - k1) as nat);
        assert((k1 + (k2 - k1) as nat) as nat == k2);
        lemma_climb_root(p, climb(p, x, k1), (k2 - k1) as nat);
    } else {
        lemma_climb_add(p, x, k2, (k1 - k2) as nat);
        assert((k2 + (k1 - k2) as nat) as nat == k1);
        lemma_climb_root(p, climb(p, x, k2), (k1 - k2) as nat);
    }
}

/// Along a recorded parent path, each node climbs to the path's last node.
proof fn lemma_path_climb(p: Seq<usize>, path: Seq<usize>, j: int)
    requires
        path.len() >= 1,
        0 <= j < path.len(),
        forall|k: int| 0 <= k < path.len() - 1 ==> #[trigger] path[k + 1] == p[path[k] as int],
    ensures
        climb(p, path[j] as int, (path.len() - 1 - j) as nat) == path.last() as int,
    decreases path.len() - j,
{
    if j < path.len() - 1 {
        lemma_path_climb(p, path, j + 1);
        assert(path[j + 1] == p[path[j] as int]);
    }
}

/// `lab` names, for every node, the root its parent chain ends at.
pub open spec fn labels_ok(p: Seq<usize>, lab: Seq<int>) -> bool {
    &&& lab.len() == p.len()
    &&& forall|x: int|
        0 <= x < p.len() ==> {
            &&& 0 <= #[trigger] lab[x] < p.len()
            &&& p[lab[x]] == lab[x]
            &&& exists|k: nat| #[trigger] climb(p, x, k) == lab[x]
        }
}

/// The labels after the root `o` is hung under the root `r`.
pub open spec fn relabel(lab: Seq<int>, o: int, r: int) -> Seq<int> {
    Seq::new(lab.len(), |x: int| if lab[x] == o { r } else { lab[x] })
}

/// The label of a node is the root its chain reaches, whichever way.
proof fn lemma_label_is_root(p: Seq<usize>, lab: Seq<int>, x: int, k: nat)
    requires
        labels_ok(p, lab),
        0 <= x < p.len(),
        0 <= climb(p, x, k) < p.len(),
        p[climb(p, x, k)] == climb(p, x, k),
    ensures
        lab[x] == climb(p, x, k),
{
    let k0 = choose|k0: nat| #[trigger] climb(p, x, k0) == lab[x];
    lemma_unique_root(p, x, k0, k);
}

/// A root is its own label.
proof fn lemma_root_label(p: Seq<usize>, lab: Seq<int>, r: int)
    requires
        labels_ok(p, lab),
        0 <= r < p.len(),
        p[r] == r,
    ensures
        lab[r] == r,
{
    assert(climb(p, r, 0) == r);
    lemma_label_is_root(p, lab, r, 0);
}

proof fn lemma_compress_chain(old_p: Seq<usize>, new_p: Seq<usize>, lab: Seq<int>, root: int, y: int, k0: nat)
    requires
        labels_ok(old_p, lab),
        new_p.len() == old_p.len(),
        forall|x: int| 0 <= x < old_p.len() ==> #[trigger] old_p[x] < old_p.len(),
        forall|x: int|
            0 <= x < old_p.len() ==> #[trigger] new_p[x] == old_p[x] || (new_p[x] == root && exists|k: nat|
                #[trigger] climb(old_p, x, k) == root),
        forall|x: int| 0 <= x < old_p.len() && old_p[x] == x ==> #[trigger] new_p[x] == x,
        0 <= root < old_p.len(),
        old_p[root] == root,
        0 <= y < old_p.len(),
        climb(old_p, y, k0) == lab[y],
    ensures
        exists|k: nat| #[trigger] climb(new_p, y, k) == lab[y],
    decreases k0,
{
    if k0 == 0 {
        assert(old_p[y] == y);
        assert(climb(new_p, y, 0) == lab[y]);
    } else if new_p[y] == old_p[y] {
        let z = old_p[y] as int;
        assert(climb(old_p, z, (k0 - 1) as nat) == lab[y]);
        lemma_label_is_root(old_p, lab, z, (k0 - 1) as nat);
        lemma_compress_chain(old_p, new_p, lab, root, z, (k0 - 1) as nat);
        let k = choose|k: nat| #[trigger] climb(new_p, z, k) == lab[z];
        assert(climb(new_p, y, k + 1) == climb(new_p, z, k));
    } else {
        let k1 = choose|k: nat| #[trigger] climb(old_p, y, k) == root;
        lemma_label_is_root(old_p, lab, y, k1);
        assert(new_p[y] == root);
        assert(new_p[root] == root);
        assert(climb(new_p, y, 1) == climb(new_p, root, 0));
    }
}

/// Path compression keeps every node's label.
proof fn lemma_compress_keeps_labels(old_p: Seq<usize>, new_p: Seq<usize>, lab: Seq<int>, root: int)
    requires
        labels_ok(old_p, lab),
        new_p.len() == old_p.len(),
        forall|x: int| 0 <= x < old_p.len() ==> #[trigger] old_p[x] < old_p.len(),
        forall|x: int|
            0 <= x < old_p.len() ==> #[trigger] new_p[x] == old_p[x] || (new_p[x] == root && exists|k: nat|
                #[trigger] climb(old_p, x, k) == root),
        forall|x: int| 0 <= x < old_p.len() && old_p[x] == x ==> #[trigger] new_p[x] == x,
        0 <= root < old_p.len(),
        old_p[root] == root,
    ensures
        labels_ok(new_p, lab),
{
    assert forall|y: int| 0 <= y < new_p.len() implies {
        &&& 0 <= #[trigger] lab[y] < new_p.len()
        &&& new_p[lab[y]] == lab[y]
        &&& exists|k: nat| #[trigger] climb(new_p, y, k) == lab[y]
    } by {
        let k0 = choose|k: nat| #[trigger] climb(old_p, y, k) == lab[y];
        lemma_compress_chain(old_p, new_p, lab, root, y, k0);
    }
}

proof fn lemma_link_to_o(p: Seq<usize>, o: int, r: int, y: int, k: nat)
    requires
        0 <= o < p.len(),
        0 <= r < p.len(),
        p[r] == r,
        o != r,
        climb(p, y, k) == o,
        0 <= y < p.len(),
        forall|x: int| 0 <= x < p.len() ==> #[trigger] p[x] < p.len(),
    ensures
        exists|k2: nat| #[trigger] climb(p.update(o, r as usize), y, k2) == r,
    decreases k,
{
    let q = p.update(o, r as usize);
    if y == o {
        assert(climb(q, y, 1) == climb(q, r, 0));
    } else {
        assert(k > 0);
        lemma_link_to_o(p, o, r, p[y] as int, (k - 1) as nat);
        let k2 = choose|k2: nat| #[trigger] climb(q, p[y] as int, k2) == r;
        assert(q[y] == p[y]);
        assert(climb(q, y, k2 + 1) == climb(q, p[y] as int, k2));
    }
}

proof fn lemma_link_other(p: Seq<usize>, o: int, r: int, y: int, k: nat, t: int)
    requires
        0 <= o < p.len(),
        0 <= t < p.len(),
        p[o] == o,
        p[t] == t,
        t != o,
        climb(p, y, k) == t,
        0 <= y < p.len(),
        forall|x: int| 0 <= x < p.len() ==> #[trigger] p[x] < p.len(),
    ensures
        climb(p.update(o, r as usize), y, k) == t,
    decreases k,
{
    if k > 0 {
        if y == o {
            lemma_climb_root(p, o, k);
        }
        lemma_link_other(p, o, r, p[y] as int, (k - 1) as nat, t);
        assert(p.update(o, r as usize)[y] == p[y]);
    }
}

/// Hanging the root `o` under the root `r` relabels `o`'s cluster to `r`.
proof fn lemma_link_labels(p: Seq<usize>, lab: Seq<int>, o: int, r: int)
    requires
        labels_ok(p, lab),
        0 <= o < p.len(),
        0 <= r < p.len(),
        p[o] == o,
        p[r] == r,
        o != r,
        forall|x: int| 0 <= x < p.len() ==> #[trigger] p[x] < p.len(),
    ensures
        labels_ok(p.update(o, r as usize), relabel(lab, o, r)),
{
    let q = p.update(o, r as usize);
    let l2 = relabel(lab, o, r);
    assert forall|y: int| 0 <= y < q.len() implies {
        &&& 0 <= #[trigger] l2[y] < q.len()
        &&& q[l2[y]] == l2[y]
        &&& exists|k: nat| #[trigger] climb(q, y, k) == l2[y]
    } by {
        let k0 = choose|k: nat| #[trigger] climb(p, y, k) == lab[y];
        if lab[y] == o {
            lemma_link_to_o(p, o, r, y, k0);
        } else {
            lemma_link_other(p, o, r, y, k0, lab[y]);
        }
    }
}

/// `x` and `y` both lead to the root `r`: they are in one cluster.
pub open spec fn joined_at(p: Seq<usize>, x: int, y: int, r: int) -> bool {
    &&& 0 <= r < p.len()
    &&& p[r] == r
    &&& exists|k: nat| climb(p, x, k) == r
    &&& exists|k: nat| climb(p, y, k) == r
}

proof fn lemma_two_steps(p: Seq<usize>, x: int, r: int)
    requires
        0 <= x < p.len(),
        p[x] < p.len(),
        x == r || p[x] == r || p[p[x] as int] == r,
    ensures
        exists|k: nat| climb(p, x, k) == r,
{
    reveal_with_fuel(climb, 3);
    if x == r {
        assert(climb(p, x, 0) == r);
    } else if p[x] == r {
        assert(climb(p, x, 1) == r);
    } else {
        assert(climb(p, x, 2) == r);
    }
}

pub open spec fn root_count(p: Seq<usize>, k: nat) -> nat
    decreases k,
{
    if k == 0 {
        0
    } else {
        root_count(p, (k - 1) as nat) + if p[k - 1] == k - 1 {
            1nat
        } else {
            0nat
        }
    }
}

proof fn lemma_root_count_update(p: Seq<usize>, j: int, val: usize, k: nat)
    requires
        0 <= j < p.len(),
        k <= p.len(),
    ensures
        j >= k ==> root_count(p.update(j, val), k) == root_count(p, k),
        j < k && p[j] == j && val != j ==> root_count(p.update(j, val), k) + 1 == root_count(p, k),
        j < k && p[j] != j && val != j ==> root_count(p.update(j, val), k) == root_count(p, k),
    decreases k,
{
    if k > 0 {
        lemma_root_count_update(p, j, val, (k - 1) as nat);
    }
}

proof fn lemma_root_count_two(p: Seq<usize>, a: int, b: int, k: nat)
    requires
        k <= p.len(),
        0 <= a < k,
        0 <= b < k,
        a != b,
        p[a] == a,
        p[b] == b,
    ensures
        root_count(p, k) >= 2,
    decreases k,
{
    if k - 1 != a && k - 1 != b {
        lemma_root_count_two(p, a, b, (k - 1) as nat);
    } else if k - 1 == a {
        lemma_root_count_one(p, b, (k - 1) as nat);
    } else {
        lemma_root_count_one(p, a, (k - 1) as nat);
    }
}

proof fn lemma_root_count_one(p: Seq<usize>, a: int, k: nat)
    requires
        k <= p.len(),
        0 <= a < k,
        p[a] == a,
    ensures
        root_count(p, k) >= 1,
    decreases k,
{
    if k - 1 != a {
        lemma_root_count_one(p, a, (k - 1) as nat);
    }
}

proof fn lemma_root_count_bound(p: Seq<usize>, k: nat)
    requires
        k <= p.len(),
    ensures
        root_count(p, k) <= k,
    decreases k,
{
    if k > 0 {
        lemma_root_count_bound(p, (k - 1) as nat);
    }
}

struct UnionFind {
    parent: Vec<usize>,
    rank: Vec<usize>,
    /// True if the cluster holds an odd number of defects.
    parity: Vec<bool>,
    touches_boundary: Vec<bool>,
}

impl UnionFind {
    /// Parents stay in range and ranks strictly increase towards the root,
    /// so every chain of parents ends at a root.
    spec fn wf(&self) -> bool {
        let size = self.parent@.len();
        &&& self.rank@.len() == size
        &&& self.parity@.len() == size
        &&& self.touches_boundary@.len() == size
        &&& forall|x: int| 0 <= x < size ==> (#[trigger] self.parent@[x]) < size
        &&& forall|x: int|
            0 <= x < size && self.parent@[x] != x ==> self.rank@[x] < self.rank@[#[trigger] self.parent@[x] as int]
        &&& forall|x: int| 0 <= x < size ==> (#[trigger] self.rank@[x]) + root_count(self.parent@, size) <= size
    }

    /// Every node is its own cluster; nodes beyond the defect list are
    /// boundary nodes.
    fn new(size: usize, defects: &[bool]) -> (uf: Self)
        ensures
            uf.wf(),
            uf.parent@.len() == size,
            forall|x: int| 0 <= x < size ==> #[trigger] uf.parent@[x] == x,
            forall|x: int| 0 <= x < size ==> #[trigger] uf.parity@[x] == (x < defects@.len() && defects@[x]),
            forall|x: int| 0 <= x < size ==> #[trigger] uf.touches_boundary@[x] == (x >= defects@.len()),
    {
        let mut parent: Vec<usize> = Vec::new();
        for i in 0..size
            invariant
                parent@.len() == i,
                forall|x: int| 0 <= x < i ==> #[trigger] parent@[x] == x,
        {
            parent.push(i);
        }
        let rank: Vec<usize> = vec![0usize; size];
        let mut parity: Vec<bool> = vec![false; size];
        let mut touches_boundary: Vec<bool> = vec![false; size];
        for i in 0..size
            invariant
                parity@.len() == size,
                touches_boundary@.len() == size,
                forall|x: int| 0 <= x < size ==> #[trigger] parity@[x] == (x < i && x < defects@.len() && defects@[x]),
                forall|x: int| 0 <= x < size ==> #[trigger] touches_boundary@[x] == (x < i && x >= defects@.len()),
        {
            if i < defects.len() {
                parity.set(i, defects[i]);
            } else {
                touches_boundary.set(i, true);
            }
        }
        proof {
            lemma_root_count_bound(parent@, size as nat);
            assert forall|x: int| 0 <= x < size implies (#[trigger] rank@[x]) == 0 by {}
        }
        UnionFind { parent, rank, parity, touches_boundary }
    }

    /// The root of `i`'s cluster, compressing the path to it.
    fn find(&mut self, i: usize) -> (root: usize)
        requires
            old(self).wf(),
            i < old(self).parent@.len(),
        ensures
            final(self).wf(),
            final(self).parent@.len() == old(self).parent@.len(),
            root < final(self).parent@.len(),
            final(self).parent@[root as int] == root,
            final(self).rank@ == old(self).rank@,
            final(self).parity@ == old(self).parity@,
            final(self).touches_boundary@ == old(self).touches_boundary@,
            root_count(final(self).parent@, final(self).parent@.len()) == root_count(
                old(self).parent@,
                old(self).parent@.len(),
            ),
            forall|x: int| 0 <= x < final(self).parent@.len() && old(self).parent@[x] == x ==> #[trigger] final(self).parent@[x] == x,
            final(self).parent@[i as int] == root,
            old(self).parent@[root as int] == root,
            forall|x: int|
                0 <= x < final(self).parent@.len() ==> #[trigger] final(self).parent@[x] == old(self).parent@[x]
                    || (final(self).parent@[x] == root && exists|kk: nat|
                    #[trigger] climb(old(self).parent@, x, kk) == root),
            forall|lab: Seq<int>| #[trigger] labels_ok(old(self).parent@, lab) ==> labels_ok(final(self).parent@, lab)
                && lab[i as int] == root,
    {
        let ghost size = self.parent@.len();
        let ghost mut path: Seq<usize> = seq![i];
        let mut root = i;
        while root != self.parent[root]
            invariant
                self.wf(),
                size == self.parent@.len(),
                root < size,
                path.len() >= 1,
                path[0] == i,
                path.last() == root,
                *self == *old(self),
                forall|k: int| 0 <= k < path.len() ==> #[trigger] path[k] < size,
                forall|k: int| 0 <= k < path.len() - 1 ==> #[trigger] path[k + 1] == self.parent@[path[k] as int]
                    && self.parent@[path[k] as int] != path[k],
                forall|a: int, b: int| 0 <= a < b < path.len() ==> self.rank@[#[trigger] path[a] as int] < self.rank@[#[trigger] path[b] as int],
            decreases usize::MAX - self.rank@[root as int],
        {
            let ghost prev = path;
            let ghost was = root;
            root = self.parent[root];
            proof {
                path = path.push(root);
                assert forall|k: int| 0 <= k < path.len() - 1 implies #[trigger] path[k + 1] == self.parent@[path[k] as int]
                    && self.parent@[path[k] as int] != path[k] by {
                    if k < prev.len() - 1 {
                        assert(path[k] == prev[k] && path[k + 1] == prev[k + 1]);
                    } else {
                        assert(path[k] == was);
                    }
                }
            }
        }
        // Path compression.
        let ghost p0 = self.parent@;
        let ghost r0 = self.rank@;
        let ghost count0 = root_count(p0, size as nat);
        let mut curr = i;
        let ghost mut k: int = 0;
        while curr != root
            invariant
                self.wf(),
                size == self.parent@.len(),
                root < size,
                self.parent@[root as int] == root,
                self.rank@ == r0,
                0 <= k < path.len(),
                curr == path[k],
                path.last() == root,
                forall|j: int| 0 <= j < path.len() ==> #[trigger] path[j] < size,
                forall|j: int| 0 <= j < path.len() - 1 ==> #[trigger] path[j + 1] == p0[path[j] as int]
                    && p0[path[j] as int] != path[j],
                forall|a: int, b: int| 0 <= a < b < path.len() ==> r0[#[trigger] path[a] as int] < r0[#[trigger] path[b] as int],
                forall|j: int| k <= j < path.len() ==> #[trigger] self.parent@[path[j] as int] == p0[path[j] as int],
                root_count(self.parent@, size as nat) == count0,
                forall|x: int| 0 <= x < size && p0[x] == x ==> #[trigger] self.parent@[x] == x,
                self.parity@ == old(self).parity@,
                self.touches_boundary@ == old(self).touches_boundary@,
                p0 == old(self).parent@,
                path[0] == i,
                k > 0 ==> self.parent@[i as int] == root,
                forall|x: int|
                    0 <= x < size ==> #[trigger] self.parent@[x] == p0[x] || (self.parent@[x] == root && exists|kk: nat|
                        #[trigger] climb(p0, x, kk) == root),
            decreases path.len() - k,
        {
            proof {
                if k == path.len() - 1 {
                    assert(curr == root);
                }
                assert(self.parent@[curr as int] == p0[curr as int]);
            }
            let nxt = self.parent[curr];
            let ghost before = self.parent@;
            proof {
                lemma_path_climb(p0, path, k);
            }
            self.parent.set(curr, root);
            proof {
                if k > 0 {
                    assert(r0[path[0] as int] < r0[path[k] as int]);
                }
                assert(nxt == path[k + 1]);
                lemma_root_count_update(before, curr as int, root, size as nat);
                assert(r0[path[k] as int] < r0[path[path.len() - 1] as int]);
                assert forall|j: int| k + 1 <= j < path.len() implies #[trigger] self.parent@[path[j] as int] == p0[path[j] as int] by {
                    assert(r0[path[k] as int] < r0[path[j] as int]);
                }
                assert forall|x: int| 0 <= x < size && self.parent@[x] != x implies self.rank@[x] < self.rank@[#[trigger] self.parent@[x] as int] by {
                    if x != curr {
                        assert(before[x] == self.parent@[x]);
                    }
                }
                assert forall|x: int| 0 <= x < size implies (#[trigger] self.rank@[x]) + root_count(self.parent@, size as nat) <= size by {
                    assert(self.rank@[x] + root_count(before, size as nat) <= size);
                }
                k = k + 1;
            }
            curr = nxt;
        }
        proof {
            assert(p0 == old(self).parent@);
            lemma_path_climb(p0, path, 0);
            assert forall|lab: Seq<int>| #[trigger] labels_ok(old(self).parent@, lab) implies labels_ok(
                self.parent@,
                lab,
            ) && lab[i as int] == root by {
                lemma_compress_keeps_labels(p0, self.parent@, lab, root as int);
                lemma_label_is_root(p0, lab, i as int, (path.len() - 1) as nat);
            }
        }
        root
    }

    /// `new` is `self` with root `o` hung under root `r`, which takes on the
    /// combined parity and boundary contact of both clusters.
    spec fn linked(&self, new: UnionFind, r: int, o: int) -> bool {
        let size = self.parent@.len();
        &&& 0 <= r < size
        &&& 0 <= o < size
        &&& r != o
        &&& self.parent@[r] == r
        &&& self.parent@[o] == o
        &&& new.parent@[o] == r
        &&& new.parity@ == self.parity@.update(r, self.parity@[r] != self.parity@[o])
        &&& new.touches_boundary@ == self.touches_boundary@.update(
            r,
            self.touches_boundary@[r] || self.touches_boundary@[o],
        )
    }

    /// Merge the clusters of `i` and `j`; false if they were already one.
    fn union(&mut self, i: usize, j: usize) -> (merged: bool)
        requires
            old(self).wf(),
            i < old(self).parent@.len(),
            j < old(self).parent@.len(),
        ensures
            final(self).wf(),
            final(self).parent@.len() == old(self).parent@.len(),
            root_count(final(self).parent@, final(self).parent@.len()) + (if merged {
                1int
            } else {
                0int
            }) == root_count(old(self).parent@, old(self).parent@.len()),
            exists|r: int| joined_at(final(self).parent@, i as int, j as int, r),
            !merged ==> final(self).parity@ == old(self).parity@ && final(self).touches_boundary@ == old(
                self,
            ).touches_boundary@,
            merged ==> exists|r: int, o: int| #[trigger] old(self).linked(*final(self), r, o),
            forall|lab: Seq<int>|
                #[trigger] labels_ok(old(self).parent@, lab) ==> {
                    &&& !merged ==> labels_ok(final(self).parent@, lab) && lab[i as int] == lab[j as int]
                    &&& merged ==> lab[i as int] != lab[j as int] && ((old(self).linked(
                        *final(self),
                        lab[i as int],
                        lab[j as int],
                    ) && labels_ok(final(self).parent@, relabel(lab, lab[j as int], lab[i as int]))) || (old(
                        self,
                    ).linked(*final(self), lab[j as int], lab[i as int]) && labels_ok(
                        final(self).parent@,
                        relabel(lab, lab[i as int], lab[j as int]),
                    )))
                },
    {
        let ghost size = self.parent@.len();
        let ghost p_old = self.parent@;
        let root_i = self.find(i);
        let ghost p1 = self.parent@;
        let root_j = self.find(j);
        let ghost p2 = self.parent@;
        proof {
            reveal_with_fuel(climb, 3);
            assert(p2[i as int] == root_i || p2[i as int] == root_j);
            assert(p2[root_i as int] == root_i);
            assert(p_old[root_i as int] == root_i);
            assert(p1[root_j as int] == root_j);
            assert(p_old[root_j as int] == root_j);
        }

        if root_i == root_j {
            proof {
                reveal_with_fuel(climb, 3);
                assert(climb(p2, i as int, 1) == root_i as int);
                assert(climb(p2, j as int, 1) == root_i as int);
                assert(joined_at(p2, i as int, j as int, root_i as int));
                assert forall|lab: Seq<int>| #[trigger] labels_ok(old(self).parent@, lab) implies labels_ok(
                    self.parent@,
                    lab,
                ) && lab[i as int] == lab[j as int] by {
                    assert(labels_ok(p1, lab) && lab[i as int] == root_i);
                    assert(labels_ok(p2, lab) && lab[j as int] == root_j);
                }
            }
            return false;
        }
        let ghost size = self.parent@.len();
        let ghost before = self.parent@;
        proof {
            lemma_root_count_two(before, root_i as int, root_j as int, size as nat);
        }
        if self.rank[root_i] < self.rank[root_j] {
            self.parent.set(root_i, root_j);
            let pj = self.parity[root_j] != self.parity[root_i];
            self.parity.set(root_j, pj);
            let tj = self.touches_boundary[root_j] || self.touches_boundary[root_i];
            self.touches_boundary.set(root_j, tj);
            proof {
                lemma_root_count_update(before, root_i as int, root_j, size as nat);
                assert forall|x: int| 0 <= x < size && self.parent@[x] != x implies self.rank@[x] < self.rank@[#[trigger] self.parent@[x] as int] by {
                    if x != root_i {
                        assert(before[x] == self.parent@[x]);
                    }
                }
                assert forall|x: int| 0 <= x < size implies (#[trigger] self.rank@[x]) + root_count(self.parent@, size as nat) <= size by {
                    assert(self.rank@[x] + root_count(before, size as nat) <= size);
                }
            }
        } else {
            self.parent.set(root_j, root_i);
            let pi = self.parity[root_i] != self.parity[root_j];
            self.parity.set(root_i, pi);
            let ti = self.touches_boundary[root_i] || self.touches_boundary[root_j];
            self.touches_boundary.set(root_i, ti);
            proof {
                lemma_root_count_update(before, root_j as int, root_i, size as nat);
                assert(self.rank@[root_i as int] + root_count(before, size as nat) <= size);
            }
            if self.rank[root_i] == self.rank[root_j] {
                let sz = self.parent.len();
                assert(self.rank@[root_i as int] + 2 <= sz);
                let ghost rk = self.rank@;
                let ri = self.rank[root_i] + 1;
                self.rank.set(root_i, ri);
                proof {
                    assert forall|x: int| 0 <= x < size && self.parent@[x] != x implies self.rank@[x] < self.rank@[#[trigger] self.parent@[x] as int] by {
                        if x != root_j {
                            assert(before[x] == self.parent@[x]);
                            assert(before[x] != x);
                            assert(rk[x] < rk[before[x] as int]);
                            assert(x != root_i);
                        }
                    }
                    assert forall|x: int| 0 <= x < size implies (#[trigger] self.rank@[x]) + root_count(self.parent@, size as nat) <= size by {
                        assert(rk[x] + root_count(before, size as nat) <= size);
                    }
                }
            } else {
                proof {
                    assert forall|x: int| 0 <= x < size && self.parent@[x] != x implies self.rank@[x] < self.rank@[#[trigger] self.parent@[x] as int] by {
                        if x != root_j {
                            assert(before[x] == self.parent@[x]);
                        }
                    }
                    assert forall|x: int| 0 <= x < size implies (#[trigger] self.rank@[x]) + root_count(self.parent@, size as nat) <= size by {
                        assert(self.rank@[x] + root_count(before, size as nat) <= size);
                    }
                }
            }
        }
        proof {
            let r: int = if self.parent@[root_i as int] == root_j {
                root_j as int
            } else {
                root_i as int
            };
            let o: int = if r == root_j {
                root_i as int
            } else {
                root_j as int
            };
            assert(self.parent@ == p2.update(o, r as usize));
            lemma_two_steps(self.parent@, i as int, r);
            lemma_two_steps(self.parent@, j as int, r);
            assert(joined_at(self.parent@, i as int, j as int, r));
            assert(old(self).linked(*self, r, o));
            assert forall|lab: Seq<int>| #[trigger] labels_ok(old(self).parent@, lab) implies {
                &&& lab[i as int] != lab[j as int]
                &&& ((old(self).linked(*self, lab[i as int], lab[j as int]) && labels_ok(
                    self.parent@,
                    relabel(lab, lab[j as int], lab[i as int]),
                )) || (old(self).linked(*self, lab[j as int], lab[i as int]) && labels_ok(
                    self.parent@,
                    relabel(lab, lab[i as int], lab[j as int]),
                )))
            } by {
                assert(labels_ok(p1, lab) && lab[i as int] == root_i);
                assert(labels_ok(p2, lab) && lab[j as int] == root_j);
                lemma_link_labels(p2, lab, o, r);
            }
        }
        true
    }
}


pub open spec fn growth_sum(s: Seq<u8>) -> nat
    decreases s.len(),
{
    if s.len() == 0 {
        0
    } else {
        growth_sum(s.drop_last()) + s.last() as nat
    }
}

proof fn lemma_growth_sum_bound(s: Seq<u8>)
    requires
        forall|k: int| 0 <= k < s.len() ==> #[trigger] s[k] <= 2,
    ensures
        growth_sum(s) <= 2 * s.len(),
    decreases s.len(),
{
    if s.len() > 0 {
        lemma_growth_sum_bound(s.drop_last());
    }
}

proof fn lemma_growth_sum_inc(s: Seq<u8>, i: int, val: u8)
    requires
        0 <= i < s.len(),
        val >= s[i],
    ensures
        growth_sum(s.update(i, val)) == growth_sum(s) + (val - s[i]),
    decreases s.len(),
{
    if i < s.len() - 1 {
        lemma_growth_sum_inc(s.drop_last(), i, val);
        assert(s.update(i, val).drop_last() =~= s.drop_last().update(i, val));
    } else {
        assert(s.update(i, val).drop_last() =~= s.drop_last());
    }
}

pub open spec fn count_false(s: Seq<bool>) -> nat
    decreases s.len(),
{
    if s.len() == 0 {
        0
    } else {
        count_false(s.drop_last()) + if s.last() {
            0nat
        } else {
            1nat
        }
    }
}

proof fn lemma_count_false_set(s: Seq<bool>, i: int)
    requires
        0 <= i < s.len(),
        !s[i],
    ensures
        count_false(s.update(i, true)) + 1 == count_false(s),
    decreases s.len(),
{
    if i < s.len() - 1 {
        lemma_count_false_set(s.drop_last(), i);
        assert(s.update(i, true).drop_last() =~= s.drop_last().update(i, true));
    } else {
        assert(s.update(i, true).drop_last() =~= s.drop_last());
    }
}

/// Edge `e` exists in the erasure list and is erased.
pub open spec fn is_erased(erased: Seq<bool>, e: int) -> bool {
    0 <= e < erased.len() && erased[e]
}

/// Some erased edge runs between nodes `x` and `y`.
pub open spec fn erased_step(edges: Seq<Edge>, erased: Seq<bool>, x: int, y: int) -> bool {
    exists|e: int| 0 <= e < edges.len() && is_erased(erased, e) && #[trigger] edge_joins(edges[e], x, y)
}

/// `p` is a walk that crosses erased edges only.
pub open spec fn erased_walk(edges: Seq<Edge>, erased: Seq<bool>, p: Seq<int>) -> bool {
    &&& p.len() >= 1
    &&& forall|j: int| 0 <= j < p.len() - 1 ==> erased_step(edges, erased, #[trigger] p[j], p[j + 1])
}

/// The erasure alone can explain the defects: every defect reaches the
/// boundary (a node numbered `num_nodes` or more) through erased edges.
pub open spec fn erasure_reaches_boundary(graph: SyndromeGraph, defects: Seq<bool>, erased: Seq<bool>) -> bool {
    forall|x: int|
        0 <= x < graph.num_nodes && #[trigger] defects[x] ==> exists|p: Seq<int>|
            #[trigger] erased_walk(graph.edges@, erased, p) && p[0] == x && p.last() >= graph.num_nodes
}

/// The clusters `lab` names carry what the Union-Find keeps of them: a root
/// marked odd holds a defect, and a cluster holding a boundary node (one at or
/// past the end of the defect list) is marked as touching the boundary.
spec fn cluster_facts(uf: UnionFind, lab: Seq<int>, defects: Seq<bool>) -> bool {
    let n = uf.parent@.len();
    &&& labels_ok(uf.parent@, lab)
    &&& forall|x: int|
        0 <= x < n && uf.parity@[#[trigger] lab[x]] ==> exists|d: int|
            0 <= d < n && d < defects.len() && defects[d] && #[trigger] lab[d] == lab[x]
    &&& forall|x: int| 0 <= x < n && x >= defects.len() ==> uf.touches_boundary@[#[trigger] lab[x]]
}

proof fn lemma_merge_facts(a: UnionFind, b: UnionFind, lab: Seq<int>, defects: Seq<bool>, r: int, o: int)
    requires
        a.wf(),
        cluster_facts(a, lab, defects),
        a.linked(b, r, o),
        b.parent@.len() == a.parent@.len(),
        labels_ok(b.parent@, relabel(lab, o, r)),
    ensures
        cluster_facts(b, relabel(lab, o, r), defects),
{
    let n = a.parent@.len();
    let l2 = relabel(lab, o, r);
    lemma_root_label(a.parent@, lab, r);
    lemma_root_label(a.parent@, lab, o);
    assert forall|x: int| 0 <= x < n && b.parity@[#[trigger] l2[x]] implies exists|d: int|
        0 <= d < n && d < defects.len() && defects[d] && #[trigger] l2[d] == l2[x] by {
        if lab[x] == r || lab[x] == o {
            if a.parity@[r] {
                let d = choose|d: int| 0 <= d < n && d < defects.len() && defects[d] && #[trigger] lab[d] == lab[r];
                assert(l2[d] == r);
            } else {
                assert(a.parity@[o]);
                let d = choose|d: int| 0 <= d < n && d < defects.len() && defects[d] && #[trigger] lab[d] == lab[o];
                assert(l2[d] == r);
            }
        } else {
            assert(b.parity@[lab[x]] == a.parity@[lab[x]]);
            let d = choose|d: int| 0 <= d < n && d < defects.len() && defects[d] && #[trigger] lab[d] == lab[x];
            assert(l2[d] == lab[x]);
        }
    }
    assert forall|x: int| 0 <= x < n && x >= defects.len() implies b.touches_boundary@[#[trigger] l2[x]] by {
        assert(a.touches_boundary@[lab[x]]);
    }
}

proof fn lemma_walk_label(edges: Seq<Edge>, erased: Seq<bool>, lab: Seq<int>, n: int, p: Seq<int>, j: int)
    requires
        erased_walk(edges, erased, p),
        0 <= j < p.len(),
        0 <= p[0] < n,
        lab.len() == n,
        forall|e: int| 0 <= e < edges.len() ==> (#[trigger] edges[e]).u < n && edges[e].v < n,
        forall|e: int|
            0 <= e < edges.len() && is_erased(erased, e) ==> lab[(#[trigger] edges[e]).u as int] == lab[edges[e].v as int],
    ensures
        0 <= p[j] < n,
        lab[p[j]] == lab[p[0]],
    decreases j,
{
    if j > 0 {
        lemma_walk_label(edges, erased, lab, n, p, j - 1);
        let jj = j - 1;
        assert(erased_step(edges, erased, p[jj], p[jj + 1]));
        let e = choose|e: int| 0 <= e < edges.len() && is_erased(erased, e) && #[trigger] edge_joins(edges[e], p[jj], p[jj + 1]);
        assert(lab[edges[e].u as int] == lab[edges[e].v as int]);
    }
}

/// When the erasure reaches the boundary from every defect and every erased
/// edge lies inside one cluster, no cluster is odd without touching the
/// boundary.
proof fn lemma_no_active_cluster(uf: UnionFind, lab: Seq<int>, graph: SyndromeGraph, defects: Seq<bool>, erased: Seq<bool>)
    requires
        uf.wf(),
        cluster_facts(uf, lab, defects),
        defects.len() == graph.num_nodes,
        graph.num_nodes < uf.parent@.len(),
        forall|e: int|
            0 <= e < graph.edges@.len() ==> (#[trigger] graph.edges@[e]).u < uf.parent@.len() && graph.edges@[e].v
                < uf.parent@.len(),
        forall|e: int|
            0 <= e < graph.edges@.len() && is_erased(erased, e) ==> lab[(#[trigger] graph.edges@[e]).u as int]
                == lab[graph.edges@[e].v as int],
        erasure_reaches_boundary(graph, defects, erased),
    ensures
        forall|x: int| 0 <= x < uf.parent@.len() && uf.parity@[#[trigger] lab[x]] ==> uf.touches_boundary@[lab[x]],
{
    let n = uf.parent@.len();
    assert forall|x: int| 0 <= x < n && uf.parity@[#[trigger] lab[x]] implies uf.touches_boundary@[lab[x]] by {
        let d = choose|d: int| 0 <= d < n && d < defects.len() && defects[d] && #[trigger] lab[d] == lab[x];
        let p = choose|p: Seq<int>|
            #[trigger] erased_walk(graph.edges@, erased, p) && p[0] == d && p.last() >= graph.num_nodes;
        lemma_walk_label(graph.edges@, erased, lab, n as int, p, p.len() - 1);
        let b = p.last();
        assert(0 <= b < n && b >= defects.len());
        assert(uf.touches_boundary@[lab[b]]);
    }
}

/// A correction made of erased edges costs nothing.
proof fn lemma_erased_weight(erased: Seq<bool>, corr: Seq<usize>)
    requires
        forall|k: int| 0 <= k < corr.len() ==> is_erased(erased, #[trigger] corr[k] as int),
    ensures
        correction_weight(erased, corr) == 0,
    decreases corr.len(),
{
    if corr.len() > 0 {
        lemma_erased_weight(erased, corr.drop_last());
        assert(is_erased(erased, corr[corr.len() - 1] as int));
    }
}

/// Union-Find decoding: grow every cluster holding an odd number of defects,
/// and not touching the boundary, by half an edge per step; merge clusters
/// when an edge is fully grown; then peel a spanning forest of the grown
/// edges from the leaves inwards. Erased edges start fully grown.
///
/// The result is a function of the arguments alone: clusters are visited in
/// node order.
pub fn decode_union_find(graph: &SyndromeGraph, defects: &[bool], erased_edges: &[bool]) -> (correction: Vec<usize>)
    requires
        graph.num_nodes < usize::MAX,
        forall|e: int|
            0 <= e < graph.edges@.len() ==> (#[trigger] graph.edges@[e]).u < usize::MAX
                && graph.edges@[e].v < usize::MAX,
        graph.edges@.len() <= usize::MAX / 2,
        defects@.len() >= graph.num_nodes,
    ensures
        valid_correction(graph.edges@, correction@),
        no_defects(defects@, graph.num_nodes as int) ==> correction@.len() == 0,
        defects@.len() == graph.num_nodes && erasure_reaches_boundary(*graph, defects@, erased_edges@) ==> (forall|k: int|
            0 <= k < correction@.len() ==> is_erased(erased_edges@, #[trigger] correction@[k] as int))
            && correction_weight(erased_edges@, correction@) == 0,
{
    let ghost pre = defects@.len() == graph.num_nodes && erasure_reaches_boundary(*graph, defects@, erased_edges@);
    let ghost clean = no_defects(defects@, graph.num_nodes as int);
    let num_edges = graph.edges.len();
    let mut total_nodes = graph.num_nodes + 1;
    for k in 0..num_edges
        invariant
            num_edges == graph.edges@.len(),
            forall|e: int|
                0 <= e < graph.edges@.len() ==> (#[trigger] graph.edges@[e]).u < usize::MAX
                    && graph.edges@[e].v < usize::MAX,
            total_nodes > graph.num_nodes,
            forall|e: int| 0 <= e < k ==> (#[trigger] graph.edges@[e]).u < total_nodes && graph.edges@[e].v < total_nodes,
    {
        let u1 = graph.edges[k].u + 1;
        let v1 = graph.edges[k].v + 1;
        if u1 > total_nodes {
            total_nodes = u1;
        }
        if v1 > total_nodes {
            total_nodes = v1;
        }
    }

    let mut uf = UnionFind::new(total_nodes, defects);
    let ghost mut lab: Seq<int> = Seq::new(total_nodes as nat, |x: int| x);
    proof {
        assert forall|x: int| 0 <= x < total_nodes implies {
            &&& 0 <= #[trigger] lab[x] < uf.parent@.len()
            &&& uf.parent@[lab[x]] == lab[x]
            &&& exists|k: nat| #[trigger] climb(uf.parent@, x, k) == lab[x]
        } by {
            assert(climb(uf.parent@, x, 0) == x);
        }
        assert forall|x: int| 0 <= x < total_nodes && uf.parity@[#[trigger] lab[x]] implies exists|d: int|
            0 <= d < total_nodes && d < defects@.len() && defects@[d] && #[trigger] lab[d] == lab[x] by {
            assert(lab[x] == x);
        }
        assert(cluster_facts(uf, lab, defects@));
    }

    // 0 = unvisited, 1 = half grown, 2 = fully grown.
    let mut edge_growth: Vec<u8> = vec![0u8; num_edges];
    let mut forest_edges: Vec<usize> = Vec::new();

    // Erased edges cost nothing: merge across them before growing.
    for edge_idx in 0..num_edges
        invariant
            num_edges == graph.edges@.len(),
            uf.wf(),
            uf.parent@.len() == total_nodes,
            edge_growth@.len() == num_edges,
            forall|e: int| 0 <= e < num_edges ==> #[trigger] edge_growth@[e] <= 2,
            forall|e: int| 0 <= e < graph.edges@.len() ==> (#[trigger] graph.edges@[e]).u < total_nodes && graph.edges@[e].v < total_nodes,
            forall|k: int| 0 <= k < forest_edges@.len() ==> #[trigger] forest_edges@[k] < num_edges,
            cluster_facts(uf, lab, defects@),
            forall|e: int|
                0 <= e < edge_idx && is_erased(erased_edges@, e) ==> lab[(#[trigger] graph.edges@[e]).u as int]
                    == lab[graph.edges@[e].v as int],
            forall|k: int| 0 <= k < forest_edges@.len() ==> is_erased(erased_edges@, #[trigger] forest_edges@[k] as int),
    {
        if edge_idx < erased_edges.len() && erased_edges[edge_idx] {
            edge_growth.set(edge_idx, 2);
            let ghost a = uf;
            let ghost lab0 = lab;
            let u = graph.edges[edge_idx].u;
            let v = graph.edges[edge_idx].v;
            let merged = uf.union(u, v);
            proof {
                assert(labels_ok(a.parent@, lab0));
                if merged {
                    if a.linked(uf, lab0[u as int], lab0[v as int]) && labels_ok(
                        uf.parent@,
                        relabel(lab0, lab0[v as int], lab0[u as int]),
                    ) {
                        lemma_merge_facts(a, uf, lab0, defects@, lab0[u as int], lab0[v as int]);
                        lab = relabel(lab0, lab0[v as int], lab0[u as int]);
                    } else {
                        lemma_merge_facts(a, uf, lab0, defects@, lab0[v as int], lab0[u as int]);
                        lab = relabel(lab0, lab0[u as int], lab0[v as int]);
                    }
                    assert(lab[u as int] == lab[v as int]);
                } else {
                    assert(cluster_facts(uf, lab, defects@));
                }
                assert forall|e: int|
                    0 <= e < edge_idx + 1 && is_erased(erased_edges@, e) implies lab[(#[trigger] graph.edges@[e]).u as int]
                        == lab[graph.edges@[e].v as int] by {
                    if e < edge_idx {
                        assert(lab0[graph.edges@[e].u as int] == lab0[graph.edges@[e].v as int]);
                    }
                }
            }
            if merged {
                forest_edges.push(edge_idx);
            }
        }
    }
    proof {
        if pre {
            lemma_no_active_cluster(uf, lab, *graph, defects@, erased_edges@);
        }
    }

    // Incident edges of each node.
    let mut adj: Vec<Vec<usize>> = Vec::new();
    for i in 0..total_nodes
        invariant
            adj@.len() == i,
            forall|n: int| 0 <= n < i ==> (#[trigger] adj@[n])@.len() == 0,
    {
        adj.push(Vec::new());
    }
    for edge_idx in 0..num_edges
        invariant
            num_edges == graph.edges@.len(),
            adj@.len() == total_nodes,
            forall|e: int| 0 <= e < graph.edges@.len() ==> (#[trigger] graph.edges@[e]).u < total_nodes && graph.edges@[e].v < total_nodes,
            forall|n: int, k: int| 0 <= n < total_nodes && 0 <= k < adj@[n]@.len() ==> #[trigger] adj@[n]@[k] < num_edges,
    {
        let u = graph.edges[edge_idx].u;
        let v = graph.edges[edge_idx].v;
        let ghost a0 = adj@;
        adj[u].push(edge_idx);
        adj[v].push(edge_idx);
        proof {
            assert forall|n: int, k: int| 0 <= n < total_nodes && 0 <= k < adj@[n]@.len() implies #[trigger] adj@[n]@[k] < num_edges by {
                if k < a0[n]@.len() {
                    if n == u && n == v {
                        assert(adj@[n]@[k] == a0[n]@[k]);
                    } else if n == u || n == v {
                        assert(adj@[n]@[k] == a0[n]@[k]);
                    } else {
                        assert(adj@[n] == a0[n]);
                    }
                }
            }
        }
    }

    // Cluster growth.
    let mut step: usize = 0;
    let max_steps = num_edges * 2;
    proof {
        lemma_growth_sum_bound(edge_growth@);
    }
    while step < max_steps
        invariant
            num_edges == graph.edges@.len(),
            max_steps == 2 * num_edges,
            uf.wf(),
            uf.parent@.len() == total_nodes,
            adj@.len() == total_nodes,
            edge_growth@.len() == num_edges,
            forall|e: int| 0 <= e < num_edges ==> #[trigger] edge_growth@[e] <= 2,
            forall|e: int| 0 <= e < graph.edges@.len() ==> (#[trigger] graph.edges@[e]).u < total_nodes && graph.edges@[e].v < total_nodes,
            forall|k: int| 0 <= k < forest_edges@.len() ==> #[trigger] forest_edges@[k] < num_edges,
            forall|n: int, k: int| 0 <= n < total_nodes && 0 <= k < adj@[n]@.len() ==> #[trigger] adj@[n]@[k] < num_edges,
            growth_sum(edge_growth@) <= 2 * num_edges,
            pre ==> labels_ok(uf.parent@, lab),
            pre ==> forall|x: int| 0 <= x < uf.parent@.len() && uf.parity@[#[trigger] lab[x]] ==> uf.touches_boundary@[lab[x]],
            pre ==> forall|k: int| 0 <= k < forest_edges@.len() ==> is_erased(erased_edges@, #[trigger] forest_edges@[k] as int),
        decreases max_steps - step, 2 * num_edges - growth_sum(edge_growth@),
    {
        // Active roots, collected in node order so that the result does not
        // depend on any hashing.
        let mut seen: Vec<bool> = vec![false; total_nodes];
        let mut active_roots: Vec<usize> = Vec::new();
        for i in 0..total_nodes
            invariant
                uf.wf(),
                uf.parent@.len() == total_nodes,
                seen@.len() == total_nodes,
                forall|k: int| 0 <= k < active_roots@.len() ==> #[trigger] active_roots@[k] < total_nodes,
                pre ==> labels_ok(uf.parent@, lab),
                pre ==> forall|x: int| 0 <= x < uf.parent@.len() && uf.parity@[#[trigger] lab[x]] ==> uf.touches_boundary@[lab[x]],
                pre ==> active_roots@.len() == 0,
        {
            let ghost a = uf;
            let root = uf.find(i);
            proof {
                if pre {
                    assert(labels_ok(a.parent@, lab));
                    assert(labels_ok(uf.parent@, lab) && lab[i as int] == root);
                    assert(uf.parity@[lab[i as int]] ==> uf.touches_boundary@[lab[i as int]]);
                }
            }
            if uf.parity[root] && !uf.touches_boundary[root] && !seen[root] {
                seen.set(root, true);
                active_roots.push(root);
            }
        }
        if active_roots.len() == 0 {
            break;
        }
        proof {
            assert(!pre);
        }

        // Every edge leaving an active cluster grows.
        let mut edges_to_grow: Vec<usize> = Vec::new();
        for r in 0..active_roots.len()
            invariant
                num_edges == graph.edges@.len(),
                uf.wf(),
                uf.parent@.len() == total_nodes,
                adj@.len() == total_nodes,
                forall|k: int| 0 <= k < active_roots@.len() ==> #[trigger] active_roots@[k] < total_nodes,
                forall|e: int| 0 <= e < graph.edges@.len() ==> (#[trigger] graph.edges@[e]).u < total_nodes && graph.edges@[e].v < total_nodes,
                forall|n: int, k: int| 0 <= n < total_nodes && 0 <= k < adj@[n]@.len() ==> #[trigger] adj@[n]@[k] < num_edges,
                forall|k: int| 0 <= k < edges_to_grow@.len() ==> #[trigger] edges_to_grow@[k] < num_edges,
        {
            let root = active_roots[r];
            for node in 0..total_nodes
                invariant
                    num_edges == graph.edges@.len(),
                    uf.wf(),
                    uf.parent@.len() == total_nodes,
                    adj@.len() == total_nodes,
                    root < total_nodes,
                    forall|e: int| 0 <= e < graph.edges@.len() ==> (#[trigger] graph.edges@[e]).u < total_nodes && graph.edges@[e].v < total_nodes,
                    forall|n: int, k: int| 0 <= n < total_nodes && 0 <= k < adj@[n]@.len() ==> #[trigger] adj@[n]@[k] < num_edges,
                    forall|k: int| 0 <= k < edges_to_grow@.len() ==> #[trigger] edges_to_grow@[k] < num_edges,
            {
                if uf.find(node) == root {
                    let deg = adj[node].len();
                    for k in 0..deg
                        invariant
                            num_edges == graph.edges@.len(),
                            uf.wf(),
                            uf.parent@.len() == total_nodes,
                            adj@.len() == total_nodes,
                            node < total_nodes,
                            deg == adj@[node as int]@.len(),
                            forall|e: int| 0 <= e < graph.edges@.len() ==> (#[trigger] graph.edges@[e]).u < total_nodes && graph.edges@[e].v < total_nodes,
                            forall|n: int, k: int| 0 <= n < total_nodes && 0 <= k < adj@[n]@.len() ==> #[trigger] adj@[n]@[k] < num_edges,
                            forall|k: int| 0 <= k < edges_to_grow@.len() ==> #[trigger] edges_to_grow@[k] < num_edges,
                    {
                        let edge_idx = adj[node][k];
                        let eu = graph.edges[edge_idx].u;
                        let ev = graph.edges[edge_idx].v;
                        let other = if eu == node {
                            ev
                        } else {
                            eu
                        };
                        if uf.find(other) != root {
                            edges_to_grow.push(edge_idx);
                        }
                    }
                }
            }
        }

        if edges_to_grow.len() == 0 {
            break;
        }

        let ghost g0 = growth_sum(edge_growth@);
        let mut merged_any = false;
        for k in 0..edges_to_grow.len()
            invariant
                num_edges == graph.edges@.len(),
                uf.wf(),
                uf.parent@.len() == total_nodes,
                edge_growth@.len() == num_edges,
                forall|e: int| 0 <= e < num_edges ==> #[trigger] edge_growth@[e] <= 2,
                forall|e: int| 0 <= e < graph.edges@.len() ==> (#[trigger] graph.edges@[e]).u < total_nodes && graph.edges@[e].v < total_nodes,
                forall|k: int| 0 <= k < edges_to_grow@.len() ==> #[trigger] edges_to_grow@[k] < num_edges,
                forall|k: int| 0 <= k < forest_edges@.len() ==> #[trigger] forest_edges@[k] < num_edges,
                growth_sum(edge_growth@) >= g0,
                merged_any ==> growth_sum(edge_growth@) > g0,
        {
            let edge_idx = edges_to_grow[k];
            if edge_growth[edge_idx] < 2 {
                let ng = edge_growth[edge_idx] + 1;
                proof {
                    lemma_growth_sum_inc(edge_growth@, edge_idx as int, ng);
                }
                edge_growth.set(edge_idx, ng);
                if ng == 2 {
                    if uf.union(graph.edges[edge_idx].u, graph.edges[edge_idx].v) {
                        forest_edges.push(edge_idx);
                        merged_any = true;
                    }
                }
            }
        }
        proof {
            lemma_growth_sum_bound(edge_growth@);
        }
        if !merged_any {
            step += 1;
        }
    }

    // Peeling: a spanning forest of the grown edges, peeled from the leaves.
    let mut correction: Vec<usize> = Vec::new();
    let mut visited_nodes: Vec<bool> = vec![false; total_nodes];
    let mut active_defects: Vec<bool> = vec![false; total_nodes];
    for i in 0..graph.num_nodes
        invariant
            active_defects@.len() == total_nodes,
            total_nodes > graph.num_nodes,
            defects@.len() >= graph.num_nodes,
            clean == no_defects(defects@, graph.num_nodes as int),
            clean ==> forall|k: int| 0 <= k < total_nodes ==> !#[trigger] active_defects@[k],
    {
        active_defects.set(i, defects[i]);
    }

    let mut forest_adj: Vec<Vec<(usize, usize)>> = Vec::new();
    for i in 0..total_nodes
        invariant
            forest_adj@.len() == i,
            forall|n: int| 0 <= n < i ==> (#[trigger] forest_adj@[n])@.len() == 0,
    {
        forest_adj.push(Vec::new());
    }
    for k in 0..forest_edges.len()
        invariant
            num_edges == graph.edges@.len(),
            forest_adj@.len() == total_nodes,
            forall|e: int| 0 <= e < graph.edges@.len() ==> (#[trigger] graph.edges@[e]).u < total_nodes && graph.edges@[e].v < total_nodes,
            forall|k: int| 0 <= k < forest_edges@.len() ==> #[trigger] forest_edges@[k] < num_edges,
            forall|n: int, j: int| 0 <= n < total_nodes && 0 <= j < forest_adj@[n]@.len() ==> (#[trigger] forest_adj@[n]@[j]).0 < total_nodes && forest_adj@[n]@[j].1 < num_edges,
            pre ==> forall|k: int| 0 <= k < forest_edges@.len() ==> is_erased(erased_edges@, #[trigger] forest_edges@[k] as int),
            pre ==> forall|n: int, j: int| 0 <= n < total_nodes && 0 <= j < forest_adj@[n]@.len() ==> is_erased(erased_edges@, (#[trigger] forest_adj@[n]@[j]).1 as int),
    {
        let edge_idx = forest_edges[k];
        let u = graph.edges[edge_idx].u;
        let v = graph.edges[edge_idx].v;
        let ghost a0 = forest_adj@;
        forest_adj[u].push((v, edge_idx));
        forest_adj[v].push((u, edge_idx));
        proof {
            assert forall|n: int, j: int| 0 <= n < total_nodes && 0 <= j < forest_adj@[n]@.len() implies (#[trigger] forest_adj@[n]@[j]).0 < total_nodes && forest_adj@[n]@[j].1 < num_edges && (pre ==> is_erased(erased_edges@, forest_adj@[n]@[j].1 as int)) by {
                if j < a0[n]@.len() {
                    if n == u && n == v {
                        assert(forest_adj@[n]@[j] == a0[n]@[j]);
                    } else if n == u || n == v {
                        assert(forest_adj@[n]@[j] == a0[n]@[j]);
                    } else {
                        assert(forest_adj@[n] == a0[n]);
                    }
                } else {
                    assert(forest_adj@[n]@[j].1 == edge_idx);
                }
            }
        }
    }

    let mut root = total_nodes;
    while root > 0
        invariant
            num_edges == graph.edges@.len(),
            root <= total_nodes,
            visited_nodes@.len() == total_nodes,
            active_defects@.len() == total_nodes,
            forest_adj@.len() == total_nodes,
            forall|n: int, j: int| 0 <= n < total_nodes && 0 <= j < forest_adj@[n]@.len() ==> (#[trigger] forest_adj@[n]@[j]).0 < total_nodes && forest_adj@[n]@[j].1 < num_edges,
            valid_correction(graph.edges@, correction@),
            clean ==> correction@.len() == 0 && forall|k: int| 0 <= k < total_nodes ==> !#[trigger] active_defects@[k],
            pre ==> forall|n: int, j: int| 0 <= n < total_nodes && 0 <= j < forest_adj@[n]@.len() ==> is_erased(erased_edges@, (#[trigger] forest_adj@[n]@[j]).1 as int),
            pre ==> forall|k: int| 0 <= k < correction@.len() ==> is_erased(erased_edges@, #[trigger] correction@[k] as int),
        decreases root,
    {
        root -= 1;
        if visited_nodes[root] {
            continue;
        }

        // Spanning tree of this component, breadth first.
        let mut tree_nodes: Vec<usize> = Vec::new();
        let mut parent_edge: Vec<Option<usize>> = vec![None; total_nodes];
        let mut parent_node: Vec<Option<usize>> = vec![None; total_nodes];
        let mut queue: std::collections::VecDeque<usize> = std::collections::VecDeque::new();
        proof {
            assert forall|k: int| 0 <= k < total_nodes implies parent_edge@[k] is None && parent_node@[k] is None by {}
        }
        queue.push_back(root);
        proof {
            lemma_count_false_set(visited_nodes@, root as int);
        }
        visited_nodes.set(root, true);

        loop
            invariant
                num_edges == graph.edges@.len(),
                visited_nodes@.len() == total_nodes,
                forest_adj@.len() == total_nodes,
                parent_edge@.len() == total_nodes,
                parent_node@.len() == total_nodes,
                forall|n: int, j: int| 0 <= n < total_nodes && 0 <= j < forest_adj@[n]@.len() ==> (#[trigger] forest_adj@[n]@[j]).0 < total_nodes && forest_adj@[n]@[j].1 < num_edges,
                forall|k: int| 0 <= k < queue@.len() ==> #[trigger] queue@[k] < total_nodes,
                forall|k: int| 0 <= k < tree_nodes@.len() ==> #[trigger] tree_nodes@[k] < total_nodes,
                forall|k: int| 0 <= k < total_nodes && (#[trigger] parent_edge@[k]) is Some ==> parent_edge@[k]->0 < num_edges,
                forall|k: int| 0 <= k < total_nodes && (#[trigger] parent_node@[k]) is Some ==> parent_node@[k]->0 < total_nodes,
                pre ==> forall|n: int, j: int| 0 <= n < total_nodes && 0 <= j < forest_adj@[n]@.len() ==> is_erased(erased_edges@, (#[trigger] forest_adj@[n]@[j]).1 as int),
                pre ==> forall|k: int| 0 <= k < total_nodes && (#[trigger] parent_edge@[k]) is Some ==> is_erased(erased_edges@, parent_edge@[k]->0 as int),
            decreases count_false(visited_nodes@), queue@.len(),
        {
            match queue.pop_front() {
                None => break,
                Some(u) => {
                    tree_nodes.push(u);
                    let deg = forest_adj[u].len();
                    let ghost c0 = count_false(visited_nodes@);
                    let ghost q0 = queue@.len();
                    for j in 0..deg
                        invariant
                            num_edges == graph.edges@.len(),
                            u < total_nodes,
                            deg == forest_adj@[u as int]@.len(),
                            visited_nodes@.len() == total_nodes,
                            forest_adj@.len() == total_nodes,
                            parent_edge@.len() == total_nodes,
                            parent_node@.len() == total_nodes,
                            forall|n: int, j: int| 0 <= n < total_nodes && 0 <= j < forest_adj@[n]@.len() ==> (#[trigger] forest_adj@[n]@[j]).0 < total_nodes && forest_adj@[n]@[j].1 < num_edges,
                            forall|k: int| 0 <= k < queue@.len() ==> #[trigger] queue@[k] < total_nodes,
                            forall|k: int| 0 <= k < total_nodes && (#[trigger] parent_edge@[k]) is Some ==> parent_edge@[k]->0 < num_edges,
                            forall|k: int| 0 <= k < total_nodes && (#[trigger] parent_node@[k]) is Some ==> parent_node@[k]->0 < total_nodes,
                            count_false(visited_nodes@) <= c0,
                            count_false(visited_nodes@) == c0 ==> queue@.len() == q0,
                            pre ==> forall|n: int, j: int| 0 <= n < total_nodes && 0 <= j < forest_adj@[n]@.len() ==> is_erased(erased_edges@, (#[trigger] forest_adj@[n]@[j]).1 as int),
                            pre ==> forall|k: int| 0 <= k < total_nodes && (#[trigger] parent_edge@[k]) is Some ==> is_erased(erased_edges@, parent_edge@[k]->0 as int),
                    {
                        let (v, edge_idx) = forest_adj[u][j];
                        if !visited_nodes[v] {
                            proof {
                                lemma_count_false_set(visited_nodes@, v as int);
                            }
                            visited_nodes.set(v, true);
                            parent_edge.set(v, Some(edge_idx));
                            parent_node.set(v, Some(u));
                            queue.push_back(v);
                        }
                    }
                },
            }
        }

        // Peel from the leaves to the root.
        let mut idx = tree_nodes.len();
        while idx > 0
            invariant
                num_edges == graph.edges@.len(),
                idx <= tree_nodes@.len(),
                active_defects@.len() == total_nodes,
                parent_edge@.len() == total_nodes,
                parent_node@.len() == total_nodes,
                forall|k: int| 0 <= k < tree_nodes@.len() ==> #[trigger] tree_nodes@[k] < total_nodes,
                forall|k: int| 0 <= k < total_nodes && (#[trigger] parent_edge@[k]) is Some ==> parent_edge@[k]->0 < num_edges,
                forall|k: int| 0 <= k < total_nodes && (#[trigger] parent_node@[k]) is Some ==> parent_node@[k]->0 < total_nodes,
                valid_correction(graph.edges@, correction@),
                clean ==> correction@.len() == 0 && forall|k: int| 0 <= k < total_nodes ==> !#[trigger] active_defects@[k],
                pre ==> forall|k: int| 0 <= k < total_nodes && (#[trigger] parent_edge@[k]) is Some ==> is_erased(erased_edges@, parent_edge@[k]->0 as int),
                pre ==> forall|k: int| 0 <= k < correction@.len() ==> is_erased(erased_edges@, #[trigger] correction@[k] as int),
            decreases idx,
        {
            idx -= 1;
            let u = tree_nodes[idx];
            if u == root {
                continue;
            }
            if active_defects[u] {
                if let Some(edge_idx) = parent_edge[u] {
                    correction.push(edge_idx);
                    if let Some(p) = parent_node[u] {
                        let flipped_p = !active_defects[p];
                        active_defects.set(p, flipped_p);
                    }
                }
                active_defects.set(u, false);
            }
        }
    }
    proof {
        if pre {
            lemma_erased_weight(erased_edges@, correction@);
        }
    }

    correction
}


/* ---------------------------------------------------------------------- */
/* Minimum-weight matching                                                */
/* ---------------------------------------------------------------------- */

/// Distance, in the tree rooted at defect `i`, to the partner `j`: defect `j`
/// when `j < m`, the boundary when `j == m`.
pub open spec fn pair_dist(dists: Seq<Vec<usize>>, unmatched: Seq<usize>, boundary: int, m: int, i: int, j: int) -> usize {
    if j == m {
        dists[i]@[boundary]
    } else {
        dists[i]@[unmatched[j] as int]
    }
}

/// A set of disjoint pairs of defects (or of a defect with the boundary),
/// each with a path between them.
pub open spec fn valid_pairs(
    pairs: Seq<(usize, usize)>,
    m: int,
    dists: Seq<Vec<usize>>,
    unmatched: Seq<usize>,
    boundary: int,
) -> bool {
    &&& forall|k: int|
        0 <= k < pairs.len() ==> {
            let (i, j) = #[trigger] pairs[k];
            &&& i < m
            &&& j <= m
            &&& i != j
            &&& pair_dist(dists, unmatched, boundary, m, i as int, j as int) < usize::MAX
        }
    &&& forall|k1: int, k2: int, x: int|
        0 <= k1 < pairs.len() && 0 <= k2 < pairs.len() && k1 != k2 && 0 <= x < m && #[trigger] touches(
            pairs[k1],
            x,
        ) ==> !#[trigger] touches(pairs[k2], x)
}

/// Total distance of the pairs, exact.
pub open spec fn pairs_weight(
    pairs: Seq<(usize, usize)>,
    dists: Seq<Vec<usize>>,
    unmatched: Seq<usize>,
    boundary: int,
    m: int,
) -> nat
    decreases pairs.len(),
{
    if pairs.len() == 0 {
        0
    } else {
        pairs_weight(pairs.drop_last(), dists, unmatched, boundary, m) + pair_dist(
            dists,
            unmatched,
            boundary,
            m,
            pairs.last().0 as int,
            pairs.last().1 as int,
        ) as nat
    }
}

/// `w`, capped at `usize::MAX`.
pub open spec fn capped(w: nat) -> usize {
    if w >= usize::MAX {
        usize::MAX
    } else {
        w as usize
    }
}

/// Whether the pair `p` involves defect `x`.
pub open spec fn touches(p: (usize, usize), x: int) -> bool {
    p.0 == x || p.1 == x
}

/// Cost of pairing slot `a` with slot `b`, where slots `0..m` are the defects
/// and slots `m..2m` interchangeable copies of the boundary.
pub open spec fn slot_cost(dists: Seq<Vec<usize>>, unmatched: Seq<usize>, boundary: int, m: int, a: int, b: int) -> usize {
    if a < m && b < m {
        dists[a]@[unmatched[b] as int]
    } else if a < m {
        dists[a]@[boundary]
    } else if b < m {
        dists[b]@[boundary]
    } else {
        0
    }
}

pub open spec fn tables_ok(dists: Seq<Vec<usize>>, unmatched: Seq<usize>, boundary: int, m: int) -> bool {
    &&& dists.len() == m
    &&& unmatched.len() == m
    &&& forall|i: int| 0 <= i < m ==> (#[trigger] dists[i])@.len() == boundary + 1
    &&& forall|i: int| 0 <= i < m ==> #[trigger] unmatched[i] < boundary
    &&& 0 <= m <= usize::MAX / 4
}

fn slot_cost_exec(
    dists: &Vec<Vec<usize>>,
    unmatched: &Vec<usize>,
    boundary: usize,
    m: usize,
    a: usize,
    b: usize,
) -> (c: usize)
    requires
        tables_ok(dists@, unmatched@, boundary as int, m as int),
        a < 2 * m,
        b < 2 * m,
    ensures
        c == slot_cost(dists@, unmatched@, boundary as int, m as int, a as int, b as int),
{
    if a < m && b < m {
        dists[a][unmatched[b]]
    } else if a < m {
        dists[a][boundary]
    } else if b < m {
        dists[b][boundary]
    } else {
        0
    }
}

/// `x` comes no later than `y` in lexicographic order.
pub open spec fn triple_le(x: (usize, usize, usize), y: (usize, usize, usize)) -> bool {
    x.0 < y.0 || (x.0 == y.0 && (x.1 < y.1 || (x.1 == y.1 && x.2 <= y.2)))
}

pub open spec fn triples_sorted(s: Seq<(usize, usize, usize)>) -> bool {
    forall|a: int, b: int| 0 <= a < b < s.len() ==> triple_le(#[trigger] s[a], #[trigger] s[b])
}

/// Every two of the `2m` slots can be paired at a finite cost.
pub open spec fn all_pairable(dists: Seq<Vec<usize>>, unmatched: Seq<usize>, boundary: int, m: int) -> bool {
    forall|a: int, b: int| 0 <= a < b < 2 * m ==> #[trigger] slot_cost(dists, unmatched, boundary, m, a, b) < usize::MAX
}

/// A set whose members pair off under `p` (each member's partner is another
/// member, whose partner it is) has an even number of members.
proof fn lemma_paired_even(s: Set<int>, p: Seq<usize>)
    requires
        s.finite(),
        forall|y: int|
            #[trigger] s.contains(y) ==> 0 <= y < p.len() && s.contains(p[y] as int) && p[y] != y && p[p[y] as int]
                == y,
    ensures
        s.len() % 2 == 0,
    decreases s.len(),
{
    if s.len() > 0 {
        let y = s.choose();
        assert(s.contains(y));
        let z = p[y] as int;
        let rest = s.remove(y).remove(z);
        assert forall|w: int| #[trigger] rest.contains(w) implies 0 <= w < p.len() && rest.contains(p[w] as int)
            && p[w] != w && p[p[w] as int] == w by {
            assert(s.contains(w) && w != y && w != z);
            if p[w] == y {
                assert(w == z);
            }
            if p[w] as int == z {
                assert(p[z] == y);
                assert(w == y);
            }
        }
        lemma_paired_even(rest, p);
    }
}

/// Insertion sort of `(cost, a, b)` triples, lexicographically.
fn sort_triples(cands: Vec<(usize, usize, usize)>) -> (out: Vec<(usize, usize, usize)>)
    ensures
        out@.len() == cands@.len(),
        forall|k: int| 0 <= k < out@.len() ==> cands@.contains(#[trigger] out@[k]),
        out@.to_multiset() == cands@.to_multiset(),
        triples_sorted(out@),
{
    let mut out: Vec<(usize, usize, usize)> = Vec::new();
    proof {
        assert(cands@.subrange(0, 0) =~= out@);
    }
    for i in 0..cands.len()
        invariant
            out@.len() == i,
            i <= cands@.len(),
            forall|k: int| 0 <= k < out@.len() ==> cands@.contains(#[trigger] out@[k]),
            out@.to_multiset() == cands@.subrange(0, i as int).to_multiset(),
            triples_sorted(out@),
    {
        let x = cands[i];
        let mut pos = out.len();
        while pos > 0 && (out[pos - 1].0 > x.0 || (out[pos - 1].0 == x.0 && (out[pos - 1].1 > x.1 || (
        out[pos - 1].1 == x.1 && out[pos - 1].2 > x.2))))
            invariant
                0 <= pos <= out@.len(),
                forall|k: int| pos <= k < out@.len() ==> !triple_le(#[trigger] out@[k], x),
            decreases pos,
        {
            pos -= 1;
        }
        let ghost before = out@;
        out.insert(pos, x);
        proof {
            assert(cands@[i as int] == x);
            assert forall|k: int| 0 <= k < out@.len() implies cands@.contains(#[trigger] out@[k]) by {
                if k < pos {
                    assert(out@[k] == before[k]);
                } else if k > pos {
                    assert(out@[k] == before[k - 1]);
                }
            }
            assert(pos > 0 ==> triple_le(before[pos - 1], x));
            assert forall|a: int, b: int| 0 <= a < b < out@.len() implies triple_le(
                #[trigger] out@[a],
                #[trigger] out@[b],
            ) by {
                if b < pos {
                    assert(out@[a] == before[a] && out@[b] == before[b]);
                } else if b == pos {
                    assert(out@[a] == before[a]);
                    if a < pos - 1 {
                        assert(triple_le(before[a], before[pos - 1]));
                    }
                } else if a < pos {
                    assert(out@[a] == before[a] && out@[b] == before[b - 1]);
                    assert(triple_le(before[a], before[b - 1]));
                } else if a == pos {
                    assert(out@[b] == before[b - 1]);
                    assert(!triple_le(before[b - 1], x));
                } else {
                    assert(out@[a] == before[a - 1] && out@[b] == before[b - 1]);
                    assert(triple_le(before[a - 1], before[b - 1]));
                }
            }
            vstd::seq_lib::to_multiset_insert(before, pos as int, x);
            vstd::seq_lib::to_multiset_build(cands@.subrange(0, i as int), x);
            assert(cands@.subrange(0, i + 1) =~= cands@.subrange(0, i as int).push(x));
        }
    }
    proof {
        assert(cands@.subrange(0, cands@.len() as int) =~= cands@);
    }
    out
}

/// Approximate minimum-weight perfect matching: nearest pair first, then
/// 2-opt.
///
/// Defects may pair with each other or with the boundary, and the boundary can
/// absorb any number of them, so it is modelled as `m` interchangeable copies:
/// pairing two copies together costs nothing and means neither was used. That
/// turns an odd, boundary-special problem into an ordinary perfect matching on
/// `2m` slots. Returns the pairs (partner `m` is the boundary) and their total
/// weight.
fn approx_matching(
    dists: &Vec<Vec<usize>>,
    unmatched: &Vec<usize>,
    boundary: usize,
) -> (res: (Vec<(usize, usize)>, usize))
    requires
        tables_ok(dists@, unmatched@, boundary as int, unmatched@.len() as int),
    ensures
        valid_pairs(res.0@, unmatched@.len() as int, dists@, unmatched@, boundary as int),
        res.1 == capped(pairs_weight(res.0@, dists@, unmatched@, boundary as int, unmatched@.len() as int)),
        all_pairable(dists@, unmatched@, boundary as int, unmatched@.len() as int) ==> forall|x: int|
            0 <= x < unmatched@.len() ==> #[trigger] covered(res.0@, x),
{
    let m = unmatched.len();
    let n = 2 * m;
    let ghost dv = dists@;
    let ghost uv = unmatched@;
    let ghost bi = boundary as int;
    let ghost mi = m as int;

    let mut candidates: Vec<(usize, usize, usize)> = Vec::new();
    for a in 0..n
        invariant
            n == 2 * m,
            m == unmatched@.len(),
            tables_ok(dists@, unmatched@, boundary as int, m as int),
            dv == dists@,
            uv == unmatched@,
            bi == boundary as int,
            mi == m as int,
            forall|k: int|
                0 <= k < candidates@.len() ==> {
                    let (c, x, y) = #[trigger] candidates@[k];
                    &&& x < y < n
                    &&& c < usize::MAX
                    &&& c == slot_cost(dv, uv, bi, mi, x as int, y as int)
                },
            forall|x: int, y: int|
                0 <= x < a && x < y < n && slot_cost(dv, uv, bi, mi, x, y) < usize::MAX ==> #[trigger] candidates@.contains(
                    (slot_cost(dv, uv, bi, mi, x, y), x as usize, y as usize),
                ),
    {
        for b in (a + 1)..n
            invariant
                forall|x: int, y: int|
                    ((0 <= x < a && x < y < n) || (x == a && a < y < b)) && slot_cost(dv, uv, bi, mi, x, y)
                        < usize::MAX ==> #[trigger] candidates@.contains(
                        (slot_cost(dv, uv, bi, mi, x, y), x as usize, y as usize),
                    ),
                n == 2 * m,
                a < n,
                m == unmatched@.len(),
                tables_ok(dists@, unmatched@, boundary as int, m as int),
                dv == dists@,
                uv == unmatched@,
                bi == boundary as int,
                mi == m as int,
                forall|k: int|
                    0 <= k < candidates@.len() ==> {
                        let (c, x, y) = #[trigger] candidates@[k];
                        &&& x < y < n
                        &&& c < usize::MAX
                        &&& c == slot_cost(dv, uv, bi, mi, x as int, y as int)
                    },
        {
            let c = slot_cost_exec(dists, unmatched, boundary, m, a, b);
            let ghost c0 = candidates@;
            if c != usize::MAX {
                candidates.push((c, a, b));
            }
            proof {
                assert forall|x: int, y: int|
                    ((0 <= x < a && x < y < n) || (x == a && a < y < b + 1)) && slot_cost(dv, uv, bi, mi, x, y)
                        < usize::MAX implies #[trigger] candidates@.contains(
                    (slot_cost(dv, uv, bi, mi, x, y), x as usize, y as usize),
                ) by {
                    if x == a && y == b {
                        assert(candidates@[candidates@.len() - 1] == (c, a, b));
                    } else {
                        assert(c0.contains((slot_cost(dv, uv, bi, mi, x, y), x as usize, y as usize)));
                        let k = choose|k: int|
                            0 <= k < c0.len() && c0[k] == (slot_cost(dv, uv, bi, mi, x, y), x as usize, y as usize);
                        assert(candidates@[k] == c0[k]);
                    }
                }
            }
        }
    }
    let ghost cands0 = candidates@;
    let candidates = sort_triples(candidates);

    let mut partner: Vec<usize> = vec![usize::MAX; n];
    for k in 0..candidates.len()
        invariant
            n == 2 * m,
            partner@.len() == n,
            forall|k: int|
                0 <= k < candidates@.len() ==> {
                    let (c, x, y) = #[trigger] candidates@[k];
                    &&& x < y < n
                    &&& c < usize::MAX
                    &&& c == slot_cost(dv, uv, bi, mi, x as int, y as int)
                },
            forall|a: int|
                0 <= a < n && #[trigger] partner@[a] != usize::MAX ==> partner@[a] < n && partner@[a] != a
                    && partner@[partner@[a] as int] == a,
            forall|a: int|
                0 <= a < n && #[trigger] partner@[a] != usize::MAX && a < partner@[a] ==> slot_cost(
                    dv,
                    uv,
                    bi,
                    mi,
                    a,
                    partner@[a] as int,
                ) < usize::MAX,
            forall|cc: int|
                0 <= cc < k ==> partner@[(#[trigger] candidates@[cc]).1 as int] != usize::MAX
                    || partner@[candidates@[cc].2 as int] != usize::MAX,
    {
        let (_c, a, b) = candidates[k];
        let ghost p0 = partner@;
        if partner[a] == usize::MAX && partner[b] == usize::MAX {
            partner.set(a, b);
            partner.set(b, a);
        }
        proof {
            assert forall|cc: int|
                0 <= cc < k + 1 implies partner@[(#[trigger] candidates@[cc]).1 as int] != usize::MAX
                || partner@[candidates@[cc].2 as int] != usize::MAX by {
                if cc < k {
                    assert(p0[candidates@[cc].1 as int] != usize::MAX || p0[candidates@[cc].2 as int] != usize::MAX);
                }
            }
        }
    }
    let ghost full = all_pairable(dv, uv, bi, mi);
    proof {
        if full {
            assert forall|x: int| 0 <= x < n implies #[trigger] partner@[x] != usize::MAX by {
                if partner@[x] == usize::MAX {
                    assert forall|y: int| 0 <= y < n && y != x implies #[trigger] partner@[y] != usize::MAX by {
                        if partner@[y] == usize::MAX {
                            let lo = if x < y { x } else { y };
                            let hi = if x < y { y } else { x };
                            let el = (slot_cost(dv, uv, bi, mi, lo, hi), lo as usize, hi as usize);
                            assert(slot_cost(dv, uv, bi, mi, lo, hi) < usize::MAX);
                            assert(cands0.contains(el));
                            vstd::seq_lib::to_multiset_contains(cands0, el);
                            vstd::seq_lib::to_multiset_contains(candidates@, el);
                            let cc = choose|cc: int| 0 <= cc < candidates@.len() && candidates@[cc] == el;
                            assert(partner@[candidates@[cc].1 as int] != usize::MAX || partner@[candidates@[cc].2 as int]
                                != usize::MAX);
                        }
                    }
                    let sl = vstd::set_lib::set_int_range(0, n as int).remove(x);
                    vstd::set_lib::lemma_int_range(0, n as int);
                    assert forall|y: int| #[trigger] sl.contains(y) implies 0 <= y < partner@.len() && sl.contains(
                        partner@[y] as int,
                    ) && partner@[y] != y && partner@[partner@[y] as int] == y by {
                        assert(partner@[y] != usize::MAX);
                        if partner@[y] as int == x {
                            assert(partner@[x] == y);
                        }
                    }
                    lemma_paired_even(sl, partner@);
                    assert(sl.len() == n - 1);
                }
            }
        }
    }

    // Pairs over slots, with a ghost record of which pair owns each slot.
    let mut pairs: Vec<(usize, usize)> = Vec::new();
    let ghost mut owner: Seq<int> = Seq::new(n as nat, |i: int| -1);
    for a in 0..n
        invariant
            n == 2 * m,
            partner@.len() == n,
            owner.len() == n,
            full == all_pairable(dv, uv, bi, mi),
            full ==> forall|x: int| 0 <= x < n ==> #[trigger] partner@[x] != usize::MAX,
            forall|x: int| 0 <= x < n && #[trigger] owner[x] != -1 ==> 0 <= owner[x] < pairs@.len() && touches(pairs@[owner[x]], x),
            forall|a: int|
                0 <= a < n && #[trigger] partner@[a] != usize::MAX ==> partner@[a] < n && partner@[a] != a
                    && partner@[partner@[a] as int] == a,
            forall|a: int|
                0 <= a < n && #[trigger] partner@[a] != usize::MAX && a < partner@[a] ==> slot_cost(
                    dv,
                    uv,
                    bi,
                    mi,
                    a,
                    partner@[a] as int,
                ) < usize::MAX,
            forall|k: int|
                0 <= k < pairs@.len() ==> {
                    let (x, y) = #[trigger] pairs@[k];
                    &&& x < a
                    &&& x < n
                    &&& y < n
                    &&& x != y
                    &&& owner[x as int] == k
                    &&& owner[y as int] == k
                    &&& slot_cost(dv, uv, bi, mi, x as int, y as int) < usize::MAX
                },
            forall|x: int| 0 <= x < n && owner[x] != -1 ==> #[trigger] owner[x] < pairs@.len() && (x < a || partner@[x] < a),
            forall|x: int|
                0 <= x < n && partner@[x] != usize::MAX && (x < a || partner@[x] < a) ==> #[trigger] owner[x] != -1,
    {
        if partner[a] != usize::MAX && a < partner[a] {
            let ghost before = pairs@;
            proof {
                let k = pairs@.len() as int;
                owner = owner.update(a as int, k).update(partner@[a as int] as int, k);
            }
            pairs.push((a, partner[a]));
            proof {
                assert forall|k: int| 0 <= k < before.len() implies #[trigger] pairs@[k] == before[k] by {}
                assert(pairs@[before.len() as int] == (a, partner@[a as int]));
            }
        }
    }

    // 2-opt: swap partners between two pairs whenever it shortens the total.
    let np = pairs.len();
    let mut round: usize = 0;
    while round < 20
        invariant
            n == 2 * m,
            pairs@.len() == np,
            tables_ok(dists@, unmatched@, boundary as int, m as int),
            dv == dists@,
            uv == unmatched@,
            bi == boundary as int,
            mi == m as int,
            owner.len() == n,
            full ==> forall|x: int| 0 <= x < n ==> #[trigger] owner[x] != -1,
            forall|x: int| 0 <= x < n && #[trigger] owner[x] != -1 ==> 0 <= owner[x] < pairs@.len() && touches(pairs@[owner[x]], x),
            forall|k: int|
                0 <= k < pairs@.len() ==> {
                    let (x, y) = #[trigger] pairs@[k];
                    &&& x < n
                    &&& y < n
                    &&& x != y
                    &&& owner[x as int] == k
                    &&& owner[y as int] == k
                    &&& slot_cost(dv, uv, bi, mi, x as int, y as int) < usize::MAX
                },
        decreases 20 - round,
    {
        let mut improved = false;
        for i in 0..np
            invariant
                n == 2 * m,
                pairs@.len() == np,
                tables_ok(dists@, unmatched@, boundary as int, m as int),
                dv == dists@,
                uv == unmatched@,
                bi == boundary as int,
                mi == m as int,
                owner.len() == n,
                full ==> forall|x: int| 0 <= x < n ==> #[trigger] owner[x] != -1,
                forall|x: int| 0 <= x < n && #[trigger] owner[x] != -1 ==> 0 <= owner[x] < pairs@.len() && touches(pairs@[owner[x]], x),
                forall|k: int|
                    0 <= k < pairs@.len() ==> {
                        let (x, y) = #[trigger] pairs@[k];
                        &&& x < n
                        &&& y < n
                        &&& x != y
                        &&& owner[x as int] == k
                        &&& owner[y as int] == k
                        &&& slot_cost(dv, uv, bi, mi, x as int, y as int) < usize::MAX
                    },
        {
            for j in (i + 1)..np
                invariant
                    n == 2 * m,
                    pairs@.len() == np,
                    i < np,
                    tables_ok(dists@, unmatched@, boundary as int, m as int),
                    dv == dists@,
                    uv == unmatched@,
                    bi == boundary as int,
                    mi == m as int,
                    owner.len() == n,
                    full ==> forall|x: int| 0 <= x < n ==> #[trigger] owner[x] != -1,
                    forall|x: int| 0 <= x < n && #[trigger] owner[x] != -1 ==> 0 <= owner[x] < pairs@.len() && touches(pairs@[owner[x]], x),
                    forall|k: int|
                        0 <= k < pairs@.len() ==> {
                            let (x, y) = #[trigger] pairs@[k];
                            &&& x < n
                            &&& y < n
                            &&& x != y
                            &&& owner[x as int] == k
                            &&& owner[y as int] == k
                            &&& slot_cost(dv, uv, bi, mi, x as int, y as int) < usize::MAX
                        },
            {
                let (p, q) = pairs[i];
                let (r, t) = pairs[j];
                let now = slot_cost_exec(dists, unmatched, boundary, m, p, q).saturating_add(
                    slot_cost_exec(dists, unmatched, boundary, m, r, t),
                );
                let c_pr = slot_cost_exec(dists, unmatched, boundary, m, p, r);
                let c_qt = slot_cost_exec(dists, unmatched, boundary, m, q, t);
                let c_pt = slot_cost_exec(dists, unmatched, boundary, m, p, t);
                let c_qr = slot_cost_exec(dists, unmatched, boundary, m, q, r);
                let alt1 = c_pr.saturating_add(c_qt);
                let alt2 = c_pt.saturating_add(c_qr);
                if alt1 < now && alt1 <= alt2 {
                    pairs.set(i, (p, r));
                    pairs.set(j, (q, t));
                    proof {
                        owner = owner.update(r as int, i as int).update(q as int, j as int);
                    }
                    improved = true;
                } else if alt2 < now {
                    pairs.set(i, (p, t));
                    pairs.set(j, (q, r));
                    proof {
                        owner = owner.update(t as int, i as int).update(q as int, j as int);
                    }
                    improved = true;
                }
            }
        }
        if !improved {
            break;
        }
        round += 1;
    }

    let mut total: usize = 0;
    let mut out: Vec<(usize, usize)> = Vec::new();
    let ghost mut from: Seq<int> = Seq::empty();
    for k in 0..pairs.len()
        invariant
            n == 2 * m,
            tables_ok(dists@, unmatched@, boundary as int, m as int),
            dv == dists@,
            uv == unmatched@,
            bi == boundary as int,
            mi == m as int,
            owner.len() == n,
            full ==> forall|x: int| 0 <= x < n ==> #[trigger] owner[x] != -1,
            forall|x: int| 0 <= x < n && #[trigger] owner[x] != -1 ==> 0 <= owner[x] < pairs@.len() && touches(pairs@[owner[x]], x),
            full ==> forall|x: int| 0 <= x < m && owner[x] < k ==> #[trigger] covered(out@, x),
            forall|k: int|
                0 <= k < pairs@.len() ==> {
                    let (x, y) = #[trigger] pairs@[k];
                    &&& x < n
                    &&& y < n
                    &&& x != y
                    &&& owner[x as int] == k
                    &&& owner[y as int] == k
                    &&& slot_cost(dv, uv, bi, mi, x as int, y as int) < usize::MAX
                },
            from.len() == out@.len(),
            total == capped(pairs_weight(out@, dv, uv, bi, mi)),
            forall|o: int| 0 <= o < out@.len() ==> 0 <= #[trigger] from[o] < k,
            forall|o1: int, o2: int| 0 <= o1 < o2 < out@.len() ==> #[trigger] from[o1] < #[trigger] from[o2],
            forall|o: int|
                0 <= o < out@.len() ==> {
                    let (i, j) = #[trigger] out@[o];
                    let (x, y) = pairs@[from[o]];
                    &&& i < m
                    &&& j <= m
                    &&& i != j
                    &&& pair_dist(dv, uv, bi, mi, i as int, j as int) < usize::MAX
                    &&& (i == x || i == y)
                    &&& (j < m ==> (j == x || j == y))
                },
    {
        let (a, b) = pairs[k];
        let ghost out0 = out@;
        let ghost from0 = from;
        let c = slot_cost_exec(dists, unmatched, boundary, m, a, b);
        total = total.saturating_add(c);
        if a < m && b < m {
            out.push((a, b));
            proof { from = from.push(k as int); }
        } else if a < m {
            out.push((a, m));
            proof { from = from.push(k as int); }
        } else if b < m {
            out.push((b, m));
            proof { from = from.push(k as int); }
        }
        proof {
            if out@.len() > out0.len() {
                assert(out@.drop_last() =~= out0);
                assert(pairs_weight(out@, dv, uv, bi, mi) == pairs_weight(out0, dv, uv, bi, mi) + c);
            } else {
                assert(out@ =~= out0);
                assert(c == 0);
            }
        }
        proof {
            if full {
                assert forall|x: int| 0 <= x < m && owner[x] < k + 1 implies #[trigger] covered(out@, x) by {
                    assert(owner[x] != -1);
                    if owner[x] < k {
                        assert(covered(out0, x));
                        let w = choose|w: int| 0 <= w < out0.len() && #[trigger] touches(out0[w], x);
                        assert(out@[w] == out0[w]);
                    } else {
                        assert(touches(pairs@[k as int], x));
                        assert(touches(out@[out@.len() - 1], x));
                    }
                }
            }
        }
        proof {
            assert forall|o: int| 0 <= o < out0.len() implies #[trigger] out@[o] == out0[o] && from[o] == from0[o] by {}
            if out@.len() > out0.len() {
                assert(from[out0.len() as int] == k);
            }
        }
    }
    proof {
        assert forall|k1: int, k2: int, x: int|
            0 <= k1 < out@.len() && 0 <= k2 < out@.len() && k1 != k2 && 0 <= x < m && #[trigger] touches(out@[k1], x) implies !#[trigger] touches(out@[k2], x) by {
            if touches(out@[k2], x) {
                assert(owner[x] == from[k1]);
                assert(owner[x] == from[k2]);
                if k1 < k2 {
                    assert(from[k1] < from[k2]);
                } else {
                    assert(from[k2] < from[k1]);
                }
            }
        }
    }
    (out, total)
}

/// Copy a list of pairs.
fn copy_pairs(v: &Vec<(usize, usize)>) -> (out: Vec<(usize, usize)>)
    ensures
        out@ == v@,
{
    let mut out: Vec<(usize, usize)> = Vec::new();
    for k in 0..v.len()
        invariant
            out@ == v@.subrange(0, k as int),
    {
        out.push(v[k]);
        proof {
            assert(out@ =~= v@.subrange(0, k + 1));
        }
    }
    proof {
        assert(out@ =~= v@);
    }
    out
}

/// Every defect `x < m` that is already `matched`, or at least `idx`, is in
/// one of the pairs.
pub open spec fn covers_from(pairs: Seq<(usize, usize)>, m: int, matched: Seq<bool>, idx: int) -> bool {
    forall|x: int| 0 <= x < m && (x >= idx || matched[x]) ==> #[trigger] covered(pairs, x)
}

/// Defect `x` is in one of the pairs.
pub open spec fn covered(pairs: Seq<(usize, usize)>, x: int) -> bool {
    exists|k: int| 0 <= k < pairs.len() && #[trigger] touches(pairs[k], x)
}

proof fn lemma_covers_weaken(pairs: Seq<(usize, usize)>, m: int, a: Seq<bool>, i: int, b: Seq<bool>, j: int)
    requires
        covers_from(pairs, m, a, i),
        forall|x: int| 0 <= x < m && (x >= j || b[x]) ==> x >= i || a[x],
    ensures
        covers_from(pairs, m, b, j),
{
    assert forall|x: int| 0 <= x < m && (x >= j || b[x]) implies #[trigger] covered(pairs, x) by {
        assert(x >= i || a[x]);
    }
}

/// Branch and bound over complete matchings, pruning any partial matching
/// already at least as heavy as the best found, under a global step budget.
/// `is_matched` marks the defects the partial matching `current` uses.
fn match_step(
    idx: usize,
    m: usize,
    is_matched: &mut Vec<bool>,
    current_weight: usize,
    best_weight: &mut usize,
    current: &mut Vec<(usize, usize)>,
    best: &mut Vec<(usize, usize)>,
    dists: &Vec<Vec<usize>>,
    unmatched: &Vec<usize>,
    boundary: usize,
    step_count: &mut usize,
)
    requires
        tables_ok(dists@, unmatched@, boundary as int, m as int),
        old(is_matched)@.len() == m,
        valid_pairs(old(current)@, m as int, dists@, unmatched@, boundary as int),
        valid_pairs(old(best)@, m as int, dists@, unmatched@, boundary as int),
        forall|x: int|
            0 <= x < m ==> (#[trigger] old(is_matched)@[x] <==> exists|k: int|
                0 <= k < old(current)@.len() && (old(current)@[k].0 == x || old(current)@[k].1 == x)),
        idx <= m,
    ensures
        final(is_matched)@ == old(is_matched)@,
        final(current)@ == old(current)@,
        valid_pairs(final(best)@, m as int, dists@, unmatched@, boundary as int),
        *final(best_weight) <= *old(best_weight),
        *final(best_weight) == *old(best_weight) ==> final(best)@ == old(best)@,
        *final(best_weight) < *old(best_weight) ==> covers_from(final(best)@, m as int, old(is_matched)@, idx as int),
        *old(step_count) < 60_000 && (forall|x: int| 0 <= x < m ==> #[trigger] old(is_matched)@[x])
            && current_weight < *old(best_weight) ==> *final(best_weight) == current_weight && final(best)@ == old(
            current,
        )@,
    decreases m - idx,
{
    if *step_count >= 60_000 {
        *step_count = 60_001;
        return;
    }
    *step_count = *step_count + 1;

    // The first defect not yet paired.
    let mut first: Option<usize> = None;
    let mut i = idx;
    while i < m
        invariant
            idx <= i <= m,
            is_matched@.len() == m,
            first matches Some(f) ==> f < m && !is_matched@[f as int] && f >= idx && f == i,
            forall|y: int| idx <= y < i ==> #[trigger] is_matched@[y],
        ensures
            first is None ==> forall|y: int| idx <= y < m ==> #[trigger] is_matched@[y],
            first matches Some(f) ==> f < m && !is_matched@[f as int] && f >= idx && forall|y: int|
                idx <= y < f ==> #[trigger] is_matched@[y],
        decreases m - i,
    {
        if !is_matched[i] {
            first = Some(i);
            break;
        }
        i += 1;
    }

    let u_idx = match first {
        None => {
            if current_weight < *best_weight {
                *best_weight = current_weight;
                *best = copy_pairs(current);
                proof {
                    assert forall|x: int| 0 <= x < m && (x >= idx || is_matched@[x]) implies #[trigger] covered(
                        best@,
                        x,
                    ) by {
                        assert(is_matched@[x]);
                        let k = choose|k: int| 0 <= k < current@.len() && (current@[k].0 == x || current@[k].1 == x);
                        assert(touches(best@[k], x));
                    }
                    assert(covers_from(best@, m as int, old(is_matched)@, idx as int));
                }
            }
            return;
        },
        Some(i) => i,
    };

    // Option A: pair with the boundary.
    let d_boundary = dists[u_idx][boundary];
    if d_boundary != usize::MAX && current_weight.saturating_add(d_boundary) < *best_weight {
        let ghost c0 = current@;
        let ghost m0 = is_matched@;
        is_matched.set(u_idx, true);
        current.push((u_idx, m));
        proof {
            assert forall|k1: int, k2: int, x: int|
                0 <= k1 < current@.len() && 0 <= k2 < current@.len() && k1 != k2 && 0 <= x < m && #[trigger] touches(current@[k1], x) implies !#[trigger] touches(current@[k2], x) by {
                if k1 == c0.len() || k2 == c0.len() {
                    let other = if k1 == c0.len() { k2 } else { k1 };
                    assert(current@[other] == c0[other]);
                    if current@[other].0 == u_idx || current@[other].1 == u_idx {
                        assert(m0[u_idx as int]);
                    }
                }
            }
            assert forall|x: int| 0 <= x < m implies (#[trigger] is_matched@[x] <==> exists|k: int|
                0 <= k < current@.len() && (current@[k].0 == x || current@[k].1 == x)) by {
                if x == u_idx {
                    assert(current@[c0.len() as int].0 == x);
                } else if m0[x] {
                    let k = choose|k: int| 0 <= k < c0.len() && (c0[k].0 == x || c0[k].1 == x);
                    assert(current@[k] == c0[k]);
                } else {
                    if exists|k: int| 0 <= k < current@.len() && (current@[k].0 == x || current@[k].1 == x) {
                        let k = choose|k: int| 0 <= k < current@.len() && (current@[k].0 == x || current@[k].1 == x);
                        if k < c0.len() {
                            assert(current@[k] == c0[k]);
                        }
                    }
                }
            }
        }
        let ghost m1 = is_matched@;
        let ghost w0 = *best_weight;
        match_step(u_idx + 1, m, is_matched, current_weight.saturating_add(d_boundary), best_weight, current, best, dists, unmatched, boundary, step_count);
        proof {
            if *best_weight < w0 {
                lemma_covers_weaken(best@, m as int, m1, u_idx + 1, old(is_matched)@, idx as int);
            }
        }
        current.pop();
        is_matched.set(u_idx, false);
        proof {
            assert(current@ =~= c0);
            assert(is_matched@ =~= m0);
        }
    }

    // Option B: pair with another unpaired defect.
    let mut v_idx = u_idx + 1;
    while v_idx < m
        invariant
            tables_ok(dists@, unmatched@, boundary as int, m as int),
            u_idx < m,
            u_idx < v_idx <= m,
            idx <= u_idx,
            is_matched@ == old(is_matched)@,
            current@ == old(current)@,
            !is_matched@[u_idx as int],
            valid_pairs(current@, m as int, dists@, unmatched@, boundary as int),
            valid_pairs(best@, m as int, dists@, unmatched@, boundary as int),
            is_matched@.len() == m,
            forall|x: int|
                0 <= x < m ==> (#[trigger] is_matched@[x] <==> exists|k: int|
                    0 <= k < current@.len() && (current@[k].0 == x || current@[k].1 == x)),
            *best_weight <= *old(best_weight),
            *best_weight == *old(best_weight) ==> best@ == old(best)@,
            *best_weight < *old(best_weight) ==> covers_from(best@, m as int, old(is_matched)@, idx as int),
            forall|y: int| idx <= y < u_idx ==> #[trigger] is_matched@[y],
        decreases m - v_idx,
    {
        if !is_matched[v_idx] {
            let d_uv = dists[u_idx][unmatched[v_idx]];
            if d_uv != usize::MAX && current_weight.saturating_add(d_uv) < *best_weight {
                let ghost c0 = current@;
                let ghost m0 = is_matched@;
                is_matched.set(u_idx, true);
                is_matched.set(v_idx, true);
                current.push((u_idx, v_idx));
                proof {
                    assert forall|k: int| 0 <= k < c0.len() implies #[trigger] current@[k] == c0[k] by {}
                    assert(current@[c0.len() as int] == (u_idx, v_idx));
                    assert(pair_dist(dists@, unmatched@, boundary as int, m as int, u_idx as int, v_idx as int) == d_uv);
                    assert forall|k1: int, k2: int, x: int|
                        0 <= k1 < current@.len() && 0 <= k2 < current@.len() && k1 != k2 && 0 <= x < m && #[trigger] touches(current@[k1], x) implies !#[trigger] touches(current@[k2], x) by {
                        if k1 == c0.len() || k2 == c0.len() {
                            let other = if k1 == c0.len() { k2 } else { k1 };
                            assert(current@[other] == c0[other]);
                            if current@[other].0 == u_idx || current@[other].1 == u_idx {
                                assert(m0[u_idx as int]);
                            }
                            if current@[other].0 == v_idx || current@[other].1 == v_idx {
                                assert(m0[v_idx as int]);
                            }
                        }
                    }
                    assert forall|x: int| 0 <= x < m implies (#[trigger] is_matched@[x] <==> exists|k: int|
                        0 <= k < current@.len() && (current@[k].0 == x || current@[k].1 == x)) by {
                        if x == u_idx || x == v_idx {
                            assert(current@[c0.len() as int].0 == x || current@[c0.len() as int].1 == x);
                        } else if m0[x] {
                            let k = choose|k: int| 0 <= k < c0.len() && (c0[k].0 == x || c0[k].1 == x);
                            assert(current@[k] == c0[k]);
                        } else {
                            if exists|k: int| 0 <= k < current@.len() && (current@[k].0 == x || current@[k].1 == x) {
                                let k = choose|k: int| 0 <= k < current@.len() && (current@[k].0 == x || current@[k].1 == x);
                                if k < c0.len() {
                                    assert(current@[k] == c0[k]);
                                }
                            }
                        }
                    }
                }
                let ghost m1 = is_matched@;
                let ghost w0 = *best_weight;
                match_step(u_idx + 1, m, is_matched, current_weight.saturating_add(d_uv), best_weight, current, best, dists, unmatched, boundary, step_count);
                proof {
                    if *best_weight < w0 {
                        lemma_covers_weaken(best@, m as int, m1, u_idx + 1, old(is_matched)@, idx as int);
                    }
                }
                current.pop();
                is_matched.set(v_idx, false);
                is_matched.set(u_idx, false);
                proof {
                    assert(current@ =~= c0);
                    assert(is_matched@ =~= m0);
                }
            }
        }
        v_idx += 1;
    }
}

/// Weight of a correction: erased edges are free.
fn weigh(erased_edges: &[bool], edges: &Vec<usize>) -> (w: usize)
    ensures
        w == correction_weight(erased_edges@, edges@),
{
    let mut w: usize = 0;
    for k in 0..edges.len()
        invariant
            w == correction_weight(erased_edges@, edges@.subrange(0, k as int)),
            w <= k,
    {
        proof {
            assert(edges@.subrange(0, k + 1).drop_last() =~= edges@.subrange(0, k as int));
        }
        let e = edges[k];
        if !(e < erased_edges.len() && erased_edges[e]) {
            w = w + 1;
        }
    }
    proof {
        assert(edges@.subrange(0, edges@.len() as int) =~= edges@);
    }
    w
}

/// Every defect is joined to the boundary by a path of at most `num_nodes`
/// edges.
pub open spec fn defects_joined(graph: SyndromeGraph, defects: Seq<bool>) -> bool {
    forall|v: int|
        0 <= v < graph.num_nodes && #[trigger] defects[v] ==> joined(
            graph.edges@,
            v,
            graph.num_nodes as int,
            graph.num_nodes as nat,
        )
}

/// The nodes below `num_nodes` that `corr` flips are exactly the defects.
pub open spec fn explains_defects(graph: SyndromeGraph, defects: Seq<bool>, corr: Seq<usize>) -> bool {
    forall|node: int| 0 <= node < graph.num_nodes ==> #[trigger] flipped(graph.edges@, corr, node) == defects[node]
}

/// Whether `corr` flips exactly the defects.
fn explains(graph: &SyndromeGraph, defects: &[bool], corr: &Vec<usize>) -> (ok: bool)
    requires
        graph.well_formed(),
        defects@.len() >= graph.num_nodes,
        valid_correction(graph.edges@, corr@),
    ensures
        ok == explains_defects(*graph, defects@, corr@),
{
    let t = graph.num_nodes + 1;
    let mut f: Vec<bool> = vec![false; t];
    for k in 0..corr.len()
        invariant
            f@.len() == t,
            t == graph.num_nodes + 1,
            graph.well_formed(),
            valid_correction(graph.edges@, corr@),
            forall|node: int| 0 <= node < t ==> #[trigger] f@[node] == flipped(graph.edges@, corr@.subrange(0, k as int), node),
    {
        let e = corr[k];
        let u = graph.edges[e].u;
        let v = graph.edges[e].v;
        let ghost f0 = f@;
        if u != v {
            let fu = !f[u];
            f.set(u, fu);
            let fv = !f[v];
            f.set(v, fv);
        }
        proof {
            assert(corr@.subrange(0, k + 1) =~= corr@.subrange(0, k as int).push(e));
            assert forall|node: int| 0 <= node < t implies #[trigger] f@[node] == flipped(
                graph.edges@,
                corr@.subrange(0, k + 1),
                node,
            ) by {
                lemma_flipped_push(graph.edges@, corr@.subrange(0, k as int), e, node);
                assert(f0[node] == flipped(graph.edges@, corr@.subrange(0, k as int), node));
            }
        }
    }
    proof {
        assert(corr@.subrange(0, corr@.len() as int) =~= corr@);
    }
    for node in 0..graph.num_nodes
        invariant
            f@.len() == t,
            t == graph.num_nodes + 1,
            defects@.len() >= graph.num_nodes,
            forall|x: int| 0 <= x < t ==> #[trigger] f@[x] == flipped(graph.edges@, corr@, x),
            forall|x: int| 0 <= x < node ==> #[trigger] flipped(graph.edges@, corr@, x) == defects@[x],
    {
        if f[node] != defects[node] {
            proof {
                assert(flipped(graph.edges@, corr@, node as int) != defects@[node as int]);
            }
            return false;
        }
    }
    true
}

/// Minimum-weight matching decoder.
///
/// Starts from the approximate matching, improves it by exhaustive branch and
/// bound when there are at most twenty defects, corrects along the matched
/// shortest paths, and finally returns the Union-Find correction instead if
/// that one is strictly lighter and flips exactly the defects. It is
/// therefore never heavier than the matching it found, and every node it
/// flips is a defect.
pub fn decode_mwpm(graph: &SyndromeGraph, defects: &[bool], erased_edges: &[bool]) -> (correction: Vec<usize>)
    requires
        graph.well_formed(),
        graph.num_nodes <= usize::MAX / 4,
        graph.edges@.len() <= usize::MAX / 2,
        defects@.len() >= graph.num_nodes,
    ensures
        valid_correction(graph.edges@, correction@),
        no_defects(defects@, graph.num_nodes as int) ==> correction@.len() == 0,
        forall|node: int|
            0 <= node < graph.num_nodes && #[trigger] flipped(graph.edges@, correction@, node) ==> defects@[node],
        defects_joined(*graph, defects@) ==> explains_defects(*graph, defects@, correction@),
{
    let ghost clean = no_defects(defects@, graph.num_nodes as int);
    let total_nodes = graph.num_nodes + 1;
    let boundary = graph.num_nodes;
    let mut unmatched: Vec<usize> = Vec::new();
    for u in 0..graph.num_nodes
        invariant
            defects@.len() >= graph.num_nodes,
            clean == no_defects(defects@, graph.num_nodes as int),
            clean ==> unmatched@.len() == 0,
            unmatched@.len() <= u,
            forall|k: int| 0 <= k < unmatched@.len() ==> #[trigger] unmatched@[k] < u && defects@[unmatched@[k] as int],
            forall|a: int, b: int| 0 <= a < b < unmatched@.len() ==> #[trigger] unmatched@[a] < #[trigger] unmatched@[b],
            forall|x: int| 0 <= x < u && defects@[x] ==> #[trigger] unmatched@.contains(x as usize),
    {
        let ghost before = unmatched@;
        if defects[u] {
            unmatched.push(u);
        }
        proof {
            assert forall|x: int| 0 <= x < u + 1 && defects@[x] implies #[trigger] unmatched@.contains(x as usize) by {
                if x < u {
                    assert(before.contains(x as usize));
                    let k = choose|k: int| 0 <= k < before.len() && before[k] == x as usize;
                    assert(unmatched@[k] == before[k]);
                } else {
                    assert(unmatched@[unmatched@.len() - 1] == x as usize);
                }
            }
        }
    }
    if unmatched.len() == 0 {
        proof {
            assert forall|x: int| 0 <= x < graph.num_nodes implies !defects@[x] by {
                if defects@[x] {
                    assert(unmatched@.contains(x as usize));
                }
            }
        }
        return Vec::new();
    }

    let adj = build_adjacency(graph, total_nodes);
    let (dists, parent_edges, parent_nodes, Ghost(times)) = trees_from(&adj, &graph.edges, erased_edges, &unmatched);
    let m = unmatched.len();
    proof {
        assert forall|i: int| 0 <= i < m implies (#[trigger] dists@[i])@.len() == total_nodes by {
            assert(is_path_tree(graph.edges@, unmatched@[i] as int, adj@.len(), dists@[i]@, parent_edges@[i]@, parent_nodes@[i]@, times[i]));
        }
        assert(m <= usize::MAX / 4);
    }

    let ghost joined_all = defects_joined(*graph, defects@);
    proof {
        if joined_all {
            assert forall|a: int, b: int| 0 <= a < b < 2 * m implies #[trigger] slot_cost(
                dists@,
                unmatched@,
                boundary as int,
                m as int,
                a,
                b,
            ) < usize::MAX by {
                if a < m {
                    let ua = unmatched@[a] as int;
                    assert(defects@[ua]);
                    assert(joined(graph.edges@, ua, graph.num_nodes as int, graph.num_nodes as nat));
                    let pa = choose|p: Seq<int>|
                        #[trigger] is_walk(graph.edges@, p) && p.len() <= graph.num_nodes + 1 && p[0] == ua
                            && p.last() == graph.num_nodes as int;
                    assert(is_path_tree(graph.edges@, unmatched@[a] as int, adj@.len(), dists@[a]@, parent_edges@[a]@, parent_nodes@[a]@, times[a]));
                    assert(adj_closed(adj@, dists@[a]@));
                    lemma_walk_dist(graph.edges@, adj@, dists@[a]@, pa, 0, pa.len() - 1);
                    if b < m {
                        let ub = unmatched@[b] as int;
                        assert(defects@[ub]);
                        assert(joined(graph.edges@, ub, graph.num_nodes as int, graph.num_nodes as nat));
                        let pb = choose|p: Seq<int>|
                            #[trigger] is_walk(graph.edges@, p) && p.len() <= graph.num_nodes + 1 && p[0] == ub
                                && p.last() == graph.num_nodes as int;
                        lemma_walk_reversed(graph.edges@, pb);
                        let rb = Seq::new(pb.len(), |i: int| pb[pb.len() - 1 - i]);
                        assert(rb[0] == graph.num_nodes as int);
                        lemma_walk_dist(graph.edges@, adj@, dists@[a]@, rb, graph.num_nodes as int, rb.len() - 1);
                        assert(rb[rb.len() - 1] == ub);
                    }
                }
            }
        }
    }
    let (approx, approx_weight) = approx_matching(&dists, &unmatched, boundary);

    // Beyond about twenty defects the exhaustive search cannot finish, and
    // the starting matching is already never worse than Union-Find.
    let exhaustive_is_feasible = m <= 20;

    let mut is_matched: Vec<bool> = vec![false; m];
    let mut best_weight = approx_weight;
    let mut best_matching = approx;
    let mut current_matching: Vec<(usize, usize)> = Vec::new();
    let mut step_count: usize = 0;
    let ghost no_match = is_matched@;
    if exhaustive_is_feasible {
        match_step(0, m, &mut is_matched, 0, &mut best_weight, &mut current_matching, &mut best_matching, &dists, &unmatched, boundary, &mut step_count);
    }
    proof {
        if joined_all {
            assert forall|x: int| 0 <= x < m implies #[trigger] covered(best_matching@, x) by {
                if best_weight < approx_weight {
                    assert(covers_from(best_matching@, m as int, no_match, 0));
                }
            }
        }
    }
    let ghost mut mt: Seq<bool> = Seq::new(total_nodes as nat, |i: int| false);
    proof {
        assert(best_matching@.subrange(0, 0).len() == 0);
    }

    let mut correction_edges: Vec<usize> = Vec::new();
    for k in 0..best_matching.len()
        invariant
            graph.well_formed(),
            m == unmatched@.len(),
            tables_ok(dists@, unmatched@, boundary as int, m as int),
            dists@.len() == m,
            parent_edges@.len() == m,
            parent_nodes@.len() == m,
            times.len() == m,
            total_nodes == boundary + 1,
            boundary == graph.num_nodes,
            adj@.len() == total_nodes,
            valid_pairs(best_matching@, m as int, dists@, unmatched@, boundary as int),
            forall|i: int|
                0 <= i < m ==> #[trigger] is_path_tree(
                    graph.edges@,
                    unmatched@[i] as int,
                    adj@.len(),
                    dists@[i]@,
                    parent_edges@[i]@,
                    parent_nodes@[i]@,
                    times[i],
                ),
            valid_correction(graph.edges@, correction_edges@),
            mt.len() == total_nodes,
            defects@.len() >= graph.num_nodes,
            flips_match(graph.edges@, correction_edges@, mt, graph.num_nodes as int),
            forall|node: int| 0 <= node < graph.num_nodes && #[trigger] mt[node] ==> defects@[node],
            forall|kk: int| 0 <= kk < unmatched@.len() ==> #[trigger] unmatched@[kk] < boundary && defects@[unmatched@[kk] as int],
            forall|a: int, b: int| 0 <= a < b < unmatched@.len() ==> #[trigger] unmatched@[a] < #[trigger] unmatched@[b],
            forall|x: int|
                0 <= x < m ==> #[trigger] mt[unmatched@[x] as int] == covered(best_matching@.subrange(0, k as int), x),
            forall|node: int| 0 <= node < total_nodes && #[trigger] mt[node] ==> exists|x: int| 0 <= x < m && unmatched@[x] == node,
    {
        let (i, j) = best_matching[k];
        let target = if j == m {
            boundary
        } else {
            unmatched[j]
        };
        let ghost before = correction_edges@;
        proof {
            assert(is_path_tree(graph.edges@, unmatched@[i as int] as int, adj@.len(), dists@[i as int]@, parent_edges@[i as int]@, parent_nodes@[i as int]@, times[i as int]));
        }
        append_path(&graph.edges, &dists[i], &parent_edges[i], &parent_nodes[i], Ghost(times[i as int]), Ghost(unmatched@[i as int] as int), target, &mut correction_edges);
        proof {
            let pk = best_matching@[k as int];
            assert(touches(pk, i as int));
            let sub0 = best_matching@.subrange(0, k as int);
            let sub1 = best_matching@.subrange(0, k + 1);
            assert(!covered(sub0, i as int)) by {
                if covered(sub0, i as int) {
                    let w = choose|w: int| 0 <= w < sub0.len() && #[trigger] touches(sub0[w], i as int);
                    assert(touches(best_matching@[w], i as int));
                }
            }
            if j < m {
                assert(touches(pk, j as int));
                assert(!covered(sub0, j as int)) by {
                    if covered(sub0, j as int) {
                        let w = choose|w: int| 0 <= w < sub0.len() && #[trigger] touches(sub0[w], j as int);
                        assert(touches(best_matching@[w], j as int));
                    }
                }
                assert(unmatched@[i as int] != unmatched@[j as int]) by {
                    if i < j {
                        assert(unmatched@[i as int] < unmatched@[j as int]);
                    } else {
                        assert(unmatched@[j as int] < unmatched@[i as int]);
                    }
                }
            }
            let m0 = mt;
            mt = if j < m {
                mt.update(unmatched@[i as int] as int, true).update(unmatched@[j as int] as int, true)
            } else {
                mt.update(unmatched@[i as int] as int, true)
            };
            assert forall|node: int| 0 <= node < graph.num_nodes implies #[trigger] flipped(
                graph.edges@,
                correction_edges@,
                node,
            ) == mt[node] by {
                assert(flipped(graph.edges@, before, node) == m0[node]);
            }
            assert forall|x: int| 0 <= x < m implies #[trigger] mt[unmatched@[x] as int] == covered(sub1, x) by {
                assert forall|w: int| 0 <= w < sub0.len() implies sub1[w] == #[trigger] sub0[w] by {}
                assert(sub1[k as int] == pk);
                if covered(sub1, x) {
                    let w = choose|w: int| 0 <= w < sub1.len() && #[trigger] touches(sub1[w], x);
                    if w < k {
                        assert(touches(sub0[w], x));
                    }
                }
                if covered(sub0, x) {
                    let w = choose|w: int| 0 <= w < sub0.len() && #[trigger] touches(sub0[w], x);
                    assert(touches(sub1[w], x));
                }
                if x == i || (j < m && x == j) {
                    assert(touches(sub1[k as int], x));
                } else {
                    if unmatched@[x] == unmatched@[i as int] {
                        if x < i {
                            assert(unmatched@[x] < unmatched@[i as int]);
                        } else {
                            assert(unmatched@[i as int] < unmatched@[x]);
                        }
                    }
                    if j < m && unmatched@[x] == unmatched@[j as int] {
                        if x < j {
                            assert(unmatched@[x] < unmatched@[j as int]);
                        } else {
                            assert(unmatched@[j as int] < unmatched@[x]);
                        }
                    }
                    assert(!touches(pk, x));
                }
            }
        }
        proof {
            assert forall|q: int| 0 <= q < correction_edges@.len() implies #[trigger] correction_edges@[q] < graph.edges@.len() by {
                if q < before.len() {
                    assert(correction_edges@[q] == correction_edges@.subrange(0, before.len() as int)[q]);
                }
            }
        }
    }

    // Where the search could not finish, Union-Find can beat the
    // approximation: take whichever correction is actually lighter.
    proof {
        assert(best_matching@.subrange(0, best_matching@.len() as int) =~= best_matching@);
        assert forall|node: int| 0 <= node < graph.num_nodes && #[trigger] flipped(graph.edges@, correction_edges@, node) implies defects@[node] by {
            assert(mt[node]);
        }
        if joined_all {
            assert forall|node: int| 0 <= node < graph.num_nodes implies #[trigger] flipped(
                graph.edges@,
                correction_edges@,
                node,
            ) == defects@[node] by {
                if defects@[node] {
                    assert(unmatched@.contains(node as usize));
                    let x = choose|x: int| 0 <= x < unmatched@.len() && unmatched@[x] == node as usize;
                    assert(covered(best_matching@, x));
                    assert(mt[unmatched@[x] as int]);
                } else if mt[node] {
                    assert(defects@[node]);
                }
            }
        }
    }
    // A lighter Union-Find correction is taken only if it explains the
    // defects.
    let peeled = decode_union_find(graph, defects, erased_edges);
    if weigh(erased_edges, &peeled) < weigh(erased_edges, &correction_edges) && explains(graph, defects, &peeled) {
        return peeled;
    }
    correction_edges
}

} // verus!
