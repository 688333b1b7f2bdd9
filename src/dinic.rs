use vstd::prelude::*;

use crate::flow_network::{
    EdgeData, Flow, FlowNetwork, Id, lemma_sum_absent, lemma_sum_bounds, lemma_sum_update,
    lemma_sum_zero, sum_in, sum_out,
};

verus! {

/// A residual arc: edge `index` of the network, traversed forwards (`from` is its start) or
/// backwards (`from` is its end).
#[derive(Clone, Copy, Debug, PartialEq, Eq, Structural)]
pub struct Arc {
    pub from: Id,
    pub to: Id,
    pub index: usize,
    pub forward: bool,
}

/// `a` traverses an edge of `s` in the direction it claims.
pub open spec fn arc_ok(s: Seq<EdgeData>, a: Arc) -> bool {
    &&& a.index < s.len()
    &&& a.forward ==> s[a.index as int].edge.start == a.from && s[a.index as int].edge.end == a.to
    &&& !a.forward ==> s[a.index as int].edge.end == a.from && s[a.index as int].edge.start == a.to
}

/// How much more flow `a` can carry: capacity left on a forward arc, flow to undo on a backward one.
pub open spec fn residual(s: Seq<EdgeData>, a: Arc) -> int {
    if a.forward {
        s[a.index as int].capacity - s[a.index as int].flow
    } else {
        s[a.index as int].flow as int
    }
}

/// The residual graph has an arc from `u` to `v`.
pub open spec fn residual_step(s: Seq<EdgeData>, u: Id, v: Id) -> bool {
    exists|i: int|
        0 <= i < s.len() && ((#[trigger] s[i].edge.start == u && s[i].edge.end == v && s[i].flow
            < s[i].capacity) || (s[i].edge.end == u && s[i].edge.start == v && s[i].flow > 0))
}

/// A path from source to sink along arcs of the residual graph.
pub open spec fn is_augmenting_path(net: FlowNetwork, path: Seq<Id>) -> bool {
    &&& path.len() >= 2
    &&& path[0] == net.spec_source()
    &&& path.last() == net.spec_sink()
    &&& forall|k: int| 0 <= k < path.len() - 1 ==> residual_step(net.edge_seq(), #[trigger] path[k], path[k + 1])
}

/// No augmenting path is left: the flow is maximum.
pub open spec fn is_maximum(net: FlowNetwork) -> bool {
    forall|path: Seq<Id>| !is_augmenting_path(net, path)
}

/// Total capacity of the edges that leave `v`.
pub open spec fn cap_out(s: Seq<EdgeData>, v: Id) -> int
    decreases s.len(),
{
    if s.len() == 0 {
        0
    } else {
        cap_out(s.drop_last(), v) + if s.last().edge.start == v {
            s.last().capacity as int
        } else {
            0
        }
    }
}

/// `t` differs from `s` in flows only.
pub open spec fn same_edges(s: Seq<EdgeData>, t: Seq<EdgeData>) -> bool {
    &&& s.len() == t.len()
    &&& forall|i: int|
        #![trigger t[i]]
        0 <= i < s.len() ==> t[i].edge == s[i].edge && t[i].capacity == s[i].capacity
}

proof fn lemma_cap_out(s: Seq<EdgeData>, t: Seq<EdgeData>, v: Id)
    requires
        same_edges(s, t),
        forall|i: int| 0 <= i < t.len() ==> #[trigger] t[i].flow <= t[i].capacity,
    ensures
        cap_out(s, v) == cap_out(t, v),
        sum_out(t, v) <= cap_out(t, v),
    decreases s.len(),
{
    if s.len() > 0 {
        lemma_cap_out(s.drop_last(), t.drop_last(), v);
        assert(t.last() == t[t.len() - 1]);
    }
}

/// Level of a vertex in a search; -1 where it was not reached.
pub open spec fn level(dist: Seq<Option<u32>>, v: Id) -> int {
    if v < dist.len() && dist[v as int] is Some {
        dist[v as int]->0 as int
    } else {
        -1
    }
}

/// Number of reached vertices.
pub open spec fn count_reached(dist: Seq<Option<u32>>) -> nat
    decreases dist.len(),
{
    if dist.len() == 0 {
        0
    } else {
        count_reached(dist.drop_last()) + if dist.last() is Some {
            1nat
        } else {
            0nat
        }
    }
}

proof fn lemma_count_reached(dist: Seq<Option<u32>>, k: int, x: Option<u32>)
    requires
        0 <= k < dist.len(),
        dist[k] is None,
        x is Some,
    ensures
        count_reached(dist.update(k, x)) == count_reached(dist) + 1,
        count_reached(dist) <= dist.len(),
    decreases dist.len(),
{
    let t = dist.update(k, x);
    if k == dist.len() - 1 {
        assert(t.drop_last() =~= dist.drop_last());
        lemma_count_bound(dist.drop_last());
    } else {
        lemma_count_reached(dist.drop_last(), k, x);
        assert(t.drop_last() =~= dist.drop_last().update(k, x));
    }
}

proof fn lemma_count_bound(dist: Seq<Option<u32>>)
    ensures
        count_reached(dist) <= dist.len(),
    decreases dist.len(),
{
    if dist.len() > 0 {
        lemma_count_bound(dist.drop_last());
    }
}

proof fn lemma_count_all_none(n: nat)
    ensures
        count_reached(Seq::new(n, |i: int| None::<u32>)) == 0,
    decreases n,
{
    if n > 0 {
        let s = Seq::new(n, |i: int| None::<u32>);
        assert(s.drop_last() =~= Seq::new((n - 1) as nat, |i: int| None::<u32>));
        lemma_count_all_none((n - 1) as nat);
    }
}

/// `arcs` are exactly the arcs of positive residual capacity of `s`: a forward arc where an edge
/// has capacity left, a backward arc where it carries flow.
pub open spec fn residual_arcs(s: Seq<EdgeData>, arcs: Seq<Arc>) -> bool {
    &&& forall|a: int| 0 <= a < arcs.len() ==> arc_ok(s, #[trigger] arcs[a]) && residual(s, arcs[a]) > 0
    &&& forall|i: int|
        0 <= i < s.len() && s[i].flow < s[i].capacity ==> exists|a: int|
            0 <= a < arcs.len() && #[trigger] arcs[a] == (Arc {
                from: s[i].edge.start,
                to: s[i].edge.end,
                index: i as usize,
                forward: true,
            })
    &&& forall|i: int|
        0 <= i < s.len() && s[i].flow > 0 ==> exists|a: int|
            0 <= a < arcs.len() && #[trigger] arcs[a] == (Arc {
                from: s[i].edge.end,
                to: s[i].edge.start,
                index: i as usize,
                forward: false,
            })
}

/// Every vertex of `net` is below `n`.
pub open spec fn vertices_below(net: FlowNetwork, n: nat) -> bool {
    &&& net.spec_source() < n
    &&& net.spec_sink() < n
    &&& forall|i: int|
        0 <= i < net.edge_seq().len() ==> (#[trigger] net.edge_seq()[i]).edge.start < n
            && net.edge_seq()[i].edge.end < n
}

/// `adj[v]` lists arcs that leave `v`, and every arc is listed.
pub open spec fn adjacency(arcs: Seq<Arc>, adj: Seq<Vec<usize>>, n: nat) -> bool {
    &&& adj.len() == n
    &&& forall|v: int, k: int|
        0 <= v < n && 0 <= k < adj[v]@.len() ==> #[trigger] adj[v]@[k] < arcs.len() && arcs[adj[v]@[k] as int].from == v
    &&& forall|a: int| 0 <= a < arcs.len() ==> #[trigger] arcs[a].from < n && adj[arcs[a].from as int]@.contains(a as usize)
}

/// Replaces `arcs` by the arcs of positive residual capacity of the network.
pub fn construct_residual_graph(network: &FlowNetwork, arcs: &mut Vec<Arc>)
    requires
        network.wf(),
        network.within_capacity(),
    ensures
        residual_arcs(network.edge_seq(), final(arcs)@),
{
    arcs.clear();
    let count = network.edge_count();
    let mut i: usize = 0;
    while i < count
        invariant
            network.within_capacity(),
            count == network.edge_seq().len(),
            i <= count,
            residual_arcs(network.edge_seq().subrange(0, i as int), arcs@),
            forall|a: int| 0 <= a < arcs@.len() ==> #[trigger] arcs@[a].index < i,
        decreases count - i,
    {
        let d = network.edge_at(i);
        let ghost s = network.edge_seq();
        let ghost prev = arcs@;
        if d.flow < d.capacity {
            arcs.push(Arc { from: d.edge.start, to: d.edge.end, index: i, forward: true });
        }
        let ghost mid = arcs@;
        if d.flow > 0 {
            arcs.push(Arc { from: d.edge.end, to: d.edge.start, index: i, forward: false });
        }
        proof {
            let t = s.subrange(0, i + 1);
            assert forall|a: int| 0 <= a < arcs@.len() implies arc_ok(t, #[trigger] arcs@[a])
                && residual(t, arcs@[a]) > 0 && arcs@[a].index < i + 1 by {
                if a < prev.len() {
                    assert(arcs@[a] == prev[a]);
                    assert(arc_ok(s.subrange(0, i as int), prev[a]));
                }
            }
            assert forall|j: int| 0 <= j < t.len() && t[j].flow < t[j].capacity implies exists|a: int|
                0 <= a < arcs@.len() && #[trigger] arcs@[a] == (Arc {
                    from: t[j].edge.start,
                    to: t[j].edge.end,
                    index: j as usize,
                    forward: true,
                }) by {
                if j < i {
                    assert(s.subrange(0, i as int)[j] == t[j]);
                    let a = choose|a: int| 0 <= a < prev.len() && #[trigger] prev[a] == (Arc {
                        from: s.subrange(0, i as int)[j].edge.start,
                        to: s.subrange(0, i as int)[j].edge.end,
                        index: j as usize,
                        forward: true,
                    });
                    assert(arcs@[a] == prev[a]);
                } else {
                    assert(arcs@[prev.len() as int] == mid[prev.len() as int]);
                }
            }
            assert forall|j: int| 0 <= j < t.len() && t[j].flow > 0 implies exists|a: int|
                0 <= a < arcs@.len() && #[trigger] arcs@[a] == (Arc {
                    from: t[j].edge.end,
                    to: t[j].edge.start,
                    index: j as usize,
                    forward: false,
                }) by {
                if j < i {
                    assert(s.subrange(0, i as int)[j] == t[j]);
                    let a = choose|a: int| 0 <= a < prev.len() && #[trigger] prev[a] == (Arc {
                        from: s.subrange(0, i as int)[j].edge.end,
                        to: s.subrange(0, i as int)[j].edge.start,
                        index: j as usize,
                        forward: false,
                    });
                    assert(arcs@[a] == prev[a]);
                } else {
                    assert(arcs@[arcs@.len() - 1].index == i);
                }
            }
        }
        i += 1;
    }
    proof {
        assert(network.edge_seq().subrange(0, count as int) =~= network.edge_seq());
    }
}


/// Lists, for each vertex below `n`, the arcs that leave it.
pub fn build_adjacency(arcs: &Vec<Arc>, n: usize) -> (adj: Vec<Vec<usize>>)
    requires
        forall|a: int| 0 <= a < arcs@.len() ==> #[trigger] arcs@[a].from < n,
    ensures
        adjacency(arcs@, adj@, n as nat),
{
    let mut adj: Vec<Vec<usize>> = Vec::new();
    let mut v: usize = 0;
    while v < n
        invariant
            v <= n,
            adj@.len() == v,
            forall|w: int| 0 <= w < v ==> (#[trigger] adj@[w])@.len() == 0,
        decreases n - v,
    {
        adj.push(Vec::new());
        v += 1;
    }
    let mut a: usize = 0;
    while a < arcs.len()
        invariant
            forall|b: int| 0 <= b < arcs@.len() ==> #[trigger] arcs@[b].from < n,
            a <= arcs@.len(),
            adj@.len() == n,
            forall|w: int, k: int|
                0 <= w < n && 0 <= k < adj@[w]@.len() ==> #[trigger] adj@[w]@[k] < a
                    && arcs@[adj@[w]@[k] as int].from == w,
            forall|b: int| 0 <= b < a ==> #[trigger] adj@[arcs@[b].from as int]@.contains(b as usize),
        decreases arcs@.len() - a,
    {
        let from = arcs[a].from as usize;
        let ghost prev = adj@;
        adj[from].push(a);
        proof {
            assert forall|w: int, k: int|
                0 <= w < n && 0 <= k < adj@[w]@.len() implies #[trigger] adj@[w]@[k] < a + 1
                    && arcs@[adj@[w]@[k] as int].from == w by {
                if w != from as int {
                    assert(adj@[w] == prev[w]);
                } else if k < prev[w]@.len() {
                    assert(adj@[w]@[k] == prev[w]@[k]);
                }
            }
            assert forall|b: int| 0 <= b < a + 1 implies #[trigger] adj@[arcs@[b].from as int]@.contains(b as usize) by {
                let w = arcs@[b].from as int;
                if b == a {
                    assert(adj@[w]@[adj@[w]@.len() - 1] == a);
                } else if w != from as int {
                    assert(adj@[w] == prev[w]);
                } else {
                    assert(prev[arcs@[b].from as int]@.contains(b as usize));
                    let k = choose|k: int| 0 <= k < prev[w]@.len() && prev[w]@[k] == b as usize;
                    assert(adj@[w]@[k] == b as usize);
                }
            }
        }
        a += 1;
    }
    proof {
        assert forall|w: int, k: int|
            0 <= w < n && 0 <= k < adj@[w]@.len() implies #[trigger] adj@[w]@[k] < arcs@.len() && arcs@[adj@[w]@[k] as int].from == w by {}
    }
    adj
}

/// `a` may be taken by a search: it has residual capacity and, under a level filter, it leads from
/// a reached level to the next one.
pub open spec fn admissible(s: Seq<EdgeData>, a: Arc, filter: Option<Seq<Option<u32>>>) -> bool {
    &&& residual(s, a) > 0
    &&& filter is Some ==> level(filter->0, a.from) >= 0 && level(filter->0, a.to) == level(
        filter->0,
        a.from,
    ) + 1
}

/// The result of a search from the source: a level for each reached vertex, and the arc by which
/// it was reached.
pub open spec fn search_tree(
    s: Seq<EdgeData>,
    arcs: Seq<Arc>,
    filter: Option<Seq<Option<u32>>>,
    source: Id,
    dist: Seq<Option<u32>>,
    parent: Seq<usize>,
) -> bool {
    &&& parent.len() == dist.len()
    &&& source < dist.len()
    &&& dist[source as int] == Some(0u32)
    &&& forall|v: int|
        0 <= v < dist.len() && #[trigger] dist[v] is Some && v != source ==> {
            &&& parent[v] < arcs.len()
            &&& arcs[parent[v] as int].to == v
            &&& level(dist, arcs[parent[v] as int].from) == level(dist, v as Id) - 1
            &&& level(dist, v as Id) >= 1
            &&& admissible(s, arcs[parent[v] as int], filter)
            &&& arc_ok(s, arcs[parent[v] as int])
        }
}

fn may_take(network: &FlowNetwork, a: Arc, filter: Option<&Vec<Option<u32>>>) -> (r: bool)
    requires
        arc_ok(network.edge_seq(), a),
        filter is Some ==> a.from < filter->0@.len() && a.to < filter->0@.len(),
    ensures
        r == admissible(
            network.edge_seq(),
            a,
            match filter {
                Some(f) => Some(f@),
                None => None,
            },
        ),
{
    let d = network.edge_at(a.index);
    let has_room = if a.forward {
        d.flow < d.capacity
    } else {
        d.flow > 0
    };
    if !has_room {
        return false;
    }
    match filter {
        None => true,
        Some(f) => match (f[a.from as usize], f[a.to as usize]) {
            (Some(x), Some(y)) => y as u64 == x as u64 + 1,
            _ => false,
        },
    }
}

/// The queue of a search holds each reached vertex once reached, and nothing else; levels stay
/// below its length.
pub open spec fn queue_ok(dist: Seq<Option<u32>>, queue: Seq<Id>, n: nat) -> bool {
    &&& dist.len() == n
    &&& queue.len() == count_reached(dist)
    &&& forall|q: int| 0 <= q < queue.len() ==> #[trigger] queue[q] < n && dist[queue[q] as int] is Some
    &&& forall|w: int|
        0 <= w < n && (#[trigger] dist[w]) is Some ==> dist[w]->0 < queue.len() && exists|q: int|
            0 <= q < queue.len() && queue[q] == w
}

/// Every admissible arc out of the first `head` queued vertices leads to a reached vertex.
pub open spec fn closed_upto(
    s: Seq<EdgeData>,
    arcs: Seq<Arc>,
    adj: Seq<Vec<usize>>,
    fs: Option<Seq<Option<u32>>>,
    dist: Seq<Option<u32>>,
    queue: Seq<Id>,
    head: int,
) -> bool {
    forall|q: int, k: int|
        0 <= q < head && 0 <= k < adj[queue[q] as int]@.len() && admissible(
            s,
            arcs[#[trigger] adj[queue[q] as int]@[k] as int],
            fs,
        ) ==> level(dist, arcs[adj[queue[q] as int]@[k] as int].to) >= 0 && level(
            dist,
            arcs[adj[queue[q] as int]@[k] as int].to,
        ) <= level(dist, queue[q]) + 1
}

/// Levels along the queue never fall, and none is more than one above the level at `head`.
pub open spec fn queue_order(dist: Seq<Option<u32>>, queue: Seq<Id>, head: int) -> bool {
    &&& forall|q1: int, q2: int|
        0 <= q1 <= q2 < queue.len() ==> level(dist, #[trigger] queue[q1]) <= level(dist, #[trigger] queue[q2])
    &&& head < queue.len() ==> forall|q: int|
        0 <= q < queue.len() ==> level(dist, #[trigger] queue[q]) <= level(dist, queue[head]) + 1
}

/// Every admissible arc among the first `k` listed for `u` leads to a reached vertex.
pub open spec fn closed_row(
    s: Seq<EdgeData>,
    arcs: Seq<Arc>,
    adj: Seq<Vec<usize>>,
    fs: Option<Seq<Option<u32>>>,
    dist: Seq<Option<u32>>,
    u: Id,
    k: int,
) -> bool {
    forall|j: int|
        0 <= j < k && admissible(s, arcs[#[trigger] adj[u as int]@[j] as int], fs) ==> level(
            dist,
            arcs[adj[u as int]@[j] as int].to,
        ) >= 0 && level(dist, arcs[adj[u as int]@[j] as int].to) <= level(dist, u) + 1
}

/// Reaching a new vertex `to` through arc `a` out of `u` keeps the search consistent.
proof fn lemma_reach(
    s: Seq<EdgeData>,
    arcs: Seq<Arc>,
    adj: Seq<Vec<usize>>,
    fs: Option<Seq<Option<u32>>>,
    source: Id,
    n: nat,
    dist: Seq<Option<u32>>,
    parent: Seq<usize>,
    queue: Seq<Id>,
    head: int,
    u: Id,
    k: int,
    a: usize,
)
    requires
        n <= 65536,
        adjacency(arcs, adj, n),
        forall|b: int| 0 <= b < arcs.len() ==> arc_ok(s, #[trigger] arcs[b]) && arcs[b].to < n,
        search_tree(s, arcs, fs, source, dist, parent),
        queue_ok(dist, queue, n),
        0 <= head < queue.len(),
        u == queue[head],
        closed_upto(s, arcs, adj, fs, dist, queue, head),
        closed_row(s, arcs, adj, fs, dist, u, k),
        queue_order(dist, queue, head),
        0 <= k < adj[u as int]@.len(),
        a == adj[u as int]@[k],
        admissible(s, arcs[a as int], fs),
        dist[arcs[a as int].to as int] is None,
    ensures
        ({
            let to = arcs[a as int].to;
            let nd = dist.update(to as int, Some((dist[u as int]->0 + 1) as u32));
            let np = parent.update(to as int, a);
            let nq = queue.push(to);
            &&& dist[u as int]->0 + 1 < 65536
            &&& search_tree(s, arcs, fs, source, nd, np)
            &&& queue_ok(nd, nq, n)
            &&& nq.len() <= n
            &&& closed_upto(s, arcs, adj, fs, nd, nq, head)
            &&& closed_row(s, arcs, adj, fs, nd, u, k + 1)
            &&& queue_order(nd, nq, head)
        }),
{
    let to = arcs[a as int].to;
    let du = dist[u as int]->0;
    let nd = dist.update(to as int, Some((du + 1) as u32));
    let np = parent.update(to as int, a);
    let nq = queue.push(to);
    assert(dist[u as int] is Some);
    lemma_count_reached(dist, to as int, Some((du + 1) as u32));
    lemma_count_bound(nd);
    assert(arcs[a as int].from == u);
    assert forall|x: Id| x != to implies #[trigger] level(nd, x) == level(dist, x) by {}
    assert(level(nd, to) == level(dist, u) + 1);
    assert forall|q: int| 0 <= q < nq.len() implies level(nd, #[trigger] nq[q]) <= level(nd, u) + 1 by {
        if q < queue.len() {
            assert(nq[q] == queue[q]);
            assert(level(dist, queue[q]) <= level(dist, queue[head]) + 1);
            assert(queue[q] != to);
        }
    }
    assert forall|q1: int, q2: int|
        0 <= q1 <= q2 < nq.len() implies level(nd, #[trigger] nq[q1]) <= level(nd, #[trigger] nq[q2]) by {
        assert(nq[q1] != to || q1 == queue.len());
        if q2 < queue.len() {
            assert(nq[q1] == queue[q1] && nq[q2] == queue[q2]);
            assert(level(dist, queue[q1]) <= level(dist, queue[q2]));
        } else if q1 < queue.len() {
            assert(nq[q1] == queue[q1]);
            assert(level(dist, queue[q1]) <= level(dist, queue[head]) + 1);
        }
    }
    assert(nq[head] == u);
    assert forall|w: int| 0 <= w < nd.len() && #[trigger] nd[w] is Some && w != source implies {
        &&& np[w] < arcs.len()
        &&& arcs[np[w] as int].to == w
        &&& level(nd, arcs[np[w] as int].from) == level(nd, w as Id) - 1
        &&& level(nd, w as Id) >= 1
        &&& admissible(s, arcs[np[w] as int], fs)
        &&& arc_ok(s, arcs[np[w] as int])
    } by {
        if w != to as int {
            assert(dist[w] is Some);
            let f = arcs[parent[w] as int].from;
            assert(level(dist, f) >= 0);
            assert(f != to);
        } else {
            assert(level(nd, u) == level(dist, u));
        }
    }
    assert forall|w: int| 0 <= w < n && (#[trigger] nd[w]) is Some implies nd[w]->0 < nq.len() && exists|q: int|
        0 <= q < nq.len() && nq[q] == w by {
        if w != to as int {
            assert(dist[w] is Some);
            let q = choose|q: int| 0 <= q < queue.len() && queue[q] == w;
            assert(nq[q] == w);
        } else {
            assert(nq[nq.len() - 1] == w);
        }
    }
    assert forall|q: int| 0 <= q < nq.len() implies #[trigger] nq[q] < n && nd[nq[q] as int] is Some by {
        if q < queue.len() {
            assert(nq[q] == queue[q]);
        }
    }
    assert forall|q: int, j: int|
        0 <= q < head && 0 <= j < adj[nq[q] as int]@.len() && admissible(
            s,
            arcs[#[trigger] adj[nq[q] as int]@[j] as int],
            fs,
        ) implies level(nd, arcs[adj[nq[q] as int]@[j] as int].to) >= 0 && level(
            nd,
            arcs[adj[nq[q] as int]@[j] as int].to,
        ) <= level(nd, nq[q]) + 1 by {
        assert(nq[q] == queue[q]);
        assert(level(dist, arcs[adj[queue[q] as int]@[j] as int].to) >= 0);
        assert(level(dist, queue[q]) >= 0);
    }
    assert forall|j: int|
        0 <= j < k + 1 && admissible(s, arcs[#[trigger] adj[u as int]@[j] as int], fs) implies level(
            nd,
            arcs[adj[u as int]@[j] as int].to,
        ) >= 0 && level(nd, arcs[adj[u as int]@[j] as int].to) <= level(nd, u) + 1 by {
        if j < k {
            assert(level(dist, arcs[adj[u as int]@[j] as int].to) >= 0);
        }
    }
}

/// An arc out of `u` that is not taken: where admissible, it leads to a vertex already reached,
/// at most one level below `u`'s next.
proof fn lemma_skip(
    s: Seq<EdgeData>,
    arcs: Seq<Arc>,
    adj: Seq<Vec<usize>>,
    fs: Option<Seq<Option<u32>>>,
    n: nat,
    dist: Seq<Option<u32>>,
    queue: Seq<Id>,
    head: int,
    u: Id,
    k: int,
    a: usize,
)
    requires
        adjacency(arcs, adj, n),
        forall|b: int| 0 <= b < arcs.len() ==> arc_ok(s, #[trigger] arcs[b]) && arcs[b].to < n,
        queue_ok(dist, queue, n),
        queue_order(dist, queue, head),
        0 <= head < queue.len(),
        u == queue[head],
        closed_row(s, arcs, adj, fs, dist, u, k),
        0 <= k < adj[u as int]@.len(),
        a == adj[u as int]@[k],
        admissible(s, arcs[a as int], fs) ==> dist[arcs[a as int].to as int] is Some,
    ensures
        closed_row(s, arcs, adj, fs, dist, u, k + 1),
{
    assert forall|j: int|
        0 <= j < k + 1 && admissible(s, arcs[#[trigger] adj[u as int]@[j] as int], fs) implies level(
            dist,
            arcs[adj[u as int]@[j] as int].to,
        ) >= 0 && level(dist, arcs[adj[u as int]@[j] as int].to) <= level(dist, u) + 1 by {
        if j == k {
            let to = arcs[a as int].to;
            assert(dist[to as int] is Some);
            let q = choose|q: int| 0 <= q < queue.len() && queue[q] == to as int;
            assert(level(dist, queue[q]) <= level(dist, queue[head]) + 1);
        }
    }
}

/// Once every arc out of the vertex at `head` is seen, the search moves on to the next one.
proof fn lemma_advance(
    s: Seq<EdgeData>,
    arcs: Seq<Arc>,
    adj: Seq<Vec<usize>>,
    fs: Option<Seq<Option<u32>>>,
    dist: Seq<Option<u32>>,
    queue: Seq<Id>,
    head: int,
    u: Id,
)
    requires
        0 <= head < queue.len(),
        u == queue[head],
        closed_upto(s, arcs, adj, fs, dist, queue, head),
        closed_row(s, arcs, adj, fs, dist, u, adj[u as int]@.len() as int),
        queue_order(dist, queue, head),
    ensures
        closed_upto(s, arcs, adj, fs, dist, queue, head + 1),
        queue_order(dist, queue, head + 1),
{
    assert forall|q: int, j: int|
        0 <= q < head + 1 && 0 <= j < adj[queue[q] as int]@.len() && admissible(
            s,
            arcs[#[trigger] adj[queue[q] as int]@[j] as int],
            fs,
        ) implies level(dist, arcs[adj[queue[q] as int]@[j] as int].to) >= 0 && level(
            dist,
            arcs[adj[queue[q] as int]@[j] as int].to,
        ) <= level(dist, queue[q]) + 1 by {
        if q == head {
            assert(adj[u as int]@[j] == adj[queue[q] as int]@[j]);
        }
    }
    if head + 1 < queue.len() {
        assert(level(dist, queue[head]) <= level(dist, queue[head + 1]));
        assert forall|q: int| 0 <= q < queue.len() implies level(dist, #[trigger] queue[q]) <= level(dist, queue[head + 1]) + 1 by {
            assert(level(dist, queue[q]) <= level(dist, queue[head]) + 1);
        }
    }
}

/// Breadth-first search from the source over admissible arcs.
fn search(
    network: &FlowNetwork,
    arcs: &Vec<Arc>,
    adj: &Vec<Vec<usize>>,
    n: usize,
    filter: Option<&Vec<Option<u32>>>,
) -> (r: (Vec<Option<u32>>, Vec<usize>))
    requires
        network.wf(),
        n <= 65536,
        vertices_below(*network, n as nat),
        forall|a: int| 0 <= a < arcs@.len() ==> arc_ok(network.edge_seq(), #[trigger] arcs@[a]),
        adjacency(arcs@, adj@, n as nat),
        filter is Some ==> filter->0@.len() == n,
    ensures
        r.0@.len() == n,
        search_tree(
            network.edge_seq(),
            arcs@,
            match filter {
                Some(f) => Some(f@),
                None => None,
            },
            network.spec_source(),
            r.0@,
            r.1@,
        ),
        forall|a: int|
            0 <= a < arcs@.len() && level(r.0@, (#[trigger] arcs@[a]).from) >= 0 && admissible(
                network.edge_seq(),
                arcs@[a],
                match filter {
                    Some(f) => Some(f@),
                    None => None,
                },
            ) ==> level(r.0@, arcs@[a].to) >= 0 && level(r.0@, arcs@[a].to) <= level(r.0@, arcs@[a].from) + 1,
{
    let ghost fs = match filter {
        Some(f) => Some(f@),
        None => None,
    };
    let ghost s = network.edge_seq();
    proof {
        assert forall|b: int| 0 <= b < arcs@.len() implies arc_ok(s, #[trigger] arcs@[b]) && arcs@[b].to < n by {
            let i = arcs@[b].index as int;
            assert(s[i] == network.edge_seq()[i]);
        }
    }
    let source = network.source();
    let mut dist: Vec<Option<u32>> = Vec::new();
    let mut parent: Vec<usize> = Vec::new();
    let mut v: usize = 0;
    while v < n
        invariant
            v <= n,
            dist@.len() == v,
            parent@.len() == v,
            forall|w: int| 0 <= w < v ==> (#[trigger] dist@[w]) is None,
        decreases n - v,
    {
        dist.push(None);
        parent.push(0);
        v += 1;
    }
    proof {
        assert(dist@ =~= Seq::new(n as nat, |i: int| None::<u32>));
        lemma_count_all_none(n as nat);
        lemma_count_reached(dist@, source as int, Some(0u32));
    }
    dist.set(source as usize, Some(0));
    let mut queue: Vec<Id> = Vec::new();
    queue.push(source);
    proof {
        assert forall|w: int| 0 <= w < n && (#[trigger] dist@[w]) is Some implies dist@[w]->0 < queue@.len() && exists|q: int|
            0 <= q < queue@.len() && queue@[q] == w by {
            assert(w == source);
            assert(queue@[0] == source);
        }
    }
    proof {
        assert(queue_order(dist@, queue@, 0));
    }
    let mut head: usize = 0;
    while head < queue.len()
        invariant
            network.wf(),
            n <= 65536,
            vertices_below(*network, n as nat),
            forall|b: int| 0 <= b < arcs@.len() ==> arc_ok(s, #[trigger] arcs@[b]) && arcs@[b].to < n,
            adjacency(arcs@, adj@, n as nat),
            filter is Some ==> filter->0@.len() == n,
            s == network.edge_seq(),
            source == network.spec_source(),
            fs == match filter {
                Some(f) => Some(f@),
                None => None,
            },
            search_tree(s, arcs@, fs, source, dist@, parent@),
            queue_ok(dist@, queue@, n as nat),
            queue@.len() <= n,
            head <= queue@.len(),
            closed_upto(s, arcs@, adj@, fs, dist@, queue@, head as int),
            queue_order(dist@, queue@, head as int),
        decreases n - head,
    {
        let u = queue[head];
        let m = adj[u as usize].len();
        let mut k: usize = 0;
        while k < m
            invariant
                network.wf(),
                n <= 65536,
                vertices_below(*network, n as nat),
                forall|b: int| 0 <= b < arcs@.len() ==> arc_ok(s, #[trigger] arcs@[b]) && arcs@[b].to < n,
                adjacency(arcs@, adj@, n as nat),
                filter is Some ==> filter->0@.len() == n,
                s == network.edge_seq(),
                source == network.spec_source(),
                fs == match filter {
                    Some(f) => Some(f@),
                    None => None,
                },
                u < n,
                u == queue@[head as int],
                m == adj@[u as int]@.len(),
                k <= m,
                search_tree(s, arcs@, fs, source, dist@, parent@),
                queue_ok(dist@, queue@, n as nat),
                queue@.len() <= n,
                head < queue@.len(),
                closed_upto(s, arcs@, adj@, fs, dist@, queue@, head as int),
                closed_row(s, arcs@, adj@, fs, dist@, u, k as int),
                queue_order(dist@, queue@, head as int),
            decreases m - k,
        {
            let a = adj[u as usize][k];
            let arc = arcs[a];
            proof {
                assert(arcs@[a as int].from == u);
            }
            let take = may_take(network, arc, filter);
            if take && dist[arc.to as usize].is_none() {
                let du = dist[u as usize].unwrap();
                proof {
                    lemma_reach(s, arcs@, adj@, fs, source, n as nat, dist@, parent@, queue@, head as int, u, k as int, a);
                }
                dist.set(arc.to as usize, Some(du + 1));
                parent.set(arc.to as usize, a);
                queue.push(arc.to);
            } else {
                proof {
                    lemma_skip(s, arcs@, adj@, fs, n as nat, dist@, queue@, head as int, u, k as int, a);
                }
            }
            k += 1;
        }
        proof {
            lemma_advance(s, arcs@, adj@, fs, dist@, queue@, head as int, u);
        }
        head += 1;
    }
    proof {
        assert forall|a: int|
            0 <= a < arcs@.len() && level(dist@, (#[trigger] arcs@[a]).from) >= 0 && admissible(s, arcs@[a], fs)
            implies level(dist@, arcs@[a].to) >= 0 && level(dist@, arcs@[a].to) <= level(dist@, arcs@[a].from) + 1 by {
            let w = arcs@[a].from as int;
            assert(arcs.len() == arcs@.len());
            assert(adj@[w]@.contains(a as usize));
            let k = choose|k: int| 0 <= k < adj@[w]@.len() && adj@[w]@[k] == a as usize;
            assert(dist@[w] is Some);
            let q = choose|q: int| 0 <= q < queue@.len() && queue@[q] == w;
            assert(adj@[queue@[q] as int]@[k] == a as usize);
            assert(adj@[queue@[q] as int]@[k] as int == a);
            assert(admissible(s, arcs@[adj@[queue@[q] as int]@[k] as int], fs));
            assert(q < head);
        }
    }
    (dist, parent)
}


/// `path` lists arcs from the sink back to the source, each one level below the next, all
/// with residual capacity.
pub open spec fn path_ok(
    s: Seq<EdgeData>,
    arcs: Seq<Arc>,
    dist: Seq<Option<u32>>,
    path: Seq<usize>,
    source: Id,
    sink: Id,
) -> bool {
    let len = path.len() as int;
    &&& len >= 1
    &&& forall|q: int| 0 <= q < len ==> #[trigger] path[q] < arcs.len()
    &&& forall|q: int|
        0 <= q < len ==> arc_ok(s, arcs[#[trigger] path[q] as int]) && residual(s, arcs[path[q] as int]) > 0
    &&& arcs[path[0] as int].to == sink
    &&& arcs[path[len - 1] as int].from == source
    &&& forall|q: int| 0 <= q < len - 1 ==> arcs[#[trigger] path[q + 1] as int].to == arcs[path[q] as int].from
    &&& forall|q: int|
        0 <= q < len ==> level(dist, arcs[#[trigger] path[q] as int].to) == len - q && level(
            dist,
            arcs[path[q] as int].from,
        ) == len - 1 - q
}

/// Two arcs of a path never use the same edge.
proof fn lemma_path_distinct(
    s: Seq<EdgeData>,
    arcs: Seq<Arc>,
    dist: Seq<Option<u32>>,
    path: Seq<usize>,
    source: Id,
    sink: Id,
)
    requires
        path_ok(s, arcs, dist, path, source, sink),
    ensures
        forall|q: int, r: int|
            0 <= q < path.len() && 0 <= r < path.len() && q != r ==> arcs[#[trigger] path[q] as int].index
                != arcs[#[trigger] path[r] as int].index,
{
    assert forall|q: int, r: int|
        0 <= q < path.len() && 0 <= r < path.len() && q != r implies arcs[#[trigger] path[q] as int].index
            != arcs[#[trigger] path[r] as int].index by {
        let a = arcs[path[q] as int];
        let b = arcs[path[r] as int];
        assert(arc_ok(s, a) && arc_ok(s, b));
        assert(level(dist, a.to) == path.len() - q);
        assert(level(dist, b.to) == path.len() - r);
        assert(level(dist, a.from) == path.len() - 1 - q);
        assert(level(dist, b.from) == path.len() - 1 - r);
    }
}

/// Follows the search tree back from the sink to the source.
fn path_to_sink(
    network: &FlowNetwork,
    arcs: &Vec<Arc>,
    dist: &Vec<Option<u32>>,
    parent: &Vec<usize>,
    fs: Ghost<Option<Seq<Option<u32>>>>,
) -> (path: Vec<usize>)
    requires
        search_tree(network.edge_seq(), arcs@, fs@, network.spec_source(), dist@, parent@),
        network.spec_sink() < dist@.len(),
        dist@[network.spec_sink() as int] is Some,
        network.spec_sink() != network.spec_source(),
    ensures
        path_ok(network.edge_seq(), arcs@, dist@, path@, network.spec_source(), network.spec_sink()),
{
    let ghost s = network.edge_seq();
    let source = network.source();
    let sink = network.sink();
    let mut rev: Vec<usize> = Vec::new();
    let mut cur = sink;
    let ghost top = level(dist@, sink);
    while cur != source
        invariant
            search_tree(s, arcs@, fs@, source, dist@, parent@),
            s == network.edge_seq(),
            source == network.spec_source(),
            sink == network.spec_sink(),
            cur < dist@.len(),
            dist@[cur as int] is Some,
            top == level(dist@, sink),
            level(dist@, cur) == top - rev@.len(),
            rev@.len() == 0 ==> cur == sink,
            rev@.len() > 0 ==> arcs@[rev@[rev@.len() - 1] as int].from == cur,
            rev@.len() > 0 ==> arcs@[rev@[0] as int].to == sink,
            forall|q: int| 0 <= q < rev@.len() ==> #[trigger] rev@[q] < arcs@.len(),
            forall|q: int|
                0 <= q < rev@.len() ==> arc_ok(s, arcs@[#[trigger] rev@[q] as int]) && residual(
                    s,
                    arcs@[rev@[q] as int],
                ) > 0,
            forall|q: int|
                0 <= q < rev@.len() - 1 ==> arcs@[#[trigger] rev@[q + 1] as int].to == arcs@[rev@[q] as int].from,
            forall|q: int|
                0 <= q < rev@.len() ==> level(dist@, arcs@[#[trigger] rev@[q] as int].to) == top - q
                    && level(dist@, arcs@[rev@[q] as int].from) == top - 1 - q,
        decreases level(dist@, cur),
    {
        let a = parent[cur as usize];
        proof {
            assert(dist@[cur as int] is Some);
        }
        let ghost prev = rev@;
        rev.push(a);
        proof {
            assert forall|q: int| 0 <= q < rev@.len() - 1 implies arcs@[#[trigger] rev@[q + 1] as int].to
                == arcs@[rev@[q] as int].from by {
                if q + 1 < prev.len() {
                    assert(rev@[q + 1] == prev[q + 1]);
                    assert(rev@[q] == prev[q]);
                }
            }
        }
        cur = arcs[a].from;
    }
    proof {
        assert(level(dist@, source) == 0);
    }
    rev
}

/// Balance of `v`: flow entering less flow leaving.
pub open spec fn balance(s: Seq<EdgeData>, v: Id) -> int {
    sum_in(s, v) - sum_out(s, v)
}

proof fn lemma_balance_update(s: Seq<EdgeData>, i: int, x: EdgeData)
    requires
        0 <= i < s.len(),
        x.edge == s[i].edge,
    ensures
        forall|v: Id|
            #[trigger] balance(s.update(i, x), v) == balance(s, v) + (if x.edge.end == v {
                x.flow - s[i].flow
            } else {
                0
            }) - (if x.edge.start == v {
                x.flow - s[i].flow
            } else {
                0
            }),
{
    assert forall|v: Id|
        #[trigger] balance(s.update(i, x), v) == balance(s, v) + (if x.edge.end == v {
            x.flow - s[i].flow
        } else {
            0
        }) - (if x.edge.start == v {
            x.flow - s[i].flow
        } else {
            0
        }) by {
        lemma_sum_update(s, i, x, v);
    }
}

/// Pushes the path's bottleneck amount along it; returns that amount.
fn augment(network: &mut FlowNetwork, arcs: &Vec<Arc>, dist: &Vec<Option<u32>>, path: &Vec<usize>) -> (d: Flow)
    requires
        old(network).wf(),
        old(network).within_capacity(),
        old(network).spec_source() != old(network).spec_sink(),
        path_ok(
            old(network).edge_seq(),
            arcs@,
            dist@,
            path@,
            old(network).spec_source(),
            old(network).spec_sink(),
        ),
    ensures
        d >= 1,
        final(network).wf(),
        final(network).within_capacity(),
        final(network).spec_source() == old(network).spec_source(),
        final(network).spec_sink() == old(network).spec_sink(),
        same_edges(old(network).edge_seq(), final(network).edge_seq()),
        self_loops_kept(old(network).edge_seq(), final(network).edge_seq()),
        forall|v: Id|
            #[trigger] balance(final(network).edge_seq(), v) == balance(old(network).edge_seq(), v)
                + (if v == old(network).spec_sink() {
                d as int
            } else {
                0
            }) - (if v == old(network).spec_source() {
                d as int
            } else {
                0
            }),
{
    let ghost orig = network.edge_seq();
    let source = network.source();
    let sink = network.sink();
    proof {
        lemma_path_distinct(orig, arcs@, dist@, path@, source, sink);
    }
    let len = path.len();
    let mut d: Flow = 65535;
    let mut q: usize = 0;
    while q < len
        invariant
            network.wf(),
            orig == network.edge_seq(),
            len == path@.len(),
            path_ok(orig, arcs@, dist@, path@, source, sink),
            q <= len,
            d >= 1,
            forall|r: int| 0 <= r < q ==> residual(orig, arcs@[#[trigger] path@[r] as int]) >= d,
        decreases len - q,
    {
        let arc = arcs[path[q]];
        let e = network.edge_at(arc.index);
        let room = if arc.forward {
            e.capacity - e.flow
        } else {
            e.flow
        };
        if room < d {
            d = room;
        }
        q += 1;
    }
    let mut q: usize = 0;
    while q < len
        invariant
            network.wf(),
            network.within_capacity(),
            network.spec_source() == source,
            network.spec_sink() == sink,
            source != sink,
            len == path@.len(),
            path_ok(orig, arcs@, dist@, path@, source, sink),
            forall|q: int, r: int|
                0 <= q < path@.len() && 0 <= r < path@.len() && q != r ==> arcs@[#[trigger] path@[q] as int].index
                    != arcs@[#[trigger] path@[r] as int].index,
            forall|r: int| 0 <= r < len ==> residual(orig, arcs@[#[trigger] path@[r] as int]) >= d,
            d >= 1,
            q <= len,
            same_edges(orig, network.edge_seq()),
            self_loops_kept(orig, network.edge_seq()),
            forall|r: int|
                q <= r < len ==> network.edge_seq()[arcs@[#[trigger] path@[r] as int].index as int]
                    == orig[arcs@[path@[r] as int].index as int],
            forall|v: Id|
                #[trigger] balance(network.edge_seq(), v) == balance(orig, v) + (if v == sink {
                    d as int
                } else {
                    0
                }) - (if v == (if q == 0 {
                    sink
                } else {
                    arcs@[path@[q - 1] as int].from
                }) {
                    d as int
                } else {
                    0
                }),
        decreases len - q,
    {
        let arc = arcs[path[q]];
        let i = arc.index;
        let e = network.edge_at(i);
        let ghost cur = network.edge_seq();
        proof {
            assert(network.edge_seq()[i as int] == orig[i as int]);
            assert(arc_ok(orig, arc));
            assert(residual(orig, arc) >= d);
        }
        let nf = if arc.forward {
            e.flow + d
        } else {
            e.flow - d
        };
        network.set_flow_at(i, nf);
        proof {
            let x = EdgeData { flow: nf, ..cur[i as int] };
            lemma_balance_update(cur, i as int, x);
            assert(network.edge_seq() == cur.update(i as int, x));
            if q > 0 {
                let pq = q - 1;
                assert(arcs@[path@[pq + 1] as int].to == arcs@[path@[pq] as int].from);
            }
            assert(arc.to == (if q == 0 {
                sink
            } else {
                arcs@[path@[q - 1] as int].from
            }));
            assert(level(dist@, arc.to) != level(dist@, arc.from));
            assert(orig[i as int].edge.start != orig[i as int].edge.end);
            assert forall|j: int| 0 <= j < orig.len() && orig[j].edge.start == orig[j].edge.end implies #[trigger] network.edge_seq()[j].flow == orig[j].flow by {
                assert(j != i);
                assert(network.edge_seq()[j] == cur[j]);
            }
            assert forall|r: int|
                q + 1 <= r < len implies network.edge_seq()[arcs@[#[trigger] path@[r] as int].index as int]
                    == orig[arcs@[path@[r] as int].index as int] by {
                assert(arcs@[path@[r] as int].index != arcs@[path@[q as int] as int].index);
            }
            assert forall|j: int| 0 <= j < network.edge_seq().len() implies #[trigger] network.edge_seq()[j].flow
                <= network.edge_seq()[j].capacity by {
                if j != i {
                    assert(network.edge_seq()[j] == cur[j]);
                }
            }
            assert forall|j: int| 0 <= j < orig.len() implies #[trigger] network.edge_seq()[j].edge
                == orig[j].edge && network.edge_seq()[j].capacity == orig[j].capacity by {
                assert(cur[j].edge == orig[j].edge);
            }
        }
        q += 1;
    }
    d
}

/// `path` starts at `source` and follows arcs of the residual graph of `s`.
pub open spec fn is_residual_walk(s: Seq<EdgeData>, source: Id, path: Seq<Id>) -> bool {
    &&& path.len() >= 1
    &&& path[0] == source
    &&& forall|k: int| 0 <= k < path.len() - 1 ==> residual_step(s, #[trigger] path[k], path[k + 1])
}

/// Along a residual walk from the source, each vertex is reached, at a level no larger than its
/// position, where reached vertices are closed under residual arcs that climb at most one level.
proof fn lemma_walk_levels(s: Seq<EdgeData>, arcs: Seq<Arc>, dist: Seq<Option<u32>>, source: Id, path: Seq<Id>, k: int)
    requires
        residual_arcs(s, arcs),
        forall|a: int|
            0 <= a < arcs.len() && level(dist, (#[trigger] arcs[a]).from) >= 0 && residual(s, arcs[a]) > 0
                ==> level(dist, arcs[a].to) >= 0 && level(dist, arcs[a].to) <= level(dist, arcs[a].from) + 1,
        level(dist, source) == 0,
        is_residual_walk(s, source, path),
        0 <= k < path.len(),
    ensures
        0 <= level(dist, path[k]) <= k,
    decreases k,
{
    if k > 0 {
        lemma_walk_levels(s, arcs, dist, source, path, k - 1);
        let u = path[k - 1];
        let v = path[k];
        assert(residual_step(s, path[k - 1], path[(k - 1) + 1]));
        let i = choose|i: int|
            0 <= i < s.len() && ((#[trigger] s[i].edge.start == u && s[i].edge.end == v && s[i].flow
                < s[i].capacity) || (s[i].edge.end == u && s[i].edge.start == v && s[i].flow > 0));
        if s[i].edge.start == u && s[i].edge.end == v && s[i].flow < s[i].capacity {
            let a = choose|a: int|
                0 <= a < arcs.len() && #[trigger] arcs[a] == (Arc {
                    from: s[i].edge.start,
                    to: s[i].edge.end,
                    index: i as usize,
                    forward: true,
                });
            assert(residual(s, arcs[a]) > 0);
        } else {
            let a = choose|a: int|
                0 <= a < arcs.len() && #[trigger] arcs[a] == (Arc {
                    from: s[i].edge.end,
                    to: s[i].edge.start,
                    index: i as usize,
                    forward: false,
                });
            assert(residual(s, arcs[a]) > 0);
        }
    }
}

/// Following the search tree back from a reached vertex gives a residual walk from the source
/// whose length is the vertex's level.
proof fn lemma_tree_walk(
    s: Seq<EdgeData>,
    arcs: Seq<Arc>,
    source: Id,
    dist: Seq<Option<u32>>,
    parent: Seq<usize>,
    v: Id,
) -> (path: Seq<Id>)
    requires
        search_tree(s, arcs, None, source, dist, parent),
        level(dist, v) >= 0,
    ensures
        is_residual_walk(s, source, path),
        path.last() == v,
        path.len() == level(dist, v) + 1,
    decreases level(dist, v),
{
    if v == source {
        let path = seq![source];
        assert(path.last() == v);
        path
    } else {
        assert(dist[v as int] is Some);
        let p = arcs[parent[v as int] as int];
        let u = p.from;
        let prev = lemma_tree_walk(s, arcs, source, dist, parent, u);
        let path = prev.push(v);
        let i = p.index as int;
        assert(residual_step(s, u, v)) by {
            if p.forward {
                assert(s[i].edge.start == u && s[i].edge.end == v && s[i].flow < s[i].capacity);
            } else {
                assert(s[i].edge.end == u && s[i].edge.start == v && s[i].flow > 0);
            }
        }
        assert forall|k: int| 0 <= k < path.len() - 1 implies residual_step(s, #[trigger] path[k], path[k + 1]) by {
            if k < prev.len() - 1 {
                assert(path[k] == prev[k] && path[k + 1] == prev[k + 1]);
            } else {
                assert(path[k] == prev.last());
            }
        }
        path
    }
}

/// Levels of the residual graph by breadth-first search from the source, with the arc that
/// reached each vertex. Each reached vertex's level is its distance from the source in the
/// residual graph: some residual walk reaches it in that many arcs, and none in fewer. The
/// level graph is made of the residual arcs that climb exactly one level.
pub fn construct_level_graph(network: &FlowNetwork, arcs: &Vec<Arc>, adj: &Vec<Vec<usize>>, n: usize) -> (r: (
    Vec<Option<u32>>,
    Vec<usize>,
))
    requires
        network.wf(),
        n <= 65536,
        vertices_below(*network, n as nat),
        residual_arcs(network.edge_seq(), arcs@),
        adjacency(arcs@, adj@, n as nat),
    ensures
        r.0@.len() == n,
        search_tree(network.edge_seq(), arcs@, None, network.spec_source(), r.0@, r.1@),
        forall|a: int|
            0 <= a < arcs@.len() && level(r.0@, (#[trigger] arcs@[a]).from) >= 0 && residual(
                network.edge_seq(),
                arcs@[a],
            ) > 0 ==> level(r.0@, arcs@[a].to) >= 0,
        forall|path: Seq<Id>|
            #[trigger] is_residual_walk(network.edge_seq(), network.spec_source(), path) ==> 0 <= level(
                r.0@,
                path.last(),
            ) <= path.len() - 1,
        forall|v: Id|
            #[trigger] level(r.0@, v) >= 0 ==> exists|path: Seq<Id>|
                is_residual_walk(network.edge_seq(), network.spec_source(), path) && path.last() == v
                    && #[trigger] path.len() == level(r.0@, v) + 1,
{
    let r = search(network, arcs, adj, n, None);
    proof {
        let s = network.edge_seq();
        let source = network.spec_source();
        assert forall|a: int|
            0 <= a < arcs@.len() && level(r.0@, (#[trigger] arcs@[a]).from) >= 0 && residual(s, arcs@[a]) > 0
            implies level(r.0@, arcs@[a].to) >= 0 && level(r.0@, arcs@[a].to) <= level(r.0@, arcs@[a].from) + 1 by {
            assert(admissible(s, arcs@[a], None));
        }
        assert(level(r.0@, source) == 0);
        assert forall|path: Seq<Id>| #[trigger] is_residual_walk(s, source, path) implies 0 <= level(r.0@, path.last())
            <= path.len() - 1 by {
            lemma_walk_levels(s, arcs@, r.0@, source, path, path.len() - 1);
        }
        assert forall|v: Id| #[trigger] level(r.0@, v) >= 0 implies exists|path: Seq<Id>|
            is_residual_walk(s, source, path) && path.last() == v && #[trigger] path.len() == level(r.0@, v) + 1 by {
            let path = lemma_tree_walk(s, arcs@, source, r.0@, r.1@, v);
            assert(is_residual_walk(s, source, path) && path.last() == v && path.len() == level(r.0@, v) + 1);
        }
    }
    r
}

/// Balance of the sink plus balance of the source: 0 where what the source sends on is what the
/// sink receives.
pub open spec fn terminal_balance(net: FlowNetwork) -> int {
    balance(net.edge_seq(), net.spec_sink()) + balance(net.edge_seq(), net.spec_source())
}

/// The flow value is `-balance` of the source.
proof fn lemma_value(net: FlowNetwork)
    ensures
        net.value() == -balance(net.edge_seq(), net.spec_source()),
{
}

/// A flow within capacity has a value no larger than the capacity leaving the source.
proof fn lemma_value_bound(orig: Seq<EdgeData>, net: FlowNetwork)
    requires
        same_edges(orig, net.edge_seq()),
        net.within_capacity(),
    ensures
        net.value() <= cap_out(orig, net.spec_source()),
{
    lemma_cap_out(orig, net.edge_seq(), net.spec_source());
    lemma_sum_bounds(net.edge_seq(), net.spec_source());
}

proof fn lemma_arcs_kept(s: Seq<EdgeData>, t: Seq<EdgeData>, arcs: Seq<Arc>)
    requires
        same_edges(s, t),
        forall|a: int| 0 <= a < arcs.len() ==> arc_ok(s, #[trigger] arcs[a]),
    ensures
        forall|a: int| 0 <= a < arcs.len() ==> arc_ok(t, #[trigger] arcs[a]),
{
    assert forall|a: int| 0 <= a < arcs.len() implies arc_ok(t, #[trigger] arcs[a]) by {
        assert(arc_ok(s, arcs[a]));
        assert(t[arcs[a].index as int].edge == s[arcs[a].index as int].edge);
    }
}

proof fn lemma_same_edges_trans(a: Seq<EdgeData>, b: Seq<EdgeData>, c: Seq<EdgeData>)
    requires
        same_edges(a, b),
        same_edges(b, c),
    ensures
        same_edges(a, c),
{
    assert forall|i: int| 0 <= i < a.len() implies #[trigger] c[i].edge == a[i].edge && c[i].capacity
        == a[i].capacity by {
        assert(b[i].edge == a[i].edge && b[i].capacity == a[i].capacity);
        assert(c[i].edge == b[i].edge && c[i].capacity == b[i].capacity);
    }
}

/// The flow is blocking in the level graph given by `levels`: the vertices that can be reached
/// from the source along arcs admissible under `levels` are closed under those arcs and leave the
/// sink out, so no source-to-sink path of the level graph has capacity left.
pub open spec fn blocked(net: FlowNetwork, arcs: Seq<Arc>, levels: Seq<Option<u32>>) -> bool {
    exists|dist: Seq<Option<u32>>|
        #![trigger level(dist, net.spec_sink())]
        level(dist, net.spec_source()) >= 0 && level(dist, net.spec_sink()) < 0 && forall|a: int|
            0 <= a < arcs.len() && level(dist, (#[trigger] arcs[a]).from) >= 0 && admissible(
                net.edge_seq(),
                arcs[a],
                Some(levels),
            ) ==> level(dist, arcs[a].to) >= 0
}

/// Flows on self-loops are as they were.
pub open spec fn self_loops_kept(s: Seq<EdgeData>, t: Seq<EdgeData>) -> bool {
    forall|i: int|
        0 <= i < s.len() && s[i].edge.start == s[i].edge.end ==> #[trigger] t[i].flow == s[i].flow
}

proof fn lemma_self_loops_kept_trans(a: Seq<EdgeData>, b: Seq<EdgeData>, c: Seq<EdgeData>)
    requires
        same_edges(a, b),
        self_loops_kept(a, b),
        self_loops_kept(b, c),
    ensures
        self_loops_kept(a, c),
{
    assert forall|i: int| 0 <= i < a.len() && a[i].edge.start == a[i].edge.end implies #[trigger] c[i].flow == a[i].flow by {
        assert(b[i].edge == a[i].edge);
        assert(b[i].flow == a[i].flow);
    }
}

/// Augments along paths of the level graph given by `levels` until none is left.
fn find_blocking_flow(
    network: &mut FlowNetwork,
    arcs: &Vec<Arc>,
    adj: &Vec<Vec<usize>>,
    levels: &Vec<Option<u32>>,
    n: usize,
)
    requires
        old(network).wf(),
        old(network).within_capacity(),
        old(network).spec_source() != old(network).spec_sink(),
        n <= 65536,
        vertices_below(*old(network), n as nat),
        forall|a: int| 0 <= a < arcs@.len() ==> arc_ok(old(network).edge_seq(), #[trigger] arcs@[a]),
        adjacency(arcs@, adj@, n as nat),
        levels@.len() == n,
    ensures
        final(network).wf(),
        final(network).within_capacity(),
        final(network).spec_source() == old(network).spec_source(),
        final(network).spec_sink() == old(network).spec_sink(),
        same_edges(old(network).edge_seq(), final(network).edge_seq()),
        final(network).value() >= old(network).value(),
        terminal_balance(*final(network)) == terminal_balance(*old(network)),
        self_loops_kept(old(network).edge_seq(), final(network).edge_seq()),
        blocked(*final(network), arcs@, levels@),
        forall|v: Id|
            v != final(network).spec_source() && v != final(network).spec_sink() ==> #[trigger] balance(
                final(network).edge_seq(),
                v,
            ) == balance(old(network).edge_seq(), v),
{
    let ghost orig = network.edge_seq();
    let ghost start = *network;
    let source = network.source();
    let sink = network.sink();
    proof {
        assert forall|i: int| 0 <= i < orig.len() implies #[trigger] orig[i].edge == orig[i].edge
            && orig[i].capacity == orig[i].capacity by {}
    }
    loop
        invariant
            network.wf(),
            network.within_capacity(),
            network.spec_source() == source,
            network.spec_sink() == sink,
            source == start.spec_source(),
            sink == start.spec_sink(),
            orig == start.edge_seq(),
            source != sink,
            n <= 65536,
            vertices_below(*network, n as nat),
            forall|a: int| 0 <= a < arcs@.len() ==> arc_ok(network.edge_seq(), #[trigger] arcs@[a]),
            adjacency(arcs@, adj@, n as nat),
            levels@.len() == n,
            same_edges(orig, network.edge_seq()),
            network.value() >= start.value(),
            terminal_balance(*network) == terminal_balance(start),
            self_loops_kept(orig, network.edge_seq()),
            forall|v: Id|
                v != source && v != sink ==> #[trigger] balance(network.edge_seq(), v) == balance(orig, v),
        ensures
            blocked(*network, arcs@, levels@),
        decreases cap_out(orig, source) - network.value(),
    {
        proof {
            lemma_value_bound(orig, *network);
        }
        let (dist, parent) = search(network, arcs, adj, n, Some(levels));
        if dist[sink as usize].is_none() {
            proof {
                assert(level(dist@, source) >= 0);
                assert(level(dist@, sink) < 0);
            }
            break;
        }
        let path = path_to_sink(network, arcs, &dist, &parent, Ghost(Some(levels@)));
        let ghost before = *network;
        augment(network, arcs, &dist, &path);
        proof {
            lemma_self_loops_kept_trans(orig, before.edge_seq(), network.edge_seq());
            lemma_same_edges_trans(orig, before.edge_seq(), network.edge_seq());
            lemma_arcs_kept(before.edge_seq(), network.edge_seq(), arcs@);
            lemma_value(before);
            lemma_value(*network);
            assert(balance(network.edge_seq(), source) < balance(before.edge_seq(), source));
            lemma_value_bound(orig, *network);
            assert forall|i: int| 0 <= i < network.edge_seq().len() implies (#[trigger] network.edge_seq()[i]).edge.start < n
                && network.edge_seq()[i].edge.end < n by {
                assert(before.edge_seq()[i].edge == network.edge_seq()[i].edge);
            }
        }
    }
}

/// Every vertex of a residual path that starts at a reached vertex is reached, when reached
/// vertices are closed under residual arcs.
proof fn lemma_reached_along(
    s: Seq<EdgeData>,
    arcs: Seq<Arc>,
    dist: Seq<Option<u32>>,
    path: Seq<Id>,
    k: int,
)
    requires
        residual_arcs(s, arcs),
        forall|a: int|
            0 <= a < arcs.len() && level(dist, (#[trigger] arcs[a]).from) >= 0 && residual(s, arcs[a]) > 0
                ==> level(dist, arcs[a].to) >= 0,
        0 <= k < path.len(),
        level(dist, path[0]) >= 0,
        forall|j: int| 0 <= j < path.len() - 1 ==> residual_step(s, #[trigger] path[j], path[j + 1]),
    ensures
        level(dist, path[k]) >= 0,
    decreases k,
{
    if k > 0 {
        lemma_reached_along(s, arcs, dist, path, k - 1);
        let u = path[k - 1];
        let v = path[k];
        assert(residual_step(s, path[k - 1], path[(k - 1) + 1]));
        let i = choose|i: int|
            0 <= i < s.len() && ((#[trigger] s[i].edge.start == u && s[i].edge.end == v && s[i].flow
                < s[i].capacity) || (s[i].edge.end == u && s[i].edge.start == v && s[i].flow > 0));
        if s[i].edge.start == u && s[i].edge.end == v && s[i].flow < s[i].capacity {
            let a = choose|a: int|
                0 <= a < arcs.len() && #[trigger] arcs[a] == (Arc {
                    from: s[i].edge.start,
                    to: s[i].edge.end,
                    index: i as usize,
                    forward: true,
                });
            assert(residual(s, arcs[a]) > 0);
        } else {
            let a = choose|a: int|
                0 <= a < arcs.len() && #[trigger] arcs[a] == (Arc {
                    from: s[i].edge.end,
                    to: s[i].edge.start,
                    index: i as usize,
                    forward: false,
                });
            assert(residual(s, arcs[a]) > 0);
        }
    }
}

/// Where the sink is not reached and reached vertices are closed under residual arcs, no
/// augmenting path is left.
proof fn lemma_no_augmenting_path(net: FlowNetwork, arcs: Seq<Arc>, dist: Seq<Option<u32>>)
    requires
        residual_arcs(net.edge_seq(), arcs),
        forall|a: int|
            0 <= a < arcs.len() && level(dist, (#[trigger] arcs[a]).from) >= 0 && residual(
                net.edge_seq(),
                arcs[a],
            ) > 0 ==> level(dist, arcs[a].to) >= 0,
        net.spec_source() < dist.len(),
        dist[net.spec_source() as int] is Some,
        level(dist, net.spec_sink()) < 0,
    ensures
        is_maximum(net),
{
    assert forall|path: Seq<Id>| !is_augmenting_path(net, path) by {
        if is_augmenting_path(net, path) {
            lemma_reached_along(net.edge_seq(), arcs, dist, path, path.len() - 1);
        }
    }
}

/// Two steps that keep the balance of every vertex but source and sink keep a conserving flow
/// conserving.
proof fn lemma_conserved(a: FlowNetwork, b: FlowNetwork, c: FlowNetwork)
    requires
        a.conserves_flow(),
        a.spec_source() == b.spec_source() && b.spec_source() == c.spec_source(),
        a.spec_sink() == b.spec_sink() && b.spec_sink() == c.spec_sink(),
        forall|v: Id|
            v != a.spec_source() && v != a.spec_sink() ==> #[trigger] balance(b.edge_seq(), v) == balance(
                a.edge_seq(),
                v,
            ),
        forall|v: Id|
            v != a.spec_source() && v != a.spec_sink() ==> #[trigger] balance(c.edge_seq(), v) == balance(
                b.edge_seq(),
                v,
            ),
    ensures
        c.conserves_flow(),
{
    assert forall|v: Id| v != c.spec_source() && v != c.spec_sink() implies #[trigger] c.in_flow(v) == c.out_flow(v) by {
        assert(balance(c.edge_seq(), v) == balance(b.edge_seq(), v));
        assert(balance(b.edge_seq(), v) == balance(a.edge_seq(), v));
        assert(a.in_flow(v) == a.out_flow(v));
    }
}

/// Largest vertex of the network, plus one.
pub fn vertex_bound(network: &FlowNetwork) -> (n: usize)
    ensures
        1 <= n <= 65536,
        vertices_below(*network, n as nat),
{
    let mut top: Id = network.source();
    if network.sink() > top {
        top = network.sink();
    }
    let count = network.edge_count();
    let mut i: usize = 0;
    while i < count
        invariant
            count == network.edge_seq().len(),
            i <= count,
            network.spec_source() <= top,
            network.spec_sink() <= top,
            forall|j: int|
                0 <= j < i ==> (#[trigger] network.edge_seq()[j]).edge.start <= top
                    && network.edge_seq()[j].edge.end <= top,
        decreases count - i,
    {
        let d = network.edge_at(i);
        if d.edge.start > top {
            top = d.edge.start;
        }
        if d.edge.end > top {
            top = d.edge.end;
        }
        i += 1;
    }
    top as usize + 1
}

/// One phase: augments along the search tree's path to the sink, then along paths of the level
/// graph until none is left.
fn run_phase(
    network: &mut FlowNetwork,
    arcs: &Vec<Arc>,
    adj: &Vec<Vec<usize>>,
    levels: &Vec<Option<u32>>,
    parent: &Vec<usize>,
    n: usize,
)
    requires
        old(network).wf(),
        old(network).is_feasible(),
        old(network).spec_source() != old(network).spec_sink(),
        n <= 65536,
        vertices_below(*old(network), n as nat),
        residual_arcs(old(network).edge_seq(), arcs@),
        adjacency(arcs@, adj@, n as nat),
        levels@.len() == n,
        search_tree(old(network).edge_seq(), arcs@, None, old(network).spec_source(), levels@, parent@),
        dist_reaches(levels@, old(network).spec_sink()),
    ensures
        final(network).wf(),
        final(network).is_feasible(),
        final(network).spec_source() == old(network).spec_source(),
        final(network).spec_sink() == old(network).spec_sink(),
        vertices_below(*final(network), n as nat),
        same_edges(old(network).edge_seq(), final(network).edge_seq()),
        final(network).value() > old(network).value(),
        terminal_balance(*final(network)) == terminal_balance(*old(network)),
        self_loops_kept(old(network).edge_seq(), final(network).edge_seq()),
        blocked(*final(network), arcs@, levels@),
{
    let ghost before = *network;
    let source = network.source();
    let sink = network.sink();
    let path = path_to_sink(network, arcs, levels, parent, Ghost(None));
    augment(network, arcs, levels, &path);
    let ghost middle = *network;
    proof {
        lemma_arcs_kept(before.edge_seq(), network.edge_seq(), arcs@);
        lemma_value(before);
        lemma_value(*network);
        assert forall|i: int| 0 <= i < network.edge_seq().len() implies (#[trigger] network.edge_seq()[i]).edge.start < n
            && network.edge_seq()[i].edge.end < n by {
            assert(before.edge_seq()[i].edge == network.edge_seq()[i].edge);
        }
    }
    find_blocking_flow(network, arcs, adj, levels, n);
    proof {
        lemma_same_edges_trans(before.edge_seq(), middle.edge_seq(), network.edge_seq());
        lemma_self_loops_kept_trans(before.edge_seq(), middle.edge_seq(), network.edge_seq());
        lemma_conserved(before, middle, *network);
        assert forall|i: int| 0 <= i < network.edge_seq().len() implies (#[trigger] network.edge_seq()[i]).edge.start < n
            && network.edge_seq()[i].edge.end < n by {
            assert(middle.edge_seq()[i].edge == network.edge_seq()[i].edge);
        }
    }
}

/// The search reached `v`.
pub open spec fn dist_reaches(dist: Seq<Option<u32>>, v: Id) -> bool {
    v < dist.len() && dist[v as int] is Some
}

/// Every edge is a self-loop.
pub open spec fn only_self_loops(s: Seq<EdgeData>) -> bool {
    forall|i: int| 0 <= i < s.len() ==> (#[trigger] s[i]).edge.start == s[i].edge.end
}

proof fn lemma_self_loops_balance(s: Seq<EdgeData>, v: Id)
    requires
        only_self_loops(s),
    ensures
        sum_out(s, v) == sum_in(s, v),
    decreases s.len(),
{
    if s.len() > 0 {
        let p = s.drop_last();
        assert forall|i: int| 0 <= i < p.len() implies (#[trigger] p[i]).edge.start == p[i].edge.end by {
            assert(p[i] == s[i]);
        }
        lemma_self_loops_balance(p, v);
        assert(s.last() == s[s.len() - 1]);
    }
}

/// A network of self-loops only carries no flow from source to sink: whatever its flows, its
/// value is 0, so solving it yields a total of 0.
pub proof fn lemma_self_loops_have_no_value(net: FlowNetwork)
    requires
        only_self_loops(net.edge_seq()),
    ensures
        net.value() == 0,
{
    lemma_self_loops_balance(net.edge_seq(), net.spec_source());
}

/// A network of self-loops only comes out of solving exactly as it went in: no edge lies on an
/// augmenting path, so every flow is kept and the total stays 0.
pub proof fn lemma_self_loop_network_unchanged(before: FlowNetwork, after: FlowNetwork)
    requires
        only_self_loops(before.edge_seq()),
        same_edges(before.edge_seq(), after.edge_seq()),
        self_loops_kept(before.edge_seq(), after.edge_seq()),
    ensures
        after.edge_seq() == before.edge_seq(),
        after.value() == 0,
{
    let s = before.edge_seq();
    let t = after.edge_seq();
    assert forall|i: int| 0 <= i < s.len() implies #[trigger] t[i] == s[i] by {
        assert(s[i].edge.start == s[i].edge.end);
        assert(t[i].edge == s[i].edge && t[i].capacity == s[i].capacity);
        assert(t[i].flow == s[i].flow);
    }
    assert(t =~= s);
    lemma_self_loops_have_no_value(after);
}

/// What the source sends is what the sink receives: a network that starts with no flow, where no
/// edge enters the source and none leaves the sink, and that changes by steps keeping the source
/// and sink balance (as `solve` does), ends with the source's out-flow equal to the sink's in-flow.
pub proof fn lemma_source_sends_what_sink_receives(before: FlowNetwork, after: FlowNetwork)
    requires
        forall|i: int| 0 <= i < before.edge_seq().len() ==> (#[trigger] before.edge_seq()[i]).flow == 0,
        forall|i: int|
            0 <= i < before.edge_seq().len() ==> (#[trigger] before.edge_seq()[i]).edge.end
                != before.spec_source() && before.edge_seq()[i].edge.start != before.spec_sink(),
        after.spec_source() == before.spec_source(),
        after.spec_sink() == before.spec_sink(),
        same_edges(before.edge_seq(), after.edge_seq()),
        terminal_balance(after) == terminal_balance(before),
    ensures
        after.out_flow(after.spec_source()) == after.in_flow(after.spec_sink()),
{
    let s = before.edge_seq();
    let t = after.edge_seq();
    lemma_sum_zero(s, before.spec_source());
    lemma_sum_zero(s, before.spec_sink());
    assert forall|i: int| 0 <= i < t.len() implies #[trigger] t[i].edge.end != after.spec_source() by {
        assert(t[i].edge == s[i].edge);
        assert(s[i].edge.end != before.spec_source());
    }
    assert forall|i: int| 0 <= i < t.len() implies #[trigger] t[i].edge.start != after.spec_sink() by {
        assert(t[i].edge == s[i].edge);
        assert(s[i].edge.start != before.spec_sink());
    }
    lemma_sum_absent(t, after.spec_source());
    lemma_sum_absent(t, after.spec_sink());
}

/// Raises the flow of a feasible network to a maximum flow, by Dinic's algorithm: each phase
/// levels the residual graph by breadth-first search from the source, then augments along paths
/// of that level graph until none is left. Paths are found by breadth-first search, arcs taken in
/// the order of the network's edges. A network whose source is its sink is left as it is.
pub fn solve(network: &mut FlowNetwork)
    requires
        old(network).wf(),
        old(network).is_feasible(),
    ensures
        final(network).wf(),
        final(network).is_feasible(),
        final(network).spec_source() == old(network).spec_source(),
        final(network).spec_sink() == old(network).spec_sink(),
        same_edges(old(network).edge_seq(), final(network).edge_seq()),
        final(network).value() >= old(network).value(),
        terminal_balance(*final(network)) == terminal_balance(*old(network)),
        self_loops_kept(old(network).edge_seq(), final(network).edge_seq()),
        final(network).spec_source() != final(network).spec_sink() ==> is_maximum(*final(network)),
{
    let ghost orig = network.edge_seq();
    let ghost start = *network;
    let source = network.source();
    let sink = network.sink();
    proof {
        assert forall|i: int| 0 <= i < orig.len() implies #[trigger] orig[i].edge == orig[i].edge
            && orig[i].capacity == orig[i].capacity by {}
    }
    if source == sink {
        return;
    }
    let n = vertex_bound(network);
    let mut arcs: Vec<Arc> = Vec::new();
    loop
        invariant
            network.wf(),
            network.is_feasible(),
            network.spec_source() == source,
            network.spec_sink() == sink,
            source == start.spec_source(),
            sink == start.spec_sink(),
            orig == start.edge_seq(),
            source != sink,
            n <= 65536,
            vertices_below(*network, n as nat),
            same_edges(orig, network.edge_seq()),
            network.value() >= start.value(),
            terminal_balance(*network) == terminal_balance(start),
            self_loops_kept(orig, network.edge_seq()),
        ensures
            is_maximum(*network),
        decreases cap_out(orig, source) - network.value(),
    {
        proof {
            lemma_value_bound(orig, *network);
        }
        construct_residual_graph(network, &mut arcs);
        let adj = build_adjacency(&arcs, n);
        let (levels, parent) = construct_level_graph(network, &arcs, &adj, n);
        if levels[sink as usize].is_none() {
            proof {
                lemma_no_augmenting_path(*network, arcs@, levels@);
            }
            break;
        }
        let ghost before = *network;
        run_phase(network, &arcs, &adj, &levels, &parent, n);
        proof {
            lemma_self_loops_kept_trans(orig, before.edge_seq(), network.edge_seq());
            lemma_same_edges_trans(orig, before.edge_seq(), network.edge_seq());
            lemma_value_bound(orig, *network);
        }
    }
}
} // verus!
