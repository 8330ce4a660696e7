//! Breadth-first search over a [`Topology`], with the walks and reachability
//! facts that the other graph algorithms (components, label propagation,
//! clustering counts) share.
//!
//! Relationships are traversed forward: outgoing for a directed graph, both
//! directions for an undirected one (whose relationships are stored once).
use vstd::prelude::*;
use crate::topology::Topology;

verus! {

/// Depth of a node that the search never reaches.
pub const UNREACHED: i64 = 9223372036854775807i64;

/// `p` is a walk along forward relationships.
pub open spec fn is_walk(g: Topology, directed: bool, p: Seq<u32>) -> bool {
    &&& p.len() >= 1
    &&& forall|i: int| 0 <= i < p.len() - 1 ==> #[trigger] g.forward(p[i] as int, directed).contains(
        p[i + 1],
    )
}

/// `p` is a walk from `s` to `v`.
pub open spec fn walk_between(g: Topology, directed: bool, p: Seq<u32>, s: int, v: int) -> bool {
    is_walk(g, directed, p) && p[0] == s && p.last() == v
}

/// `dist` holds the breadth-first depths from `source`: `UNREACHED` exactly for
/// the nodes no walk reaches, otherwise the number of steps of a shortest walk.
pub open spec fn shortest_depths(g: Topology, directed: bool, source: int, dist: Seq<i64>) -> bool {
    &&& dist.len() == g.node_count()
    &&& forall|v: int|
        #![trigger dist[v]]
        0 <= v < g.node_count() ==> {
            &&& (dist[v] == UNREACHED <==> !exists|p: Seq<u32>|
                #[trigger] walk_between(g, directed, p, source, v))
            &&& dist[v] != UNREACHED ==> exists|p: Seq<u32>|
                #[trigger] walk_between(g, directed, p, source, v) && p.len() == dist[v] + 1
            &&& forall|p: Seq<u32>| #[trigger]
                walk_between(g, directed, p, source, v) ==> p.len() >= dist[v] + 1
        }
}

spec fn queue_ok(n: int, source: int, dist: Seq<i64>, q: Seq<u32>) -> bool {
    &&& dist.len() == n
    &&& 0 <= source < n
    &&& q.len() >= 1
    &&& q[0] == source
    &&& dist[source] == 0
    &&& q.no_duplicates()
    &&& forall|i: int| 0 <= i < q.len() ==> #[trigger] q[i] < n && 0 <= dist[q[i] as int] <= i
    &&& forall|v: int| 0 <= v < n ==> (#[trigger] dist[v] != UNREACHED <==> q.contains(v as u32))
    &&& forall|i: int, j: int| 0 <= i < j < q.len() ==> dist[#[trigger] q[i] as int] <= dist[#[trigger] q[j] as int]
}

spec fn witnessed(g: Topology, directed: bool, source: int, dist: Seq<i64>) -> bool {
    forall|v: int|
        0 <= v < g.node_count() && #[trigger] dist[v] != UNREACHED && v != source ==> exists|u: int|
            0 <= u < g.node_count() && dist[u] != UNREACHED && dist[v] == dist[u] + 1
                && #[trigger] g.forward(u, directed).contains(v as u32)
}

spec fn closed_upto(g: Topology, directed: bool, dist: Seq<i64>, q: Seq<u32>, head: int) -> bool {
    forall|i: int, k: int|
        0 <= i < head && 0 <= k < g.forward(q[i] as int, directed).len() ==> {
            let w = #[trigger] g.forward(q[i] as int, directed)[k] as int;
            dist[w] != UNREACHED && dist[w] <= dist[q[i] as int] + 1
        }
}

spec fn frontier_ok(dist: Seq<i64>, q: Seq<u32>, head: int) -> bool {
    head < q.len() ==> forall|j: int| 0 <= j < q.len() ==> dist[#[trigger] q[j] as int] <= dist[q[head] as int] + 1
}

pub proof fn lemma_distinct_bound(q: Seq<u32>, n: int)
    requires
        q.no_duplicates(),
        forall|i: int| 0 <= i < q.len() ==> #[trigger] q[i] < n,
        0 <= n,
    ensures
        q.len() <= n,
{
    let t = q.map_values(|x: u32| x as int);
    assert(t.no_duplicates()) by {
        assert forall|i: int, j: int| 0 <= i < t.len() && 0 <= j < t.len() && i != j implies t[i]
            != t[j] by {
            assert(q[i] != q[j]);
        }
    }
    t.unique_seq_to_set();
    vstd::set_lib::lemma_int_range(0, n);
    assert(t.to_set().subset_of(vstd::set_lib::set_int_range(0, n))) by {
        assert forall|x: int| t.to_set().contains(x) implies vstd::set_lib::set_int_range(0, n).contains(
            x,
        ) by {
            let i = choose|i: int| 0 <= i < t.len() && t[i] == x;
            assert(q[i] < n);
        }
    }
    vstd::set_lib::lemma_len_subset(t.to_set(), vstd::set_lib::set_int_range(0, n));
}

/// Discover the neighbours `nbrs` of the queue's head node `q[head]`.
#[verifier::rlimit(40)]
fn visit(
    dist: &mut Vec<i64>,
    queue: &mut Vec<u32>,
    Ghost(g): Ghost<Topology>,
    directed: bool,
    source: u32,
    head: usize,
    nbrs: &[u32],
)
    requires
        g.node_count() <= u32::MAX,
        queue_ok(g.node_count() as int, source as int, old(dist)@, old(queue)@),
        witnessed(g, directed, source as int, old(dist)@),
        head < old(queue)@.len(),
        frontier_ok(old(dist)@, old(queue)@, head as int),
        forall|k: int|
            0 <= k < nbrs@.len() ==> #[trigger] nbrs@[k] < g.node_count() && g.forward(
                old(queue)@[head as int] as int,
                directed,
            ).contains(nbrs@[k]),
    ensures
        queue_ok(g.node_count() as int, source as int, final(dist)@, final(queue)@),
        witnessed(g, directed, source as int, final(dist)@),
        frontier_ok(final(dist)@, final(queue)@, head as int),
        final(queue)@.len() >= old(queue)@.len(),
        forall|i: int| 0 <= i < old(queue)@.len() ==> #[trigger] final(queue)@[i] == old(queue)@[i],
        forall|v: int|
            0 <= v < g.node_count() && old(dist)@[v] != UNREACHED ==> #[trigger] final(dist)@[v]
                == old(dist)@[v],
        forall|k: int|
            0 <= k < nbrs@.len() ==> final(dist)@[#[trigger] nbrs@[k] as int] != UNREACHED
                && final(dist)@[nbrs@[k] as int] <= final(dist)@[final(queue)@[head as int] as int]
                + 1,
{
    let ghost n = g.node_count() as int;
    let u = queue[head];
    let du = dist[u as usize];
    let mut k: usize = 0;
    while k < nbrs.len()
        invariant
            n == g.node_count() <= u32::MAX,
            k <= nbrs@.len(),
            queue_ok(n, source as int, dist@, queue@),
            witnessed(g, directed, source as int, dist@),
            head < queue@.len(),
            frontier_ok(dist@, queue@, head as int),
            queue@[head as int] == u,
            dist@[u as int] == du,
            queue@.len() >= old(queue)@.len(),
            forall|i: int| 0 <= i < old(queue)@.len() ==> #[trigger] queue@[i] == old(queue)@[i],
            forall|v: int|
                0 <= v < n && old(dist)@[v] != UNREACHED ==> #[trigger] dist@[v] == old(dist)@[v],
            forall|j: int|
                0 <= j < nbrs@.len() ==> #[trigger] nbrs@[j] < n && g.forward(u as int, directed).contains(
                    nbrs@[j],
                ),
            forall|j: int|
                0 <= j < k ==> dist@[#[trigger] nbrs@[j] as int] != UNREACHED && dist@[nbrs@[j] as int]
                    <= du + 1,
        decreases nbrs@.len() - k,
    {
        let w = nbrs[k];
        assert(w < n);
        if dist[w as usize] == UNREACHED {
            proof {
                assert(!queue@.contains(w));
                lemma_distinct_bound(queue@, n);
                assert(du <= head) by {
                    assert(0 <= dist@[queue@[head as int] as int] <= head);
                }
            }
            let ghost old_q = queue@;
            let ghost old_d = dist@;
            dist.set(w as usize, du + 1);
            queue.push(w);
            proof {
                assert(queue@ == old_q.push(w));
                assert forall|i: int| 0 <= i < queue@.len() implies #[trigger] queue@[i] < n && 0
                    <= dist@[queue@[i] as int] <= i by {
                    if i < old_q.len() {
                        assert(queue@[i] == old_q[i]);
                        assert(old_q[i] != w);
                    }
                }
                assert forall|v: int| 0 <= v < n implies (#[trigger] dist@[v] != UNREACHED
                    <==> queue@.contains(v as u32)) by {
                    if v == w {
                        assert(queue@[old_q.len() as int] == w);
                    } else {
                        assert(dist@[v] == old_d[v]);
                        if old_q.contains(v as u32) {
                            let i = choose|i: int| 0 <= i < old_q.len() && old_q[i] == v as u32;
                            assert(queue@[i] == v as u32);
                        }
                        if queue@.contains(v as u32) {
                            let i = choose|i: int| 0 <= i < queue@.len() && queue@[i] == v as u32;
                            assert(i < old_q.len());
                            assert(old_q[i] == v as u32);
                        }
                    }
                }
                assert forall|i: int, j: int| 0 <= i < j < queue@.len() implies dist@[
                    #[trigger] queue@[i] as int] <= dist@[#[trigger] queue@[j] as int] by {
                    assert(old_q[i] != w);
                    if j < old_q.len() {
                        assert(old_q[j] != w);
                        assert(old_d[old_q[i] as int] <= old_d[old_q[j] as int]);
                    } else {
                        assert(old_d[old_q[i] as int] <= old_d[old_q[head as int] as int] + 1);
                    }
                }
                assert(queue@.no_duplicates()) by {
                    assert forall|i: int, j: int| 0 <= i < queue@.len() && 0 <= j < queue@.len() && i
                        != j implies queue@[i] != queue@[j] by {
                        if i < old_q.len() && j < old_q.len() {
                        } else if i < old_q.len() {
                            assert(old_q[i] != w);
                        } else if j < old_q.len() {
                            assert(old_q[j] != w);
                        }
                    }
                }
                assert forall|v: int|
                    0 <= v < n && #[trigger] dist@[v] != UNREACHED && v != source implies exists|x: int|
                        0 <= x < n && dist@[x] != UNREACHED && dist@[v] == dist@[x] + 1
                            && #[trigger] g.forward(x, directed).contains(v as u32) by {
                    if v == w {
                        assert(g.forward(u as int, directed).contains(v as u32));
                        assert(dist@[u as int] != UNREACHED);
                    } else {
                        let x = choose|x: int|
                            0 <= x < n && old_d[x] != UNREACHED && old_d[v] == old_d[x] + 1
                                && #[trigger] g.forward(x, directed).contains(v as u32);
                        assert(dist@[x] == old_d[x]);
                    }
                }
                assert forall|j: int| 0 <= j < queue@.len() implies dist@[#[trigger] queue@[j] as int]
                    <= dist@[queue@[head as int] as int] + 1 by {
                    if j < old_q.len() {
                        assert(old_q[j] != w);
                    }
                }
                assert forall|j: int| 0 <= j < k + 1 implies dist@[#[trigger] nbrs@[j] as int]
                    != UNREACHED && dist@[nbrs@[j] as int] <= du + 1 by {
                    if nbrs@[j] != w {
                        assert(dist@[nbrs@[j] as int] == old_d[nbrs@[j] as int]);
                    }
                }
            }
        } else {
            proof {
                assert(queue@.contains(w));
                let j = choose|j: int| 0 <= j < queue@.len() && queue@[j] == w;
                assert(dist@[queue@[j] as int] <= dist@[queue@[head as int] as int] + 1);
            }
        }
        k = k + 1;
    }
}

/// Breadth-first depth from `source` over forward relationships; nodes that
/// no walk reaches get `i64::MAX`, per the Graphalytics output spec.
pub fn bfs(g: &Topology, source: u32, directed: bool) -> (dist: Vec<i64>)
    ensures
        source < g.node_count() ==> shortest_depths(*g, directed, source as int, dist@),
        source >= g.node_count() ==> dist@ == Seq::new(g.node_count(), |v: int| UNREACHED),
{
    let n = g.len();
    let mut dist: Vec<i64> = Vec::new();
    let mut k: u32 = 0;
    while k < n
        invariant
            k <= n,
            dist@ == Seq::new(k as nat, |v: int| UNREACHED),
        decreases n - k,
    {
        dist.push(UNREACHED);
        k = k + 1;
    }
    if source >= n {
        return dist;
    }
    dist.set(source as usize, 0);
    let mut queue: Vec<u32> = Vec::new();
    queue.push(source);
    let mut head: usize = 0;
    proof {
        assert forall|v: int| 0 <= v < n implies (#[trigger] dist@[v] != UNREACHED
            <==> queue@.contains(v as u32)) by {
            if v == source {
                assert(queue@[0] == source);
            }
        }
    }
    while head < queue.len()
        invariant
            n == g.node_count() <= u32::MAX,
            source < n,
            head <= queue@.len(),
            queue_ok(n as int, source as int, dist@, queue@),
            witnessed(*g, directed, source as int, dist@),
            closed_upto(*g, directed, dist@, queue@, head as int),
            frontier_ok(dist@, queue@, head as int),
            in_range_lists(*g),
        decreases n - head,
    {
        proof {
            lemma_distinct_bound(queue@, n as int);
        }
        let u = queue[head];
        let ghost q0 = queue@;
        let ghost d0 = dist@;
        let outs = g.outgoing_of(u);
        proof {
            assert forall|k: int| 0 <= k < outs@.len() implies #[trigger] outs@[k] < g.node_count()
                && g.forward(q0[head as int] as int, directed).contains(outs@[k]) by {
                assert(g.forward(u as int, directed)[k] == outs@[k]);
            }
        }
        visit(&mut dist, &mut queue, Ghost(*g), directed, source, head, outs);
        if !directed {
            let ins = g.incoming_of(u);
            proof {
                assert forall|k: int| 0 <= k < ins@.len() implies #[trigger] ins@[k]
                    < g.node_count() && g.forward(queue@[head as int] as int, directed).contains(
                    ins@[k],
                ) by {
                    assert(g.forward(u as int, directed)[outs@.len() + k] == ins@[k]);
                }
            }
            visit(&mut dist, &mut queue, Ghost(*g), directed, source, head, ins);
        }
        proof {
            assert forall|i: int, k: int|
                0 <= i < head + 1 && 0 <= k < g.forward(queue@[i] as int, directed).len() implies {
                let w = #[trigger] g.forward(queue@[i] as int, directed)[k] as int;
                dist@[w] != UNREACHED && dist@[w] <= dist@[queue@[i] as int] + 1
            } by {
                assert(queue@[i] == q0[i]);
                if i < head {
                    let w = g.forward(q0[i] as int, directed)[k] as int;
                    assert(d0[w] != UNREACHED && d0[w] <= d0[q0[i] as int] + 1);
                    assert(dist@[q0[i] as int] == d0[q0[i] as int]);
                } else {
                    if k >= outs@.len() {
                        assert(g.forward(u as int, directed)[k] == g.incoming(u as int)[k - outs@.len()]);
                    }
                }
            }
            assert(frontier_ok(dist@, queue@, head + 1)) by {
                if head + 1 < queue@.len() {
                    assert forall|j: int| 0 <= j < queue@.len() implies dist@[#[trigger] queue@[j] as int]
                        <= dist@[queue@[head + 1] as int] + 1 by {
                        assert(dist@[queue@[head as int] as int] <= dist@[queue@[head + 1] as int]);
                    }
                }
            }
        }
        head = head + 1;
    }
    proof {
        lemma_depths(*g, directed, source as int, dist@, queue@);
    }
    dist
}

pub open spec fn in_range_lists(g: Topology) -> bool {
    &&& forall|v: int, i: int|
        0 <= v < g.node_count() && 0 <= i < g.outgoing(v).len() ==> #[trigger] g.outgoing(v)[i]
            < g.node_count()
    &&& forall|v: int, i: int|
        0 <= v < g.node_count() && 0 <= i < g.incoming(v).len() ==> #[trigger] g.incoming(v)[i]
            < g.node_count()
}

pub proof fn forward_in_range(g: Topology, directed: bool, u: int, w: u32)
    requires
        in_range_lists(g),
        0 <= u < g.node_count(),
        g.forward(u, directed).contains(w),
    ensures
        w < g.node_count(),
{
    let k = choose|k: int| 0 <= k < g.forward(u, directed).len() && g.forward(u, directed)[k] == w;
    if k < g.outgoing(u).len() {
        assert(g.outgoing(u)[k] == w);
    } else {
        assert(g.incoming(u)[k - g.outgoing(u).len()] == w);
    }
}

proof fn lemma_walk_to(g: Topology, directed: bool, source: int, dist: Seq<i64>, v: int)
    requires
        g.node_count() <= u32::MAX,
        0 <= source < g.node_count(),
        dist.len() == g.node_count(),
        dist[source] == 0,
        forall|x: int| 0 <= x < g.node_count() && #[trigger] dist[x] != UNREACHED ==> 0 <= dist[x],
        witnessed(g, directed, source, dist),
        0 <= v < g.node_count(),
        dist[v] != UNREACHED,
    ensures
        exists|p: Seq<u32>| #[trigger] walk_between(g, directed, p, source, v) && p.len() == dist[v] + 1,
    decreases dist[v],
{
    if v == source {
        let p = seq![source as u32];
        assert(walk_between(g, directed, p, source, v));
    } else {
        let u = choose|u: int|
            0 <= u < g.node_count() && dist[u] != UNREACHED && dist[v] == dist[u] + 1
                && #[trigger] g.forward(u, directed).contains(v as u32);
        assert(0 <= dist[u]);
        lemma_walk_to(g, directed, source, dist, u);
        let p = choose|p: Seq<u32>| #[trigger] walk_between(g, directed, p, source, u) && p.len() == dist[u] + 1;
        let p2 = p.push(v as u32);
        assert forall|i: int| 0 <= i < p2.len() - 1 implies #[trigger] g.forward(p2[i] as int, directed).contains(
            p2[i + 1],
        ) by {
            if i < p.len() - 1 {
                assert(g.forward(p[i] as int, directed).contains(p[i + 1]));
            } else {
                assert(p2[i] == p.last());
            }
        }
        assert(walk_between(g, directed, p2, source, v));
    }
}

proof fn lemma_walk_bound(g: Topology, directed: bool, source: int, dist: Seq<i64>, q: Seq<u32>, p: Seq<u32>)
    requires
        in_range_lists(g),
        queue_ok(g.node_count() as int, source, dist, q),
        closed_upto(g, directed, dist, q, q.len() as int),
        is_walk(g, directed, p),
        p[0] == source,
    ensures
        p.last() < g.node_count(),
        dist[p.last() as int] != UNREACHED,
        dist[p.last() as int] <= p.len() - 1,
    decreases p.len(),
{
    if p.len() > 1 {
        let p0 = p.drop_last();
        assert forall|i: int| 0 <= i < p0.len() - 1 implies #[trigger] g.forward(p0[i] as int, directed).contains(
            p0[i + 1],
        ) by {
            assert(g.forward(p[i] as int, directed).contains(p[i + 1]));
        }
        lemma_walk_bound(g, directed, source, dist, q, p0);
        let u = p0.last();
        let w = p.last();
        let j = p.len() - 2;
        assert(g.forward(p[j] as int, directed).contains(p[j + 1]));
        forward_in_range(g, directed, u as int, w);
        assert(q.contains(u));
        let i = choose|i: int| 0 <= i < q.len() && q[i] == u;
        let k = choose|k: int| 0 <= k < g.forward(u as int, directed).len() && g.forward(u as int, directed)[k] == w;
        assert(g.forward(q[i] as int, directed)[k] == w);
    }
}

proof fn lemma_depth_at(g: Topology, directed: bool, source: int, dist: Seq<i64>, q: Seq<u32>, v: int)
    requires
        g.node_count() <= u32::MAX,
        in_range_lists(g),
        queue_ok(g.node_count() as int, source, dist, q),
        witnessed(g, directed, source, dist),
        closed_upto(g, directed, dist, q, q.len() as int),
        forall|x: int| 0 <= x < g.node_count() && #[trigger] dist[x] != UNREACHED ==> 0 <= dist[x],
        0 <= v < g.node_count(),
    ensures
        dist[v] == UNREACHED <==> !exists|p: Seq<u32>| #[trigger] walk_between(g, directed, p, source, v),
        dist[v] != UNREACHED ==> exists|p: Seq<u32>|
            #[trigger] walk_between(g, directed, p, source, v) && p.len() == dist[v] + 1,
        forall|p: Seq<u32>| #[trigger] walk_between(g, directed, p, source, v) ==> p.len() >= dist[v] + 1,
{
    assert forall|p: Seq<u32>| #[trigger] walk_between(g, directed, p, source, v) implies p.len() >= dist[v]
        + 1 && dist[v] != UNREACHED by {
        lemma_walk_bound(g, directed, source, dist, q, p);
    }
    if dist[v] != UNREACHED {
        lemma_walk_to(g, directed, source, dist, v);
    }
}

proof fn lemma_depths(g: Topology, directed: bool, source: int, dist: Seq<i64>, q: Seq<u32>)
    requires
        g.node_count() <= u32::MAX,
        in_range_lists(g),
        queue_ok(g.node_count() as int, source, dist, q),
        witnessed(g, directed, source, dist),
        closed_upto(g, directed, dist, q, q.len() as int),
    ensures
        shortest_depths(g, directed, source, dist),
{
    assert forall|x: int| 0 <= x < g.node_count() && #[trigger] dist[x] != UNREACHED implies 0
        <= dist[x] by {
        assert(q.contains(x as u32));
        let i = choose|i: int| 0 <= i < q.len() && q[i] == x as u32;
        assert(0 <= dist[q[i] as int]);
    }
    assert forall|v: int| #![trigger dist[v]] 0 <= v < g.node_count() implies {
        &&& (dist[v] == UNREACHED <==> !exists|p: Seq<u32>|
            #[trigger] walk_between(g, directed, p, source, v))
        &&& dist[v] != UNREACHED ==> exists|p: Seq<u32>|
            #[trigger] walk_between(g, directed, p, source, v) && p.len() == dist[v] + 1
        &&& forall|p: Seq<u32>| #[trigger]
            walk_between(g, directed, p, source, v) ==> p.len() >= dist[v] + 1
    } by {
        lemma_depth_at(g, directed, source, dist, q, v);
    }
}

/// Breadth-first depths never jump along a relationship: when `u` is reached,
/// every forward neighbour `w` of `u` is reached at most one level deeper.
pub proof fn law_bfs_step(g: Topology, directed: bool, source: int, dist: Seq<i64>, u: int, w: u32)
    requires
        shortest_depths(g, directed, source, dist),
        0 <= u < g.node_count(),
        w < g.node_count(),
        dist[u] != UNREACHED,
        g.forward(u, directed).contains(w),
    ensures
        dist[w as int] != UNREACHED,
        dist[w as int] <= dist[u] + 1,
{
    let p = choose|p: Seq<u32>| #[trigger] walk_between(g, directed, p, source, u) && p.len() == dist[u] + 1;
    let q = p.push(w);
    assert forall|i: int| 0 <= i < q.len() - 1 implies #[trigger] g.forward(q[i] as int, directed).contains(q[i + 1]) by {
        if i < p.len() - 1 {
            assert(g.forward(p[i] as int, directed).contains(p[i + 1]));
        }
    }
    assert(walk_between(g, directed, q, source, w as int));
}

/// The source of a breadth-first search is at depth 0.
pub proof fn law_bfs_source_depth(g: Topology, directed: bool, source: int, dist: Seq<i64>)
    requires
        shortest_depths(g, directed, source, dist),
        0 <= source < g.node_count() <= u32::MAX,
    ensures
        dist[source] == 0,
{
    let p = seq![source as u32];
    assert(walk_between(g, directed, p, source, source));
    let q = choose|q: Seq<u32>| #[trigger] walk_between(g, directed, q, source, source) && q.len() == dist[source] + 1;
}

} // verus!
