//! Graph topology: dense node ids `0..n` with, per node, its outgoing and its
//! incoming neighbours (one entry per relationship, in relationship order).
use vstd::prelude::*;

verus! {

/// A directed multigraph over nodes `0..n`, built from a list of relationships.
pub struct Topology {
    outs: Vec<Vec<u32>>,
    ins: Vec<Vec<u32>>,
}

/// Targets of the relationships from `v` in `edges`, in order.
pub open spec fn out_list(edges: Seq<(u32, u32)>, v: int) -> Seq<u32>
    decreases edges.len(),
{
    if edges.len() == 0 {
        Seq::empty()
    } else if edges.last().0 == v {
        out_list(edges.drop_last(), v).push(edges.last().1)
    } else {
        out_list(edges.drop_last(), v)
    }
}

/// Sources of the relationships into `v` in `edges`, in order.
pub open spec fn in_list(edges: Seq<(u32, u32)>, v: int) -> Seq<u32>
    decreases edges.len(),
{
    if edges.len() == 0 {
        Seq::empty()
    } else if edges.last().1 == v {
        in_list(edges.drop_last(), v).push(edges.last().0)
    } else {
        in_list(edges.drop_last(), v)
    }
}

impl Topology {
    /// Number of nodes.
    pub closed spec fn node_count(self) -> nat {
        self.outs@.len()
    }

    /// Outgoing neighbours of `v` (one per relationship).
    pub closed spec fn outgoing(self, v: int) -> Seq<u32> {
        self.outs@[v]@
    }

    /// Incoming neighbours of `v` (one per relationship).
    pub closed spec fn incoming(self, v: int) -> Seq<u32> {
        self.ins@[v]@
    }

    /// Neighbours of `v` in both directions: outgoing, then incoming.
    pub open spec fn both(self, v: int) -> Seq<u32> {
        self.outgoing(v) + self.incoming(v)
    }

    /// Forward neighbours: outgoing for a directed graph, both directions for an
    /// undirected one (whose relationships are stored once).
    pub open spec fn forward(self, v: int, directed: bool) -> Seq<u32> {
        if directed {
            self.outgoing(v)
        } else {
            self.both(v)
        }
    }

    #[verifier::type_invariant]
    closed spec fn well_formed(self) -> bool {
        &&& self.outs@.len() == self.ins@.len()
        &&& self.outs@.len() <= u32::MAX
        &&& forall|v: int, i: int|
            0 <= v < self.outs@.len() && 0 <= i < self.outs@[v]@.len() ==> #[trigger] self.outs@[v]@[i]
                < self.outs@.len()
        &&& forall|v: int, i: int|
            0 <= v < self.ins@.len() && 0 <= i < self.ins@[v]@.len() ==> #[trigger] self.ins@[v]@[i]
                < self.ins@.len()
        &&& forall|u: int, v: int|
            #![trigger self.outs@[u]@.contains(v as u32)]
            #![trigger self.ins@[v]@.contains(u as u32)]
            0 <= u < self.outs@.len() && 0 <= v < self.outs@.len() ==> (
            self.outs@[u]@.contains(v as u32) <==> self.ins@[v]@.contains(u as u32))
    }

    /// Number of nodes. Every topology has node ids in range, and `u -> v` is
    /// an outgoing relationship of `u` exactly when it is an incoming one of `v`.
    pub fn len(&self) -> (n: u32)
        ensures
            n == self.node_count(),
            forall|v: int, i: int|
                0 <= v < n && 0 <= i < self.outgoing(v).len() ==> #[trigger] self.outgoing(v)[i]
                    < n,
            forall|v: int, i: int|
                0 <= v < n && 0 <= i < self.incoming(v).len() ==> #[trigger] self.incoming(v)[i]
                    < n,
            forall|u: int, v: int|
                #![trigger self.outgoing(u).contains(v as u32)]
                #![trigger self.incoming(v).contains(u as u32)]
                0 <= u < n && 0 <= v < n ==> (self.outgoing(u).contains(v as u32)
                    <==> self.incoming(v).contains(u as u32)),
    {
        proof {
            use_type_invariant(self);
        }
        self.outs.len() as u32
    }

    /// Outgoing neighbours of node `v`.
    pub fn outgoing_of(&self, v: u32) -> (r: &[u32])
        requires
            v < self.node_count(),
        ensures
            r@ == self.outgoing(v as int),
    {
        proof {
            use_type_invariant(self);
        }
        self.outs[v as usize].as_slice()
    }

    /// Incoming neighbours of node `v`.
    pub fn incoming_of(&self, v: u32) -> (r: &[u32])
        requires
            v < self.node_count(),
        ensures
            r@ == self.incoming(v as int),
    {
        proof {
            use_type_invariant(self);
        }
        self.ins[v as usize].as_slice()
    }

    /// The graph on nodes `0..n` with one relationship per entry of `edges`;
    /// entries naming a node outside `0..n` are skipped.
    pub fn from_edges(n: u32, edges: &[(u32, u32)]) -> (g: Topology)
        ensures
            g.node_count() == n,
            forall|v: int|
                0 <= v < n ==> #[trigger] g.outgoing(v) == out_list(kept_edges(edges@, n as int), v),
            forall|v: int|
                0 <= v < n ==> #[trigger] g.incoming(v) == in_list(kept_edges(edges@, n as int), v),
    {
        let mut outs: Vec<Vec<u32>> = Vec::new();
        let mut ins: Vec<Vec<u32>> = Vec::new();
        let mut k: u32 = 0;
        while k < n
            invariant
                k <= n,
                outs@.len() == k,
                ins@.len() == k,
                forall|v: int| 0 <= v < k ==> (#[trigger] outs@[v])@.len() == 0,
                forall|v: int| 0 <= v < k ==> (#[trigger] ins@[v])@.len() == 0,
            decreases n - k,
        {
            outs.push(Vec::new());
            ins.push(Vec::new());
            k = k + 1;
        }
        let mut i: usize = 0;
        while i < edges.len()
            invariant
                i <= edges.len(),
                outs@.len() == n,
                ins@.len() == n,
                forall|v: int|
                    0 <= v < n ==> (#[trigger] outs@[v])@ == out_list(
                        kept_edges(edges@.take(i as int), n as int),
                        v,
                    ),
                forall|v: int|
                    0 <= v < n ==> (#[trigger] ins@[v])@ == in_list(
                        kept_edges(edges@.take(i as int), n as int),
                        v,
                    ),
            decreases edges.len() - i,
        {
            let (s, d) = edges[i];
            proof {
                assert(edges@.take(i + 1).drop_last() =~= edges@.take(i as int));
                assert(edges@.take(i + 1).last() == (s, d));
                let kp = kept_edges(edges@.take(i as int), n as int);
                if s < n && d < n {
                    assert(kept_edges(edges@.take(i + 1), n as int) == kp.push((s, d)));
                    assert(kp.push((s, d)).drop_last() =~= kp);
                } else {
                    assert(kept_edges(edges@.take(i + 1), n as int) == kp);
                }
            }
            if s < n && d < n {
                let ghost old_outs = outs@;
                let ghost old_ins = ins@;
                let mut row: Vec<u32> = Vec::new();
                outs.set_and_swap(s as usize, &mut row);
                row.push(d);
                outs.set(s as usize, row);
                let mut row: Vec<u32> = Vec::new();
                ins.set_and_swap(d as usize, &mut row);
                row.push(s);
                ins.set(d as usize, row);
                proof {
                    assert forall|v: int| 0 <= v < n implies (#[trigger] outs@[v])@ == out_list(
                        kept_edges(edges@.take(i + 1), n as int),
                        v,
                    ) by {
                        if v != s {
                            assert(outs@[v] == old_outs[v]);
                        }
                    }
                    assert forall|v: int| 0 <= v < n implies (#[trigger] ins@[v])@ == in_list(
                        kept_edges(edges@.take(i + 1), n as int),
                        v,
                    ) by {
                        if v != d {
                            assert(ins@[v] == old_ins[v]);
                        }
                    }
                }
            }
            i = i + 1;
        }
        proof {
            assert(edges@.take(i as int) =~= edges@);
            lemma_kept_in_range(edges@, n as int);
            lemma_lists_shape(kept_edges(edges@, n as int), n as int);
        }
        Topology { outs, ins }
    }
}

/// The relationships of `edges` whose two ends are nodes of `0..n`.
pub open spec fn kept_edges(edges: Seq<(u32, u32)>, n: int) -> Seq<(u32, u32)>
    decreases edges.len(),
{
    if edges.len() == 0 {
        Seq::empty()
    } else if edges.last().0 < n && edges.last().1 < n {
        kept_edges(edges.drop_last(), n).push(edges.last())
    } else {
        kept_edges(edges.drop_last(), n)
    }
}

proof fn lemma_lists_shape(edges: Seq<(u32, u32)>, n: int)
    requires
        n <= u32::MAX,
        forall|i: int| 0 <= i < edges.len() ==> (#[trigger] edges[i]).0 < n && edges[i].1 < n,
    ensures
        forall|v: int, i: int|
            0 <= i < out_list(edges, v).len() ==> #[trigger] out_list(edges, v)[i] < n,
        forall|v: int, i: int|
            0 <= i < in_list(edges, v).len() ==> #[trigger] in_list(edges, v)[i] < n,
        forall|u: int, v: int|
            #![trigger out_list(edges, u).contains(v as u32)]
            #![trigger in_list(edges, v).contains(u as u32)]
            0 <= u < n && 0 <= v < n ==> (out_list(edges, u).contains(v as u32)
                <==> in_list(edges, v).contains(u as u32)),
    decreases edges.len(),
{
    if edges.len() > 0 {
        let p = edges.drop_last();
        assert forall|i: int| 0 <= i < p.len() implies (#[trigger] p[i]).0 < n && p[i].1 < n by {
            assert(p[i] == edges[i]);
        }
        lemma_lists_shape(p, n);
        let e = edges.last();
        assert(e == edges[edges.len() - 1]);
        assert forall|v: int, i: int| 0 <= i < out_list(edges, v).len() implies #[trigger] out_list(
            edges,
            v,
        )[i] < n by {
            assert(edges[edges.len() - 1].1 < n);
            if e.0 == v {
                assert(out_list(edges, v) == out_list(p, v).push(e.1));
                if i < out_list(p, v).len() {
                    assert(out_list(edges, v)[i] == out_list(p, v)[i]);
                    assert(out_list(p, v)[i] < n);
                }
            } else {
                assert(out_list(edges, v) == out_list(p, v));
                assert(out_list(p, v)[i] < n);
            }
        }
        assert forall|v: int, i: int| 0 <= i < in_list(edges, v).len() implies #[trigger] in_list(
            edges,
            v,
        )[i] < n by {
            assert(edges[edges.len() - 1].0 < n);
            if e.1 == v {
                assert(in_list(edges, v) == in_list(p, v).push(e.0));
                if i < in_list(p, v).len() {
                    assert(in_list(edges, v)[i] == in_list(p, v)[i]);
                    assert(in_list(p, v)[i] < n);
                }
            } else {
                assert(in_list(edges, v) == in_list(p, v));
                assert(in_list(p, v)[i] < n);
            }
        }
        assert forall|u: int, v: int|
            #![trigger out_list(edges, u).contains(v as u32)]
            #![trigger in_list(edges, v).contains(u as u32)]
            0 <= u < n && 0 <= v < n implies (out_list(edges, u).contains(v as u32)
            <==> in_list(edges, v).contains(u as u32)) by {
            if out_list(edges, u).contains(v as u32) {
                if e.0 == u && e.1 == v {
                    assert(in_list(edges, v) == in_list(p, v).push(u as u32));
                    assert(in_list(edges, v)[in_list(p, v).len() as int] == u as u32);
                } else {
                    let j = choose|j: int| 0 <= j < out_list(edges, u).len() && out_list(edges, u)[j]
                        == v as u32;
                    if e.0 == u {
                        assert(out_list(edges, u) == out_list(p, u).push(e.1));
                        assert(out_list(edges, u)[out_list(p, u).len() as int] == e.1);
                        assert(j < out_list(p, u).len());
                        assert(out_list(p, u)[j] == v as u32);
                    } else {
                        assert(out_list(p, u)[j] == v as u32);
                    }
                    assert(out_list(p, u).contains(v as u32));
                    let k = choose|k: int| 0 <= k < in_list(p, v).len() && in_list(p, v)[k] == u as u32;
                    if e.1 == v {
                        assert(in_list(edges, v) == in_list(p, v).push(e.0));
                        assert(in_list(edges, v)[k] == u as u32);
                    } else {
                        assert(in_list(edges, v) == in_list(p, v));
                    }
                }
            }
            if in_list(edges, v).contains(u as u32) {
                if e.0 == u && e.1 == v {
                    assert(out_list(edges, u) == out_list(p, u).push(v as u32));
                    assert(out_list(edges, u)[out_list(p, u).len() as int] == v as u32);
                } else {
                    let j = choose|j: int| 0 <= j < in_list(edges, v).len() && in_list(edges, v)[j]
                        == u as u32;
                    if e.1 == v {
                        assert(in_list(edges, v) == in_list(p, v).push(e.0));
                        assert(in_list(edges, v)[in_list(p, v).len() as int] == e.0);
                        assert(j < in_list(p, v).len());
                        assert(in_list(p, v)[j] == u as u32);
                    } else {
                        assert(in_list(p, v)[j] == u as u32);
                    }
                    assert(in_list(p, v).contains(u as u32));
                    let k = choose|k: int| 0 <= k < out_list(p, u).len() && out_list(p, u)[k] == v as u32;
                    if e.0 == u {
                        assert(out_list(edges, u) == out_list(p, u).push(e.1));
                        assert(out_list(edges, u)[k] == v as u32);
                    } else {
                        assert(out_list(edges, u) == out_list(p, u));
                    }
                }
            }
        }
    }
}

proof fn lemma_kept_in_range(edges: Seq<(u32, u32)>, n: int)
    ensures
        forall|i: int|
            0 <= i < kept_edges(edges, n).len() ==> (#[trigger] kept_edges(edges, n)[i]).0 < n
                && kept_edges(edges, n)[i].1 < n,
    decreases edges.len(),
{
    if edges.len() > 0 {
        lemma_kept_in_range(edges.drop_last(), n);
        let k = kept_edges(edges, n);
        let kp = kept_edges(edges.drop_last(), n);
        assert forall|i: int| 0 <= i < k.len() implies (#[trigger] k[i]).0 < n && k[i].1 < n by {
            if i < kp.len() {
                assert(k[i] == kp[i]);
            }
        }
    }
}

} // verus!
