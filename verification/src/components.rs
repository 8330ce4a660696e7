//! Weakly connected components: each node labelled with the smallest node id
//! of its component, found by flooding relationships in both directions.
use vstd::prelude::*;
use crate::topology::Topology;
use crate::graphalytics::{forward_in_range, in_range_lists, is_walk, lemma_distinct_bound, walk_between};

verus! {

/// `u` and `v` are joined by a walk that ignores relationship direction.
pub open spec fn connected(g: Topology, u: int, v: int) -> bool {
    exists|p: Seq<u32>| #[trigger] walk_between(g, false, p, u, v)
}

/// `comp` labels each node with the smallest node id of its weakly connected component.
pub open spec fn min_component_labels(g: Topology, comp: Seq<u32>) -> bool {
    &&& comp.len() == g.node_count()
    &&& forall|v: int|
        #![trigger comp[v]]
        0 <= v < g.node_count() ==> {
            &&& comp[v] <= v
            &&& connected(g, comp[v] as int, v)
            &&& forall|u: int| 0 <= u < comp[v] ==> !connected(g, u, v)
        }
}

/// Every relationship appears in its source's outgoing list exactly when it
/// appears in its target's incoming list (true of every [`Topology`]).
pub open spec fn symmetric_lists(g: Topology) -> bool {
    forall|u: int, v: int|
        #![trigger g.outgoing(u).contains(v as u32)]
        #![trigger g.incoming(v).contains(u as u32)]
        0 <= u < g.node_count() && 0 <= v < g.node_count() ==> (g.outgoing(u).contains(v as u32)
            <==> g.incoming(v).contains(u as u32))
}

proof fn lemma_both_symmetric(g: Topology, x: int, w: u32)
    requires
        g.node_count() <= u32::MAX,
        in_range_lists(g),
        symmetric_lists(g),
        0 <= x < g.node_count(),
        g.both(x).contains(w),
    ensures
        w < g.node_count(),
        g.both(w as int).contains(x as u32),
{
    forward_in_range(g, false, x, w);
    let k = choose|k: int| 0 <= k < g.both(x).len() && g.both(x)[k] == w;
    if k < g.outgoing(x).len() {
        assert(g.outgoing(x)[k] == w);
        assert(g.outgoing(x).contains(w));
        assert(g.incoming(w as int).contains(x as u32));
        let j = choose|j: int| 0 <= j < g.incoming(w as int).len() && g.incoming(w as int)[j] == x as u32;
        assert(g.both(w as int)[g.outgoing(w as int).len() + j] == x as u32);
    } else {
        assert(g.incoming(x)[k - g.outgoing(x).len()] == w);
        assert(g.incoming(x).contains(w));
        assert(g.outgoing(w as int).contains(x as u32));
        let j = choose|j: int| 0 <= j < g.outgoing(w as int).len() && g.outgoing(w as int)[j] == x as u32;
        assert(g.both(w as int)[j] == x as u32);
    }
}

proof fn lemma_walk_reverse(g: Topology, p: Seq<u32>, a: int, b: int)
    requires
        g.node_count() <= u32::MAX,
        in_range_lists(g),
        symmetric_lists(g),
        0 <= a < g.node_count(),
        walk_between(g, false, p, a, b),
    ensures
        walk_between(g, false, p.reverse(), b, a),
        forall|i: int| 0 <= i < p.len() ==> #[trigger] p[i] < g.node_count(),
    decreases p.len(),
{
    assert forall|i: int| 0 <= i < p.len() implies #[trigger] p[i] < g.node_count() by {
        lemma_walk_elems(g, p, i);
    }
    let r = p.reverse();
    assert forall|i: int| 0 <= i < r.len() - 1 implies #[trigger] g.forward(r[i] as int, false).contains(
        r[i + 1],
    ) by {
        let j = p.len() - 2 - i;
        assert(g.forward(p[j] as int, false).contains(p[j + 1]));
        assert(p[j] < g.node_count());
        lemma_both_symmetric(g, p[j] as int, p[j + 1]);
        assert(r[i] == p[j + 1]);
        assert(r[i + 1] == p[j]);
    }
}

proof fn lemma_walk_elems(g: Topology, p: Seq<u32>, i: int)
    requires
        in_range_lists(g),
        is_walk(g, false, p),
        p[0] < g.node_count(),
        0 <= i < p.len(),
    ensures
        p[i] < g.node_count(),
    decreases i,
{
    if i > 0 {
        lemma_walk_elems(g, p, i - 1);
        let j = i - 1;
        assert(g.forward(p[j] as int, false).contains(p[j + 1]));
        forward_in_range(g, false, p[j] as int, p[i]);
    }
}

proof fn lemma_walk_concat(g: Topology, p: Seq<u32>, r: Seq<u32>, a: int, b: int, c: int)
    requires
        walk_between(g, false, p, a, b),
        walk_between(g, false, r, b, c),
    ensures
        walk_between(g, false, p + r.drop_first(), a, c),
{
    let t = p + r.drop_first();
    assert forall|i: int| 0 <= i < t.len() - 1 implies #[trigger] g.forward(t[i] as int, false).contains(
        t[i + 1],
    ) by {
        if i < p.len() - 1 {
            assert(g.forward(p[i] as int, false).contains(p[i + 1]));
        } else if i == p.len() - 1 {
            let j: int = 0;
            assert(t[i] == r[j]);
            assert(t[i + 1] == r[j + 1]);
            assert(g.forward(r[j] as int, false).contains(r[j + 1]));
        } else {
            let j = i - p.len() + 1;
            assert(t[i] == r[j]);
            assert(g.forward(r[j] as int, false).contains(r[j + 1]));
        }
    }
    if r.len() == 1 {
        assert(t =~= p);
    }
}

/// A walk out of the labelled set `comp` cannot start from a labelled node when
/// every labelled node has all its neighbours labelled.
proof fn lemma_closed_walk(g: Topology, comp: Seq<u32>, p: Seq<u32>)
    requires
        in_range_lists(g),
        comp.len() == g.node_count(),
        is_walk(g, false, p),
        p[0] < g.node_count(),
        comp[p[0] as int] != u32::MAX,
        forall|v: int, k: int|
            0 <= v < g.node_count() && comp[v] != u32::MAX && 0 <= k < g.both(v).len()
                ==> comp[#[trigger] g.both(v)[k] as int] != u32::MAX,
    ensures
        comp[p.last() as int] != u32::MAX,
    decreases p.len(),
{
    if p.len() > 1 {
        let p0 = p.drop_last();
        assert forall|i: int| 0 <= i < p0.len() - 1 implies #[trigger] g.forward(p0[i] as int, false).contains(
            p0[i + 1],
        ) by {
            assert(g.forward(p[i] as int, false).contains(p[i + 1]));
        }
        lemma_closed_walk(g, comp, p0);
        let j = p.len() - 2;
        lemma_walk_elems(g, p, j);
        assert(g.forward(p[j] as int, false).contains(p[j + 1]));
        let k = choose|k: int| 0 <= k < g.both(p[j] as int).len() && g.both(p[j] as int)[k] == p[j + 1];
    }
}

spec fn labels_ok(g: Topology, comp: Seq<u32>, order: Seq<u32>) -> bool {
    &&& comp.len() == g.node_count()
    &&& order.no_duplicates()
    &&& forall|i: int| 0 <= i < order.len() ==> #[trigger] order[i] < g.node_count()
    &&& forall|v: int| 0 <= v < g.node_count() ==> (#[trigger] comp[v] != u32::MAX <==> order.contains(v as u32))
}

proof fn lemma_label_push(g: Topology, c: Seq<u32>, o: Seq<u32>, w: u32, s: u32)
    requires
        g.node_count() <= u32::MAX,
        labels_ok(g, c, o),
        w < g.node_count(),
        c[w as int] == u32::MAX,
        s != u32::MAX,
    ensures
        labels_ok(g, c.update(w as int, s), o.push(w)),
{
    let c2 = c.update(w as int, s);
    let o2 = o.push(w);
    assert(!o.contains(w));
    assert forall|x: int| 0 <= x < g.node_count() implies (#[trigger] c2[x] != u32::MAX <==> o2.contains(
        x as u32,
    )) by {
        if x == w {
            assert(o2[o.len() as int] == w);
        } else {
            assert(c2[x] == c[x]);
            if o.contains(x as u32) {
                let i = choose|i: int| 0 <= i < o.len() && o[i] == x as u32;
                assert(o2[i] == x as u32);
            }
            if o2.contains(x as u32) {
                let i = choose|i: int| 0 <= i < o2.len() && o2[i] == x as u32;
                assert(o[i] == x as u32);
            }
        }
    }
    assert forall|i: int, j: int| 0 <= i < o2.len() && 0 <= j < o2.len() && i != j implies o2[i] != o2[j] by {
        if i < o.len() && j < o.len() {
        } else if i < o.len() {
            assert(o[i] != w);
        } else if j < o.len() {
            assert(o[j] != w);
        }
    }
    assert forall|i: int| 0 <= i < o2.len() implies #[trigger] o2[i] < g.node_count() by {
        if i < o.len() {
            assert(o2[i] == o[i]);
        }
    }
}

spec fn old_labels_kept(g: Topology, before: Seq<u32>, comp: Seq<u32>) -> bool {
    forall|v: int| 0 <= v < g.node_count() && before[v] != u32::MAX ==> #[trigger] comp[v] == before[v]
}

spec fn new_labels_from(g: Topology, before: Seq<u32>, comp: Seq<u32>, s: int) -> bool {
    forall|v: int|
        0 <= v < g.node_count() && #[trigger] comp[v] != u32::MAX && before[v] == u32::MAX ==> comp[v] == s
            && connected(g, s, v)
}

spec fn closed_except(g: Topology, comp: Seq<u32>, stack: Seq<u32>) -> bool {
    forall|v: int, k: int|
        0 <= v < g.node_count() && comp[v] != u32::MAX && 0 <= k < g.both(v).len() && !stack.contains(v as u32)
            ==> comp[#[trigger] g.both(v)[k] as int] != u32::MAX
}

/// Label the unlabelled neighbours `nbrs` of `v` (labelled `s`) with `s`.
fn flood_visit(
    comp: &mut Vec<u32>,
    stack: &mut Vec<u32>,
    Ghost(order0): Ghost<Seq<u32>>,
    Ghost(g): Ghost<Topology>,
    Ghost(before): Ghost<Seq<u32>>,
    s: u32,
    v: u32,
    nbrs: &[u32],
) -> (order: Ghost<Seq<u32>>)
    requires
        g.node_count() <= u32::MAX,
        labels_ok(g, old(comp)@, order0),
        old_labels_kept(g, before, old(comp)@),
        new_labels_from(g, before, old(comp)@, s as int),
        forall|i: int| 0 <= i < old(stack)@.len() ==> #[trigger] old(stack)@[i] < g.node_count()
            && old(comp)@[old(stack)@[i] as int] == s,
        v < g.node_count(),
        s < g.node_count(),
        old(comp)@[v as int] == s,
        connected(g, s as int, v as int),
        forall|k: int| 0 <= k < nbrs@.len() ==> #[trigger] nbrs@[k] < g.node_count() && g.both(
            v as int,
        ).contains(nbrs@[k]),
    ensures
        labels_ok(g, final(comp)@, order@),
        old_labels_kept(g, before, final(comp)@),
        new_labels_from(g, before, final(comp)@, s as int),
        old_labels_kept(g, old(comp)@, final(comp)@),
        forall|i: int| 0 <= i < final(stack)@.len() ==> #[trigger] final(stack)@[i] < g.node_count()
            && final(comp)@[final(stack)@[i] as int] == s,
        forall|x: u32| old(stack)@.contains(x) ==> #[trigger] final(stack)@.contains(x),
        forall|x: u32| #[trigger] final(stack)@.contains(x) ==> old(stack)@.contains(x) || (x < g.node_count()
            && old(comp)@[x as int] == u32::MAX),
        order@.len() - order0.len() == final(stack)@.len() - old(stack)@.len(),
        final(stack)@.len() >= old(stack)@.len(),
        forall|k: int| 0 <= k < nbrs@.len() ==> final(comp)@[#[trigger] nbrs@[k] as int] != u32::MAX,
        forall|x: int|
            0 <= x < g.node_count() && #[trigger] final(comp)@[x] != u32::MAX && old(comp)@[x] == u32::MAX
                ==> final(stack)@.contains(x as u32),
{
    let ghost mut ord = order0;
    let mut k: usize = 0;
    while k < nbrs.len()
        invariant
            g.node_count() <= u32::MAX,
            k <= nbrs@.len(),
            labels_ok(g, comp@, ord),
            old_labels_kept(g, before, comp@),
            new_labels_from(g, before, comp@, s as int),
            old_labels_kept(g, old(comp)@, comp@),
            forall|i: int| 0 <= i < stack@.len() ==> #[trigger] stack@[i] < g.node_count()
                && comp@[stack@[i] as int] == s,
            forall|x: u32| old(stack)@.contains(x) ==> #[trigger] stack@.contains(x),
            forall|x: u32| #[trigger] stack@.contains(x) ==> old(stack)@.contains(x) || (x < g.node_count()
                && old(comp)@[x as int] == u32::MAX),
            ord.len() - order0.len() == stack@.len() - old(stack)@.len(),
            stack@.len() >= old(stack)@.len(),
            v < g.node_count(),
            s < g.node_count(),
            comp@[v as int] == s,
            connected(g, s as int, v as int),
            forall|j: int| 0 <= j < nbrs@.len() ==> #[trigger] nbrs@[j] < g.node_count() && g.both(
                v as int,
            ).contains(nbrs@[j]),
            forall|j: int| 0 <= j < k ==> comp@[#[trigger] nbrs@[j] as int] != u32::MAX,
            forall|x: int|
                0 <= x < g.node_count() && #[trigger] comp@[x] != u32::MAX && old(comp)@[x] == u32::MAX
                    ==> stack@.contains(x as u32),
        decreases nbrs@.len() - k,
    {
        let w = nbrs[k];
        if comp[w as usize] == u32::MAX {
            let ghost old_c = comp@;
            let ghost old_o = ord;
            let ghost old_st = stack@;
            comp.set(w as usize, s);
            stack.push(w);
            proof {
                ord = ord.push(w);
                assert(!old_o.contains(w));
                let pv = choose|p: Seq<u32>| #[trigger] walk_between(g, false, p, s as int, v as int);
                let pw = pv.push(w);
                assert forall|i: int| 0 <= i < pw.len() - 1 implies #[trigger] g.forward(pw[i] as int, false).contains(
                    pw[i + 1],
                ) by {
                    if i < pv.len() - 1 {
                        assert(g.forward(pv[i] as int, false).contains(pv[i + 1]));
                    } else {
                        assert(pw[i] == v);
                    }
                }
                assert(walk_between(g, false, pw, s as int, w as int));
                lemma_label_push(g, old_c, old_o, w, s);
                assert forall|i: int| 0 <= i < stack@.len() implies #[trigger] stack@[i] < g.node_count()
                    && comp@[stack@[i] as int] == s by {
                    if i < old_st.len() {
                        assert(stack@[i] == old_st[i]);
                    }
                }
                assert forall|x: u32| old(stack)@.contains(x) implies #[trigger] stack@.contains(x) by {
                    assert(old_st.contains(x));
                    let i = choose|i: int| 0 <= i < old_st.len() && old_st[i] == x;
                    assert(stack@[i] == x);
                }
                assert forall|x: u32| #[trigger] stack@.contains(x) implies old(stack)@.contains(x) || (x
                    < g.node_count() && old(comp)@[x as int] == u32::MAX) by {
                    let i = choose|i: int| 0 <= i < stack@.len() && stack@[i] == x;
                    if i < old_st.len() {
                        assert(old_st[i] == x);
                        assert(old_st.contains(x));
                    } else {
                        assert(x == w);
                        if old(comp)@[w as int] != u32::MAX {
                            assert(old_c[w as int] == old(comp)@[w as int]);
                        }
                    }
                }
                assert forall|x: int|
                    0 <= x < g.node_count() && #[trigger] comp@[x] != u32::MAX && old(comp)@[x] == u32::MAX
                        implies stack@.contains(x as u32) by {
                    if x == w {
                        assert(stack@[old_st.len() as int] == w);
                    } else {
                        assert(comp@[x] == old_c[x]);
                        assert(old_st.contains(x as u32));
                        let i = choose|i: int| 0 <= i < old_st.len() && old_st[i] == x as u32;
                        assert(stack@[i] == x as u32);
                    }
                }
                assert forall|j: int| 0 <= j < k + 1 implies comp@[#[trigger] nbrs@[j] as int] != u32::MAX by {
                    if nbrs@[j] != w {
                        assert(comp@[nbrs@[j] as int] == old_c[nbrs@[j] as int]);
                    }
                }
            }
        }
        k = k + 1;
    }
    Ghost(ord)
}

proof fn lemma_connected_via(g: Topology, u: int, v: int, s: int)
    requires
        g.node_count() <= u32::MAX,
        in_range_lists(g),
        symmetric_lists(g),
        0 <= s < g.node_count(),
        connected(g, u, v),
        connected(g, s, v),
    ensures
        connected(g, u, s),
{
    let p = choose|p: Seq<u32>| #[trigger] walk_between(g, false, p, u, v);
    let r = choose|r: Seq<u32>| #[trigger] walk_between(g, false, r, s, v);
    lemma_walk_reverse(g, r, s, v);
    lemma_walk_concat(g, p, r.reverse(), u, v, s);
}

proof fn lemma_self_connected(g: Topology, v: int)
    requires
        0 <= v < g.node_count() <= u32::MAX,
    ensures
        connected(g, v, v),
{
    let p = seq![v as u32];
    assert(walk_between(g, false, p, v, v));
}

/// Weakly connected components: each node's label is the smallest node id in
/// its component, found by flooding relationships in both directions. Nodes are
/// swept in ascending id order, so the first-reached node of a component is its
/// minimum and becomes the label.
pub fn wcc(g: &Topology) -> (comp: Vec<u32>)
    ensures
        min_component_labels(*g, comp@),
{
    let n = g.len();
    proof {
        assert(in_range_lists(*g));
        assert(symmetric_lists(*g));
    }
    let mut comp: Vec<u32> = Vec::new();
    let mut k: u32 = 0;
    while k < n
        invariant
            k <= n,
            comp@ == Seq::new(k as nat, |v: int| u32::MAX),
        decreases n - k,
    {
        comp.push(u32::MAX);
        k = k + 1;
    }
    let ghost mut order: Seq<u32> = Seq::empty();
    let mut s: u32 = 0;
    while s < n
        invariant
            n == g.node_count() <= u32::MAX,
            in_range_lists(*g),
            symmetric_lists(*g),
            s <= n,
            labels_ok(*g, comp@, order),
            forall|v: int| 0 <= v < s ==> #[trigger] comp@[v] != u32::MAX,
            closed_except(*g, comp@, Seq::empty()),
            forall|v: int|
                #![trigger comp@[v]]
                0 <= v < n && comp@[v] != u32::MAX ==> {
                    &&& comp@[v] < s
                    &&& connected(*g, comp@[v] as int, v)
                    &&& forall|u: int| 0 <= u < comp@[v] ==> !connected(*g, u, v)
                },
        decreases n - s,
    {
        if comp[s as usize] == u32::MAX {
            proof {
                assert forall|u: int| 0 <= u < s implies !connected(*g, u, s as int) by {
                    if connected(*g, u, s as int) {
                        let p = choose|p: Seq<u32>| #[trigger] walk_between(*g, false, p, u, s as int);
                        assert(comp@[u] != u32::MAX);
                        assert forall|v: int, k: int|
                            0 <= v < n && comp@[v] != u32::MAX && 0 <= k < g.both(v).len() implies comp@[
                            #[trigger] g.both(v)[k] as int] != u32::MAX by {
                            assert(!Seq::<u32>::empty().contains(v as u32));
                        }
                        lemma_closed_walk(*g, comp@, p);
                    }
                }
            }
            let ghost before = comp@;
            let ghost below = |u: int| 0 <= u < s && connected(*g, u, s as int);
            proof {
                lemma_label_push(*g, comp@, order, s, s);
                order = order.push(s);
                lemma_self_connected(*g, s as int);
            }
            comp.set(s as usize, s);
            let mut stack: Vec<u32> = Vec::new();
            stack.push(s);
            proof {
                assert(stack@[0] == s);
                assert forall|x: int, k: int|
                    0 <= x < n && comp@[x] != u32::MAX && 0 <= k < g.both(x).len() && !stack@.contains(
                        x as u32,
                    ) implies comp@[#[trigger] g.both(x)[k] as int] != u32::MAX by {
                    assert(x != s);
                    assert(before[x] != u32::MAX);
                    assert(!Seq::<u32>::empty().contains(x as u32));
                    let w = g.both(x)[k] as int;
                    assert(before[w] != u32::MAX);
                }
            }
            while stack.len() > 0
                invariant
                    n == g.node_count() <= u32::MAX,
                    in_range_lists(*g),
                    symmetric_lists(*g),
                    s < n,
                    before.len() == n,
                    before[s as int] == u32::MAX,
                    labels_ok(*g, comp@, order),
                    forall|x: int| 0 <= x < n && #[trigger] before[x] != u32::MAX ==> before[x] < s,
                    old_labels_kept(*g, before, comp@),
                    new_labels_from(*g, before, comp@, s as int),
                    comp@[s as int] == s,
                    forall|i: int| 0 <= i < stack@.len() ==> #[trigger] stack@[i] < n && comp@[stack@[i] as int]
                        == s,
                    closed_except(*g, comp@, stack@),
                    forall|u: int| 0 <= u < s ==> !connected(*g, u, s as int),
                decreases 2 * (n - order.len()) + stack@.len(),
            {
                proof {
                    lemma_distinct_bound(order, n as int);
                }
                let ghost pre_pop = stack@;
                let v = stack.pop().unwrap();
                let ghost c0 = comp@;
                let ghost o0 = order;
                let ghost st0 = stack@;
                proof {
                    assert(pre_pop == st0.push(v));
                    assert(pre_pop[st0.len() as int] == v);
                    assert(comp@[v as int] == s);
                    if before[v as int] != u32::MAX {
                        assert(comp@[v as int] == before[v as int]);
                    }
                    assert(connected(*g, s as int, v as int));
                    assert forall|i: int| 0 <= i < stack@.len() implies #[trigger] stack@[i] < n
                        && comp@[stack@[i] as int] == s by {
                        assert(stack@[i] == pre_pop[i]);
                    }
                }
                let outs = g.outgoing_of(v);
                proof {
                    assert forall|k: int| 0 <= k < outs@.len() implies #[trigger] outs@[k] < g.node_count()
                        && g.both(v as int).contains(outs@[k]) by {
                        assert(g.both(v as int)[k] == outs@[k]);
                    }
                }
                let Ghost(o1) = flood_visit(&mut comp, &mut stack, Ghost(order), Ghost(*g), Ghost(before), s, v, outs);
                proof { order = o1; }
                let ins = g.incoming_of(v);
                proof {
                    assert forall|k: int| 0 <= k < ins@.len() implies #[trigger] ins@[k] < g.node_count()
                        && g.both(v as int).contains(ins@[k]) by {
                        assert(g.both(v as int)[outs@.len() + k] == ins@[k]);
                    }
                }
                let Ghost(o2) = flood_visit(&mut comp, &mut stack, Ghost(order), Ghost(*g), Ghost(before), s, v, ins);
                proof {
                    order = o2;
                    lemma_distinct_bound(order, n as int);
                    assert forall|x: int, k: int|
                        0 <= x < n && comp@[x] != u32::MAX && 0 <= k < g.both(x).len() && !stack@.contains(
                            x as u32,
                        ) implies comp@[#[trigger] g.both(x)[k] as int] != u32::MAX by {
                        if x == v {
                            if k < outs@.len() {
                                assert(g.both(x)[k] == outs@[k]);
                            } else {
                                assert(g.both(x)[k] == ins@[k - outs@.len()]);
                            }
                        } else {
                            if c0[x] == u32::MAX {
                                assert(stack@.contains(x as u32));
                            } else {
                                assert(!st0.contains(x as u32));
                                assert(!pre_pop.contains(x as u32)) by {
                                    if pre_pop.contains(x as u32) {
                                        let i = choose|i: int| 0 <= i < pre_pop.len() && pre_pop[i] == x as u32;
                                        if i < st0.len() {
                                            assert(st0[i] == x as u32);
                                        }
                                    }
                                }
                                let w = g.both(x)[k] as int;
                                assert(c0[w] != u32::MAX);
                            }
                        }
                    }
                }
            }
            proof {
                assert forall|v: int|
                    #![trigger comp@[v]]
                    0 <= v < n && comp@[v] != u32::MAX implies {
                        &&& comp@[v] < s + 1
                        &&& connected(*g, comp@[v] as int, v)
                        &&& forall|u: int| 0 <= u < comp@[v] ==> !connected(*g, u, v)
                    } by {
                    if before[v] == u32::MAX {
                        assert forall|u: int| 0 <= u < comp@[v] implies !connected(*g, u, v) by {
                            if connected(*g, u, v) {
                                lemma_connected_via(*g, u, v, s as int);
                            }
                        }
                    } else {
                        assert(comp@[v] == before[v]);
                    }
                }
                assert forall|v: int, k: int|
                    0 <= v < n && comp@[v] != u32::MAX && 0 <= k < g.both(v).len() && !Seq::<u32>::empty().contains(
                        v as u32,
                    ) implies comp@[#[trigger] g.both(v)[k] as int] != u32::MAX by {
                    assert(!stack@.contains(v as u32));
                }
            }
        }
        s = s + 1;
    }
    proof {
        assert forall|v: int|
            #![trigger comp@[v]]
            0 <= v < g.node_count() implies {
                &&& comp@[v] <= v
                &&& connected(*g, comp@[v] as int, v)
                &&& forall|u: int| 0 <= u < comp@[v] ==> !connected(*g, u, v)
            } by {
            lemma_self_connected(*g, v);
            assert(comp@[v] != u32::MAX);
        }
    }
    comp
}

proof fn lemma_connected_trans(g: Topology, x: int, y: int, z: int)
    requires
        connected(g, x, y),
        connected(g, y, z),
    ensures
        connected(g, x, z),
{
    let p = choose|p: Seq<u32>| #[trigger] walk_between(g, false, p, x, y);
    let r = choose|r: Seq<u32>| #[trigger] walk_between(g, false, r, y, z);
    lemma_walk_concat(g, p, r, x, y, z);
}

proof fn lemma_connected_sym(g: Topology, x: int, y: int)
    requires
        g.node_count() <= u32::MAX,
        in_range_lists(g),
        symmetric_lists(g),
        0 <= x < g.node_count(),
        connected(g, x, y),
    ensures
        connected(g, y, x),
{
    let p = choose|p: Seq<u32>| #[trigger] walk_between(g, false, p, x, y);
    lemma_walk_reverse(g, p, x, y);
}

/// Weakly connected component labels partition the nodes: two nodes carry the
/// same smallest-id label exactly when a walk that ignores relationship
/// direction joins them.
pub proof fn law_same_label_iff_connected(g: Topology, comp: Seq<u32>, u: int, v: int)
    requires
        g.node_count() <= u32::MAX,
        in_range_lists(g),
        symmetric_lists(g),
        min_component_labels(g, comp),
        0 <= u < g.node_count(),
        0 <= v < g.node_count(),
    ensures
        comp[u] == comp[v] <==> connected(g, u, v),
{
    let a = comp[u] as int;
    let b = comp[v] as int;
    assert(a <= u && connected(g, a, u));
    assert(b <= v && connected(g, b, v));
    if connected(g, u, v) {
        lemma_connected_trans(g, a, u, v);
        lemma_connected_sym(g, u, v);
        lemma_connected_trans(g, b, v, u);
        if a < b {
            assert(!connected(g, a, v));
        }
        if b < a {
            assert(!connected(g, b, u));
        }
    }
    if comp[u] == comp[v] {
        lemma_connected_sym(g, a, u);
        lemma_connected_trans(g, u, a, v);
    }
}

} // verus!
