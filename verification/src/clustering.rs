//! Local clustering coefficient counts: for each node `v`, its distinct
//! neighbours `N(v)` (both directions, itself excluded) and the number of
//! forward relationships running between members of `N(v)`. The coefficient
//! itself is that count over `|N(v)| * (|N(v)| - 1)`.
use vstd::prelude::*;
use crate::ranking::{rank_rel, sort_ranked, RankOrder};
use crate::topology::Topology;

verus! {

/// The distinct entries of `s` other than `v`, in order of first occurrence.
pub open spec fn distinct_others(s: Seq<u32>, v: u32) -> Seq<u32>
    decreases s.len(),
{
    if s.len() == 0 {
        Seq::empty()
    } else {
        let r = distinct_others(s.drop_last(), v);
        if s.last() == v || r.contains(s.last()) {
            r
        } else {
            r.push(s.last())
        }
    }
}

/// `N(v)`: the distinct neighbours of `v` in both directions, `v` itself
/// excluded, in order of first occurrence.
pub open spec fn lcc_neighbours(g: Topology, v: int) -> Seq<u32> {
    distinct_others(g.both(v), v as u32)
}

/// The number of entries of `s`, other than `skip`, that occur in `pool`.
pub open spec fn hits(s: Seq<u32>, skip: u32, pool: Seq<u32>) -> nat {
    sum_of(s, hit_weight(skip, pool))
}

/// Weight `1` for an entry other than `skip` that occurs in `pool`, else `0`.
pub open spec fn hit_weight(skip: u32, pool: Seq<u32>) -> spec_fn(u32) -> nat {
    |w: u32| if w != skip && pool.contains(w) { 1nat } else { 0nat }
}

/// The relationships counted for a member `u` of `nb`: when `u` has no more
/// forward neighbours than `nb` has members, its forward relationships into
/// `nb` (one per relationship); otherwise the members of `nb` that are
/// forward neighbours of `u` (one per member). Both leave out `u` itself, and
/// they agree on a graph without parallel relationships.
pub open spec fn member_rels(g: Topology, directed: bool, nb: Seq<u32>, u: u32) -> nat {
    let fu = g.forward(u as int, directed);
    if fu.len() <= nb.len() {
        hits(fu, u, nb)
    } else {
        hits(nb, u, fu)
    }
}

/// The forward relationships running between members of `nb`.
pub open spec fn rels_among(g: Topology, directed: bool, nb: Seq<u32>) -> nat {
    sum_of(nb, member_weight(g, directed, nb))
}

/// Weight of a member `u` of `nb`: the relationships counted for it.
pub open spec fn member_weight(g: Topology, directed: bool, nb: Seq<u32>) -> spec_fn(u32) -> nat {
    |u: u32| member_rels(g, directed, nb, u)
}

/// The numerator of `v`'s local clustering coefficient: the forward
/// relationships among `N(v)`, or `0` when `N(v)` has fewer than two members.
pub open spec fn lcc_rels(g: Topology, directed: bool, v: int) -> nat {
    let nb = lcc_neighbours(g, v);
    if nb.len() >= 2 {
        rels_among(g, directed, nb)
    } else {
        0
    }
}

proof fn lemma_distinct_others(s: Seq<u32>, v: u32)
    ensures
        distinct_others(s, v).no_duplicates(),
        forall|x: u32| #[trigger] distinct_others(s, v).contains(x) <==> (s.contains(x) && x != v),
    decreases s.len(),
{
    if s.len() > 0 {
        let p = s.drop_last();
        lemma_distinct_others(p, v);
        let r = distinct_others(p, v);
        assert forall|x: u32| #[trigger] distinct_others(s, v).contains(x) <==> (s.contains(x) && x != v) by {
            if s.contains(x) && x != s.last() {
                let i = choose|i: int| 0 <= i < s.len() && s[i] == x;
                assert(p[i] == x);
            }
            if p.contains(x) {
                let i = choose|i: int| 0 <= i < p.len() && p[i] == x;
                assert(s[i] == x);
            }
            if !(s.last() == v || r.contains(s.last())) {
                if r.push(s.last()).contains(x) {
                    let i = choose|i: int| 0 <= i < r.push(s.last()).len() && r.push(s.last())[i] == x;
                    if i < r.len() {
                        assert(r[i] == x);
                    }
                }
                if r.contains(x) {
                    let i = choose|i: int| 0 <= i < r.len() && r[i] == x;
                    assert(r.push(s.last())[i] == x);
                }
                assert(r.push(s.last())[r.len() as int] == s.last());
            }
        }
        if !(s.last() == v || r.contains(s.last())) {
            let q = r.push(s.last());
            assert forall|i: int, j: int| 0 <= i < q.len() && 0 <= j < q.len() && i != j implies q[i] != q[j] by {
                if i == r.len() {
                    assert(q[j] == r[j]);
                    assert(r.contains(r[j]));
                } else if j == r.len() {
                    assert(q[i] == r[i]);
                    assert(r.contains(r[i]));
                } else {
                    assert(r[i] != r[j]);
                }
            }
        }
    }
}

/// The forward neighbours of `u` in ascending order.
fn forward_sorted(g: &Topology, directed: bool, u: u32) -> (r: Vec<u32>)
    requires
        u < g.node_count(),
    ensures
        r@ == g.forward(u as int, directed).sort_by(rank_rel::<u32>()),
{
    let outs = g.outgoing_of(u);
    let mut fwd: Vec<u32> = Vec::new();
    let mut i: usize = 0;
    while i < outs.len()
        invariant
            i <= outs@.len(),
            fwd@ == outs@.take(i as int),
        decreases outs@.len() - i,
    {
        fwd.push(outs[i]);
        i = i + 1;
        proof {
            assert(fwd@ =~= outs@.take(i as int));
        }
    }
    proof {
        assert(fwd@ =~= outs@);
    }
    if !directed {
        let ins = g.incoming_of(u);
        let mut i: usize = 0;
        while i < ins.len()
            invariant
                i <= ins@.len(),
                fwd@ == outs@ + ins@.take(i as int),
            decreases ins@.len() - i,
        {
            fwd.push(ins[i]);
            i = i + 1;
            proof {
                assert(fwd@ =~= outs@ + ins@.take(i as int));
            }
        }
        proof {
            assert(fwd@ =~= outs@ + ins@);
        }
    }
    sort_ranked(fwd)
}

/// Add `u`, the next entry of `both`, to `nbrs` unless it is `v` or already
/// marked.
fn note_neighbour(
    u: u32,
    v: u32,
    nbrs: &mut Vec<u32>,
    mark: &mut Vec<bool>,
    Ghost(both): Ghost<Seq<u32>>,
    Ghost(i): Ghost<int>,
    Ghost(n): Ghost<int>,
)
    requires
        0 <= i < both.len(),
        both[i] == u,
        u < n <= u32::MAX,
        old(mark)@.len() == n,
        old(nbrs)@ == distinct_others(both.take(i), v),
        forall|x: int| 0 <= x < n ==> (#[trigger] old(mark)@[x] <==> old(nbrs)@.contains(x as u32)),
    ensures
        final(mark)@.len() == n,
        final(nbrs)@ == distinct_others(both.take(i + 1), v),
        forall|x: int| 0 <= x < n ==> (#[trigger] final(mark)@[x] <==> final(nbrs)@.contains(x as u32)),
{
    proof {
        assert(both.take(i + 1).drop_last() =~= both.take(i));
        assert(both.take(i + 1).last() == u);
    }
    if u != v && !mark[u as usize] {
        let ghost before = nbrs@;
        let ghost before_mark = mark@;
        mark.set(u as usize, true);
        nbrs.push(u);
        proof {
            assert forall|x: int| 0 <= x < n implies (#[trigger] mark@[x] <==> nbrs@.contains(x as u32)) by {
                if x == u {
                    assert(nbrs@[before.len() as int] == u);
                } else {
                    assert(mark@[x] == before_mark[x]);
                    if before.contains(x as u32) {
                        let j = choose|j: int| 0 <= j < before.len() && before[j] == x as u32;
                        assert(nbrs@[j] == x as u32);
                    }
                    if nbrs@.contains(x as u32) {
                        let j = choose|j: int| 0 <= j < nbrs@.len() && nbrs@[j] == x as u32;
                        assert(before[j] == x as u32);
                    }
                }
            }
        }
    }
}

/// Collect `N(v)` into a vector, marking each member in `mark` (all clear on
/// entry).
fn collect_neighbours(g: &Topology, v: u32, mark: &mut Vec<bool>) -> (nbrs: Vec<u32>)
    requires
        v < g.node_count(),
        old(mark)@.len() == g.node_count(),
        forall|x: int| 0 <= x < g.node_count() ==> !#[trigger] old(mark)@[x],
    ensures
        nbrs@ == lcc_neighbours(*g, v as int),
        final(mark)@.len() == g.node_count(),
        forall|x: int| 0 <= x < g.node_count() ==> (#[trigger] final(mark)@[x] <==> nbrs@.contains(x as u32)),
{
    let n = g.len();
    let outs = g.outgoing_of(v);
    let ins = g.incoming_of(v);
    let ghost both = g.both(v as int);
    proof {
        assert(distinct_others(both.take(0), v) =~= Seq::<u32>::empty()) by {
            assert(both.take(0).len() == 0);
        }
        assert forall|j: int| 0 <= j < outs@.len() implies #[trigger] outs@[j] < n by {
            assert(g.outgoing(v as int)[j] < n);
        }
        assert forall|j: int| 0 <= j < ins@.len() implies #[trigger] ins@[j] < n by {
            assert(g.incoming(v as int)[j] < n);
        }
    }
    let mut nbrs: Vec<u32> = Vec::new();
    let mut i: usize = 0;
    while i < outs.len()
        invariant
            n == g.node_count(),
            both == outs@ + ins@,
            forall|j: int| 0 <= j < outs@.len() ==> #[trigger] outs@[j] < n,
            i <= outs@.len(),
            mark@.len() == n,
            nbrs@ == distinct_others(both.take(i as int), v),
            forall|x: int| 0 <= x < n ==> (#[trigger] mark@[x] <==> nbrs@.contains(x as u32)),
        decreases outs@.len() - i,
    {
        note_neighbour(outs[i], v, &mut nbrs, mark, Ghost(both), Ghost(i as int), Ghost(n as int));
        i = i + 1;
    }
    let mut j: usize = 0;
    while j < ins.len()
        invariant
            n == g.node_count(),
            both == outs@ + ins@,
            forall|t: int| 0 <= t < ins@.len() ==> #[trigger] ins@[t] < n,
            j <= ins@.len(),
            mark@.len() == n,
            nbrs@ == distinct_others(both.take(outs@.len() + j), v),
            forall|x: int| 0 <= x < n ==> (#[trigger] mark@[x] <==> nbrs@.contains(x as u32)),
        decreases ins@.len() - j,
    {
        note_neighbour(ins[j], v, &mut nbrs, mark, Ghost(both), Ghost(outs@.len() + j), Ghost(n as int));
        j = j + 1;
    }
    proof {
        assert(both.take(both.len() as int) =~= both);
    }
    nbrs
}

/// `s` is in ascending order.
pub open spec fn ascending(s: Seq<u32>) -> bool {
    forall|a: int, b: int| 0 <= a <= b < s.len() ==> s[a] <= s[b]
}

/// The sum of `f` over the entries of `s`.
pub open spec fn sum_of(s: Seq<u32>, f: spec_fn(u32) -> nat) -> nat
    decreases s.len(),
{
    if s.len() == 0 {
        0
    } else {
        sum_of(s.drop_last(), f) + f(s.last())
    }
}

proof fn lemma_sum_of_remove(s: Seq<u32>, i: int, f: spec_fn(u32) -> nat)
    requires
        0 <= i < s.len(),
    ensures
        sum_of(s, f) == sum_of(s.remove(i), f) + f(s[i]),
    decreases s.len(),
{
    if i == s.len() - 1 {
        assert(s.remove(i) =~= s.drop_last());
    } else {
        lemma_sum_of_remove(s.drop_last(), i, f);
        assert(s.remove(i).drop_last() =~= s.drop_last().remove(i));
        assert(s.remove(i).last() == s.last());
    }
}

/// A sum over a sequence does not depend on the order of its entries.
pub proof fn lemma_sum_of_permutation(a: Seq<u32>, b: Seq<u32>, f: spec_fn(u32) -> nat)
    requires
        a.to_multiset() == b.to_multiset(),
    ensures
        sum_of(a, f) == sum_of(b, f),
    decreases a.len(),
{
    broadcast use vstd::seq_lib::group_to_multiset_ensures;
    broadcast use vstd::multiset::group_multiset_axioms;
    if a.len() == 0 {
        assert(b.to_multiset().len() == 0);
        assert(b =~= Seq::<u32>::empty());
    } else {
        let x = a.last();
        assert(a =~= a.drop_last().push(x));
        assert(a.to_multiset() =~= a.drop_last().to_multiset().insert(x));
        assert(b.to_multiset().count(x) > 0);
        assert(b.contains(x));
        let i = choose|i: int| 0 <= i < b.len() && b[i] == x;
        assert(b.remove(i).to_multiset() =~= b.to_multiset().remove(x));
        assert(a.drop_last().to_multiset() =~= b.remove(i).to_multiset());
        lemma_sum_of_permutation(a.drop_last(), b.remove(i), f);
        lemma_sum_of_remove(b, i, f);
    }
}

/// Galloping search for `target` in the ascending `uo` from index `from`:
/// doubles a step from `from` while the probed entry is below `target`, then
/// binary-searches the last gap. Returns whether `target` occurs at or after
/// `from`, and the first index at or after `from` whose entry is not below
/// `target` (`uo.len()` if none). Called with a cursor that only advances, so
/// successive lookups walk `uo` once.
pub fn gallop(uo: &[u32], from: usize, target: u32) -> (r: (bool, usize))
    requires
        ascending(uo@),
    ensures
        from >= uo@.len() ==> !r.0 && r.1 == uo@.len(),
        from < uo@.len() ==> {
            &&& from <= r.1 <= uo@.len()
            &&& forall|t: int| from <= t < r.1 ==> #[trigger] uo@[t] < target
            &&& r.1 < uo@.len() ==> uo@[r.1 as int] >= target
            &&& r.0 == (r.1 < uo@.len() && uo@[r.1 as int] == target)
        },
{
    let n = uo.len();
    if from >= n {
        return (false, n);
    }
    let mut bound: usize = 1;
    let mut lo: usize = from;
    while from + bound < n && uo[from + bound] < target
        invariant
            n == uo@.len(),
            ascending(uo@),
            from < n,
            1 <= bound <= n - from,
            from <= lo < from + bound,
            lo > from ==> uo@[lo as int] < target,
        decreases n - from - bound,
    {
        lo = from + bound;
        if bound <= (n - from) / 2 {
            bound = bound * 2;
        } else {
            bound = n - from;
        }
    }
    let hi = if from + bound < n { from + bound + 1 } else { n };
    let mut a: usize = lo;
    let mut b: usize = hi;
    while a < b
        invariant
            n == uo@.len(),
            ascending(uo@),
            from <= lo <= a <= b <= hi <= n,
            forall|t: int| lo <= t < a ==> #[trigger] uo@[t] < target,
            forall|t: int| b <= t < hi ==> #[trigger] uo@[t] >= target,
        decreases b - a,
    {
        let mid = a + (b - a) / 2;
        if uo[mid] < target {
            a = mid + 1;
        } else {
            b = mid;
        }
    }
    proof {
        assert forall|t: int| from <= t < a implies #[trigger] uo@[t] < target by {
            if t < lo {
                assert(uo@[t] <= uo@[lo as int]);
            }
        }
        if hi < n {
            assert(uo@[from + bound] >= target);
            if a == hi {
                assert(uo@[hi - 1] < target);
            }
        }
        if a < n && a >= hi {
            assert(uo@[from + bound] >= target);
            assert(uo@[from + bound] <= uo@[a as int]);
        }
    }
    let found = a < n && uo[a] == target;
    (found, a)
}

/// `s` is in strictly ascending order.
pub open spec fn strictly_ascending(s: Seq<u32>) -> bool {
    forall|a: int, b: int| 0 <= a < b < s.len() ==> s[a] < s[b]
}

/// A sequence sorted by the ascending label order is ascending and holds the
/// same entries.
proof fn lemma_sorted_ascending(s: Seq<u32>, t: Seq<u32>)
    requires
        s == t.sort_by(rank_rel::<u32>()),
    ensures
        ascending(s),
        s.to_multiset() == t.to_multiset(),
        s.len() == t.len(),
        forall|x: u32| s.contains(x) <==> t.contains(x),
{
    broadcast use vstd::seq_lib::group_to_multiset_ensures;
    let rel = rank_rel::<u32>();
    u32::lemma_rank_total();
    assert(rel == |a: u32, b: u32| a.ranks_le(b));
    t.lemma_sort_by_ensures(rel);
    assert forall|a: int, b: int| 0 <= a <= b < s.len() implies s[a] <= s[b] by {
        if a < b {
            assert(rel(s[a], s[b]));
        }
    }
    assert(s.to_multiset().len() == t.to_multiset().len());
    assert forall|x: u32| s.contains(x) <==> t.contains(x) by {
        assert(s.to_multiset().count(x) == t.to_multiset().count(x));
    }
}

/// The entries of `uo` other than `u` that are marked, where the marks are
/// exactly the members of `nb`.
fn count_marked(uo: &Vec<u32>, u: u32, mark: &Vec<bool>, Ghost(nb): Ghost<Seq<u32>>) -> (c: u64)
    requires
        mark@.len() <= u32::MAX,
        forall|t: int| 0 <= t < uo@.len() ==> #[trigger] uo@[t] < mark@.len(),
        forall|x: int| 0 <= x < mark@.len() ==> (#[trigger] mark@[x] <==> nb.contains(x as u32)),
    ensures
        c == hits(uo@, u, nb),
        c <= uo@.len(),
{
    let mut c: u64 = 0;
    let mut t: usize = 0;
    proof {
        assert(uo@.take(0) =~= Seq::<u32>::empty());
    }
    while t < uo.len()
        invariant
            mark@.len() <= u32::MAX,
            forall|i: int| 0 <= i < uo@.len() ==> #[trigger] uo@[i] < mark@.len(),
            forall|x: int| 0 <= x < mark@.len() ==> (#[trigger] mark@[x] <==> nb.contains(x as u32)),
            t <= uo@.len(),
            c <= t,
            c == hits(uo@.take(t as int), u, nb),
        decreases uo@.len() - t,
    {
        let w = uo[t];
        proof {
            assert(uo@.take(t + 1).drop_last() =~= uo@.take(t as int));
            assert(uo@.take(t + 1).last() == w);
            assert(mark@[w as int] <==> nb.contains(w));
        }
        if w != u && mark[w as usize] {
            c = c + 1;
        }
        t = t + 1;
    }
    proof {
        assert(uo@.take(uo@.len() as int) =~= uo@);
    }
    c
}

/// The entries of the strictly ascending `nbrs`, other than `u`, that occur in
/// the ascending `uo`, found by galloping through `uo` with one advancing
/// cursor.
fn count_galloped(nbrs: &Vec<u32>, u: u32, uo: &Vec<u32>) -> (c: u64)
    requires
        strictly_ascending(nbrs@),
        ascending(uo@),
    ensures
        c == hits(nbrs@, u, uo@),
        c <= nbrs@.len(),
{
    let mut c: u64 = 0;
    let mut cursor: usize = 0;
    let mut j: usize = 0;
    proof {
        assert(nbrs@.take(0) =~= Seq::<u32>::empty());
    }
    while j < nbrs.len()
        invariant
            strictly_ascending(nbrs@),
            ascending(uo@),
            j <= nbrs@.len(),
            c <= j,
            c == hits(nbrs@.take(j as int), u, uo@),
            cursor <= uo@.len(),
            forall|t: int, jj: int| 0 <= t < cursor && j <= jj < nbrs@.len() ==> #[trigger] uo@[t] < #[trigger] nbrs@[jj],
        decreases nbrs@.len() - j,
    {
        let w = nbrs[j];
        proof {
            assert(nbrs@.take(j + 1).drop_last() =~= nbrs@.take(j as int));
            assert(nbrs@.take(j + 1).last() == w);
        }
        if w != u {
            let (found, pos) = gallop(uo.as_slice(), cursor, w);
            proof {
                if found {
                    assert(uo@[pos as int] == w);
                    assert(uo@.contains(w));
                } else {
                    assert(!uo@.contains(w)) by {
                        if uo@.contains(w) {
                            let t = choose|t: int| 0 <= t < uo@.len() && uo@[t] == w;
                            if t < cursor {
                                assert(uo@[t] < nbrs@[j as int]);
                            } else if t < pos {
                                assert(uo@[t] < w);
                            } else {
                                assert(uo@[pos as int] >= w);
                                assert(uo@[pos as int] <= uo@[t]);
                            }
                        }
                    }
                }
                assert forall|t: int, jj: int| 0 <= t < pos && j + 1 <= jj < nbrs@.len() implies #[trigger] uo@[t]
                    < #[trigger] nbrs@[jj] by {
                    assert(nbrs@[j as int] < nbrs@[jj]);
                    if t < cursor {
                        assert(uo@[t] < nbrs@[j as int]);
                    }
                }
            }
            cursor = pos;
            if found {
                c = c + 1;
            }
        }
        j = j + 1;
    }
    proof {
        assert(nbrs@.take(nbrs@.len() as int) =~= nbrs@);
    }
    c
}

/// Whether some member of `nbrs` has more than `nbrs.len()` forward
/// neighbours in `adj`.
fn has_high_degree(adj: &Vec<Vec<u32>>, nbrs: &Vec<u32>) -> (r: bool)
    requires
        forall|j: int| 0 <= j < nbrs@.len() ==> #[trigger] nbrs@[j] < adj@.len(),
    ensures
        r == exists|j: int| 0 <= j < nbrs@.len() && adj@[#[trigger] nbrs@[j] as int]@.len() > nbrs@.len(),
{
    let k = nbrs.len();
    let mut j: usize = 0;
    while j < k
        invariant
            k == nbrs@.len(),
            forall|i: int| 0 <= i < nbrs@.len() ==> #[trigger] nbrs@[i] < adj@.len(),
            j <= k,
            forall|i: int| 0 <= i < j ==> adj@[#[trigger] nbrs@[i] as int]@.len() <= k,
        decreases k - j,
    {
        if adj[nbrs[j] as usize].len() > k {
            return true;
        }
        j = j + 1;
    }
    false
}

/// `v`'s local clustering counts: the forward relationships among `N(v)`
/// (`0` when `N(v)` has fewer than two members) and `|N(v)|`. `adj` holds each
/// node's forward neighbours in ascending order; `mark` is clear on entry and
/// on exit. When some member of `N(v)` has more forward neighbours than `N(v)`
/// has members, `N(v)` is sorted so that such members can be galloped through.
fn lcc_node(g: &Topology, directed: bool, adj: &Vec<Vec<u32>>, mark: &mut Vec<bool>, v: u32) -> (r: (u64, u64))
    requires
        v < g.node_count(),
        adj@.len() == g.node_count(),
        forall|u: int| 0 <= u < g.node_count() ==> #[trigger] adj@[u]@ == g.forward(u, directed).sort_by(rank_rel::<u32>()),
        old(mark)@.len() == g.node_count(),
        forall|x: int| 0 <= x < g.node_count() ==> !#[trigger] old(mark)@[x],
    ensures
        r.0 == lcc_rels(*g, directed, v as int),
        r.1 == lcc_neighbours(*g, v as int).len(),
        final(mark)@.len() == g.node_count(),
        forall|x: int| 0 <= x < g.node_count() ==> !#[trigger] final(mark)@[x],
{
    let n = g.len();
    let ghost nb = lcc_neighbours(*g, v as int);
    let nbrs = collect_neighbours(g, v, mark);
    proof {
        lemma_distinct_others(g.both(v as int), v);
        assert forall|j: int| 0 <= j < nbrs@.len() implies #[trigger] nbrs@[j] < n by {
            assert(nb.contains(nbrs@[j]));
            let t = choose|t: int| 0 <= t < g.both(v as int).len() && g.both(v as int)[t] == nbrs@[j];
            if t < g.outgoing(v as int).len() {
                assert(g.outgoing(v as int)[t] < n);
            } else {
                assert(g.incoming(v as int)[t - g.outgoing(v as int).len()] < n);
            }
        }
        crate::graphalytics::lemma_distinct_bound(nbrs@, n as int);
    }
    let k = nbrs.len();
    let mut rels: u64 = 0;
    let high = has_high_degree(adj, &nbrs);
    let work = if high { sort_ranked(nbrs) } else { nbrs };
    proof {
        broadcast use vstd::seq_lib::group_to_multiset_ensures;
        if high {
            lemma_sorted_ascending(work@, nb);
            nb.lemma_multiset_has_no_duplicates();
            work@.lemma_multiset_has_no_duplicates_conv();
            assert forall|a: int, b: int| 0 <= a < b < work@.len() implies work@[a] < work@[b] by {
                assert(work@[a] <= work@[b]);
                assert(work@[a] != work@[b]);
            }
        }
        assert(work@.to_multiset() == nb.to_multiset());
        assert(work@.len() == k);
        assert forall|x: u32| work@.contains(x) <==> nb.contains(x) by {
            assert(work@.to_multiset().count(x) == nb.to_multiset().count(x));
        }
        assert forall|j: int| 0 <= j < work@.len() implies #[trigger] work@[j] < n by {
            assert(nb.contains(work@[j]));
            let t = choose|t: int| 0 <= t < nb.len() && nb[t] == work@[j];
            assert(nb[t] < n);
        }
    }
    let ghost f = member_weight(*g, directed, nb);
    if k >= 2 {
        let mut j: usize = 0;
        proof {
            assert(work@.take(0) =~= Seq::<u32>::empty());
            assert(crate::graphalytics::in_range_lists(*g));
        }
        while j < k
            invariant
                n == g.node_count(),
                crate::graphalytics::in_range_lists(*g),
                work@.to_multiset() == nb.to_multiset(),
                k == nb.len() == work@.len(),
                k <= n <= u32::MAX,
                adj@.len() == n,
                forall|u: int| 0 <= u < n ==> #[trigger] adj@[u]@ == g.forward(u, directed).sort_by(rank_rel::<u32>()),
                mark@.len() == n,
                forall|x: int| 0 <= x < n ==> (#[trigger] mark@[x] <==> nb.contains(x as u32)),
                forall|i: int| 0 <= i < work@.len() ==> #[trigger] work@[i] < n,
                (exists|i: int| 0 <= i < work@.len() && adj@[#[trigger] work@[i] as int]@.len() > k) ==> strictly_ascending(work@),
                f == member_weight(*g, directed, nb),
                j <= k,
                rels <= j * k,
                rels == sum_of(work@.take(j as int), f),
            decreases k - j,
        {
            let u = work[j];
            let uo = &adj[u as usize];
            let ghost fu = g.forward(u as int, directed);
            proof {
                lemma_sorted_ascending(uo@, fu);
                assert forall|t: int| 0 <= t < uo@.len() implies #[trigger] uo@[t] < mark@.len() by {
                    assert(uo@.contains(uo@[t]));
                    assert(fu.contains(uo@[t]));
                    let i = choose|i: int| 0 <= i < fu.len() && fu[i] == uo@[t];
                    crate::graphalytics::forward_in_range(*g, directed, u as int, fu[i]);
                }
            }
            let c = if uo.len() <= k {
                let c = count_marked(uo, u, mark, Ghost(nb));
                proof {
                    lemma_sum_of_permutation(uo@, fu, hit_weight(u, nb));
                    assert(hits(uo@, u, nb) == hits(fu, u, nb));
                    assert(fu.len() <= nb.len());
                    assert(member_rels(*g, directed, nb, u) == hits(fu, u, nb));
                }
                c
            } else {
                let c = count_galloped(&work, u, uo);
                proof {
                    lemma_sum_of_permutation(work@, nb, hit_weight(u, uo@));
                    assert(hit_weight(u, uo@) =~= hit_weight(u, fu));
                    assert(hits(work@, u, uo@) == hits(nb, u, uo@));
                    assert(hits(nb, u, uo@) == hits(nb, u, fu));
                    assert(fu.len() > nb.len());
                    assert(member_rels(*g, directed, nb, u) == hits(nb, u, fu));
                }
                c
            };
            proof {
                assert(c == f(u));
                assert(c <= k);
                assert(work@.take(j + 1).drop_last() =~= work@.take(j as int));
                assert(work@.take(j + 1).last() == u);
                assert(rels + c <= (j + 1) * k) by (nonlinear_arith)
                    requires
                        rels <= j * k,
                        c <= k,
                ;
                assert((j + 1) * k <= k * k) by (nonlinear_arith)
                    requires
                        j < k,
                ;
                assert(k * k <= 0xffff_ffff * 0xffff_ffffint) by (nonlinear_arith)
                    requires
                        k <= 0xffff_ffff,
                ;
            }
            rels = rels + c;
            j = j + 1;
        }
        proof {
            assert(work@.take(k as int) =~= work@);
            lemma_sum_of_permutation(work@, nb, f);
        }
    }
    let mut j: usize = 0;
    while j < k
        invariant
            n == g.node_count(),
            k == work@.len(),
            mark@.len() == n,
            forall|i: int| 0 <= i < work@.len() ==> #[trigger] work@[i] < n,
            j <= k,
            forall|x: int| 0 <= x < n && #[trigger] mark@[x] ==> exists|i: int| j <= i < k && work@[i] == x as u32,
        decreases k - j,
    {
        let ghost before = mark@;
        mark.set(work[j] as usize, false);
        proof {
            assert forall|x: int| 0 <= x < n && #[trigger] mark@[x] implies exists|i: int| j + 1 <= i < k && work@[i]
                == x as u32 by {
                assert(before[x]);
                let i = choose|i: int| j <= i < k && work@[i] == x as u32;
                if i == j {
                    assert(x == work@[j as int]);
                }
            }
        }
        j = j + 1;
    }
    (rels, k as u64)
}

/// Local clustering counts of every node: for node `v`, the number of forward
/// relationships among `N(v)` (`0` when `|N(v)| < 2`) and `|N(v)|`. Forward
/// relationships are outgoing for a directed graph and both directions for an
/// undirected one. `v`'s coefficient is the first over `|N(v)| * (|N(v)| - 1)`,
/// and `0` when `|N(v)| < 2`.
pub fn lcc_counts(g: &Topology, directed: bool) -> (counts: Vec<(u64, u64)>)
    ensures
        counts@.len() == g.node_count(),
        forall|v: int|
            0 <= v < g.node_count() ==> #[trigger] counts@[v].0 == lcc_rels(*g, directed, v) && counts@[v].1
                == lcc_neighbours(*g, v).len(),
{
    let n = g.len();
    let mut adj: Vec<Vec<u32>> = Vec::new();
    let mut u: u32 = 0;
    while u < n
        invariant
            n == g.node_count(),
            u <= n,
            adj@.len() == u,
            forall|x: int| 0 <= x < u ==> #[trigger] adj@[x]@ == g.forward(x, directed).sort_by(rank_rel::<u32>()),
        decreases n - u,
    {
        adj.push(forward_sorted(g, directed, u));
        u = u + 1;
    }
    let mut mark: Vec<bool> = Vec::new();
    let mut x: u32 = 0;
    while x < n
        invariant
            x <= n,
            mark@.len() == x,
            forall|i: int| 0 <= i < x ==> !#[trigger] mark@[i],
        decreases n - x,
    {
        mark.push(false);
        x = x + 1;
    }
    let mut counts: Vec<(u64, u64)> = Vec::new();
    let mut v: u32 = 0;
    while v < n
        invariant
            n == g.node_count(),
            adj@.len() == n,
            forall|x: int| 0 <= x < n ==> #[trigger] adj@[x]@ == g.forward(x, directed).sort_by(rank_rel::<u32>()),
            mark@.len() == n,
            forall|i: int| 0 <= i < n ==> !#[trigger] mark@[i],
            v <= n,
            counts@.len() == v,
            forall|w: int|
                0 <= w < v ==> #[trigger] counts@[w].0 == lcc_rels(*g, directed, w) && counts@[w].1
                    == lcc_neighbours(*g, w).len(),
        decreases n - v,
    {
        let r = lcc_node(g, directed, &adj, &mut mark, v);
        counts.push(r);
        v = v + 1;
    }
    counts
}

/// The entries of `s`, other than `skip`, that occur in `pool`, as a set.
pub open spec fn hit_set(s: Seq<u32>, skip: u32, pool: Seq<u32>) -> Set<u32> {
    Set::new(|w: u32| s.contains(w) && w != skip && pool.contains(w))
}

proof fn lemma_hits_distinct(s: Seq<u32>, skip: u32, pool: Seq<u32>)
    requires
        s.no_duplicates(),
    ensures
        hit_set(s, skip, pool).finite(),
        hits(s, skip, pool) == hit_set(s, skip, pool).len(),
    decreases s.len(),
{
    broadcast use vstd::set::group_set_axioms;
    if s.len() == 0 {
        assert(hit_set(s, skip, pool) =~= Set::<u32>::empty());
    } else {
        let p = s.drop_last();
        let x = s.last();
        assert(p.no_duplicates());
        lemma_hits_distinct(p, skip, pool);
        assert(!p.contains(x)) by {
            if p.contains(x) {
                let i = choose|i: int| 0 <= i < p.len() && p[i] == x;
                assert(s[i] == s[s.len() - 1]);
            }
        }
        assert forall|w: u32| s.contains(w) <==> (p.contains(w) || w == x) by {
            if s.contains(w) && w != x {
                let i = choose|i: int| 0 <= i < s.len() && s[i] == w;
                assert(p[i] == w);
            }
            if p.contains(w) {
                let i = choose|i: int| 0 <= i < p.len() && p[i] == w;
                assert(s[i] == w);
            }
            if w == x {
                assert(s[s.len() - 1] == x);
            }
        }
        if x != skip && pool.contains(x) {
            assert(hit_set(s, skip, pool) =~= hit_set(p, skip, pool).insert(x));
        } else {
            assert(hit_set(s, skip, pool) =~= hit_set(p, skip, pool));
        }
    }
}

/// Without parallel relationships both ways of counting a member's
/// relationships agree: scanning the forward neighbours of `u` for members of
/// `nb` counts as many as looking the members of `nb` up among them, so the
/// count is the number of other members that are forward neighbours of `u`.
pub proof fn law_counts_agree_without_parallels(g: Topology, directed: bool, nb: Seq<u32>, u: u32)
    requires
        nb.no_duplicates(),
        g.forward(u as int, directed).no_duplicates(),
    ensures
        hits(g.forward(u as int, directed), u, nb) == hits(nb, u, g.forward(u as int, directed)),
        member_rels(g, directed, nb, u) == hit_set(nb, u, g.forward(u as int, directed)).len(),
{
    let fu = g.forward(u as int, directed);
    lemma_hits_distinct(fu, u, nb);
    lemma_hits_distinct(nb, u, fu);
    assert(hit_set(fu, u, nb) =~= hit_set(nb, u, fu));
}

/// `N(v)` holds each neighbour once.
pub proof fn law_neighbours_distinct(g: Topology, v: int)
    ensures
        lcc_neighbours(g, v).no_duplicates(),
        forall|x: u32| #[trigger] lcc_neighbours(g, v).contains(x) <==> (g.both(v).contains(x) && x != v as u32),
{
    lemma_distinct_others(g.both(v), v as u32);
}

} // verus!
