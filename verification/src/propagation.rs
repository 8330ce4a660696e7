//! Community detection by label propagation: in each synchronous round every
//! node takes the label that is most frequent among its neighbours (both
//! directions, one per relationship), the smallest such label on a tie, and
//! keeps its own label when it has no neighbours.
use vstd::prelude::*;
use vstd::relations::sorted_by;
use crate::ranking::{rank_rel, sort_ranked, RankOrder};
use crate::graphalytics::in_range_lists;
use crate::topology::Topology;

verus! {

/// The labels in `cur` of the neighbours of `v`: outgoing, then incoming, one
/// per relationship.
pub open spec fn neighbour_labels(g: Topology, cur: Seq<u32>, v: int) -> Seq<u32> {
    g.both(v).map_values(|u: u32| cur[u as int])
}

/// How many times `l` occurs in `labels`.
pub open spec fn label_count(labels: Seq<u32>, l: u32) -> nat {
    labels.to_multiset().count(l)
}

/// `r` occurs in `labels`, no label occurs more often, and every label that
/// occurs as often is no smaller.
pub open spec fn is_dominant(labels: Seq<u32>, r: u32) -> bool {
    &&& label_count(labels, r) > 0
    &&& forall|l: u32| #[trigger] label_count(labels, l) <= label_count(labels, r)
    &&& forall|l: u32| #[trigger] label_count(labels, l) == label_count(labels, r) ==> r <= l
}

/// The label a node adopts in one round: the dominant label among `labels`,
/// or its own label `own` when `labels` is empty.
pub open spec fn dominant_label(labels: Seq<u32>, own: u32) -> u32 {
    if labels.len() == 0 {
        own
    } else {
        choose|r: u32| is_dominant(labels, r)
    }
}

/// One synchronous round over every node of `g`.
pub open spec fn cdlp_round(g: Topology, cur: Seq<u32>) -> Seq<u32> {
    Seq::new(g.node_count(), |v: int| dominant_label(neighbour_labels(g, cur, v), cur[v]))
}

/// The labels after `rounds` synchronous rounds starting from `init`.
pub open spec fn cdlp_after(g: Topology, init: Seq<u32>, rounds: nat) -> Seq<u32>
    decreases rounds,
{
    if rounds == 0 {
        init
    } else {
        cdlp_round(g, cdlp_after(g, init, (rounds - 1) as nat))
    }
}

/// A label sequence has at most one dominant label.
pub proof fn lemma_dominant_unique(labels: Seq<u32>, own: u32, r: u32)
    requires
        is_dominant(labels, r),
    ensures
        labels.len() > 0,
        dominant_label(labels, own) == r,
{
    broadcast use vstd::seq_lib::group_to_multiset_ensures;
    if labels.len() == 0 {
        assert(!labels.contains(r));
    }
    let c = choose|x: u32| is_dominant(labels, x);
    assert(is_dominant(labels, c));
    assert(label_count(labels, c) <= label_count(labels, r));
    assert(label_count(labels, r) <= label_count(labels, c));
}

proof fn lemma_count_step(s: Seq<u32>, j: int, l: u32)
    requires
        0 <= j < s.len(),
    ensures
        label_count(s.take(j + 1), l) == label_count(s.take(j), l) + (if s[j] == l { 1int } else { 0int }),
{
    broadcast use vstd::seq_lib::group_to_multiset_ensures;
    broadcast use vstd::multiset::group_multiset_axioms;
    assert(s.take(j + 1) =~= s.take(j).push(s[j]));
}

/// A label absent from `s[j..]` occurs as often in `s` as in `s[..j]`.
proof fn lemma_count_prefix(s: Seq<u32>, j: int, l: u32)
    requires
        0 <= j <= s.len(),
        forall|k: int| j <= k < s.len() ==> #[trigger] s[k] != l,
    ensures
        label_count(s, l) == label_count(s.take(j), l),
{
    broadcast use vstd::seq_lib::group_to_multiset_ensures;
    broadcast use vstd::multiset::group_multiset_axioms;
    vstd::seq_lib::lemma_multiset_commutative(s.take(j), s.skip(j));
    assert(s =~= s.take(j) + s.skip(j));
    assert(!s.skip(j).contains(l)) by {
        if s.skip(j).contains(l) {
            let k = choose|k: int| 0 <= k < s.skip(j).len() && s.skip(j)[k] == l;
            assert(s[j + k] == l);
        }
    }
}

/// The most frequent value of the ascending sequence `s`, the smallest one on
/// a tie, found in one scan over its runs of equal values; `own` when `s` is
/// empty.
fn most_frequent(s: &Vec<u32>, own: u32) -> (r: u32)
    requires
        forall|a: int, b: int| 0 <= a <= b < s@.len() ==> s@[a] <= s@[b],
    ensures
        s@.len() == 0 ==> r == own,
        s@.len() > 0 ==> is_dominant(s@, r),
{
    broadcast use vstd::seq_lib::group_to_multiset_ensures;
    let len = s.len();
    let mut best_label = own;
    let mut best_count: usize = 0;
    let mut i: usize = 0;
    proof {
        assert(s@.take(0) =~= Seq::<u32>::empty());
        assert forall|l: u32| #[trigger] label_count(s@.take(0), l) == 0 by {
            assert(!s@.take(0).contains(l));
        }
    }
    while i < len
        invariant
            len == s@.len(),
            forall|a: int, b: int| 0 <= a <= b < s@.len() ==> s@[a] <= s@[b],
            i <= len,
            best_count <= i,
            i < len ==> forall|k: int| 0 <= k < i ==> #[trigger] s@[k] < s@[i as int],
            forall|l: u32| #[trigger] label_count(s@.take(i as int), l) <= best_count,
            best_count == 0 ==> best_label == own,
            best_count > 0 ==> label_count(s@.take(i as int), best_label) == best_count,
            forall|l: u32|
                #[trigger] label_count(s@.take(i as int), l) == best_count && best_count > 0 ==> best_label
                    <= l,
            forall|l: u32|
                #[trigger] label_count(s@.take(i as int), l) > 0 ==> label_count(s@.take(i as int), l)
                    == label_count(s@, l),
            i > 0 ==> best_count > 0,
        decreases len - i,
    {
        let lab = s[i];
        let ghost start = i as int;
        proof {
            broadcast use vstd::seq_lib::group_to_multiset_ensures;
            assert(!s@.take(start).contains(lab)) by {
                if s@.take(start).contains(lab) {
                    let k = choose|k: int| 0 <= k < start && s@.take(start)[k] == lab;
                    assert(s@[k] < s@[start]);
                }
            }
            assert(label_count(s@.take(start), lab) == 0);
        }
        let mut j: usize = i + 1;
        proof {
            lemma_count_step(s@, start, lab);
            assert forall|l: u32| l != lab implies #[trigger] label_count(s@.take(start + 1), l)
                == label_count(s@.take(start), l) by {
                lemma_count_step(s@, start, l);
            }
        }
        while j < len && s[j] == lab
            invariant
                len == s@.len(),
                start < j <= len,
                s@[start] == lab,
                forall|k: int| start <= k < j ==> #[trigger] s@[k] == lab,
                label_count(s@.take(j as int), lab) == j - start,
                forall|l: u32| l != lab ==> #[trigger] label_count(s@.take(j as int), l)
                    == label_count(s@.take(start), l),
            decreases len - j,
        {
            proof {
                lemma_count_step(s@, j as int, lab);
                assert forall|l: u32| l != lab implies #[trigger] label_count(s@.take(j + 1), l)
                    == label_count(s@.take(start), l) by {
                    lemma_count_step(s@, j as int, l);
                }
            }
            j = j + 1;
        }
        proof {
            if j < len {
                assert(s@[j - 1] == lab);
                assert(s@[j as int] != lab);
                assert(s@[j - 1] <= s@[j as int]);
            }
            assert forall|k: int| j <= k < s@.len() implies #[trigger] s@[k] != lab by {
                assert(s@[j as int] <= s@[k]);
            }
            lemma_count_prefix(s@, j as int, lab);
        }
        if j - i > best_count {
            best_count = j - i;
            best_label = lab;
        }
        i = j;
        proof {
            broadcast use vstd::seq_lib::group_to_multiset_ensures;
            let t = s@.take(i as int);
            assert forall|l: u32| #[trigger] label_count(t, l) > 0 implies label_count(t, l) == label_count(
                s@,
                l,
            ) by {
                if l != lab {
                    assert(label_count(s@.take(start), l) > 0);
                }
            }
            if i < len {
                assert forall|k: int| 0 <= k < i implies #[trigger] s@[k] < s@[i as int] by {
                    assert(s@[k] <= s@[i - 1]);
                }
            }
            assert forall|l: u32|
                #[trigger] label_count(t, l) == best_count && best_count > 0 implies best_label <= l by {
                if l != lab && best_label == lab {
                    assert(label_count(s@.take(start), l) <= label_count(t, lab) - 1);
                }
                if l == lab && best_label != lab {
                    assert(label_count(s@.take(start), best_label) > 0);
                    assert(s@.take(start).contains(best_label));
                    let k = choose|k: int| 0 <= k < start && s@.take(start)[k] == best_label;
                    assert(s@[k] < s@[start]);
                }
            }
        }
    }
    proof {
        assert(s@.take(len as int) =~= s@);
        if len > 0 {
            assert(s@.contains(s@[0]));
            assert(label_count(s@, s@[0]) > 0);
        }
    }
    best_label
}

/// One round for node `v`: the dominant label among its neighbours' labels in
/// `cur` (outgoing, then incoming, so a mutual relationship counts its label
/// twice), or its own label when it has no neighbours. The neighbour labels
/// are sorted and the most frequent one is read off their runs.
fn cdlp_label(g: &Topology, cur: &Vec<u32>, v: u32) -> (r: u32)
    requires
        v < g.node_count(),
        cur@.len() == g.node_count(),
    ensures
        r == dominant_label(neighbour_labels(*g, cur@, v as int), cur@[v as int]),
{
    let n = g.len();
    let outs = g.outgoing_of(v);
    let ins = g.incoming_of(v);
    proof {
        assert forall|j: int| 0 <= j < outs@.len() implies #[trigger] outs@[j] < n by {
            assert(g.outgoing(v as int)[j] < n);
        }
        assert forall|j: int| 0 <= j < ins@.len() implies #[trigger] ins@[j] < n by {
            assert(g.incoming(v as int)[j] < n);
        }
    }
    let mut buf: Vec<u32> = Vec::new();
    let mut i: usize = 0;
    while i < outs.len()
        invariant
            forall|j: int| 0 <= j < outs@.len() ==> #[trigger] outs@[j] < n,
            n == g.node_count(),
            cur@.len() == n,
            v < n,
            outs@ == g.outgoing(v as int),
            i <= outs@.len(),
            buf@.len() == i,
            forall|j: int| 0 <= j < i ==> #[trigger] buf@[j] == cur@[outs@[j] as int],
        decreases outs@.len() - i,
    {
        buf.push(cur[outs[i] as usize]);
        i = i + 1;
    }
    let mut i: usize = 0;
    while i < ins.len()
        invariant
            forall|j: int| 0 <= j < ins@.len() ==> #[trigger] ins@[j] < n,
            n == g.node_count(),
            cur@.len() == n,
            v < n,
            ins@ == g.incoming(v as int),
            i <= ins@.len(),
            buf@.len() == outs@.len() + i,
            forall|j: int| 0 <= j < outs@.len() ==> #[trigger] buf@[j] == cur@[outs@[j] as int],
            forall|j: int| 0 <= j < i ==> #[trigger] buf@[outs@.len() + j] == cur@[ins@[j] as int],
        decreases ins@.len() - i,
    {
        buf.push(cur[ins[i] as usize]);
        i = i + 1;
    }
    let ghost labels = neighbour_labels(*g, cur@, v as int);
    proof {
        assert forall|j: int| 0 <= j < buf@.len() implies #[trigger] buf@[j] == labels[j] by {
            if j >= outs@.len() {
                assert(buf@[outs@.len() + (j - outs@.len())] == cur@[ins@[j - outs@.len()] as int]);
            }
        }
        assert(buf@ =~= labels);
    }
    let sorted = sort_ranked(buf);
    proof {
        broadcast use vstd::seq_lib::group_to_multiset_ensures;
        let rel = rank_rel::<u32>();
        u32::lemma_rank_total();
        assert(rel == |a: u32, b: u32| a.ranks_le(b));
        labels.lemma_sort_by_ensures(rel);
        assert(sorted_by(sorted@, rel));
        assert forall|a: int, b: int| 0 <= a <= b < sorted@.len() implies sorted@[a] <= sorted@[b] by {
            if a < b {
                assert(rel(sorted@[a], sorted@[b]));
            }
        }
        assert(sorted@ == labels.sort_by(rel));
        assert(sorted@.to_multiset().len() == labels.to_multiset().len());
        assert(sorted@.len() == labels.len());
    }
    let r = most_frequent(&sorted, cur[v as usize]);
    proof {
        if labels.len() > 0 {
            assert(is_dominant(labels, r)) by {
                assert forall|l: u32| #[trigger] label_count(labels, l) == label_count(sorted@, l) by {
                }
            }
            lemma_dominant_unique(labels, cur@[v as int], r);
        }
    }
    r
}

/// Label propagation from the seed labels `init` (`init[v]` is node `v`'s
/// starting label) for `iterations` synchronous rounds. Seeding with dataset
/// vertex ids makes the smallest-label tie-break work in vertex-id space.
/// A directed graph counts outgoing and incoming neighbours separately and an
/// undirected one (each relationship stored once) counts both directions, so
/// either way a node hears one label per relationship and `directed` leaves
/// the result unchanged.
pub fn cdlp_seeded(g: &Topology, directed: bool, iterations: u32, init: &[u32]) -> (labels: Vec<u32>)
    requires
        init@.len() == g.node_count(),
    ensures
        labels@ == cdlp_after(*g, init@, iterations as nat),
{
    let n = g.len();
    let mut cur: Vec<u32> = Vec::new();
    let mut i: usize = 0;
    while i < init.len()
        invariant
            i <= init@.len(),
            cur@ == init@.take(i as int),
        decreases init@.len() - i,
    {
        cur.push(init[i]);
        i = i + 1;
        proof {
            assert(cur@ =~= init@.take(i as int));
        }
    }
    proof {
        assert(cur@ =~= init@);
    }
    let mut round: u32 = 0;
    while round < iterations
        invariant
            n == g.node_count(),
            round <= iterations,
            cur@ == cdlp_after(*g, init@, round as nat),
            cur@.len() == n,
        decreases iterations - round,
    {
        let mut nxt: Vec<u32> = Vec::new();
        let mut v: u32 = 0;
        while v < n
            invariant
                n == g.node_count(),
                cur@.len() == n,
                v <= n,
                nxt@.len() == v,
                forall|x: int| 0 <= x < v ==> #[trigger] nxt@[x] == cdlp_round(*g, cur@)[x],
            decreases n - v,
        {
            let label = cdlp_label(g, &cur, v);
            nxt.push(label);
            v = v + 1;
        }
        proof {
            assert(nxt@ =~= cdlp_round(*g, cur@));
        }
        cur = nxt;
        round = round + 1;
    }
    cur
}

/// Label propagation with every node starting from its own id, for
/// `iterations` synchronous rounds (see [`cdlp_seeded`]).
pub fn cdlp(g: &Topology, directed: bool, iterations: u32) -> (labels: Vec<u32>)
    ensures
        labels@ == cdlp_after(*g, Seq::new(g.node_count(), |v: int| v as u32), iterations as nat),
{
    let n = g.len();
    let mut init: Vec<u32> = Vec::new();
    let mut v: u32 = 0;
    while v < n
        invariant
            n == g.node_count(),
            v <= n,
            init@ == Seq::new(v as nat, |x: int| x as u32),
        decreases n - v,
    {
        init.push(v);
        v = v + 1;
        proof {
            assert(init@ =~= Seq::new(v as nat, |x: int| x as u32));
        }
    }
    cdlp_seeded(g, directed, iterations, &init)
}

/// A node without neighbours keeps its starting label through every round.
pub proof fn law_isolated_node_keeps_label(g: Topology, init: Seq<u32>, v: int, rounds: nat)
    requires
        0 <= v < g.node_count(),
        g.both(v).len() == 0,
    ensures
        cdlp_after(g, init, rounds)[v] == init[v],
    decreases rounds,
{
    if rounds > 0 {
        law_isolated_node_keeps_label(g, init, v, (rounds - 1) as nat);
        let prev = cdlp_after(g, init, (rounds - 1) as nat);
        assert(neighbour_labels(g, prev, v).len() == 0);
    }
}

/// Label propagation keeps a uniform labelling: when every node starts with
/// the label `c`, every node still has `c` after any number of rounds.
pub proof fn law_uniform_labels_stay(g: Topology, c: u32, rounds: nat)
    requires
        in_range_lists(g),
    ensures
        cdlp_after(g, Seq::new(g.node_count(), |v: int| c), rounds) == Seq::new(g.node_count(), |v: int| c),
    decreases rounds,
{
    let uni = Seq::new(g.node_count(), |v: int| c);
    if rounds > 0 {
        law_uniform_labels_stay(g, c, (rounds - 1) as nat);
        assert forall|v: int| 0 <= v < g.node_count() implies #[trigger] cdlp_round(g, uni)[v] == c by {
            let labels = neighbour_labels(g, uni, v);
            if labels.len() > 0 {
                broadcast use vstd::seq_lib::group_to_multiset_ensures;
                assert forall|k: int| 0 <= k < labels.len() implies labels[k] == c by {
                    if k < g.outgoing(v).len() {
                        assert(g.both(v)[k] == g.outgoing(v)[k]);
                        assert(g.outgoing(v)[k] < g.node_count());
                    } else {
                        assert(g.both(v)[k] == g.incoming(v)[k - g.outgoing(v).len()]);
                        assert(g.incoming(v)[k - g.outgoing(v).len()] < g.node_count());
                    }
                }
                assert(labels[0] == c);
                assert(labels.contains(c));
                assert forall|l: u32| l != c implies #[trigger] label_count(labels, l) == 0 by {
                    if labels.contains(l) {
                        let k = choose|k: int| 0 <= k < labels.len() && labels[k] == l;
                    }
                }
                assert(is_dominant(labels, c)) by {
                    assert forall|l: u32| #[trigger] label_count(labels, l) <= label_count(labels, c) by {
                        if l != c {
                            assert(label_count(labels, l) == 0);
                        }
                    }
                    assert forall|l: u32| #[trigger] label_count(labels, l) == label_count(labels, c) implies c <= l by {
                        if l != c {
                            assert(label_count(labels, l) == 0);
                        }
                    }
                }
                lemma_dominant_unique(labels, uni[v], c);
            }
        }
        assert(cdlp_round(g, uni) =~= uni);
    }
}

/// `f` is strictly increasing on labels.
pub open spec fn strictly_increasing(f: spec_fn(u32) -> u32) -> bool {
    forall|a: u32, b: u32| a < b ==> #[trigger] f(a) < #[trigger] f(b)
}

proof fn lemma_count_mapped(s: Seq<u32>, f: spec_fn(u32) -> u32, l: u32)
    requires
        strictly_increasing(f),
    ensures
        label_count(s.map_values(f), f(l)) == label_count(s, l),
    decreases s.len(),
{
    broadcast use vstd::seq_lib::group_to_multiset_ensures;
    broadcast use vstd::multiset::group_multiset_axioms;
    if s.len() == 0 {
        assert(s.map_values(f) =~= Seq::<u32>::empty());
        assert(!s.map_values(f).contains(f(l)));
    } else {
        let p = s.drop_last();
        lemma_count_mapped(p, f, l);
        assert(s =~= p.push(s.last()));
        assert(s.map_values(f) =~= p.map_values(f).push(f(s.last())));
        if s.last() != l {
            if f(s.last()) == f(l) {
                if s.last() < l {
                    assert(f(s.last()) < f(l));
                } else {
                    assert(f(l) < f(s.last()));
                }
            }
        }
    }
}

proof fn lemma_dominant_mapped(labels: Seq<u32>, own: u32, f: spec_fn(u32) -> u32)
    requires
        strictly_increasing(f),
    ensures
        dominant_label(labels.map_values(f), f(own)) == f(dominant_label(labels, own)),
{
    if labels.len() > 0 {
        let r = dominant_label(labels, own);
        let lm = labels.map_values(f);
        lemma_dominant_exists(labels);
        assert(is_dominant(labels, r));
        lemma_count_mapped(labels, f, r);
        assert(is_dominant(lm, f(r))) by {
            assert forall|x: u32| #[trigger] label_count(lm, x) <= label_count(lm, f(r)) by {
                broadcast use vstd::seq_lib::group_to_multiset_ensures;
                if lm.contains(x) {
                    let k = choose|k: int| 0 <= k < lm.len() && lm[k] == x;
                    lemma_count_mapped(labels, f, labels[k]);
                }
            }
            assert forall|x: u32| #[trigger] label_count(lm, x) == label_count(lm, f(r)) implies f(r) <= x by {
                broadcast use vstd::seq_lib::group_to_multiset_ensures;
                assert(lm.contains(x));
                let k = choose|k: int| 0 <= k < lm.len() && lm[k] == x;
                let y = labels[k];
                assert(f(y) == x);
                {
                    lemma_count_mapped(labels, f, y);
                    assert(label_count(labels, y) == label_count(labels, r));
                    assert(r <= y);
                    if r < y {
                        assert(f(r) < f(y));
                    }
                }
            }
        }
        lemma_dominant_unique(lm, f(own), f(r));
    }
}

/// The best of the labels `s[0..k]` by count in `s` (larger count first,
/// smaller label on a tie).
spec fn best_upto(s: Seq<u32>, k: int) -> u32
    decreases k,
{
    if k <= 1 {
        s[0]
    } else {
        let b = best_upto(s, k - 1);
        let x = s[k - 1];
        if label_count(s, x) > label_count(s, b) || (label_count(s, x) == label_count(s, b) && x < b) {
            x
        } else {
            b
        }
    }
}

proof fn lemma_best_upto(s: Seq<u32>, k: int)
    requires
        1 <= k <= s.len(),
    ensures
        s.contains(best_upto(s, k)),
        forall|i: int|
            0 <= i < k ==> label_count(s, #[trigger] s[i]) < label_count(s, best_upto(s, k)) || (label_count(s, s[i])
                == label_count(s, best_upto(s, k)) && best_upto(s, k) <= s[i]),
    decreases k,
{
    if k == 1 {
        assert(s[0] == s[0]);
    } else {
        lemma_best_upto(s, k - 1);
    }
}

/// A non-empty label sequence has a dominant label.
proof fn lemma_dominant_exists(labels: Seq<u32>)
    requires
        labels.len() > 0,
    ensures
        is_dominant(labels, dominant_label(labels, 0)),
        forall|own: u32| #[trigger] dominant_label(labels, own) == dominant_label(labels, 0),
{
    broadcast use vstd::seq_lib::group_to_multiset_ensures;
    let r = best_upto(labels, labels.len() as int);
    lemma_best_upto(labels, labels.len() as int);
    assert(label_count(labels, r) > 0);
    assert forall|l: u32| #[trigger] label_count(labels, l) <= label_count(labels, r) by {
        if labels.contains(l) {
            let i = choose|i: int| 0 <= i < labels.len() && labels[i] == l;
            assert(label_count(labels, labels[i]) <= label_count(labels, r));
        }
    }
    assert forall|l: u32| #[trigger] label_count(labels, l) == label_count(labels, r) implies r <= l by {
        assert(labels.contains(l));
        let i = choose|i: int| 0 <= i < labels.len() && labels[i] == l;
        assert(label_count(labels, labels[i]) == label_count(labels, r));
    }
    assert(is_dominant(labels, r));
    lemma_dominant_unique(labels, 0, r);
    assert forall|own: u32| #[trigger] dominant_label(labels, own) == dominant_label(labels, 0) by {
        lemma_dominant_unique(labels, own, r);
    }
}

/// Relabelling the seeds by a strictly increasing map relabels the result the
/// same way: label propagation only compares and counts labels, so seeding
/// with dataset vertex ids gives the vertex-id image of the node-id result.
pub proof fn law_relabel_seeds(g: Topology, init: Seq<u32>, f: spec_fn(u32) -> u32, rounds: nat)
    requires
        in_range_lists(g),
        init.len() == g.node_count(),
        strictly_increasing(f),
    ensures
        cdlp_after(g, init.map_values(f), rounds) == cdlp_after(g, init, rounds).map_values(f),
    decreases rounds,
{
    if rounds > 0 {
        law_relabel_seeds(g, init, f, (rounds - 1) as nat);
        let cur = cdlp_after(g, init, (rounds - 1) as nat);
        lemma_after_len(g, init, (rounds - 1) as nat);
        let curm = cur.map_values(f);
        assert forall|v: int| 0 <= v < g.node_count() implies #[trigger] cdlp_round(g, curm)[v] == cdlp_round(
            g,
            cur,
        ).map_values(f)[v] by {
            let lab = neighbour_labels(g, cur, v);
            assert(neighbour_labels(g, curm, v) =~= lab.map_values(f)) by {
                assert forall|k: int| 0 <= k < lab.len() implies neighbour_labels(g, curm, v)[k] == lab.map_values(
                    f,
                )[k] by {
                    if k < g.outgoing(v).len() {
                        assert(g.both(v)[k] == g.outgoing(v)[k]);
                        assert(g.outgoing(v)[k] < g.node_count());
                    } else {
                        assert(g.both(v)[k] == g.incoming(v)[k - g.outgoing(v).len()]);
                        assert(g.incoming(v)[k - g.outgoing(v).len()] < g.node_count());
                    }
                }
            }
            lemma_dominant_mapped(lab, cur[v], f);
        }
        assert(cdlp_round(g, curm) =~= cdlp_round(g, cur).map_values(f));
    }
}

proof fn lemma_after_len(g: Topology, init: Seq<u32>, rounds: nat)
    requires
        init.len() == g.node_count(),
    ensures
        cdlp_after(g, init, rounds).len() == g.node_count(),
    decreases rounds,
{
    if rounds > 0 {
        lemma_after_len(g, init, (rounds - 1) as nat);
    }
}

} // verus!
