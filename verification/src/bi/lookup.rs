//! Finding nodes of the social graph by label and name, and the nodes with
//! a relationship of a given type to a given node.
use vstd::prelude::*;
use crate::rdfgraph::{literal_kind, literal_kind_of, LiteralKind, PropGraph};
use crate::spb::access::{
    has_label, id_count, id_limit, labelled, prop_of, prop_value, sources_upto, targets, targets_upto, text_prop, text_prop_of,
};
use crate::spb::tally::{links_to_marked, marks_linked_to, rel_to_marked};
use crate::rdfload::same_text;

verus! {

/// Every relationship joins two nodes of the graph.
pub open spec fn rels_within(g: PropGraph) -> bool {
    forall|k: int|
        0 <= k < g.rels@.len() ==> (#[trigger] g.rels@[k]).0 < g.labels@.len() && g.rels@[k].1 < g.labels@.len()
}

/// The first of the nodes below `k` labelled `l` whose `name` is `name`.
pub open spec fn first_named(g: PropGraph, l: Seq<char>, name: Seq<char>, k: int) -> Option<u32>
    decreases k,
{
    if k <= 0 {
        None
    } else {
        match first_named(g, l, name, k - 1) {
            Some(x) => Some(x),
            None => if labelled(g, k - 1, l) && text_prop(g, k - 1, "name"@) == Some(name) {
                Some((k - 1) as u32)
            } else {
                None
            },
        }
    }
}

/// The node labelled `l` named `name` with the smallest id.
pub open spec fn named_node(g: PropGraph, l: Seq<char>, name: Seq<char>) -> Option<u32> {
    first_named(g, l, name, g.labels@.len() as int)
}

proof fn lemma_first_named_stays(g: PropGraph, l: Seq<char>, name: Seq<char>, k: int, m: int)
    requires
        k <= m,
        first_named(g, l, name, k) is Some,
    ensures
        first_named(g, l, name, m) == first_named(g, l, name, k),
    decreases m - k,
{
    if k < m {
        lemma_first_named_stays(g, l, name, k, m - 1);
    }
}

/// The node labelled `l` whose `name` is `name`, the smallest id among
/// several.
pub fn node_named(g: &PropGraph, l: &str, name: &str) -> (r: Option<u32>)
    requires
        g.labels@.len() <= u32::MAX,
    ensures
        r == named_node(*g, l@, name@),
        r matches Some(x) ==> (x as int) < g.labels@.len(),
{
    let n = g.labels.len();
    let mut k: usize = 0;
    while k < n
        invariant
            n == g.labels@.len(),
            n <= u32::MAX,
            k <= n,
            first_named(*g, l@, name@, k as int) is None,
        decreases n - k,
    {
        if has_label(g, k as u32, l) {
            match text_prop_of(g, k as u32, "name") {
                Some(v) => {
                    if same_text(v, name) {
                        proof {
                            reveal_strlit("name");
                            assert(first_named(*g, l@, name@, k + 1) == Some(k as u32));
                            lemma_first_named_stays(*g, l@, name@, k + 1, n as int);
                        }
                        return Some(k as u32);
                    }
                },
                None => {},
            }
        }
        proof {
            reveal_strlit("name");
        }
        k = k + 1;
    }
    None
}

/// Relationship `k` goes from `s` to `t` and has type `ty`.
pub open spec fn rel_is(g: PropGraph, k: int, s: int, t: int, ty: Seq<char>) -> bool {
    &&& 0 <= k < g.rels@.len()
    &&& g.rels@[k].0 == s
    &&& g.rels@[k].1 == t
    &&& g.rels@[k].2@ == ty
}

/// Node `s` has a relationship of type `ty` to node `t`.
pub open spec fn related(g: PropGraph, s: int, t: int, ty: Seq<char>) -> bool {
    exists|k: int| #[trigger] rel_is(g, k, s, t, ty)
}

/// For every node id, whether it has a relationship of type `ty` to `t`.
pub fn linked_to(g: &PropGraph, ty: &str, t: u32) -> (r: Vec<bool>)
    requires
        (t as int) < id_limit(*g),
    ensures
        r@.len() == id_limit(*g),
        forall|w: int| 0 <= w < r@.len() ==> #[trigger] r@[w] == related(*g, w, t as int, ty@),
{
    let lim = id_count(g);
    let mut to: Vec<bool> = Vec::new();
    while to.len() < lim
        invariant
            to@.len() <= lim,
            lim == id_limit(*g),
            (t as int) < lim,
            forall|w: int| 0 <= w < to@.len() ==> #[trigger] to@[w] == (w == t),
        decreases lim - to.len(),
    {
        let w = to.len();
        to.push(w == t as usize);
    }
    let marks = marks_linked_to(g, ty, &to);
    proof {
        assert forall|w: int| 0 <= w < marks@.len() implies #[trigger] marks@[w] == related(*g, w, t as int, ty@) by {
            if links_to_marked(*g, w, ty@, to@) {
                let k = choose|k: int| #[trigger] rel_to_marked(*g, k, w, ty@, to@);
                assert(rel_is(*g, k, w, t as int, ty@));
            }
            if related(*g, w, t as int, ty@) {
                let k = choose|k: int| #[trigger] rel_is(*g, k, w, t as int, ty@);
                assert(rel_to_marked(*g, k, w, ty@, to@));
            }
        }
    }
    marks
}

/// The targets of relationships are nodes of the graph.
pub(crate) proof fn lemma_targets_within(g: PropGraph, s: int, ty: Seq<char>, k: int)
    requires
        rels_within(g),
        0 <= k <= g.rels@.len(),
    ensures
        forall|q: int| 0 <= q < targets_upto(g, s, ty, k).len() ==> (#[trigger] targets_upto(g, s, ty, k)[q] as int)
            < g.labels@.len(),
    decreases k,
{
    if k > 0 {
        lemma_targets_within(g, s, ty, k - 1);
        assert(g.rels@[k - 1].1 < g.labels@.len());
        let prev = targets_upto(g, s, ty, k - 1);
        let cur = targets_upto(g, s, ty, k);
        assert forall|q: int| 0 <= q < cur.len() implies (#[trigger] cur[q] as int) < g.labels@.len() by {
            if q < prev.len() {
                assert(cur[q] == prev[q]);
            }
        }
    }
}

/// The sources of relationships are nodes of the graph.
pub(crate) proof fn lemma_sources_within(g: PropGraph, t: int, ty: Seq<char>, k: int)
    requires
        rels_within(g),
        0 <= k <= g.rels@.len(),
    ensures
        forall|q: int| 0 <= q < sources_upto(g, t, ty, k).len() ==> (#[trigger] sources_upto(g, t, ty, k)[q] as int)
            < g.labels@.len(),
    decreases k,
{
    if k > 0 {
        lemma_sources_within(g, t, ty, k - 1);
        assert(g.rels@[k - 1].0 < g.labels@.len());
        let prev = sources_upto(g, t, ty, k - 1);
        let cur = sources_upto(g, t, ty, k);
        assert forall|q: int| 0 <= q < cur.len() implies (#[trigger] cur[q] as int) < g.labels@.len() by {
            if q < prev.len() {
                assert(cur[q] == prev[q]);
            }
        }
    }
}

/// A target list holds `t` exactly when one of its relationships ends at `t`.
pub(crate) proof fn lemma_targets_related(g: PropGraph, s: int, ty: Seq<char>, t: u32, k: int)
    requires
        0 <= k <= g.rels@.len(),
    ensures
        targets_upto(g, s, ty, k).contains(t) <==> exists|q: int| 0 <= q < k && #[trigger] rel_is(g, q, s, t as int, ty),
    decreases k,
{
    if k > 0 {
        lemma_targets_related(g, s, ty, t, k - 1);
        let prev = targets_upto(g, s, ty, k - 1);
        let cur = targets_upto(g, s, ty, k);
        if rel_is(g, k - 1, s, t as int, ty) {
            assert(cur[cur.len() - 1] == t);
        }
        if cur.contains(t) {
            let i = choose|i: int| 0 <= i < cur.len() && cur[i] == t;
            if i < prev.len() {
                assert(prev[i] == t);
                assert(prev.contains(t));
            } else {
                assert(rel_is(g, k - 1, s, t as int, ty));
            }
        }
        if exists|q: int| 0 <= q < k && #[trigger] rel_is(g, q, s, t as int, ty) {
            let q = choose|q: int| 0 <= q < k && #[trigger] rel_is(g, q, s, t as int, ty);
            if q < k - 1 {
                assert(prev.contains(t));
                let i = choose|i: int| 0 <= i < prev.len() && prev[i] == t;
                assert(cur[i] == t);
            }
        }
    }
}

/// Node `s` has a relationship of type `ty` to `t` exactly when `t` is among
/// its targets of that type.
pub(crate) proof fn lemma_related_targets(g: PropGraph, s: int, ty: Seq<char>, t: u32)
    ensures
        related(g, s, t as int, ty) <==> targets(g, s, ty).contains(t),
{
    lemma_targets_related(g, s, ty, t, g.rels@.len() as int);
}

pub(crate) proof fn lemma_targets_bound(g: PropGraph, s: int, ty: Seq<char>, k: int)
    requires
        0 <= k <= g.rels@.len(),
    ensures
        targets_upto(g, s, ty, k).len() <= k,
    decreases k,
{
    if k > 0 {
        lemma_targets_bound(g, s, ty, k - 1);
    }
}

pub(crate) proof fn lemma_sources_bound(g: PropGraph, t: int, ty: Seq<char>, k: int)
    requires
        0 <= k <= g.rels@.len(),
    ensures
        sources_upto(g, t, ty, k).len() <= k,
    decreases k,
{
    if k > 0 {
        lemma_sources_bound(g, t, ty, k - 1);
    }
}

/// An item occurs in a sequence with one more item pushed exactly when it
/// occurred before or is the new one.
pub(crate) proof fn lemma_push_contains<A>(s: Seq<A>, a: A, x: A)
    ensures
        s.push(a).contains(x) == (s.contains(x) || a == x),
{
    if s.contains(x) {
        let i = choose|i: int| 0 <= i < s.len() && s[i] == x;
        assert(s.push(a)[i] == x);
    }
    if a == x {
        assert(s.push(a)[s.len() as int] == x);
    }
    if s.push(a).contains(x) {
        let i = choose|i: int| 0 <= i < s.push(a).len() && s.push(a)[i] == x;
        if i < s.len() {
            assert(s[i] == x);
        }
    }
}

/// Node `n` stores the integer `v` as its property `key`.
pub open spec fn int_prop_is(g: PropGraph, n: int, key: Seq<char>, v: i64) -> bool {
    match prop_of(g, n, key) {
        Some(p) => literal_kind_of(p.0, p.1) == LiteralKind::Int(v),
        None => false,
    }
}

/// The first of the nodes below `k` that store the integer `v` as `key`.
pub open spec fn first_with_int(g: PropGraph, key: Seq<char>, v: i64, k: int) -> Option<u32>
    decreases k,
{
    if k <= 0 {
        None
    } else {
        match first_with_int(g, key, v, k - 1) {
            Some(x) => Some(x),
            None => if int_prop_is(g, k - 1, key, v) {
                Some((k - 1) as u32)
            } else {
                None
            },
        }
    }
}

proof fn lemma_first_with_int_stays(g: PropGraph, key: Seq<char>, v: i64, k: int, m: int)
    requires
        k <= m,
        first_with_int(g, key, v, k) is Some,
    ensures
        first_with_int(g, key, v, m) == first_with_int(g, key, v, k),
    decreases m - k,
{
    if k < m {
        lemma_first_with_int_stays(g, key, v, k, m - 1);
    }
}

/// The node that stores the integer `v` as its property `key`, the smallest
/// id among several.
pub fn node_with_int(g: &PropGraph, key: &str, v: i64) -> (r: Option<u32>)
    requires
        g.labels@.len() <= u32::MAX,
    ensures
        r == first_with_int(*g, key@, v, g.labels@.len() as int),
        r matches Some(x) ==> (x as int) < g.labels@.len(),
{
    let n = g.labels.len();
    let mut k: usize = 0;
    while k < n
        invariant
            n == g.labels@.len(),
            n <= u32::MAX,
            k <= n,
            first_with_int(*g, key@, v, k as int) is None,
        decreases n - k,
    {
        let hit = match prop_value(g, k as u32, key) {
            Some(p) => match literal_kind(p.0, p.1) {
                LiteralKind::Int(x) => x == v,
                _ => false,
            },
            None => false,
        };
        if hit {
            proof {
                assert(first_with_int(*g, key@, v, k + 1) == Some(k as u32));
                lemma_first_with_int_stays(*g, key@, v, k + 1, n as int);
            }
            return Some(k as u32);
        }
        k = k + 1;
    }
    None
}

/// The person whose LDBC id is `plid`, the smallest node id among several.
pub fn person_by_plid(g: &PropGraph, plid: i64) -> (r: Option<u32>)
    requires
        g.labels@.len() <= u32::MAX,
    ensures
        r == first_with_int(*g, "plid"@, plid, g.labels@.len() as int),
        r matches Some(x) ==> (x as int) < g.labels@.len(),
{
    node_with_int(g, "plid", plid)
}

/// The place whose LDBC id is `lid`, the smallest node id among several.
pub fn place_by_lid(g: &PropGraph, lid: i64) -> (r: Option<u32>)
    requires
        g.labels@.len() <= u32::MAX,
    ensures
        r == first_with_int(*g, "lid"@, lid, g.labels@.len() as int),
        r matches Some(x) ==> (x as int) < g.labels@.len(),
{
    node_with_int(g, "lid", lid)
}

} // verus!
