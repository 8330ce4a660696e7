//! Counting relationships into nodes, from the nodes that a query admits,
//! and the histogram rows made from such counts.
use vstd::prelude::*;
use crate::rdfgraph::PropGraph;
use crate::ranking::views;
use crate::rdfload::same_text;
use crate::spb::access::{has_label, id_count, id_limit, labelled, uri_at, uri_of, uri_or_mark, uri_text};

verus! {

/// Relationship `k` has type `ty`, starts at `w` and ends at a node whose
/// IRI is `uri`.
pub open spec fn rel_to_uri(g: PropGraph, k: int, w: int, ty: Seq<char>, uri: Seq<char>) -> bool {
    &&& 0 <= k < g.rels@.len()
    &&& g.rels@[k].0 == w
    &&& g.rels@[k].2@ == ty
    &&& uri_at(g, g.rels@[k].1 as int) == Some(uri)
}

/// Node `w` has a relationship of type `ty` to a node with IRI `uri`.
pub open spec fn links_to_uri(g: PropGraph, w: int, ty: Seq<char>, uri: Seq<char>) -> bool {
    exists|k: int| #[trigger] rel_to_uri(g, k, w, ty, uri)
}

/// For every node id, whether it has a relationship of type `ty` to a node
/// with IRI `uri`.
pub fn marks_linked_to_uri(g: &PropGraph, ty: &str, uri: &str) -> (r: Vec<bool>)
    ensures
        r@.len() == id_limit(*g),
        forall|w: int| 0 <= w < r@.len() ==> #[trigger] r@[w] == links_to_uri(*g, w, ty@, uri@),
{
    let lim = id_count(g);
    let mut marks: Vec<bool> = Vec::new();
    while marks.len() < lim
        invariant
            marks@.len() <= lim,
            forall|w: int| 0 <= w < marks@.len() ==> !#[trigger] marks@[w],
        decreases lim - marks.len(),
    {
        marks.push(false);
    }
    let mut k: usize = 0;
    while k < g.rels.len()
        invariant
            lim == id_limit(*g),
            marks@.len() == lim,
            k <= g.rels@.len(),
            forall|w: int|
                0 <= w < lim ==> (#[trigger] marks@[w] <==> exists|q: int| 0 <= q < k && #[trigger] rel_to_uri(*g, q, w, ty@, uri@)),
        decreases g.rels.len() - k,
    {
        let rel = &g.rels[k];
        let s = rel.0 as usize;
        let hit = s < lim && same_text(rel.2.as_str(), ty) && match uri_of(g, rel.1) {
            Some(u) => same_text(u, uri),
            None => false,
        };
        if hit {
            marks.set(s, true);
        }
        proof {
            assert forall|w: int| 0 <= w < lim implies (#[trigger] marks@[w] <==> exists|q: int|
                0 <= q < k + 1 && #[trigger] rel_to_uri(*g, q, w, ty@, uri@)) by {
                if rel_to_uri(*g, k as int, w, ty@, uri@) {
                    assert(hit && w == s);
                }
                if marks@[w] && !hit {
                    let q = choose|q: int| 0 <= q < k && #[trigger] rel_to_uri(*g, q, w, ty@, uri@);
                    assert(0 <= q < k + 1 && rel_to_uri(*g, q, w, ty@, uri@));
                }
                if hit && w == s {
                    assert(rel_to_uri(*g, k as int, w, ty@, uri@));
                }
            }
        }
        k = k + 1;
    }
    proof {
        assert forall|w: int| 0 <= w < lim implies #[trigger] marks@[w] == links_to_uri(*g, w, ty@, uri@) by {
            if links_to_uri(*g, w, ty@, uri@) {
                let q = choose|q: int| #[trigger] rel_to_uri(*g, q, w, ty@, uri@);
                assert(0 <= q < k && rel_to_uri(*g, q, w, ty@, uri@));
            }
        }
    }
    marks
}

/// Of the first `k` relationships, how many have type `ty`, end at `m` and
/// start at a node admitted by `from`.
pub open spec fn tally_upto(g: PropGraph, ty: Seq<char>, from: Seq<bool>, m: int, k: int) -> nat
    decreases k,
{
    if k <= 0 {
        0
    } else {
        let rel = g.rels@[k - 1];
        tally_upto(g, ty, from, m, k - 1) + if rel.1 == m && rel.2@ == ty && (rel.0 as int) < from.len()
            && from[rel.0 as int] {
            1nat
        } else {
            0nat
        }
    }
}

/// How many relationships of type `ty` end at `m` and start at a node
/// admitted by `from`.
pub open spec fn tally(g: PropGraph, ty: Seq<char>, from: Seq<bool>, m: int) -> nat {
    tally_upto(g, ty, from, m, g.rels@.len() as int)
}

proof fn lemma_tally_bound(g: PropGraph, ty: Seq<char>, from: Seq<bool>, m: int, k: int)
    requires
        k >= 0,
    ensures
        tally_upto(g, ty, from, m, k) <= k,
    decreases k,
{
    if k > 0 {
        lemma_tally_bound(g, ty, from, m, k - 1);
    }
}

/// For every node id, how many relationships of type `ty` into it start at a
/// node admitted by `from`.
pub fn tally_into(g: &PropGraph, ty: &str, from: &Vec<bool>) -> (r: Vec<usize>)
    ensures
        r@.len() == id_limit(*g),
        forall|m: int| 0 <= m < r@.len() ==> #[trigger] r@[m] == tally(*g, ty@, from@, m),
{
    let lim = id_count(g);
    let mut counts: Vec<usize> = Vec::new();
    while counts.len() < lim
        invariant
            counts@.len() <= lim,
            forall|m: int| 0 <= m < counts@.len() ==> #[trigger] counts@[m] == 0,
        decreases lim - counts.len(),
    {
        counts.push(0);
    }
    let mut k: usize = 0;
    while k < g.rels.len()
        invariant
            lim == id_limit(*g),
            counts@.len() == lim,
            k <= g.rels@.len(),
            forall|m: int| 0 <= m < lim ==> #[trigger] counts@[m] == tally_upto(*g, ty@, from@, m, k as int),
        decreases g.rels.len() - k,
    {
        let rel = &g.rels[k];
        let t = rel.1 as usize;
        let s = rel.0 as usize;
        if t < lim && s < from.len() && from[s] && same_text(rel.2.as_str(), ty) {
            proof {
                lemma_tally_bound(*g, ty@, from@, t as int, k as int);
            }
            counts.set(t, counts[t] + 1);
        }
        k = k + 1;
    }
    counts
}

/// The `(IRI, count)` rows of the node ids below `j` whose count in `c` is
/// positive, in id order; `?` stands for a node without an IRI.
pub open spec fn uri_count_rows(g: PropGraph, c: Seq<usize>, j: int) -> Seq<(Seq<char>, usize)>
    decreases j,
{
    if j <= 0 {
        Seq::empty()
    } else if c[j - 1] > 0 {
        uri_count_rows(g, c, j - 1).push((uri_or_mark(g, j - 1), c[j - 1]))
    } else {
        uri_count_rows(g, c, j - 1)
    }
}

/// The `(IRI, count)` rows of the nodes with a positive count, in id order.
pub fn uri_rows(g: &PropGraph, c: &Vec<usize>) -> (r: Vec<(String, usize)>)
    requires
        c@.len() <= 0x1_0000_0000,
    ensures
        views(r@) == uri_count_rows(*g, c@, c@.len() as int),
{
    let mut rows: Vec<(String, usize)> = Vec::new();
    let mut m: usize = 0;
    while m < c.len()
        invariant
            c@.len() <= 0x1_0000_0000,
            m <= c@.len(),
            views(rows@) == uri_count_rows(*g, c@, m as int),
        decreases c.len() - m,
    {
        if c[m] > 0 {
            let row = (uri_text(g, m as u32), c[m]);
            rows.push(row);
            proof {
                assert(views(rows@) =~= uri_count_rows(*g, c@, m as int).push((uri_or_mark(*g, m as int), c@[m as int])));
            }
        }
        m = m + 1;
    }
    rows
}

/// The `(node, count)` rows of the node ids below `j` whose count in `c` is
/// positive, in id order.
pub open spec fn node_count_rows(c: Seq<usize>, j: int) -> Seq<(u32, usize)>
    decreases j,
{
    if j <= 0 {
        Seq::empty()
    } else if c[j - 1] > 0 {
        node_count_rows(c, j - 1).push(((j - 1) as u32, c[j - 1]))
    } else {
        node_count_rows(c, j - 1)
    }
}

/// The `(node, count)` rows of the nodes with a positive count, in id order.
pub fn node_rows(c: &Vec<usize>) -> (r: Vec<(u32, usize)>)
    requires
        c@.len() <= 0x1_0000_0000,
    ensures
        r@ == node_count_rows(c@, c@.len() as int),
{
    let mut rows: Vec<(u32, usize)> = Vec::new();
    let mut m: usize = 0;
    while m < c.len()
        invariant
            c@.len() <= 0x1_0000_0000,
            m <= c@.len(),
            rows@ == node_count_rows(c@, m as int),
        decreases c.len() - m,
    {
        if c[m] > 0 {
            rows.push((m as u32, c[m]));
        }
        m = m + 1;
    }
    rows
}

/// `(node, count)` rows with each node replaced by its IRI (`?` without one).
pub open spec fn named_rows(g: PropGraph, rows: Seq<(u32, usize)>) -> Seq<(Seq<char>, usize)> {
    rows.map_values(|x: (u32, usize)| (uri_or_mark(g, x.0 as int), x.1))
}

/// Replace the node of each `(node, count)` row by its IRI.
pub fn with_uris(g: &PropGraph, rows: &Vec<(u32, usize)>) -> (r: Vec<(String, usize)>)
    ensures
        views(r@) == named_rows(*g, rows@),
{
    let mut out: Vec<(String, usize)> = Vec::new();
    let mut i: usize = 0;
    while i < rows.len()
        invariant
            i <= rows@.len(),
            views(out@) == named_rows(*g, rows@.take(i as int)),
        decreases rows.len() - i,
    {
        let (n, c) = rows[i];
        let ghost before = views(out@);
        out.push((uri_text(g, n), c));
        proof {
            assert(rows@.take(i + 1) =~= rows@.take(i as int).push((n, c)));
            assert(views(out@) =~= before.push((uri_or_mark(*g, n as int), c)));
            assert(named_rows(*g, rows@.take(i + 1)) =~= named_rows(*g, rows@.take(i as int)).push(
                (uri_or_mark(*g, n as int), c),
            ));
        }
        i = i + 1;
    }
    proof {
        assert(rows@.take(i as int) =~= rows@);
    }
    out
}

/// Of the first `k` relationships, how many have type `ty`, start at a node
/// admitted by `from` and end at a node labelled `label`.
pub open spec fn label_tally_upto(g: PropGraph, ty: Seq<char>, from: Seq<bool>, label: Seq<char>, k: int) -> nat
    decreases k,
{
    if k <= 0 {
        0
    } else {
        let rel = g.rels@[k - 1];
        label_tally_upto(g, ty, from, label, k - 1) + if rel.2@ == ty && (rel.0 as int) < from.len()
            && from[rel.0 as int] && labelled(g, rel.1 as int, label) {
            1nat
        } else {
            0nat
        }
    }
}

/// How many relationships of type `ty` start at a node admitted by `from`
/// and end at a node labelled `label`.
pub open spec fn label_tally(g: PropGraph, ty: Seq<char>, from: Seq<bool>, label: Seq<char>) -> nat {
    label_tally_upto(g, ty, from, label, g.rels@.len() as int)
}

proof fn lemma_label_tally_bound(g: PropGraph, ty: Seq<char>, from: Seq<bool>, label: Seq<char>, k: int)
    requires
        k >= 0,
    ensures
        label_tally_upto(g, ty, from, label, k) <= k,
    decreases k,
{
    if k > 0 {
        lemma_label_tally_bound(g, ty, from, label, k - 1);
    }
}

/// How many relationships of type `ty` start at a node admitted by `from`
/// and end at a node labelled `label`.
pub fn tally_into_label(g: &PropGraph, ty: &str, from: &Vec<bool>, label: &str) -> (r: usize)
    ensures
        r == label_tally(*g, ty@, from@, label@),
{
    let mut count: usize = 0;
    let mut k: usize = 0;
    while k < g.rels.len()
        invariant
            k <= g.rels@.len(),
            count == label_tally_upto(*g, ty@, from@, label@, k as int),
        decreases g.rels.len() - k,
    {
        let rel = &g.rels[k];
        let s = rel.0 as usize;
        if s < from.len() && from[s] && same_text(rel.2.as_str(), ty) && has_label(g, rel.1, label) {
            proof {
                lemma_label_tally_bound(*g, ty@, from@, label@, k as int);
            }
            count = count + 1;
        }
        k = k + 1;
    }
    count
}

/// Relationship `k` has type `ty`, starts at `w` and ends at a node marked
/// in `to`.
pub open spec fn rel_to_marked(g: PropGraph, k: int, w: int, ty: Seq<char>, to: Seq<bool>) -> bool {
    &&& 0 <= k < g.rels@.len()
    &&& g.rels@[k].0 == w
    &&& g.rels@[k].2@ == ty
    &&& (g.rels@[k].1 as int) < to.len()
    &&& to[g.rels@[k].1 as int]
}

/// Node `w` has a relationship of type `ty` to a node marked in `to`.
pub open spec fn links_to_marked(g: PropGraph, w: int, ty: Seq<char>, to: Seq<bool>) -> bool {
    exists|k: int| #[trigger] rel_to_marked(g, k, w, ty, to)
}

/// For every node id, whether it has a relationship of type `ty` to a node
/// marked in `to`.
pub fn marks_linked_to(g: &PropGraph, ty: &str, to: &Vec<bool>) -> (r: Vec<bool>)
    ensures
        r@.len() == id_limit(*g),
        forall|w: int| 0 <= w < r@.len() ==> #[trigger] r@[w] == links_to_marked(*g, w, ty@, to@),
{
    let lim = id_count(g);
    let mut marks: Vec<bool> = Vec::new();
    while marks.len() < lim
        invariant
            marks@.len() <= lim,
            forall|w: int| 0 <= w < marks@.len() ==> !#[trigger] marks@[w],
        decreases lim - marks.len(),
    {
        marks.push(false);
    }
    let mut k: usize = 0;
    while k < g.rels.len()
        invariant
            lim == id_limit(*g),
            marks@.len() == lim,
            k <= g.rels@.len(),
            forall|w: int|
                0 <= w < lim ==> (#[trigger] marks@[w] <==> exists|q: int| 0 <= q < k && #[trigger] rel_to_marked(*g, q, w, ty@, to@)),
        decreases g.rels.len() - k,
    {
        let rel = &g.rels[k];
        let s = rel.0 as usize;
        let t = rel.1 as usize;
        let hit = s < lim && t < to.len() && to[t] && same_text(rel.2.as_str(), ty);
        if hit {
            marks.set(s, true);
        }
        proof {
            assert forall|w: int| 0 <= w < lim implies (#[trigger] marks@[w] <==> exists|q: int|
                0 <= q < k + 1 && #[trigger] rel_to_marked(*g, q, w, ty@, to@)) by {
                if rel_to_marked(*g, k as int, w, ty@, to@) {
                    assert(hit && w == s);
                }
                if marks@[w] && !hit {
                    let q = choose|q: int| 0 <= q < k && #[trigger] rel_to_marked(*g, q, w, ty@, to@);
                    assert(0 <= q < k + 1 && rel_to_marked(*g, q, w, ty@, to@));
                }
                if hit && w == s {
                    assert(rel_to_marked(*g, k as int, w, ty@, to@));
                }
            }
        }
        k = k + 1;
    }
    proof {
        assert forall|w: int| 0 <= w < lim implies #[trigger] marks@[w] == links_to_marked(*g, w, ty@, to@) by {
            if links_to_marked(*g, w, ty@, to@) {
                let q = choose|q: int| #[trigger] rel_to_marked(*g, q, w, ty@, to@);
                assert(0 <= q < k && rel_to_marked(*g, q, w, ty@, to@));
            }
        }
    }
    marks
}

} // verus!
