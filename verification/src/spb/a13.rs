//! SPB advanced query 13: the distinct `(work, tag)` pairs of the dated
//! creative works in either of two categories.
use vstd::prelude::*;
use crate::rdfgraph::{text_copy, PropGraph};
use crate::rdfload::same_text;
use crate::ranking::{sort_by_view, take_upto, view_rel, views};
use crate::spb::a5::in_categories;
use crate::spb::access::{filled_prop, filled_prop_of, has_label, id_count, id_limit, uri_at, uri_of};
use crate::spb::tally::{links_to_uri, marks_linked_to_uri};

verus! {

/// Node `w` is a work of the pair list: in one of the categories, with a
/// non-empty `dateModified` and an IRI.
pub open spec fn listed(g: PropGraph, w: int, cat1: Seq<char>, cat2: Seq<char>) -> bool {
    in_categories(g, w, cat1, cat2) && filled_prop(g, w, "dateModified"@) is Some && uri_at(g, w) is Some
}

/// The `(work IRI, tag IRI)` pairs of the first `k` relationships: each
/// `tag` relationship from a listed work to a node with an IRI.
pub open spec fn tag_pairs(g: PropGraph, cat1: Seq<char>, cat2: Seq<char>, k: int) -> Seq<(Seq<char>, Seq<char>)>
    decreases k,
{
    if k <= 0 {
        Seq::empty()
    } else {
        let rel = g.rels@[k - 1];
        if rel.2@ == "tag"@ && listed(g, rel.0 as int, cat1, cat2) && uri_at(g, rel.1 as int) is Some {
            tag_pairs(g, cat1, cat2, k - 1).push((uri_at(g, rel.0 as int).unwrap(), uri_at(g, rel.1 as int).unwrap()))
        } else {
            tag_pairs(g, cat1, cat2, k - 1)
        }
    }
}

/// The first `i` items of `s` without the repeats of a sorted sequence: an
/// item equal to the one before it is dropped.
pub open spec fn dedup_upto<A>(s: Seq<A>, i: int) -> Seq<A>
    decreases i,
{
    if i <= 0 {
        Seq::empty()
    } else if i >= 2 && s[i - 1] == s[i - 2] {
        dedup_upto(s, i - 1)
    } else {
        dedup_upto(s, i - 1).push(s[i - 1])
    }
}

/// The distinct pairs in order, the first `limit`.
pub open spec fn distinct_tag_pairs(g: PropGraph, cat1: Seq<char>, cat2: Seq<char>, limit: int) -> Seq<(Seq<char>, Seq<char>)> {
    let sorted = tag_pairs(g, cat1, cat2, g.rels@.len() as int).sort_by(view_rel::<(String, String)>());
    take_upto(dedup_upto(sorted, sorted.len() as int), limit)
}

fn same_pair(a: &(String, String), b: &(String, String)) -> (r: bool)
    ensures
        r == (a@ == b@),
{
    same_text(a.0.as_str(), b.0.as_str()) && same_text(a.1.as_str(), b.1.as_str())
}

/// `(work IRI, tag IRI)` pairs for creative works `category`-linked to `cat1`
/// or `cat2` with a non-empty `dateModified`, one per distinct `tag` target
/// (the super-property of about and mentions). Sorted by `(work, tag)` and
/// truncated to `limit`.
pub fn run(g: &PropGraph, cat1: &str, cat2: &str, limit: usize) -> (r: Vec<(String, String)>)
    ensures
        views(r@) == distinct_tag_pairs(*g, cat1@, cat2@, limit as int),
{
    let lim = id_count(g);
    let first = marks_linked_to_uri(g, "category", cat1);
    let second = marks_linked_to_uri(g, "category", cat2);
    let mut rows: Vec<(String, String)> = Vec::new();
    let mut k: usize = 0;
    while k < g.rels.len()
        invariant
            lim == id_limit(*g),
            first@.len() == lim,
            second@.len() == lim,
            forall|w: int| 0 <= w < lim ==> #[trigger] first@[w] == links_to_uri(*g, w, "category"@, cat1@),
            forall|w: int| 0 <= w < lim ==> #[trigger] second@[w] == links_to_uri(*g, w, "category"@, cat2@),
            k <= g.rels@.len(),
            views(rows@) == tag_pairs(*g, cat1@, cat2@, k as int),
        decreases g.rels.len() - k,
    {
        let rel = &g.rels[k];
        let s = rel.0 as usize;
        if s < lim && (first[s] || second[s]) && same_text(rel.2.as_str(), "tag") && has_label(g, rel.0, "CreativeWork")
            && filled_prop_of(g, rel.0, "dateModified").is_some() {
            match (uri_of(g, rel.0), uri_of(g, rel.1)) {
                (Some(wu), Some(tu)) => {
                    let ghost before_rows = views(rows@);
                    rows.push((text_copy(wu), text_copy(tu)));
                    proof {
                        reveal_strlit("tag");
                        assert(views(rows@) =~= before_rows.push((wu@, tu@)));
                    }
                },
                _ => {},
            }
        }
        proof {
            reveal_strlit("tag");
        }
        k = k + 1;
    }
    let sorted = sort_by_view(rows);
    let mut out: Vec<(String, String)> = Vec::new();
    let mut i: usize = 0;
    while i < sorted.len()
        invariant
            i <= sorted@.len(),
            views(out@) == dedup_upto(views(sorted@), i as int),
        decreases sorted.len() - i,
    {
        if i == 0 || !same_pair(&sorted[i], &sorted[i - 1]) {
            let ghost before_out = views(out@);
            out.push((text_copy(sorted[i].0.as_str()), text_copy(sorted[i].1.as_str())));
            proof {
                assert(views(out@) =~= before_out.push(views(sorted@)[i as int]));
            }
        }
        i = i + 1;
    }
    let ghost deduped = views(out@);
    out.truncate(limit);
    proof {
        assert(views(out@) =~= take_upto(deduped, limit as int));
    }
    out
}

} // verus!
