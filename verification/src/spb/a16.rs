//! SPB advanced query 16: the distinct `(work, tag)` pairs of the creative
//! works matching a full-text query on their title, ordered by tag. The
//! full-text index belongs to the graph store; the matches come in as `hits`.
use vstd::prelude::*;
use crate::rdfgraph::{text_copy, PropGraph};
use crate::rdfload::same_text;
use crate::ranking::{sort_by_view, take_upto, view_rel, views};
use crate::spb::a13::dedup_upto;
use crate::spb::access::{filled_prop, filled_prop_of, hit_marks, id_count, id_limit, out_degrees, targets, uri_at, uri_of};

verus! {

/// Node `w` is among `hits`, has a non-empty `title`, a `category`
/// relationship and an IRI.
pub open spec fn titled_hit(g: PropGraph, hits: Seq<u32>, w: int) -> bool {
    hits.contains(w as u32) && filled_prop(g, w, "title"@) is Some && targets(g, w, "category"@).len() > 0 && uri_at(
        g,
        w,
    ) is Some
}

/// The `(tag IRI, work IRI)` pairs of the first `k` relationships: each `tag`
/// relationship from such a work to a node with an IRI.
pub open spec fn hit_tag_pairs(g: PropGraph, hits: Seq<u32>, k: int) -> Seq<(Seq<char>, Seq<char>)>
    decreases k,
{
    if k <= 0 {
        Seq::empty()
    } else {
        let rel = g.rels@[k - 1];
        if rel.2@ == "tag"@ && (rel.0 as int) < id_limit(g) && titled_hit(g, hits, rel.0 as int) && uri_at(
            g,
            rel.1 as int,
        ) is Some {
            hit_tag_pairs(g, hits, k - 1).push((uri_at(g, rel.1 as int).unwrap(), uri_at(g, rel.0 as int).unwrap()))
        } else {
            hit_tag_pairs(g, hits, k - 1)
        }
    }
}

/// The distinct pairs ordered by tag then work, the first `limit`, each as
/// `(work IRI, tag IRI)`.
pub open spec fn tags_of_hits(g: PropGraph, hits: Seq<u32>, limit: int) -> Seq<(Seq<char>, Seq<char>)> {
    let sorted = hit_tag_pairs(g, hits, g.rels@.len() as int).sort_by(view_rel::<(String, String)>());
    take_upto(dedup_upto(sorted, sorted.len() as int), limit).map_values(
        |p: (Seq<char>, Seq<char>)| (p.1, p.0),
    )
}

fn same_pair(a: &(String, String), b: &(String, String)) -> (r: bool)
    ensures
        r == (a@ == b@),
{
    same_text(a.0.as_str(), b.0.as_str()) && same_text(a.1.as_str(), b.1.as_str())
}

/// For each creative work among `hits` (the works whose `title` the
/// full-text query matched) that carries a non-empty `title` and a `category`
/// relationship, one `(work IRI, tag IRI)` row per distinct `tag` target (the
/// super-property of about and mentions), ordered by tag then work and
/// truncated to `limit`.
pub fn run(g: &PropGraph, hits: &Vec<u32>, limit: usize) -> (r: Vec<(String, String)>)
    ensures
        views(r@) == tags_of_hits(*g, hits@, limit as int),
{
    let lim = id_count(g);
    let marks = hit_marks(g, hits);
    let cats = out_degrees(g, "category");
    let mut rows: Vec<(String, String)> = Vec::new();
    let mut k: usize = 0;
    while k < g.rels.len()
        invariant
            lim == id_limit(*g),
            marks@.len() == lim,
            cats@.len() == lim,
            forall|w: int| 0 <= w < lim ==> #[trigger] marks@[w] == hits@.contains(w as u32),
            forall|w: int| 0 <= w < lim ==> #[trigger] cats@[w] == targets(*g, w, "category"@).len(),
            k <= g.rels@.len(),
            views(rows@) == hit_tag_pairs(*g, hits@, k as int),
        decreases g.rels.len() - k,
    {
        let rel = &g.rels[k];
        let s = rel.0 as usize;
        proof {
            reveal_strlit("tag");
        }
        if s < lim && marks[s] && cats[s] > 0 && same_text(rel.2.as_str(), "tag") && filled_prop_of(
            g,
            rel.0,
            "title",
        ).is_some() {
            match (uri_of(g, rel.0), uri_of(g, rel.1)) {
                (Some(wu), Some(tu)) => {
                    let ghost before_rows = views(rows@);
                    rows.push((text_copy(tu), text_copy(wu)));
                    proof {
                        assert(views(rows@) =~= before_rows.push((tu@, wu@)));
                    }
                },
                _ => {},
            }
        }
        k = k + 1;
    }
    let sorted = sort_by_view(rows);
    let mut distinct: Vec<(String, String)> = Vec::new();
    let mut i: usize = 0;
    while i < sorted.len()
        invariant
            i <= sorted@.len(),
            views(distinct@) == dedup_upto(views(sorted@), i as int),
        decreases sorted.len() - i,
    {
        if i == 0 || !same_pair(&sorted[i], &sorted[i - 1]) {
            let ghost before = views(distinct@);
            distinct.push((text_copy(sorted[i].0.as_str()), text_copy(sorted[i].1.as_str())));
            proof {
                assert(views(distinct@) =~= before.push(views(sorted@)[i as int]));
            }
        }
        i = i + 1;
    }
    let ghost deduped = views(distinct@);
    distinct.truncate(limit);
    let ghost kept = views(distinct@);
    proof {
        assert(kept =~= take_upto(deduped, limit as int));
    }
    let mut out: Vec<(String, String)> = Vec::new();
    let mut j: usize = 0;
    while j < distinct.len()
        invariant
            j <= distinct@.len(),
            kept == views(distinct@),
            views(out@) == kept.take(j as int).map_values(|p: (Seq<char>, Seq<char>)| (p.1, p.0)),
        decreases distinct.len() - j,
    {
        let ghost before = views(out@);
        let work = text_copy(distinct[j].1.as_str());
        let tag = text_copy(distinct[j].0.as_str());
        out.push((work, tag));
        proof {
            assert(kept[j as int] == (distinct@[j as int].0@, distinct@[j as int].1@));
            assert(views(out@) =~= before.push((kept[j as int].1, kept[j as int].0)));
            assert(kept.take(j + 1) =~= kept.take(j as int).push(kept[j as int]));
            assert(views(out@) =~= kept.take(j + 1).map_values(|p: (Seq<char>, Seq<char>)| (p.1, p.0)));
        }
        j = j + 1;
    }
    proof {
        assert(kept.take(j as int) =~= kept);
    }
    out
}

} // verus!
