//! SPB advanced query 22: the creative works matching a full-text query on
//! their title that bind the whole pattern of the query and pass its
//! optional facets. The full-text index belongs to the graph store; the
//! matches come in as `hits`.
use vstd::prelude::*;
use crate::rdfgraph::PropGraph;
use crate::ranking::{take_upto, text_no_later};
use crate::spb::access::{
    has_prop, hit_marks, id_count, id_limit, opt_text, out_degrees, prop_of, targets, text_prop, text_prop_of,
    true_prop, true_prop_of,
};
use crate::spb::q7::{facet_holds, facet_marks};
use crate::textorder::text_le;

verus! {

/// Node `w` binds the pattern and passes the facets: a text `dateCreated`
/// within the given bounds, a text `description`, a `liveCoverage` (of the
/// value asked for, when one is, false unless the boolean `true`), a
/// `primaryFormat`, and `category`, `audience` and topic (`about` or
/// `mentions`) relationships, each to the pinned resource when one is given.
pub open spec fn bound_hit(
    g: PropGraph,
    w: int,
    category: Option<Seq<char>>,
    audience: Option<Seq<char>>,
    tag: Option<Seq<char>>,
    after: Option<Seq<char>>,
    before: Option<Seq<char>>,
    live: Option<bool>,
) -> bool {
    &&& text_prop(g, w, "dateCreated"@) matches Some(c) && (match after {
        Some(a) => text_no_later(a, c),
        None => true,
    }) && (match before {
        Some(b) => text_no_later(c, b),
        None => true,
    })
    &&& text_prop(g, w, "description"@) is Some
    &&& prop_of(g, w, "liveCoverage"@) is Some
    &&& targets(g, w, "primaryFormat"@).len() > 0
    &&& facet_holds(g, w, "category"@, category)
    &&& facet_holds(g, w, "audience"@, audience)
    &&& (facet_holds(g, w, "about"@, tag) || facet_holds(g, w, "mentions"@, tag))
    &&& match live {
        Some(lc) => true_prop(g, w, "liveCoverage"@) == lc,
        None => true,
    }
}

/// The node ids below `i` among `hits` that qualify, ascending.
pub open spec fn bound_hits(
    g: PropGraph,
    hits: Seq<u32>,
    category: Option<Seq<char>>,
    audience: Option<Seq<char>>,
    tag: Option<Seq<char>>,
    after: Option<Seq<char>>,
    before: Option<Seq<char>>,
    live: Option<bool>,
    i: int,
) -> Seq<u32>
    decreases i,
{
    if i <= 0 {
        Seq::empty()
    } else if hits.contains((i - 1) as u32) && bound_hit(g, i - 1, category, audience, tag, after, before, live) {
        bound_hits(g, hits, category, audience, tag, after, before, live, i - 1).push((i - 1) as u32)
    } else {
        bound_hits(g, hits, category, audience, tag, after, before, live, i - 1)
    }
}

fn created_within(g: &PropGraph, w: u32, after: Option<&str>, before: Option<&str>) -> (r: bool)
    ensures
        r == (text_prop(*g, w as int, "dateCreated"@) matches Some(c) && (match opt_text(after) {
            Some(a) => text_no_later(a, c),
            None => true,
        }) && (match opt_text(before) {
            Some(b) => text_no_later(c, b),
            None => true,
        })),
{
    match text_prop_of(g, w, "dateCreated") {
        Some(c) => {
            let lo = match after {
                Some(a) => text_le(a, c),
                None => true,
            };
            let hi = match before {
                Some(b) => text_le(c, b),
                None => true,
            };
            lo && hi
        },
        None => false,
    }
}

/// The creative works among `hits` (the works whose `title` the full-text
/// query matched) that bind the full pattern (`description`, `category`, a
/// topic, `audience`, `liveCoverage`, `primaryFormat`, `dateCreated`) and pass
/// the optional facets: `category` / `audience` / topic pinned to a resource,
/// a `dateCreated` range `[after, before]`, and a `liveCoverage` value.
/// Returned id-ordered and truncated to `limit`.
pub fn run(
    g: &PropGraph,
    hits: &Vec<u32>,
    category_uri: Option<&str>,
    audience_uri: Option<&str>,
    tag_uri: Option<&str>,
    after: Option<&str>,
    before: Option<&str>,
    live_coverage: Option<bool>,
    limit: usize,
) -> (r: Vec<u32>)
    ensures
        r@ == take_upto(
            bound_hits(
                *g,
                hits@,
                opt_text(category_uri),
                opt_text(audience_uri),
                opt_text(tag_uri),
                opt_text(after),
                opt_text(before),
                live_coverage,
                id_limit(*g),
            ),
            limit as int,
        ),
{
    let lim = id_count(g);
    let marks = hit_marks(g, hits);
    let formats = out_degrees(g, "primaryFormat");
    let cats = facet_marks(g, "category", category_uri);
    let auds = facet_marks(g, "audience", audience_uri);
    let tag_about = facet_marks(g, "about", tag_uri);
    let tag_mentions = facet_marks(g, "mentions", tag_uri);
    let mut out: Vec<u32> = Vec::new();
    let mut i: usize = 0;
    while i < lim
        invariant
            lim == id_limit(*g),
            marks@.len() == lim,
            formats@.len() == lim,
            cats@.len() == lim,
            auds@.len() == lim,
            tag_about@.len() == lim,
            tag_mentions@.len() == lim,
            forall|w: int| 0 <= w < lim ==> #[trigger] marks@[w] == hits@.contains(w as u32),
            forall|w: int| 0 <= w < lim ==> #[trigger] formats@[w] == targets(*g, w, "primaryFormat"@).len(),
            forall|w: int| 0 <= w < lim ==> #[trigger] cats@[w] == facet_holds(*g, w, "category"@, opt_text(category_uri)),
            forall|w: int| 0 <= w < lim ==> #[trigger] auds@[w] == facet_holds(*g, w, "audience"@, opt_text(audience_uri)),
            forall|w: int| 0 <= w < lim ==> #[trigger] tag_about@[w] == facet_holds(*g, w, "about"@, opt_text(tag_uri)),
            forall|w: int| 0 <= w < lim ==> #[trigger] tag_mentions@[w] == facet_holds(*g, w, "mentions"@, opt_text(tag_uri)),
            i <= lim,
            out@ == bound_hits(
                *g,
                hits@,
                opt_text(category_uri),
                opt_text(audience_uri),
                opt_text(tag_uri),
                opt_text(after),
                opt_text(before),
                live_coverage,
                i as int,
            ),
        decreases lim - i,
    {
        let w = i as u32;
        let live = match live_coverage {
            Some(lc) => true_prop_of(g, w, "liveCoverage") == lc,
            None => true,
        };
        if marks[i] && formats[i] > 0 && cats[i] && auds[i] && (tag_about[i] || tag_mentions[i]) && live
            && created_within(g, w, after, before) && text_prop_of(g, w, "description").is_some() && has_prop(
            g,
            w,
            "liveCoverage",
        ) {
            out.push(w);
        }
        i = i + 1;
    }
    let ghost all = out@;
    out.truncate(limit);
    proof {
        assert(out@ =~= take_upto(all, limit as int));
    }
    out
}

/// The works come back sorted by id, each once: the ids strictly increase.
pub proof fn law_ids_increase(g: PropGraph, hits: Seq<u32>, category: Option<Seq<char>>, audience: Option<Seq<char>>, tag: Option<Seq<char>>, after: Option<Seq<char>>, before: Option<Seq<char>>, live: Option<bool>, i: int)
    requires
        i <= 0x1_0000_0000,
    ensures
        forall|p: int, q: int|
            0 <= p < q < bound_hits(g, hits, category, audience, tag, after, before, live, i).len() ==> #[trigger] bound_hits(g, hits, category, audience, tag, after, before, live, i)[p] < #[trigger] bound_hits(g, hits, category, audience, tag, after, before, live, i)[q],
        forall|k: int| 0 <= k < bound_hits(g, hits, category, audience, tag, after, before, live, i).len() ==> (#[trigger] bound_hits(g, hits, category, audience, tag, after, before, live, i)[k] as int) < i,
    decreases i,
{
    if i > 0 {
        law_ids_increase(g, hits, category, audience, tag, after, before, live, i - 1);
        let prev = bound_hits(g, hits, category, audience, tag, after, before, live, i - 1);
        let cur = bound_hits(g, hits, category, audience, tag, after, before, live, i);
        assert(((i - 1) as u32) as int == i - 1);
        assert forall|k: int| 0 <= k < cur.len() implies (#[trigger] cur[k] as int) < i by {
            if k < prev.len() {
                assert(cur[k] == prev[k]);
            }
        }
        assert forall|p: int, q: int| 0 <= p < q < cur.len() implies #[trigger] cur[p] < #[trigger] cur[q] by {
            if q < prev.len() {
                assert(cur[p] == prev[p] && cur[q] == prev[q]);
            } else {
                assert(cur[p] == prev[p]);
                assert((prev[p] as int) < i - 1);
            }
        }
    }
}

} // verus!
