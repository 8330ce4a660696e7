//! SPB advanced query 21: faceted search over the creative works matching a
//! full-text query on their title. The full-text index belongs to the graph
//! store; the matches come in as `hits`.
use vstd::prelude::*;
use crate::rdfgraph::PropGraph;
use crate::ranking::{take_upto, text_no_later};
use crate::spb::access::{
    hit_marks, id_count, id_limit, opt_text, out_degrees, targets, text_prop, text_prop_of, true_prop, true_prop_of,
};
use crate::spb::tally::{links_to_uri, marks_linked_to_uri};
use crate::textorder::text_le;

verus! {

/// A facet pinned to a resource: with `Some(uri)`, a relationship of type
/// `ty` to the node with that IRI; with `None`, no condition.
pub open spec fn pinned(g: PropGraph, w: int, ty: Seq<char>, want: Option<Seq<char>>) -> bool {
    match want {
        Some(u) => links_to_uri(g, w, ty, u),
        None => true,
    }
}

/// Node `w` satisfies every bound facet: it is tagged (has an `about` or
/// `mentions` relationship); it is in the category, for the audience and
/// tagged with the topic that are pinned; its `liveCoverage` flag (false
/// unless the boolean `true`) is the one asked for; and, when a date bound
/// is given, it has a text `dateCreated` within the bounds.
pub open spec fn facets_hold(
    g: PropGraph,
    w: int,
    category: Option<Seq<char>>,
    audience: Option<Seq<char>>,
    tag: Option<Seq<char>>,
    live: Option<bool>,
    from: Option<Seq<char>>,
    to: Option<Seq<char>>,
) -> bool {
    &&& (targets(g, w, "about"@).len() > 0 || targets(g, w, "mentions"@).len() > 0)
    &&& pinned(g, w, "category"@, category)
    &&& pinned(g, w, "audience"@, audience)
    &&& match tag {
        Some(u) => links_to_uri(g, w, "about"@, u) || links_to_uri(g, w, "mentions"@, u),
        None => true,
    }
    &&& match live {
        Some(want) => true_prop(g, w, "liveCoverage"@) == want,
        None => true,
    }
    &&& within_dates(g, w, from, to)
}

/// With a date bound given, node `w` has a text `dateCreated` within the
/// bounds (inclusive, in text order); with none, no condition.
pub open spec fn within_dates(g: PropGraph, w: int, from: Option<Seq<char>>, to: Option<Seq<char>>) -> bool {
    (from is Some || to is Some) ==> match text_prop(g, w, "dateCreated"@) {
        Some(c) => (match from {
            Some(lo) => text_no_later(lo, c),
            None => true,
        }) && (match to {
            Some(hi) => text_no_later(c, hi),
            None => true,
        }),
        None => false,
    }
}

/// The node ids below `i` among `hits` that satisfy the facets, ascending.
pub open spec fn faceted_hits(
    g: PropGraph,
    hits: Seq<u32>,
    category: Option<Seq<char>>,
    audience: Option<Seq<char>>,
    tag: Option<Seq<char>>,
    live: Option<bool>,
    from: Option<Seq<char>>,
    to: Option<Seq<char>>,
    i: int,
) -> Seq<u32>
    decreases i,
{
    if i <= 0 {
        Seq::empty()
    } else if hits.contains((i - 1) as u32) && facets_hold(g, i - 1, category, audience, tag, live, from, to) {
        faceted_hits(g, hits, category, audience, tag, live, from, to, i - 1).push((i - 1) as u32)
    } else {
        faceted_hits(g, hits, category, audience, tag, live, from, to, i - 1)
    }
}

pub fn pinned_marks(g: &PropGraph, ty: &str, want: Option<&str>) -> (r: Vec<bool>)
    ensures
        r@.len() == id_limit(*g),
        forall|w: int| 0 <= w < r@.len() ==> #[trigger] r@[w] == pinned(*g, w, ty@, opt_text(want)),
{
    match want {
        Some(u) => marks_linked_to_uri(g, ty, u),
        None => {
            let lim = id_count(g);
            let mut marks: Vec<bool> = Vec::new();
            while marks.len() < lim
                invariant
                    marks@.len() <= lim,
                    forall|w: int| 0 <= w < marks@.len() ==> #[trigger] marks@[w],
                decreases lim - marks.len(),
            {
                marks.push(true);
            }
            marks
        },
    }
}

fn dated(g: &PropGraph, w: u32, from: Option<&str>, to: Option<&str>) -> (r: bool)
    ensures
        r == within_dates(*g, w as int, opt_text(from), opt_text(to)),
{
    if from.is_none() && to.is_none() {
        return true;
    }
    match text_prop_of(g, w, "dateCreated") {
        Some(c) => {
            let lo_ok = match from {
                Some(lo) => text_le(lo, c),
                None => true,
            };
            let hi_ok = match to {
                Some(hi) => text_le(c, hi),
                None => true,
            };
            lo_ok && hi_ok
        },
        None => false,
    }
}

/// Faceted search: the creative works among `hits` (the works whose `title`
/// the full-text query matched) that satisfy every bound facet (an unbound
/// facet matches anything), deduped, sorted by id and truncated to `limit`.
pub fn run(
    g: &PropGraph,
    hits: &Vec<u32>,
    category_uri: Option<&str>,
    audience_uri: Option<&str>,
    tag_uri: Option<&str>,
    live_coverage: Option<bool>,
    date_from: Option<&str>,
    date_to: Option<&str>,
    limit: usize,
) -> (r: Vec<u32>)
    ensures
        r@ == take_upto(
            faceted_hits(
                *g,
                hits@,
                opt_text(category_uri),
                opt_text(audience_uri),
                opt_text(tag_uri),
                live_coverage,
                opt_text(date_from),
                opt_text(date_to),
                id_limit(*g),
            ),
            limit as int,
        ),
{
    let lim = id_count(g);
    let marks = hit_marks(g, hits);
    let about = out_degrees(g, "about");
    let mentions = out_degrees(g, "mentions");
    let cats = pinned_marks(g, "category", category_uri);
    let auds = pinned_marks(g, "audience", audience_uri);
    let tag_about = pinned_marks(g, "about", tag_uri);
    let tag_mentions = pinned_marks(g, "mentions", tag_uri);
    let mut out: Vec<u32> = Vec::new();
    let mut i: usize = 0;
    while i < lim
        invariant
            lim == id_limit(*g),
            marks@.len() == lim,
            about@.len() == lim,
            mentions@.len() == lim,
            cats@.len() == lim,
            auds@.len() == lim,
            tag_about@.len() == lim,
            tag_mentions@.len() == lim,
            forall|w: int| 0 <= w < lim ==> #[trigger] marks@[w] == hits@.contains(w as u32),
            forall|w: int| 0 <= w < lim ==> #[trigger] about@[w] == targets(*g, w, "about"@).len(),
            forall|w: int| 0 <= w < lim ==> #[trigger] mentions@[w] == targets(*g, w, "mentions"@).len(),
            forall|w: int| 0 <= w < lim ==> #[trigger] cats@[w] == pinned(*g, w, "category"@, opt_text(category_uri)),
            forall|w: int| 0 <= w < lim ==> #[trigger] auds@[w] == pinned(*g, w, "audience"@, opt_text(audience_uri)),
            forall|w: int| 0 <= w < lim ==> #[trigger] tag_about@[w] == pinned(*g, w, "about"@, opt_text(tag_uri)),
            forall|w: int| 0 <= w < lim ==> #[trigger] tag_mentions@[w] == pinned(*g, w, "mentions"@, opt_text(tag_uri)),
            i <= lim,
            out@ == faceted_hits(
                *g,
                hits@,
                opt_text(category_uri),
                opt_text(audience_uri),
                opt_text(tag_uri),
                live_coverage,
                opt_text(date_from),
                opt_text(date_to),
                i as int,
            ),
        decreases lim - i,
    {
        let w = i as u32;
        let tagged = about[i] > 0 || mentions[i] > 0;
        let topic = match tag_uri {
            Some(_) => tag_about[i] || tag_mentions[i],
            None => true,
        };
        let live = match live_coverage {
            Some(want) => true_prop_of(g, w, "liveCoverage") == want,
            None => true,
        };
        if marks[i] && tagged && cats[i] && auds[i] && topic && live && dated(g, w, date_from, date_to) {
            out.push(w);
        }
        i = i + 1;
    }
    let ghost all = out@;
    out.truncate(limit);
    proof {
        assert(out@ =~= take_upto(all, limit as int));
    }
    out
}

/// The works come back sorted by id, each once: the ids strictly increase.
pub proof fn law_ids_increase(g: PropGraph, hits: Seq<u32>, category: Option<Seq<char>>, audience: Option<Seq<char>>, tag: Option<Seq<char>>, live: Option<bool>, from: Option<Seq<char>>, to: Option<Seq<char>>, i: int)
    requires
        i <= 0x1_0000_0000,
    ensures
        forall|p: int, q: int|
            0 <= p < q < faceted_hits(g, hits, category, audience, tag, live, from, to, i).len() ==> #[trigger] faceted_hits(g, hits, category, audience, tag, live, from, to, i)[p] < #[trigger] faceted_hits(g, hits, category, audience, tag, live, from, to, i)[q],
        forall|k: int| 0 <= k < faceted_hits(g, hits, category, audience, tag, live, from, to, i).len() ==> (#[trigger] faceted_hits(g, hits, category, audience, tag, live, from, to, i)[k] as int) < i,
    decreases i,
{
    if i > 0 {
        law_ids_increase(g, hits, category, audience, tag, live, from, to, i - 1);
        let prev = faceted_hits(g, hits, category, audience, tag, live, from, to, i - 1);
        let cur = faceted_hits(g, hits, category, audience, tag, live, from, to, i);
        assert(((i - 1) as u32) as int == i - 1);
        assert forall|k: int| 0 <= k < cur.len() implies (#[trigger] cur[k] as int) < i by {
            if k < prev.len() {
                assert(cur[k] == prev[k]);
            }
        }
        assert forall|p: int, q: int| 0 <= p < q < cur.len() implies #[trigger] cur[p] < #[trigger] cur[q] by {
            if q < prev.len() {
                assert(cur[p] == prev[p] && cur[q] == prev[q]);
            } else {
                assert(cur[p] == prev[p]);
                assert((prev[p] as int) < i - 1);
            }
        }
    }
}

} // verus!
