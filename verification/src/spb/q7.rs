//! SPB basic query 7: the creative works of one type created within a
//! window, with a title and a live-coverage flag, whose `category` and
//! `audience` relationships are bound, optionally to given resources.
use vstd::prelude::*;
use crate::rdfgraph::PropGraph;
use crate::ranking::text_no_later;
use crate::spb::access::{has_label, has_prop, id_count, id_limit, labelled, opt_text, out_degrees, prop_of, targets, text_prop, text_prop_of};
use crate::spb::tally::{links_to_uri, marks_linked_to_uri};
use crate::textorder::text_le;

verus! {

/// Node `w` satisfies a facet of type `ty`: with `Some(uri)`, a relationship
/// of that type to the node with that IRI; with `None`, any relationship of
/// that type.
pub open spec fn facet_holds(g: PropGraph, w: int, ty: Seq<char>, want: Option<Seq<char>>) -> bool {
    match want {
        Some(u) => links_to_uri(g, w, ty, u),
        None => targets(g, w, ty).len() > 0,
    }
}

/// Node `w` is a work of `cw_type` created within `[after, before]` with a
/// `title` and a `liveCoverage`, satisfying both facets.
pub open spec fn faceted(
    g: PropGraph,
    w: int,
    cw_type: Seq<char>,
    after: Seq<char>,
    before: Seq<char>,
    category: Option<Seq<char>>,
    audience: Option<Seq<char>>,
) -> bool {
    &&& labelled(g, w, cw_type)
    &&& text_prop(g, w, "dateCreated"@) matches Some(t) && text_no_later(after, t) && text_no_later(t, before)
    &&& text_prop(g, w, "title"@) is Some
    &&& prop_of(g, w, "liveCoverage"@) is Some
    &&& facet_holds(g, w, "category"@, category)
    &&& facet_holds(g, w, "audience"@, audience)
}

/// The node ids below `i` that qualify, ascending.
pub open spec fn faceted_upto(
    g: PropGraph,
    cw_type: Seq<char>,
    after: Seq<char>,
    before: Seq<char>,
    category: Option<Seq<char>>,
    audience: Option<Seq<char>>,
    i: int,
) -> Seq<u32>
    decreases i,
{
    if i <= 0 {
        Seq::empty()
    } else if faceted(g, i - 1, cw_type, after, before, category, audience) {
        faceted_upto(g, cw_type, after, before, category, audience, i - 1).push((i - 1) as u32)
    } else {
        faceted_upto(g, cw_type, after, before, category, audience, i - 1)
    }
}

/// For every node id, whether it satisfies the facet of type `ty`.
pub fn facet_marks(g: &PropGraph, ty: &str, want: Option<&str>) -> (r: Vec<bool>)
    ensures
        r@.len() == id_limit(*g),
        forall|w: int| 0 <= w < r@.len() ==> #[trigger] r@[w] == facet_holds(*g, w, ty@, opt_text(want)),
{
    match want {
        Some(u) => marks_linked_to_uri(g, ty, u),
        None => {
            let lim = id_count(g);
            let degrees = out_degrees(g, ty);
            let mut marks: Vec<bool> = Vec::new();
            while marks.len() < lim
                invariant
                    lim == id_limit(*g),
                    degrees@.len() == lim,
                    forall|w: int| 0 <= w < lim ==> #[trigger] degrees@[w] == targets(*g, w, ty@).len(),
                    marks@.len() <= lim,
                    forall|w: int| 0 <= w < marks@.len() ==> #[trigger] marks@[w] == (targets(*g, w, ty@).len() > 0),
                decreases lim - marks.len(),
            {
                let w = marks.len();
                marks.push(degrees[w] > 0);
            }
            marks
        },
    }
}

/// Creative works labelled `cw_type` whose `dateCreated` lies in
/// `[after, before]` (in text order), that carry a `title` and a
/// `liveCoverage`, and whose `category` / `audience` relationships are bound,
/// to `category_uri` / `audience_uri` where given. Returned sorted by id.
pub fn run(
    g: &PropGraph,
    cw_type: &str,
    after: &str,
    before: &str,
    category_uri: Option<&str>,
    audience_uri: Option<&str>,
) -> (r: Vec<u32>)
    ensures
        r@ == faceted_upto(
            *g,
            cw_type@,
            after@,
            before@,
            opt_text(category_uri),
            opt_text(audience_uri),
            id_limit(*g),
        ),
{
    let lim = id_count(g);
    let cats = facet_marks(g, "category", category_uri);
    let auds = facet_marks(g, "audience", audience_uri);
    let mut out: Vec<u32> = Vec::new();
    let mut i: usize = 0;
    while i < lim
        invariant
            lim == id_limit(*g),
            cats@.len() == lim,
            auds@.len() == lim,
            forall|w: int| 0 <= w < lim ==> #[trigger] cats@[w] == facet_holds(*g, w, "category"@, opt_text(category_uri)),
            forall|w: int| 0 <= w < lim ==> #[trigger] auds@[w] == facet_holds(*g, w, "audience"@, opt_text(audience_uri)),
            i <= lim,
            out@ == faceted_upto(*g, cw_type@, after@, before@, opt_text(category_uri), opt_text(audience_uri), i as int),
        decreases lim - i,
    {
        let w = i as u32;
        let dated = match text_prop_of(g, w, "dateCreated") {
            Some(t) => text_le(after, t) && text_le(t, before),
            None => false,
        };
        if dated && cats[i] && auds[i] && has_label(g, w, cw_type) && text_prop_of(g, w, "title").is_some() && has_prop(
            g,
            w,
            "liveCoverage",
        ) {
            out.push(w);
        }
        i = i + 1;
    }
    out
}

/// The works come back sorted by id, each once: the ids strictly increase.
pub proof fn law_ids_increase(g: PropGraph, cw_type: Seq<char>, after: Seq<char>, before: Seq<char>, category: Option<Seq<char>>, audience: Option<Seq<char>>, i: int)
    requires
        i <= 0x1_0000_0000,
    ensures
        forall|p: int, q: int|
            0 <= p < q < faceted_upto(g, cw_type, after, before, category, audience, i).len() ==> #[trigger] faceted_upto(g, cw_type, after, before, category, audience, i)[p] < #[trigger] faceted_upto(g, cw_type, after, before, category, audience, i)[q],
        forall|k: int| 0 <= k < faceted_upto(g, cw_type, after, before, category, audience, i).len() ==> (#[trigger] faceted_upto(g, cw_type, after, before, category, audience, i)[k] as int) < i,
    decreases i,
{
    if i > 0 {
        law_ids_increase(g, cw_type, after, before, category, audience, i - 1);
        let prev = faceted_upto(g, cw_type, after, before, category, audience, i - 1);
        let cur = faceted_upto(g, cw_type, after, before, category, audience, i);
        assert(((i - 1) as u32) as int == i - 1);
        assert forall|k: int| 0 <= k < cur.len() implies (#[trigger] cur[k] as int) < i by {
            if k < prev.len() {
                assert(cur[k] == prev[k]);
            }
        }
        assert forall|p: int, q: int| 0 <= p < q < cur.len() implies #[trigger] cur[p] < #[trigger] cur[q] by {
            if q < prev.len() {
                assert(cur[p] == prev[p] && cur[q] == prev[q]);
            } else {
                assert(cur[p] == prev[p]);
                assert((prev[p] as int) < i - 1);
            }
        }
    }
}

} // verus!
