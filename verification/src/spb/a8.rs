//! SPB advanced query 8: the topics tagged by works of one type, audience
//! and modification window, by how many such works tag them.
use vstd::prelude::*;
use crate::rdfgraph::PropGraph;
use crate::ranking::{sort_by_view, view_rel, views};
use crate::spb::access::{filled_prop, filled_prop_of, has_label, id_count, id_limit, labelled};
use crate::spb::tally::{links_to_uri, marks_linked_to_uri, tally, tally_into, uri_count_rows, uri_rows};
use crate::textorder::{text_before, text_lt};

verus! {

/// Node `w` is a work of `cw_type` for the audience with IRI `audience_uri`,
/// whose non-empty `dateModified` lies strictly between `after` and `before`.
pub open spec fn in_scope(
    g: PropGraph,
    w: int,
    cw_type: Seq<char>,
    audience_uri: Seq<char>,
    after: Seq<char>,
    before: Seq<char>,
) -> bool {
    &&& labelled(g, w, cw_type)
    &&& filled_prop(g, w, "dateModified"@) matches Some(t) && text_before(after, t) && text_before(t, before)
    &&& links_to_uri(g, w, "audience"@, audience_uri)
}

/// For every node id, whether it is such a work.
pub open spec fn scope_marks(
    g: PropGraph,
    cw_type: Seq<char>,
    audience_uri: Seq<char>,
    after: Seq<char>,
    before: Seq<char>,
) -> Seq<bool> {
    Seq::new(id_limit(g) as nat, |w: int| in_scope(g, w, cw_type, audience_uri, after, before))
}

/// The tagged topics by IRI with how many `tag` relationships of such works
/// reach them, count descending then IRI.
pub open spec fn tag_topics(
    g: PropGraph,
    cw_type: Seq<char>,
    audience_uri: Seq<char>,
    after: Seq<char>,
    before: Seq<char>,
) -> Seq<(Seq<char>, usize)> {
    let from = scope_marks(g, cw_type, audience_uri, after, before);
    uri_count_rows(
        g,
        Seq::new(id_limit(g) as nat, |m: int| tally(g, "tag"@, from, m) as usize),
        id_limit(g),
    ).sort_by(view_rel::<(String, usize)>())
}

/// Topics (`tag` targets) ranked by how many works of `cw_type` with audience
/// `audience_uri` and `dateModified` strictly within `(after, before)` tag
/// them. Returned as `(topic IRI, count)` ordered by count descending, then
/// IRI.
pub fn run(g: &PropGraph, cw_type: &str, audience_uri: &str, after: &str, before: &str) -> (r: Vec<(String, usize)>)
    ensures
        views(r@) == tag_topics(*g, cw_type@, audience_uri@, after@, before@),
{
    let lim = id_count(g);
    let audience = marks_linked_to_uri(g, "audience", audience_uri);
    let mut marks: Vec<bool> = Vec::new();
    while marks.len() < lim
        invariant
            lim == id_limit(*g),
            audience@.len() == lim,
            forall|w: int| 0 <= w < lim ==> #[trigger] audience@[w] == links_to_uri(*g, w, "audience"@, audience_uri@),
            marks@.len() <= lim,
            forall|w: int|
                0 <= w < marks@.len() ==> #[trigger] marks@[w] == in_scope(
                    *g,
                    w,
                    cw_type@,
                    audience_uri@,
                    after@,
                    before@,
                ),
        decreases lim - marks.len(),
    {
        let w = marks.len();
        let keep = audience[w] && has_label(g, w as u32, cw_type) && match filled_prop_of(g, w as u32, "dateModified") {
            Some(t) => text_lt(after, t) && text_lt(t, before),
            None => false,
        };
        marks.push(keep);
    }
    proof {
        assert(marks@ =~= scope_marks(*g, cw_type@, audience_uri@, after@, before@));
    }
    let counts = tally_into(g, "tag", &marks);
    proof {
        assert(counts@ =~= Seq::new(id_limit(*g) as nat, |m: int| tally(*g, "tag"@, marks@, m) as usize));
    }
    let rows = uri_rows(g, &counts);
    sort_by_view(rows)
}

} // verus!
