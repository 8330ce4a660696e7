//! SPB advanced query 6: the types of the entities that live-covered works
//! for one audience are about, by how many `(work, about)` pairs they cover.
use vstd::prelude::*;
use crate::rdfgraph::{text_copy, PropGraph};
use crate::ranking::{sort_and_take, take_upto, view_rel, views};
use crate::spb::access::{has_label, id_count, id_limit, labelled, true_prop, true_prop_of};
use crate::spb::tally::{label_tally, links_to_uri, marks_linked_to_uri, tally_into_label};

verus! {

/// Node `w` is a creative work whose `liveCoverage` flag (false unless the
/// boolean `true`) equals `live_coverage`, for the audience with IRI
/// `audience_uri`.
pub open spec fn covered(g: PropGraph, w: int, live_coverage: bool, audience_uri: Seq<char>) -> bool {
    labelled(g, w, "CreativeWork"@) && true_prop(g, w, "liveCoverage"@) == live_coverage && links_to_uri(
        g,
        w,
        "audience"@,
        audience_uri,
    )
}

/// For every node id, whether it is such a work.
pub open spec fn covered_marks(g: PropGraph, live_coverage: bool, audience_uri: Seq<char>) -> Seq<bool> {
    Seq::new(id_limit(g) as nat, |w: int| covered(g, w, live_coverage, audience_uri))
}

/// `[(ty, count)]` when the `about` relationships of such works reach nodes
/// labelled `ty` a positive number of times.
pub open spec fn type_row(g: PropGraph, ty: Seq<char>, live_coverage: bool, audience_uri: Seq<char>) -> Seq<(Seq<char>, usize)> {
    let c = label_tally(g, "about"@, covered_marks(g, live_coverage, audience_uri), ty);
    if c > 0 {
        seq![(ty, c as usize)]
    } else {
        Seq::empty()
    }
}

/// The entity types `Company`, `Event` and the materialised `Thing` with
/// their counts, count descending then name, the first `limit`.
pub open spec fn entity_types(g: PropGraph, live_coverage: bool, audience_uri: Seq<char>, limit: int) -> Seq<(Seq<char>, usize)> {
    take_upto(
        (type_row(g, "Company"@, live_coverage, audience_uri) + type_row(g, "Event"@, live_coverage, audience_uri)
            + type_row(g, "Thing"@, live_coverage, audience_uri)).sort_by(view_rel::<(String, usize)>()),
        limit,
    )
}

fn push_type(
    g: &PropGraph,
    ty: &str,
    marks: &Vec<bool>,
    live_coverage: bool,
    audience_uri: &str,
    rows: &mut Vec<(String, usize)>,
)
    requires
        marks@ == covered_marks(*g, live_coverage, audience_uri@),
    ensures
        views(final(rows)@) == views(old(rows)@) + type_row(*g, ty@, live_coverage, audience_uri@),
{
    let c = tally_into_label(g, "about", marks, ty);
    if c > 0 {
        rows.push((text_copy(ty), c));
        proof {
            assert(views(final(rows)@) =~= views(old(rows)@) + seq![(ty@, c)]);
        }
    } else {
        proof {
            assert(views(final(rows)@) =~= views(old(rows)@) + Seq::<(Seq<char>, usize)>::empty());
        }
    }
}

/// About-entity types ranked by how many `(work, about)` pairs they cover,
/// over creative works whose `liveCoverage` equals `live_coverage` and that
/// carry an `audience` relationship to `audience_uri`. Returned as
/// `(type name, count)` ordered by count descending then name, truncated to
/// `limit`.
pub fn run(g: &PropGraph, live_coverage: bool, audience_uri: &str, limit: usize) -> (r: Vec<(String, usize)>)
    ensures
        views(r@) == entity_types(*g, live_coverage, audience_uri@, limit as int),
{
    let lim = id_count(g);
    let audience = marks_linked_to_uri(g, "audience", audience_uri);
    let mut marks: Vec<bool> = Vec::new();
    while marks.len() < lim
        invariant
            lim == id_limit(*g),
            audience@.len() == lim,
            forall|w: int| 0 <= w < lim ==> #[trigger] audience@[w] == links_to_uri(*g, w, "audience"@, audience_uri@),
            marks@.len() <= lim,
            forall|w: int| 0 <= w < marks@.len() ==> #[trigger] marks@[w] == covered(*g, w, live_coverage, audience_uri@),
        decreases lim - marks.len(),
    {
        let w = marks.len();
        let keep = audience[w] && has_label(g, w as u32, "CreativeWork") && true_prop_of(g, w as u32, "liveCoverage")
            == live_coverage;
        marks.push(keep);
    }
    proof {
        assert(marks@ =~= covered_marks(*g, live_coverage, audience_uri@));
    }
    let mut rows: Vec<(String, usize)> = Vec::new();
    proof {
        assert(views(rows@) =~= Seq::<(Seq<char>, usize)>::empty());
    }
    push_type(g, "Company", &marks, live_coverage, audience_uri, &mut rows);
    push_type(g, "Event", &marks, live_coverage, audience_uri, &mut rows);
    push_type(g, "Thing", &marks, live_coverage, audience_uri, &mut rows);
    proof {
        assert(Seq::<(Seq<char>, usize)>::empty() + type_row(*g, "Company"@, live_coverage, audience_uri@) =~= type_row(
            *g,
            "Company"@,
            live_coverage,
            audience_uri@,
        ));
    }
    sort_and_take(rows, limit)
}

} // verus!
