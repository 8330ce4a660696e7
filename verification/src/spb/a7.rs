//! SPB advanced query 7: the most mentioned topics among creative works that
//! are the primary content of more than a threshold number of resources.
use vstd::prelude::*;
use crate::rdfgraph::PropGraph;
use crate::ranking::{sort_and_take, take_upto, view_rel, views};
use crate::spb::access::{has_label, id_count, id_limit, labelled, out_degrees, targets};
use crate::spb::tally::{tally, tally_into, uri_count_rows, uri_rows};

verus! {

/// Node `w` is a creative work with more than `min_pc` `primaryContentOf`
/// relationships.
pub open spec fn prolific(g: PropGraph, w: int, min_pc: usize) -> bool {
    labelled(g, w, "CreativeWork"@) && targets(g, w, "primaryContentOf"@).len() > min_pc
}

/// For every node id, whether it is such a work.
pub open spec fn prolific_marks(g: PropGraph, min_pc: usize) -> Seq<bool> {
    Seq::new(id_limit(g) as nat, |w: int| prolific(g, w, min_pc))
}

/// For every node id, how many `mentions` relationships of such works reach it.
pub open spec fn mention_counts(g: PropGraph, min_pc: usize) -> Seq<usize> {
    Seq::new(id_limit(g) as nat, |m: int| tally(g, "mentions"@, prolific_marks(g, min_pc), m) as usize)
}

/// The mentioned nodes by IRI with their counts, count descending then IRI,
/// the first `limit`.
pub open spec fn top_mentioned(g: PropGraph, min_pc: usize, limit: int) -> Seq<(Seq<char>, usize)> {
    take_upto(
        uri_count_rows(g, mention_counts(g, min_pc), id_limit(g)).sort_by(view_rel::<(String, usize)>()),
        limit,
    )
}

/// Mention targets ranked by how many qualifying works mention them, a work
/// qualifying when its outgoing `primaryContentOf` count is strictly greater
/// than `min_primary_content`; each `(work, mention)` relationship counts.
/// Returned as `(mention IRI, count)` ordered by count descending then IRI,
/// truncated to `limit`.
pub fn run(g: &PropGraph, min_primary_content: usize, limit: usize) -> (r: Vec<(String, usize)>)
    ensures
        views(r@) == top_mentioned(*g, min_primary_content, limit as int),
{
    let lim = id_count(g);
    let degrees = out_degrees(g, "primaryContentOf");
    let mut marks: Vec<bool> = Vec::new();
    while marks.len() < lim
        invariant
            lim == id_limit(*g),
            degrees@.len() == lim,
            forall|w: int| 0 <= w < lim ==> #[trigger] degrees@[w] == targets(*g, w, "primaryContentOf"@).len(),
            marks@.len() <= lim,
            forall|w: int| 0 <= w < marks@.len() ==> #[trigger] marks@[w] == prolific(*g, w, min_primary_content),
        decreases lim - marks.len(),
    {
        let w = marks.len();
        let keep = degrees[w] > min_primary_content && has_label(g, w as u32, "CreativeWork");
        marks.push(keep);
    }
    proof {
        assert(marks@ =~= prolific_marks(*g, min_primary_content));
    }
    let counts = tally_into(g, "mentions", &marks);
    proof {
        assert(counts@ =~= mention_counts(*g, min_primary_content));
    }
    let rows = uri_rows(g, &counts);
    sort_and_take(rows, limit)
}

} // verus!
