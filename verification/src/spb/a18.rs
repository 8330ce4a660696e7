//! SPB advanced query 18: the most recently modified creative works of one
//! type within a window, among those with a title, a live-coverage flag and
//! `category` and `audience` relationships.
use vstd::prelude::*;
use crate::rdfgraph::{text_copy, PropGraph};
use crate::ranking::{newest_first, rank_newest, text_no_later, views};
use crate::spb::access::{has_label, has_prop, id_count, id_limit, labelled, out_degrees, prop_of, targets, text_prop, text_prop_of};
use crate::textorder::text_le;

verus! {

/// The `dateModified` of node `w` when it is a work of `cw_type` dated within
/// `[after, before]` with a `title`, a `liveCoverage` and at least one
/// `category` and one `audience` relationship.
pub open spec fn bound_stamp(g: PropGraph, w: int, cw_type: Seq<char>, after: Seq<char>, before: Seq<char>) -> Option<Seq<char>> {
    match text_prop(g, w, "dateModified"@) {
        Some(t) => if labelled(g, w, cw_type) && text_no_later(after, t) && text_no_later(t, before) && text_prop(
            g,
            w,
            "title"@,
        ) is Some && prop_of(g, w, "liveCoverage"@) is Some && targets(g, w, "category"@).len() > 0 && targets(
            g,
            w,
            "audience"@,
        ).len() > 0 {
            Some(t)
        } else {
            None
        },
        None => None,
    }
}

/// The `(node, dateModified)` rows of the node ids below `i` that qualify.
pub open spec fn bound_rows(g: PropGraph, cw_type: Seq<char>, after: Seq<char>, before: Seq<char>, i: int) -> Seq<(u32, Seq<char>)>
    decreases i,
{
    if i <= 0 {
        Seq::empty()
    } else {
        match bound_stamp(g, i - 1, cw_type, after, before) {
            Some(t) => bound_rows(g, cw_type, after, before, i - 1).push(((i - 1) as u32, t)),
            None => bound_rows(g, cw_type, after, before, i - 1),
        }
    }
}

/// The qualifying works, newest first, node id ascending on ties, the first
/// `limit`.
pub open spec fn recent_bound_works(g: PropGraph, cw_type: Seq<char>, after: Seq<char>, before: Seq<char>, limit: int) -> Seq<u32> {
    newest_first(bound_rows(g, cw_type, after, before, id_limit(g)), limit)
}

/// The `limit` most recently modified creative works labelled `cw_type` whose
/// `dateModified` lies in `[after, before]` (in text order) and that carry a
/// `title`, a `liveCoverage`, and `category` and `audience` relationships;
/// ordered by `dateModified` descending, node id breaking ties.
pub fn run(g: &PropGraph, cw_type: &str, after: &str, before: &str, limit: usize) -> (r: Vec<u32>)
    ensures
        r@ == recent_bound_works(*g, cw_type@, after@, before@, limit as int),
{
    let lim = id_count(g);
    let categories = out_degrees(g, "category");
    let audiences = out_degrees(g, "audience");
    let mut rows: Vec<(u32, String)> = Vec::new();
    let mut i: usize = 0;
    while i < lim
        invariant
            lim == id_limit(*g),
            categories@.len() == lim,
            audiences@.len() == lim,
            forall|w: int| 0 <= w < lim ==> #[trigger] categories@[w] == targets(*g, w, "category"@).len(),
            forall|w: int| 0 <= w < lim ==> #[trigger] audiences@[w] == targets(*g, w, "audience"@).len(),
            i <= lim,
            views(rows@) == bound_rows(*g, cw_type@, after@, before@, i as int),
        decreases lim - i,
    {
        let w = i as u32;
        match text_prop_of(g, w, "dateModified") {
            Some(t) => {
                if text_le(after, t) && text_le(t, before) && has_label(g, w, cw_type) && text_prop_of(
                    g,
                    w,
                    "title",
                ).is_some() && has_prop(g, w, "liveCoverage") && categories[i] > 0 && audiences[i] > 0 {
                    let ghost before_rows = views(rows@);
                    rows.push((w, text_copy(t)));
                    proof {
                        assert(views(rows@) =~= before_rows.push((w, t@)));
                    }
                }
            },
            None => {},
        }
        i = i + 1;
    }
    rank_newest(rows, limit)
}

} // verus!
