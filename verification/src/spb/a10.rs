//! SPB advanced query 10: the creative works with the most `mentions`.
use vstd::prelude::*;
use crate::rdfgraph::PropGraph;
use crate::ranking::{sort_and_take, take_upto, view_rel, views, ViewOrder};
use crate::spb::a9::max_mentions_upto;
use crate::spb::access::{
    filled_prop, filled_prop_of, has_label, id_count, id_limit, labelled, out_degrees, targets, uri_or_mark, uri_text,
};

verus! {

/// The `(IRI, mentions)` rows of the creative works below node id `i` that
/// carry exactly `m` mentions and a non-empty `dateCreated`.
pub open spec fn rows_with_mentions(g: PropGraph, m: nat, i: int) -> Seq<(Seq<char>, usize)>
    decreases i,
{
    if i <= 0 {
        Seq::empty()
    } else {
        let before = rows_with_mentions(g, m, i - 1);
        if labelled(g, i - 1, "CreativeWork"@) && targets(g, i - 1, "mentions"@).len() == m && filled_prop(
            g,
            i - 1,
            "dateCreated"@,
        ) is Some {
            before.push((uri_or_mark(g, i - 1), m as usize))
        } else {
            before
        }
    }
}

/// The creative works whose mention count is the maximum over all works and
/// that carry a `dateCreated`, by IRI, the first `limit`; nothing when no work
/// mentions anything.
pub open spec fn most_mentioning(g: PropGraph, limit: int) -> Seq<(Seq<char>, usize)> {
    let m = max_mentions_upto(g, id_limit(g));
    if m == 0 {
        Seq::empty()
    } else {
        take_upto(rows_with_mentions(g, m, id_limit(g)).sort_by(view_rel::<(String, usize)>()), limit)
    }
}

/// Creative works whose outgoing `mentions` count equals the maximum over
/// all works and which carry a `dateCreated`, as `(work IRI, mentions)`
/// ordered by IRI, truncated to `limit`.
pub fn run(g: &PropGraph, limit: usize) -> (r: Vec<(String, usize)>)
    ensures
        views(r@) == most_mentioning(*g, limit as int),
{
    let best = crate::spb::a9::run(g);
    if best == 0 {
        return Vec::new();
    }
    let lim = id_count(g);
    let degrees = out_degrees(g, "mentions");
    let mut rows: Vec<(String, usize)> = Vec::new();
    let mut i: usize = 0;
    while i < lim
        invariant
            lim == id_limit(*g),
            degrees@.len() == lim,
            forall|w: int| 0 <= w < lim ==> #[trigger] degrees@[w] == targets(*g, w, "mentions"@).len(),
            i <= lim,
            best == max_mentions_upto(*g, lim as int),
            views(rows@) == rows_with_mentions(*g, best as nat, i as int),
        decreases lim - i,
    {
        let w = i as u32;
        if degrees[i] == best && has_label(g, w, "CreativeWork") && filled_prop_of(g, w, "dateCreated").is_some() {
            let row = (uri_text(g, w), best);
            rows.push(row);
            proof {
                assert(views(rows@) =~= rows_with_mentions(*g, best as nat, i as int).push(
                    (uri_or_mark(*g, w as int), best),
                ));
            }
        }
        i = i + 1;
    }
    sort_and_take(rows, limit)
}

proof fn lemma_rows_carry(g: PropGraph, m: nat, i: int)
    ensures
        forall|k: int| 0 <= k < rows_with_mentions(g, m, i).len() ==> (#[trigger] rows_with_mentions(g, m, i)[k]).1 == m as usize,
    decreases i,
{
    if i > 0 {
        lemma_rows_carry(g, m, i - 1);
        let prev = rows_with_mentions(g, m, i - 1);
        let rows = rows_with_mentions(g, m, i);
        assert forall|k: int| 0 <= k < rows.len() implies (#[trigger] rows[k]).1 == m as usize by {
            if k < prev.len() {
                assert(rows[k] == prev[k]);
            }
        }
    }
}

/// Every work that query 10 returns carries the largest number of
/// mentions of any creative work, the number that query 9 reports.
pub proof fn law_rows_carry_the_maximum(g: PropGraph, limit: int)
    requires
        0 <= limit,
    ensures
        forall|k: int|
            0 <= k < most_mentioning(g, limit).len() ==> (#[trigger] most_mentioning(g, limit)[k]).1
                == max_mentions_upto(g, id_limit(g)) as usize,
{
    let m = max_mentions_upto(g, id_limit(g));
    if m > 0 {
        let rows = rows_with_mentions(g, m, id_limit(g));
        let rel = view_rel::<(String, usize)>();
        <(String, usize)>::lemma_view_total();
        assert(rel == |x: (Seq<char>, usize), y: (Seq<char>, usize)| <(String, usize)>::view_le(x, y));
        rows.lemma_sort_by_ensures(rel);
        lemma_rows_carry(g, m, id_limit(g));
        let sorted = rows.sort_by(rel);
        let out = most_mentioning(g, limit);
        assert forall|k: int| 0 <= k < out.len() implies (#[trigger] out[k]).1 == m as usize by {
            broadcast use vstd::seq_lib::group_to_multiset_ensures;
            assert(out[k] == sorted[k]);
            assert(sorted.contains(sorted[k]));
            assert(rows.contains(sorted[k]));
            let q = choose|q: int| 0 <= q < rows.len() && rows[q] == sorted[k];
            assert(rows[q].1 == m as usize);
        }
    }
}

} // verus!
