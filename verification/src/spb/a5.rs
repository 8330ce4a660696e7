//! SPB advanced query 5: the entities of one type that works in either of
//! two categories are about, by how many such works are about them.
use vstd::prelude::*;
use crate::rdfgraph::PropGraph;
use crate::ranking::{rank_rel, top_k_by_count, views};
use crate::spb::access::{has_label, id_count, id_limit, labelled};
use crate::spb::tally::{
    links_to_uri, marks_linked_to_uri, named_rows, node_count_rows, node_rows, tally, tally_into, with_uris,
};

verus! {

/// Node `w` is a creative work with a `category` relationship to the node
/// with IRI `cat1` or `cat2`.
pub open spec fn in_categories(g: PropGraph, w: int, cat1: Seq<char>, cat2: Seq<char>) -> bool {
    labelled(g, w, "CreativeWork"@) && (links_to_uri(g, w, "category"@, cat1) || links_to_uri(g, w, "category"@, cat2))
}

/// For every node id, whether it is a work in the categories.
pub open spec fn category_marks(g: PropGraph, cat1: Seq<char>, cat2: Seq<char>) -> Seq<bool> {
    Seq::new(id_limit(g) as nat, |w: int| in_categories(g, w, cat1, cat2))
}

/// How many `about` relationships of works in the categories reach node
/// `m`, for a node labelled `entity_label`; 0 for any other node.
pub open spec fn entity_count(g: PropGraph, entity_label: Seq<char>, cat1: Seq<char>, cat2: Seq<char>, m: int) -> usize {
    if labelled(g, m, entity_label) {
        tally(g, "about"@, category_marks(g, cat1, cat2), m) as usize
    } else {
        0usize
    }
}

/// For every node id, its count as an entity.
pub open spec fn entity_counts(g: PropGraph, entity_label: Seq<char>, cat1: Seq<char>, cat2: Seq<char>) -> Seq<usize> {
    Seq::new(id_limit(g) as nat, |m: int| entity_count(g, entity_label, cat1, cat2, m))
}

/// The entities with their counts, count descending then node id, the first
/// `limit`, each entity by IRI.
pub open spec fn entity_ranking(
    g: PropGraph,
    entity_label: Seq<char>,
    cat1: Seq<char>,
    cat2: Seq<char>,
    limit: int,
) -> Seq<(Seq<char>, usize)> {
    let rows = node_count_rows(entity_counts(g, entity_label, cat1, cat2), id_limit(g));
    named_rows(
        g,
        rows.sort_by(rank_rel::<(u32, usize)>()).take(
            if limit < rows.len() {
                limit
            } else {
                rows.len() as int
            },
        ),
    )
}

/// About-targets labelled `entity_label`, ranked by how many works
/// `category`-linked to `cat1` or `cat2` are about them. Returned as
/// `(entity IRI, count)` ordered by count descending then node id, truncated
/// to `limit`.
pub fn run(g: &PropGraph, entity_label: &str, cat1: &str, cat2: &str, limit: usize) -> (r: Vec<(String, usize)>)
    ensures
        views(r@) == entity_ranking(*g, entity_label@, cat1@, cat2@, limit as int),
{
    let lim = id_count(g);
    let first = marks_linked_to_uri(g, "category", cat1);
    let second = marks_linked_to_uri(g, "category", cat2);
    let mut marks: Vec<bool> = Vec::new();
    while marks.len() < lim
        invariant
            lim == id_limit(*g),
            first@.len() == lim,
            second@.len() == lim,
            forall|w: int| 0 <= w < lim ==> #[trigger] first@[w] == links_to_uri(*g, w, "category"@, cat1@),
            forall|w: int| 0 <= w < lim ==> #[trigger] second@[w] == links_to_uri(*g, w, "category"@, cat2@),
            marks@.len() <= lim,
            forall|w: int| 0 <= w < marks@.len() ==> #[trigger] marks@[w] == in_categories(*g, w, cat1@, cat2@),
        decreases lim - marks.len(),
    {
        let w = marks.len();
        let keep = (first[w] || second[w]) && has_label(g, w as u32, "CreativeWork");
        marks.push(keep);
    }
    let ghost from = category_marks(*g, cat1@, cat2@);
    proof {
        assert(marks@ =~= from);
    }
    let tallies = tally_into(g, "about", &marks);
    let mut counts: Vec<usize> = Vec::new();
    while counts.len() < lim
        invariant
            lim == id_limit(*g),
            marks@ == category_marks(*g, cat1@, cat2@),
            tallies@.len() == lim,
            forall|m: int| 0 <= m < lim ==> #[trigger] tallies@[m] == tally(*g, "about"@, marks@, m),
            counts@.len() <= lim,
            forall|m: int| 0 <= m < counts@.len() ==> #[trigger] counts@[m] == entity_count(*g, entity_label@, cat1@, cat2@, m),
        decreases lim - counts.len(),
    {
        let m = counts.len();
        let c = if has_label(g, m as u32, entity_label) {
            tallies[m]
        } else {
            0
        };
        proof {
            assert((m as u32) as int == m as int);
        }
        counts.push(c);
    }
    proof {
        assert(counts@ =~= entity_counts(*g, entity_label@, cat1@, cat2@));
    }
    let rows = node_rows(&counts);
    let top = top_k_by_count(rows, limit);
    with_uris(g, &top)
}

} // verus!
