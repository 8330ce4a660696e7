//! SPB advanced query 20: the creative works that a full-text query matches
//! (in title or description), most recently modified first. The full-text
//! index belongs to the graph store; the matches come in as `hits`.
use vstd::prelude::*;
use crate::rdfgraph::{text_copy, PropGraph};
use crate::ranking::{newest_first, rank_newest, views};
use crate::spb::access::{filled_prop, filled_prop_of, hit_marks, id_count, id_limit};

verus! {

/// The `(node, dateModified)` rows of the node ids below `i` that are among
/// `hits` and have a non-empty `dateModified`.
pub open spec fn hit_rows(g: PropGraph, hits: Seq<u32>, i: int) -> Seq<(u32, Seq<char>)>
    decreases i,
{
    if i <= 0 {
        Seq::empty()
    } else if hits.contains((i - 1) as u32) && filled_prop(g, i - 1, "dateModified"@) is Some {
        hit_rows(g, hits, i - 1).push(((i - 1) as u32, filled_prop(g, i - 1, "dateModified"@).unwrap()))
    } else {
        hit_rows(g, hits, i - 1)
    }
}

/// The matching works, newest first, node id ascending on ties, the first
/// `limit`.
pub open spec fn fresh_hits(g: PropGraph, hits: Seq<u32>, limit: int) -> Seq<u32> {
    newest_first(hit_rows(g, hits, id_limit(g)), limit)
}

/// The creative works `hits` that the full-text query matched in their
/// `title` or `description`, ranked by `dateModified` descending (node id
/// ascending on ties; a work without a non-empty `dateModified` is left out)
/// and truncated to `limit`.
pub fn run(g: &PropGraph, hits: &Vec<u32>, limit: usize) -> (r: Vec<u32>)
    ensures
        r@ == fresh_hits(*g, hits@, limit as int),
{
    let lim = id_count(g);
    let marks = hit_marks(g, hits);
    let mut rows: Vec<(u32, String)> = Vec::new();
    let mut i: usize = 0;
    while i < lim
        invariant
            lim == id_limit(*g),
            marks@.len() == lim,
            forall|w: int| 0 <= w < lim ==> #[trigger] marks@[w] == hits@.contains(w as u32),
            i <= lim,
            views(rows@) == hit_rows(*g, hits@, i as int),
        decreases lim - i,
    {
        if marks[i] {
            match filled_prop_of(g, i as u32, "dateModified") {
                Some(t) => {
                    let ghost before = views(rows@);
                    rows.push((i as u32, text_copy(t)));
                    proof {
                        assert(views(rows@) =~= before.push((i as u32, t@)));
                    }
                },
                None => {},
            }
        }
        i = i + 1;
    }
    rank_newest(rows, limit)
}

} // verus!
