//! SPB advanced query 9: the largest number of `mentions` carried by any
//! single creative work.
use vstd::prelude::*;
use crate::rdfgraph::PropGraph;
use crate::spb::access::{has_label, id_count, id_limit, labelled, out_degrees, targets};

verus! {

/// The most `mentions` relationships out of one creative work among the
/// first `i` node ids; 0 when there is none.
pub open spec fn max_mentions_upto(g: PropGraph, i: int) -> nat
    decreases i,
{
    if i <= 0 {
        0
    } else {
        let before = max_mentions_upto(g, i - 1);
        let here = if labelled(g, i - 1, "CreativeWork"@) {
            targets(g, i - 1, "mentions"@).len()
        } else {
            0
        };
        if here > before {
            here
        } else {
            before
        }
    }
}

/// The maximum number of outgoing `mentions` relationships on any single
/// creative work (0 when no work has any).
pub fn run(g: &PropGraph) -> (r: usize)
    ensures
        r == max_mentions_upto(*g, id_limit(*g)),
{
    let lim = id_count(g);
    let degrees = out_degrees(g, "mentions");
    let mut best: usize = 0;
    let mut i: usize = 0;
    while i < lim
        invariant
            lim == id_limit(*g),
            degrees@.len() == lim,
            forall|w: int| 0 <= w < lim ==> #[trigger] degrees@[w] == targets(*g, w, "mentions"@).len(),
            i <= lim,
            best == max_mentions_upto(*g, i as int),
        decreases lim - i,
    {
        if has_label(g, i as u32, "CreativeWork") && degrees[i] > best {
            best = degrees[i];
        }
        i = i + 1;
    }
    best
}

} // verus!
