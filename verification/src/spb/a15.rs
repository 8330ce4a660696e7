//! SPB advanced query 15: the creative works matching a full-text query on
//! their title that carry a category and whose about- and mentions-targets
//! share the entity type `Thing`. The full-text index belongs to the graph
//! store; the matches come in as `hits`.
use vstd::prelude::*;
use crate::rdfgraph::PropGraph;
use crate::ranking::take_upto;
use crate::spb::access::{has_label, hit_marks, id_count, id_limit, labelled, out_degrees, targets};
use crate::spb::tally::{links_to_marked, marks_linked_to};

verus! {

/// For every node id, whether it carries the label `Thing`.
pub open spec fn things(g: PropGraph) -> Seq<bool> {
    Seq::new(id_limit(g) as nat, |n: int| labelled(g, n, "Thing"@))
}

/// Node `w` is among `hits`, has a `category` relationship, and has both an
/// `about` and a `mentions` relationship to nodes of type `Thing`, the one
/// entity type that about- and mentions-targets share.
pub open spec fn shares_thing(g: PropGraph, hits: Seq<u32>, w: int) -> bool {
    &&& hits.contains(w as u32)
    &&& targets(g, w, "category"@).len() > 0
    &&& links_to_marked(g, w, "about"@, things(g))
    &&& links_to_marked(g, w, "mentions"@, things(g))
}

/// The node ids below `i` that qualify, ascending.
pub open spec fn sharing_upto(g: PropGraph, hits: Seq<u32>, i: int) -> Seq<u32>
    decreases i,
{
    if i <= 0 {
        Seq::empty()
    } else if shares_thing(g, hits, i - 1) {
        sharing_upto(g, hits, i - 1).push((i - 1) as u32)
    } else {
        sharing_upto(g, hits, i - 1)
    }
}

/// The distinct creative works among `hits` (the works whose `title` the
/// full-text query matched) that carry a `category` relationship and an
/// about-target and a mentions-target both of type `Thing`, sorted by id and
/// truncated to `limit`.
pub fn run(g: &PropGraph, hits: &Vec<u32>, limit: usize) -> (r: Vec<u32>)
    ensures
        r@ == take_upto(sharing_upto(*g, hits@, id_limit(*g)), limit as int),
{
    let lim = id_count(g);
    let marks = hit_marks(g, hits);
    let cats = out_degrees(g, "category");
    let mut thing: Vec<bool> = Vec::new();
    while thing.len() < lim
        invariant
            lim == id_limit(*g),
            thing@.len() <= lim,
            forall|n: int| 0 <= n < thing@.len() ==> #[trigger] thing@[n] == labelled(*g, n, "Thing"@),
        decreases lim - thing.len(),
    {
        let n = thing.len();
        thing.push(has_label(g, n as u32, "Thing"));
    }
    proof {
        assert(thing@ =~= things(*g));
    }
    let about = marks_linked_to(g, "about", &thing);
    let mentions = marks_linked_to(g, "mentions", &thing);
    let mut out: Vec<u32> = Vec::new();
    let mut i: usize = 0;
    while i < lim
        invariant
            lim == id_limit(*g),
            marks@.len() == lim,
            cats@.len() == lim,
            about@.len() == lim,
            mentions@.len() == lim,
            forall|w: int| 0 <= w < lim ==> #[trigger] marks@[w] == hits@.contains(w as u32),
            forall|w: int| 0 <= w < lim ==> #[trigger] cats@[w] == targets(*g, w, "category"@).len(),
            forall|w: int| 0 <= w < lim ==> #[trigger] about@[w] == links_to_marked(*g, w, "about"@, things(*g)),
            forall|w: int| 0 <= w < lim ==> #[trigger] mentions@[w] == links_to_marked(*g, w, "mentions"@, things(*g)),
            i <= lim,
            out@ == sharing_upto(*g, hits@, i as int),
        decreases lim - i,
    {
        if marks[i] && cats[i] > 0 && about[i] && mentions[i] {
            out.push(i as u32);
        }
        i = i + 1;
    }
    let ghost all = out@;
    out.truncate(limit);
    proof {
        assert(out@ =~= take_upto(all, limit as int));
    }
    out
}

/// The works come back sorted by id, each once: the ids strictly increase.
pub proof fn law_ids_increase(g: PropGraph, hits: Seq<u32>, i: int)
    requires
        i <= 0x1_0000_0000,
    ensures
        forall|p: int, q: int|
            0 <= p < q < sharing_upto(g, hits, i).len() ==> #[trigger] sharing_upto(g, hits, i)[p] < #[trigger] sharing_upto(g, hits, i)[q],
        forall|k: int| 0 <= k < sharing_upto(g, hits, i).len() ==> (#[trigger] sharing_upto(g, hits, i)[k] as int) < i,
    decreases i,
{
    if i > 0 {
        law_ids_increase(g, hits, i - 1);
        let prev = sharing_upto(g, hits, i - 1);
        let cur = sharing_upto(g, hits, i);
        assert(((i - 1) as u32) as int == i - 1);
        assert forall|k: int| 0 <= k < cur.len() implies (#[trigger] cur[k] as int) < i by {
            if k < prev.len() {
                assert(cur[k] == prev[k]);
            }
        }
        assert forall|p: int, q: int| 0 <= p < q < cur.len() implies #[trigger] cur[p] < #[trigger] cur[q] by {
            if q < prev.len() {
                assert(cur[p] == prev[p] && cur[q] == prev[q]);
            } else {
                assert(cur[p] == prev[p]);
                assert((prev[p] as int) < i - 1);
            }
        }
    }
}

} // verus!
