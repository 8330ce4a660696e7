//! SPB advanced query 4: the creative work subtypes by how many of their
//! works were modified within a time window.
use vstd::prelude::*;
use crate::rdfgraph::{text_copy, PropGraph};
use crate::ranking::{sort_and_take, take_upto, view_rel, views};
use crate::spb::access::{filled_prop, filled_prop_of, has_label, id_count, id_limit, labelled};
use crate::textorder::{text_before, text_lt};

verus! {

/// Node `w` carries `label` and a non-empty `dateModified` strictly between
/// `after` and `before`.
pub open spec fn modified_within(g: PropGraph, w: int, label: Seq<char>, after: Seq<char>, before: Seq<char>) -> bool {
    &&& labelled(g, w, label)
    &&& filled_prop(g, w, "dateModified"@) matches Some(t) && text_before(after, t) && text_before(t, before)
}

/// How many of the node ids below `i` are such nodes.
pub open spec fn window_count(g: PropGraph, label: Seq<char>, after: Seq<char>, before: Seq<char>, i: int) -> nat
    decreases i,
{
    if i <= 0 {
        0
    } else {
        window_count(g, label, after, before, i - 1) + if modified_within(g, i - 1, label, after, before) {
            1nat
        } else {
            0nat
        }
    }
}

/// `[(label, count)]` when the count of `label` in the window is positive.
pub open spec fn subtype_row(g: PropGraph, label: Seq<char>, after: Seq<char>, before: Seq<char>) -> Seq<(Seq<char>, usize)> {
    let c = window_count(g, label, after, before, id_limit(g));
    if c > 0 {
        seq![(label, c as usize)]
    } else {
        Seq::empty()
    }
}

/// The subtypes `BlogPost`, `NewsItem` and `Programme` with their counts in
/// the window, count descending then name, the first `limit`.
pub open spec fn subtypes_in_window(g: PropGraph, after: Seq<char>, before: Seq<char>, limit: int) -> Seq<(Seq<char>, usize)> {
    take_upto(
        (subtype_row(g, "BlogPost"@, after, before) + subtype_row(g, "NewsItem"@, after, before) + subtype_row(
            g,
            "Programme"@,
            after,
            before,
        )).sort_by(view_rel::<(String, usize)>()),
        limit,
    )
}

fn count_in_window(g: &PropGraph, label: &str, after: &str, before: &str) -> (r: usize)
    ensures
        r == window_count(*g, label@, after@, before@, id_limit(*g)),
{
    let lim = id_count(g);
    let mut count: usize = 0;
    let mut i: usize = 0;
    while i < lim
        invariant
            lim == id_limit(*g),
            i <= lim,
            count == window_count(*g, label@, after@, before@, i as int),
            count <= i,
        decreases lim - i,
    {
        let w = i as u32;
        if has_label(g, w, label) {
            match filled_prop_of(g, w, "dateModified") {
                Some(t) => {
                    if text_lt(after, t) && text_lt(t, before) {
                        count = count + 1;
                    }
                },
                None => {},
            }
        }
        i = i + 1;
    }
    count
}

fn push_subtype(g: &PropGraph, label: &str, after: &str, before: &str, rows: &mut Vec<(String, usize)>)
    ensures
        views(final(rows)@) == views(old(rows)@) + subtype_row(*g, label@, after@, before@),
{
    let c = count_in_window(g, label, after, before);
    if c > 0 {
        rows.push((text_copy(label), c));
        proof {
            assert(views(final(rows)@) =~= views(old(rows)@) + seq![(label@, c)]);
        }
    } else {
        proof {
            assert(views(final(rows)@) =~= views(old(rows)@) + Seq::<(Seq<char>, usize)>::empty());
        }
    }
}

/// Creative-work subtypes ranked by how many of their works have a
/// `dateModified` strictly within `(after, before)`. Returned as
/// `(subtype name, count)` ordered by count descending then name ascending,
/// truncated to `limit`; a subtype without such works is left out.
pub fn run(g: &PropGraph, after: &str, before: &str, limit: usize) -> (r: Vec<(String, usize)>)
    ensures
        views(r@) == subtypes_in_window(*g, after@, before@, limit as int),
{
    let mut rows: Vec<(String, usize)> = Vec::new();
    proof {
        assert(views(rows@) =~= Seq::<(Seq<char>, usize)>::empty());
    }
    push_subtype(g, "BlogPost", after, before, &mut rows);
    push_subtype(g, "NewsItem", after, before, &mut rows);
    push_subtype(g, "Programme", after, before, &mut rows);
    proof {
        assert(Seq::<(Seq<char>, usize)>::empty() + subtype_row(*g, "BlogPost"@, after@, before@) =~= subtype_row(
            *g,
            "BlogPost"@,
            after@,
            before@,
        ));
    }
    sort_and_take(rows, limit)
}

} // verus!
