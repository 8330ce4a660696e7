//! The works that tag a topic: nodes of one label with an `about` or
//! `mentions` relationship to the topic node, each with its timestamp
//! property, ready to be ranked newest first.
use vstd::prelude::*;
use crate::rdfgraph::{text_copy, PropGraph};
use crate::ranking::views;
use crate::spb::access::{
    filled_prop, filled_prop_of, has_label, id_count, id_limit, labelled, linked_into, targets, text_prop,
    text_prop_of,
};

verus! {

/// The timestamp `key` of node `w`: its text, required to be non-empty when
/// `filled`.
pub open spec fn stamp_of(g: PropGraph, w: int, key: Seq<char>, filled: bool) -> Option<Seq<char>> {
    if filled {
        filled_prop(g, w, key)
    } else {
        text_prop(g, w, key)
    }
}

/// Node `w` carries `label` and has a `p1` or `p2` relationship to `topic`.
pub open spec fn tags_topic(g: PropGraph, w: int, label: Seq<char>, topic: u32, p1: Seq<char>, p2: Seq<char>) -> bool {
    labelled(g, w, label) && (targets(g, w, p1).contains(topic) || targets(g, w, p2).contains(topic))
}

/// The `(node, timestamp)` rows of the node ids below `i` that tag `topic`
/// and have the timestamp, in id order.
pub open spec fn tagging_rows(
    g: PropGraph,
    label: Seq<char>,
    topic: u32,
    p1: Seq<char>,
    p2: Seq<char>,
    key: Seq<char>,
    filled: bool,
    i: int,
) -> Seq<(u32, Seq<char>)>
    decreases i,
{
    if i <= 0 {
        Seq::empty()
    } else {
        let before = tagging_rows(g, label, topic, p1, p2, key, filled, i - 1);
        if tags_topic(g, i - 1, label, topic, p1, p2) && stamp_of(g, i - 1, key, filled) is Some {
            before.push(((i - 1) as u32, stamp_of(g, i - 1, key, filled).unwrap()))
        } else {
            before
        }
    }
}

/// The works that tag `topic` with their timestamps.
pub open spec fn tagging_works_spec(
    g: PropGraph,
    label: Seq<char>,
    topic: u32,
    p1: Seq<char>,
    p2: Seq<char>,
    key: Seq<char>,
    filled: bool,
) -> Seq<(u32, Seq<char>)> {
    tagging_rows(g, label, topic, p1, p2, key, filled, id_limit(g))
}

fn stamp_text<'a>(g: &'a PropGraph, w: u32, key: &str, filled: bool) -> (r: Option<&'a str>)
    ensures
        match r {
            Some(s) => stamp_of(*g, w as int, key@, filled) == Some(s@),
            None => stamp_of(*g, w as int, key@, filled) is None,
        },
{
    if filled {
        filled_prop_of(g, w, key)
    } else {
        text_prop_of(g, w, key)
    }
}

/// The nodes labelled `label` with a `p1` or `p2` relationship to `topic`
/// and the timestamp `key` (non-empty when `filled`), as `(node, timestamp)`
/// rows in id order.
pub fn tagging_works(g: &PropGraph, label: &str, topic: u32, p1: &str, p2: &str, key: &str, filled: bool) -> (r: Vec<
    (u32, String),
>)
    ensures
        views(r@) == tagging_works_spec(*g, label@, topic, p1@, p2@, key@, filled),
{
    let lim = id_count(g);
    let first = linked_into(g, topic, p1);
    let second = linked_into(g, topic, p2);
    let mut rows: Vec<(u32, String)> = Vec::new();
    let mut i: usize = 0;
    while i < lim
        invariant
            lim == id_limit(*g),
            first@.len() == lim,
            second@.len() == lim,
            forall|w: int| 0 <= w < lim ==> #[trigger] first@[w] == targets(*g, w, p1@).contains(topic),
            forall|w: int| 0 <= w < lim ==> #[trigger] second@[w] == targets(*g, w, p2@).contains(topic),
            i <= lim,
            views(rows@) == tagging_rows(*g, label@, topic, p1@, p2@, key@, filled, i as int),
        decreases lim - i,
    {
        let w = i as u32;
        if (first[i] || second[i]) && has_label(g, w, label) {
            match stamp_text(g, w, key, filled) {
                Some(s) => {
                    let row = (w, text_copy(s));
                    rows.push(row);
                    proof {
                        assert(views(rows@) =~= tagging_rows(*g, label@, topic, p1@, p2@, key@, filled, i as int).push(
                            (w, s@),
                        ));
                    }
                },
                None => {},
            }
        }
        i = i + 1;
    }
    rows
}

} // verus!
