//! SPB basic query 1: the creative works about, or mentioning, a thing,
//! most recently modified first. The query's projection only decorates the
//! rows; which works come back, and in what order, is decided by the works
//! that tag the topic and their required `dateModified`.
use vstd::prelude::*;
use crate::rdfgraph::PropGraph;
use crate::ranking::{newest_first, rank_newest};
use crate::spb::access::{node_by_uri, node_with_uri};
use crate::spb::tagging::{tagging_works, tagging_works_spec};

verus! {

/// The creative works that are `about` or `mention` the node with IRI
/// `topic_uri` and have a `dateModified`, newest first, node id ascending on
/// ties; nothing when the IRI is unknown.
pub open spec fn works_on_topic(g: PropGraph, topic_uri: Seq<char>) -> Seq<u32> {
    match node_with_uri(g, topic_uri) {
        Some(t) => {
            let rows = tagging_works_spec(g, "CreativeWork"@, t, "about"@, "mentions"@, "dateModified"@, false);
            newest_first(rows, rows.len() as int)
        },
        None => Seq::empty(),
    }
}

/// Creative works `about` or `mentions` the topic at `topic_uri`, ranked by
/// `dateModified` descending (node id ascending on ties). Empty when the
/// topic IRI resolves to no node.
pub fn run(g: &PropGraph, topic_uri: &str) -> (r: Vec<u32>)
    ensures
        r@ == works_on_topic(*g, topic_uri@),
{
    let topic = match node_by_uri(g, topic_uri) {
        Some(t) => t,
        None => return Vec::new(),
    };
    let rows = tagging_works(g, "CreativeWork", topic, "about", "mentions", "dateModified", false);
    let n = rows.len();
    rank_newest(rows, n)
}

} // verus!
