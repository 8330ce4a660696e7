//! SPB basic query 3: the creative works tagged with a topic (`about` or
//! `mentions` it), newest `dateCreated` first, up to a limit.
use vstd::prelude::*;
use crate::rdfgraph::PropGraph;
use crate::ranking::{newest_first, rank_newest};
use crate::spb::access::{node_by_uri, node_with_uri};
use crate::spb::tagging::{tagging_works, tagging_works_spec};

verus! {

/// The creative works that tag the node with IRI `topic_uri` and have a
/// `dateCreated`, newest first, node id ascending on ties, the first
/// `limit`; nothing when the IRI is unknown.
pub open spec fn fresh_works_on_topic(g: PropGraph, topic_uri: Seq<char>, limit: int) -> Seq<u32> {
    match node_with_uri(g, topic_uri) {
        Some(t) => newest_first(
            tagging_works_spec(g, "CreativeWork"@, t, "about"@, "mentions"@, "dateCreated"@, false),
            limit,
        ),
        None => Seq::empty(),
    }
}

/// All creative works that tag (`about` or `mentions`) the topic at
/// `topic_uri` and carry a `dateCreated`, newest first by `dateCreated`, ties
/// broken by node id, truncated to `limit`. Empty when the topic IRI is
/// unknown.
pub fn run(g: &PropGraph, topic_uri: &str, limit: usize) -> (r: Vec<u32>)
    ensures
        r@ == fresh_works_on_topic(*g, topic_uri@, limit as int),
{
    let topic = match node_by_uri(g, topic_uri) {
        Some(t) => t,
        None => return Vec::new(),
    };
    let rows = tagging_works(g, "CreativeWork", topic, "about", "mentions", "dateCreated", false);
    rank_newest(rows, limit)
}

} // verus!
