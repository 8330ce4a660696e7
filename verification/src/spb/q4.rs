//! SPB basic query 4: the blog posts about, or mentioning, a topic, newest
//! `dateCreated` first, up to a limit.
use vstd::prelude::*;
use crate::rdfgraph::PropGraph;
use crate::ranking::{newest_first, rank_newest};
use crate::spb::access::{node_by_uri, node_with_uri};
use crate::spb::tagging::{tagging_works, tagging_works_spec};

verus! {

/// The blog posts that tag the node with IRI `topic_uri` and have a
/// `dateCreated`, newest first, node id ascending on ties, the first `limit`;
/// nothing when the IRI is unknown.
pub open spec fn posts_on_topic(g: PropGraph, topic_uri: Seq<char>, limit: int) -> Seq<u32> {
    match node_with_uri(g, topic_uri) {
        Some(t) => newest_first(
            tagging_works_spec(g, "BlogPost"@, t, "about"@, "mentions"@, "dateCreated"@, false),
            limit,
        ),
        None => Seq::empty(),
    }
}

/// Blog posts `about` or `mentions` the topic at `topic_uri`, ranked by
/// `dateCreated` descending (node id ascending on ties), truncated to
/// `limit`. Empty when the topic IRI resolves to no node.
pub fn run(g: &PropGraph, topic_uri: &str, limit: usize) -> (r: Vec<u32>)
    ensures
        r@ == posts_on_topic(*g, topic_uri@, limit as int),
{
    let topic = match node_by_uri(g, topic_uri) {
        Some(t) => t,
        None => return Vec::new(),
    };
    let rows = tagging_works(g, "BlogPost", topic, "about", "mentions", "dateCreated", false);
    rank_newest(rows, limit)
}

} // verus!
