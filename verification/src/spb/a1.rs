//! SPB advanced query 1: the creative works that are `about` (or that
//! `mention`) a given thing, most recently modified first.
use vstd::prelude::*;
use crate::rdfgraph::PropGraph;
use crate::ranking::{newest_first, rank_newest};
use crate::spb::access::{node_by_uri, node_with_uri};
use crate::spb::tagging::{tagging_works, tagging_works_spec};

verus! {

/// The creative works with a `pred` relationship to the node with IRI
/// `thing_uri` and a non-empty `dateModified`, newest first, node id
/// ascending on ties; nothing when the IRI is unknown.
pub open spec fn works_by_predicate(g: PropGraph, pred: Seq<char>, thing_uri: Seq<char>) -> Seq<u32> {
    match node_with_uri(g, thing_uri) {
        Some(t) => {
            let rows = tagging_works_spec(g, "CreativeWork"@, t, pred, pred, "dateModified"@, true);
            newest_first(rows, rows.len() as int)
        },
        None => Seq::empty(),
    }
}

/// Creative works with a `pred` relationship (`about` or `mentions`) to the
/// node with IRI `thing_uri` and a non-empty `dateModified`, ordered by
/// `dateModified` descending then node id ascending. Empty when the thing is
/// unknown.
pub fn run(g: &PropGraph, pred: &str, thing_uri: &str) -> (r: Vec<u32>)
    ensures
        r@ == works_by_predicate(*g, pred@, thing_uri@),
{
    let thing = match node_by_uri(g, thing_uri) {
        Some(t) => t,
        None => return Vec::new(),
    };
    let rows = tagging_works(g, "CreativeWork", thing, pred, pred, "dateModified", true);
    let n = rows.len();
    rank_newest(rows, n)
}

} // verus!
