//! SPB basic query 2: the properties of one creative work, picked by IRI.
//! The lookup is the query; the caller reads the work's properties and
//! relationships off the node it returns.
use vstd::prelude::*;
use crate::rdfgraph::PropGraph;
use crate::spb::access::{first_labelled_with_uri, first_with_uri, text_prop, text_prop_of};

verus! {

/// The creative work with IRI `cw_uri` that has a `title`.
pub open spec fn titled_work(g: PropGraph, cw_uri: Seq<char>) -> Option<u32> {
    match first_with_uri(g, "CreativeWork"@, cw_uri, 0) {
        Some(w) => if text_prop(g, w as int, "title"@) is Some {
            Some(w)
        } else {
            None
        },
        None => None,
    }
}

/// The `CreativeWork` whose IRI is `cw_uri`, if it has the required `title`;
/// `None` for an unknown IRI, a resource that is no creative work, or a work
/// without a title.
pub fn run(g: &PropGraph, cw_uri: &str) -> (r: Option<u32>)
    ensures
        r == titled_work(*g, cw_uri@),
{
    let w = match first_labelled_with_uri(g, "CreativeWork", cw_uri) {
        Some(w) => w,
        None => return None,
    };
    match text_prop_of(g, w, "title") {
        Some(_) => Some(w),
        None => None,
    }
}

} // verus!
