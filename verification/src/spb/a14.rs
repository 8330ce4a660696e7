//! SPB advanced query 14: the creative works with the full star of
//! relationships, one primary format and a primary-content document of one
//! type, most recently modified first.
use vstd::prelude::*;
use crate::rdfgraph::{text_copy, PropGraph};
use crate::ranking::{newest_first, rank_newest, views};
use crate::spb::access::{
    filled_prop, filled_prop_of, has_label, id_count, id_limit, labelled, linked_into, node_by_uri, node_with_uri,
    out_degrees, targets,
};
use crate::spb::tally::{links_to_marked, marks_linked_to};

verus! {

/// Node `w` has at least one `tag`, `category`, `thumbnail` and `audience`
/// relationship.
pub open spec fn full_star(g: PropGraph, w: int) -> bool {
    &&& targets(g, w, "tag"@).len() > 0
    &&& targets(g, w, "category"@).len() > 0
    &&& targets(g, w, "thumbnail"@).len() > 0
    &&& targets(g, w, "audience"@).len() > 0
}

/// For every node id, whether it is a document whose `webDocumentType` is `wdt`.
pub open spec fn typed_docs(g: PropGraph, wdt: u32) -> Seq<bool> {
    Seq::new(id_limit(g) as nat, |pc: int| targets(g, pc, "webDocumentType"@).contains(wdt))
}

/// The non-empty `dateModified` of node `w` when it is a creative work with
/// the full star, a `primaryFormat` relationship to `pf` and a
/// `primaryContentOf` relationship to a document of type `wdt`.
pub open spec fn star_stamp(g: PropGraph, w: int, pf: u32, wdt: u32) -> Option<Seq<char>> {
    if labelled(g, w, "CreativeWork"@) && full_star(g, w) && targets(g, w, "primaryFormat"@).contains(pf)
        && links_to_marked(g, w, "primaryContentOf"@, typed_docs(g, wdt)) {
        filled_prop(g, w, "dateModified"@)
    } else {
        None
    }
}

/// The `(node, dateModified)` rows of the node ids below `i` that qualify.
pub open spec fn star_rows(g: PropGraph, pf: u32, wdt: u32, i: int) -> Seq<(u32, Seq<char>)>
    decreases i,
{
    if i <= 0 {
        Seq::empty()
    } else {
        match star_stamp(g, i - 1, pf, wdt) {
            Some(t) => star_rows(g, pf, wdt, i - 1).push(((i - 1) as u32, t)),
            None => star_rows(g, pf, wdt, i - 1),
        }
    }
}

/// The qualifying works for the format and document type with the given
/// IRIs, newest first, node id ascending on ties, the first `limit`; nothing
/// when either IRI is unknown.
pub open spec fn star_works(g: PropGraph, pf_uri: Seq<char>, wdt_uri: Seq<char>, limit: int) -> Seq<u32> {
    match (node_with_uri(g, pf_uri), node_with_uri(g, wdt_uri)) {
        (Some(pf), Some(wdt)) => newest_first(star_rows(g, pf, wdt, id_limit(g)), limit),
        _ => Seq::empty(),
    }
}

/// Creative works with the full required star (at least one `tag`,
/// `category`, `thumbnail` and `audience` relationship), a non-empty
/// `dateModified`, a `primaryFormat` relationship to `primary_format_uri` and
/// a `primaryContentOf` document of type `web_doc_type`; ordered by
/// `dateModified` descending then id, truncated to `limit`.
pub fn run(g: &PropGraph, primary_format_uri: &str, web_doc_type: &str, limit: usize) -> (r: Vec<u32>)
    ensures
        r@ == star_works(*g, primary_format_uri@, web_doc_type@, limit as int),
{
    let pf = match node_by_uri(g, primary_format_uri) {
        Some(n) => n,
        None => return Vec::new(),
    };
    let wdt = match node_by_uri(g, web_doc_type) {
        Some(n) => n,
        None => return Vec::new(),
    };
    let lim = id_count(g);
    let tags = out_degrees(g, "tag");
    let cats = out_degrees(g, "category");
    let thumbs = out_degrees(g, "thumbnail");
    let auds = out_degrees(g, "audience");
    let formats = linked_into(g, pf, "primaryFormat");
    let docs = linked_into(g, wdt, "webDocumentType");
    proof {
        assert(docs@ =~= typed_docs(*g, wdt));
    }
    let documented = marks_linked_to(g, "primaryContentOf", &docs);
    let mut rows: Vec<(u32, String)> = Vec::new();
    let mut i: usize = 0;
    while i < lim
        invariant
            lim == id_limit(*g),
            tags@.len() == lim,
            cats@.len() == lim,
            thumbs@.len() == lim,
            auds@.len() == lim,
            formats@.len() == lim,
            documented@.len() == lim,
            forall|w: int| 0 <= w < lim ==> #[trigger] tags@[w] == targets(*g, w, "tag"@).len(),
            forall|w: int| 0 <= w < lim ==> #[trigger] cats@[w] == targets(*g, w, "category"@).len(),
            forall|w: int| 0 <= w < lim ==> #[trigger] thumbs@[w] == targets(*g, w, "thumbnail"@).len(),
            forall|w: int| 0 <= w < lim ==> #[trigger] auds@[w] == targets(*g, w, "audience"@).len(),
            forall|w: int| 0 <= w < lim ==> #[trigger] formats@[w] == targets(*g, w, "primaryFormat"@).contains(pf),
            forall|w: int|
                0 <= w < lim ==> #[trigger] documented@[w] == links_to_marked(*g, w, "primaryContentOf"@, typed_docs(*g, wdt)),
            i <= lim,
            views(rows@) == star_rows(*g, pf, wdt, i as int),
        decreases lim - i,
    {
        let w = i as u32;
        if tags[i] > 0 && cats[i] > 0 && thumbs[i] > 0 && auds[i] > 0 && formats[i] && documented[i] && has_label(
            g,
            w,
            "CreativeWork",
        ) {
            match filled_prop_of(g, w, "dateModified") {
                Some(t) => {
                    let ghost before_rows = views(rows@);
                    rows.push((w, text_copy(t)));
                    proof {
                        assert(views(rows@) =~= before_rows.push((w, t@)));
                    }
                },
                None => {},
            }
        }
        i = i + 1;
    }
    rank_newest(rows, limit)
}

} // verus!
