//! SPB advanced query 2: a creative work, picked by IRI, decorated with its
//! `CreativeWork` subtypes.
use vstd::prelude::*;
use crate::rdfgraph::{text_copy, texts, PropGraph};
use crate::spb::access::{filled_prop, filled_prop_of, has_label, labelled, node_by_uri, node_with_uri};

verus! {

/// `[name]` when node `w` carries the label `name`, else nothing.
pub open spec fn if_labelled(g: PropGraph, w: int, name: Seq<char>) -> Seq<Seq<char>> {
    if labelled(g, w, name) {
        seq![name]
    } else {
        Seq::empty()
    }
}

/// The subtypes of the creative work with IRI `cw_uri`, in name order
/// (`BlogPost`, `NewsItem`, `Programme`): nothing when the IRI resolves to no
/// creative work with a non-empty title.
pub open spec fn work_subtypes(g: PropGraph, cw_uri: Seq<char>) -> Seq<Seq<char>> {
    match node_with_uri(g, cw_uri) {
        Some(w) => if labelled(g, w as int, "CreativeWork"@) && filled_prop(g, w as int, "title"@) is Some {
            if_labelled(g, w as int, "BlogPost"@) + if_labelled(g, w as int, "NewsItem"@) + if_labelled(
                g,
                w as int,
                "Programme"@,
            )
        } else {
            Seq::empty()
        },
        None => Seq::empty(),
    }
}

fn push_if_labelled(g: &PropGraph, w: u32, name: &str, out: &mut Vec<String>)
    ensures
        texts(final(out)@) == texts(old(out)@) + if_labelled(*g, w as int, name@),
{
    if has_label(g, w, name) {
        out.push(text_copy(name));
        proof {
            assert(texts(final(out)@) =~= texts(old(out)@) + seq![name@]);
        }
    } else {
        proof {
            assert(texts(final(out)@) =~= texts(old(out)@) + Seq::<Seq<char>>::empty());
        }
    }
}

/// The `CreativeWork` subtype names carried by the work at `cw_uri`, sorted;
/// empty when the IRI resolves to no titled creative work.
pub fn run(g: &PropGraph, cw_uri: &str) -> (r: Vec<String>)
    ensures
        texts(r@) == work_subtypes(*g, cw_uri@),
{
    let mut out: Vec<String> = Vec::new();
    proof {
        assert(texts(out@) =~= Seq::<Seq<char>>::empty());
    }
    let work = match node_by_uri(g, cw_uri) {
        Some(w) => w,
        None => return out,
    };
    if !has_label(g, work, "CreativeWork") || filled_prop_of(g, work, "title").is_none() {
        return out;
    }
    push_if_labelled(g, work, "BlogPost", &mut out);
    push_if_labelled(g, work, "NewsItem", &mut out);
    push_if_labelled(g, work, "Programme", &mut out);
    proof {
        assert(Seq::<Seq<char>>::empty() + if_labelled(*g, work as int, "BlogPost"@) =~= if_labelled(
            *g,
            work as int,
            "BlogPost"@,
        ));
    }
    out
}

} // verus!
