//! SPB basic query 5: the topics most tagged within a time window by works
//! of one type for one audience.
use vstd::prelude::*;
use vstd::string::StringSliceAdditionalSpecFns;
use vstd::utf8::encode_utf8;
use crate::dates::{ms_cuts_ok, parse_ms, spec_parse_ms};
use crate::rdfgraph::{text_copy, PropGraph};
use crate::ranking::{sort_by_view, view_rel, views};
use crate::spb::access::{has_label, id_count, id_limit, labelled, opt_text, text_prop, text_prop_of};
use crate::spb::tally::{links_to_uri, marks_linked_to_uri};
use crate::spb::topics::{count_topics, topic_count};

verus! {

/// The work type of a query: the given label, or `CreativeWork`.
pub open spec fn work_type(cw_type: Option<Seq<char>>) -> Seq<char> {
    match cw_type {
        Some(t) => t,
        None => "CreativeWork"@,
    }
}

/// Node `w` has the work type and, when an audience is given, an `audience`
/// relationship to the node with that IRI.
pub open spec fn audience_work(g: PropGraph, w: int, cw_type: Option<Seq<char>>, audience: Option<Seq<char>>) -> bool {
    labelled(g, w, work_type(cw_type)) && match audience {
        Some(u) => links_to_uri(g, w, "audience"@, u),
        None => true,
    }
}

/// Every `dateModified` that the query reads as a timestamp can be read
/// without cutting a character.
pub open spec fn stamps_readable(g: PropGraph, cw_type: Option<Seq<char>>, audience: Option<Seq<char>>) -> bool {
    forall|w: int|
        0 <= w < id_limit(g) && #[trigger] audience_work(g, w, cw_type, audience) ==> match text_prop(g, w, "dateModified"@) {
            Some(t) => ms_cuts_ok(encode_utf8(t)),
            None => true,
        }
}

/// Node `w` is a work of the query whose `dateModified` lies strictly
/// between the epoch milliseconds `start_ms` and `end_ms`.
pub open spec fn windowed_work(
    g: PropGraph,
    w: int,
    cw_type: Option<Seq<char>>,
    audience: Option<Seq<char>>,
    start_ms: int,
    end_ms: int,
) -> bool {
    &&& audience_work(g, w, cw_type, audience)
    &&& text_prop(g, w, "dateModified"@) matches Some(t) && start_ms < spec_parse_ms(encode_utf8(t)) < end_ms
}

/// For every node id, whether it is such a work.
pub open spec fn windowed_marks(
    g: PropGraph,
    cw_type: Option<Seq<char>>,
    audience: Option<Seq<char>>,
    start_ms: int,
    end_ms: int,
) -> Seq<bool> {
    Seq::new(id_limit(g) as nat, |w: int| windowed_work(g, w, cw_type, audience, start_ms, end_ms))
}

/// The `(label, count)` rows of the topics below node id `j` that carry a
/// text `label` and a positive count in `c`.
pub open spec fn labelled_topic_rows(g: PropGraph, c: Seq<usize>, j: int) -> Seq<(Seq<char>, usize)>
    decreases j,
{
    if j <= 0 {
        Seq::empty()
    } else {
        match text_prop(g, j - 1, "label"@) {
            Some(l) => if c[j - 1] > 0 {
                labelled_topic_rows(g, c, j - 1).push((l, c[j - 1]))
            } else {
                labelled_topic_rows(g, c, j - 1)
            },
            None => labelled_topic_rows(g, c, j - 1),
        }
    }
}

/// The labelled topics with how many works of the query in the window tag
/// them, count descending then label.
pub open spec fn tagged_topics(
    g: PropGraph,
    cw_type: Option<Seq<char>>,
    audience: Option<Seq<char>>,
    start: Seq<char>,
    end: Seq<char>,
) -> Seq<(Seq<char>, usize)> {
    let from = windowed_marks(
        g,
        cw_type,
        audience,
        spec_parse_ms(encode_utf8(start)),
        spec_parse_ms(encode_utf8(end)),
    );
    labelled_topic_rows(
        g,
        Seq::new(id_limit(g) as nat, |t: int| topic_count(g, from, t as u32, false, id_limit(g)) as usize),
        id_limit(g),
    ).sort_by(view_rel::<(String, usize)>())
}

/// Per topic, the number of creative works tagging it (`about` or
/// `mentions`, once per work), among works of type `cw_type` (any creative
/// work when `None`) linked to the audience `audience_uri` (any when `None`)
/// whose `dateModified` lies strictly within `(start, end)` as epoch
/// milliseconds; only topics with a `label` count. Returned as
/// `(label, count)` ordered by count descending, label ascending on ties.
pub fn run(g: &PropGraph, cw_type: Option<&str>, audience_uri: Option<&str>, start: &str, end: &str) -> (r: Vec<
    (String, usize),
>)
    requires
        ms_cuts_ok(start.spec_bytes()),
        ms_cuts_ok(end.spec_bytes()),
        stamps_readable(*g, opt_text(cw_type), opt_text(audience_uri)),
    ensures
        views(r@) == tagged_topics(*g, opt_text(cw_type), opt_text(audience_uri), start@, end@),
{
    let start_ms = parse_ms(start);
    let end_ms = parse_ms(end);
    let ty: &str = match cw_type {
        Some(t) => t,
        None => {
            proof {
                reveal_strlit("CreativeWork");
            }
            "CreativeWork"
        },
    };
    let lim = id_count(g);
    let audience: Vec<bool> = match audience_uri {
        Some(u) => marks_linked_to_uri(g, "audience", u),
        None => Vec::new(),
    };
    let mut marks: Vec<bool> = Vec::new();
    while marks.len() < lim
        invariant
            lim == id_limit(*g),
            ty@ == work_type(opt_text(cw_type)),
            start_ms == spec_parse_ms(start.spec_bytes()),
            end_ms == spec_parse_ms(end.spec_bytes()),
            stamps_readable(*g, opt_text(cw_type), opt_text(audience_uri)),
            audience_uri is Some ==> audience@.len() == lim,
            forall|w: int|
                0 <= w < lim && audience_uri is Some ==> #[trigger] audience@[w] == links_to_uri(
                    *g,
                    w,
                    "audience"@,
                    audience_uri.unwrap()@,
                ),
            marks@.len() <= lim,
            forall|w: int|
                0 <= w < marks@.len() ==> #[trigger] marks@[w] == windowed_work(
                    *g,
                    w,
                    opt_text(cw_type),
                    opt_text(audience_uri),
                    start_ms as int,
                    end_ms as int,
                ),
        decreases lim - marks.len(),
    {
        let w = marks.len();
        let heard = match audience_uri {
            Some(_) => audience[w],
            None => true,
        };
        let mut keep = false;
        if heard && has_label(g, w as u32, ty) {
            proof {
                assert(audience_work(*g, w as int, opt_text(cw_type), opt_text(audience_uri)));
            }
            match text_prop_of(g, w as u32, "dateModified") {
                Some(t) => {
                    let ms = parse_ms(t);
                    keep = start_ms < ms && ms < end_ms;
                },
                None => {},
            }
        }
        marks.push(keep);
    }
    let ghost from = windowed_marks(*g, opt_text(cw_type), opt_text(audience_uri), start_ms as int, end_ms as int);
    proof {
        assert(marks@ =~= from);
    }
    let counts = count_topics(g, &marks, false);
    let mut rows: Vec<(String, usize)> = Vec::new();
    let mut t: usize = 0;
    while t < lim
        invariant
            lim == id_limit(*g),
            counts@.len() == lim,
            forall|q: int| 0 <= q < lim ==> #[trigger] counts@[q] == topic_count(*g, from, q as u32, false, lim as int),
            t <= lim,
            views(rows@) == labelled_topic_rows(
                *g,
                Seq::new(lim as nat, |q: int| topic_count(*g, from, q as u32, false, lim as int) as usize),
                t as int,
            ),
        decreases lim - t,
    {
        match text_prop_of(g, t as u32, "label") {
            Some(l) => {
                if counts[t] > 0 {
                    let ghost before_rows = views(rows@);
                    rows.push((text_copy(l), counts[t]));
                    proof {
                        assert(views(rows@) =~= before_rows.push((l@, counts@[t as int])));
                    }
                }
            },
            None => {},
        }
        t = t + 1;
    }
    proof {
        assert(Seq::new(lim as nat, |q: int| topic_count(*g, from, q as u32, false, lim as int) as usize) =~= Seq::new(
            id_limit(*g) as nat,
            |q: int| topic_count(*g, from, q as u32, false, id_limit(*g)) as usize,
        ));
    }
    sort_by_view(rows)
}

} // verus!
