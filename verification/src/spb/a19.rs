//! SPB advanced query 19: the topics tagged by works of a type and audience
//! within a time window, the most recently modified first, then the most
//! tagged.
use vstd::prelude::*;
use vstd::string::StringSliceAdditionalSpecFns;
use vstd::utf8::encode_utf8;
use crate::dates::{ms_cuts_ok, parse_ms, spec_parse_ms};
use crate::rdfgraph::{text_copy, PropGraph};
use crate::ranking::{sort_and_take, take_upto, view_rel, views};
use crate::spb::access::{
    has_label, id_count, id_limit, labelled, opt_text, out_lists, targets, text_prop, text_prop_of, uri_at, uri_of,
};
use crate::spb::tally::{links_to_uri, marks_linked_to_uri};
use crate::spb::topics::{count_topics, topic_count, topic_list, topic_of};

verus! {

/// Node `w` is a creative work of the type (when one is given) and for the
/// audience (when one is given).
pub open spec fn typed_work(g: PropGraph, w: int, cw_type: Option<Seq<char>>, audience: Option<Seq<char>>) -> bool {
    &&& labelled(g, w, "CreativeWork"@)
    &&& match cw_type {
        Some(t) => labelled(g, w, t),
        None => true,
    }
    &&& match audience {
        Some(u) => links_to_uri(g, w, "audience"@, u),
        None => true,
    }
}

/// Every `dateModified` that the query reads as a timestamp can be read
/// without cutting a character.
pub open spec fn typed_stamps_readable(g: PropGraph, cw_type: Option<Seq<char>>, audience: Option<Seq<char>>) -> bool {
    forall|w: int|
        0 <= w < id_limit(g) && #[trigger] typed_work(g, w, cw_type, audience) ==> match text_prop(g, w, "dateModified"@) {
            Some(t) => ms_cuts_ok(encode_utf8(t)),
            None => true,
        }
}

/// The `dateModified` of node `w` in epoch milliseconds.
pub open spec fn stamp_ms(g: PropGraph, w: int) -> int {
    spec_parse_ms(encode_utf8(text_prop(g, w, "dateModified"@).unwrap()))
}

/// Node `w` is such a work with a `dateModified` within `[start_ms, end_ms]`.
pub open spec fn dated_work(
    g: PropGraph,
    w: int,
    cw_type: Option<Seq<char>>,
    audience: Option<Seq<char>>,
    start_ms: int,
    end_ms: int,
) -> bool {
    typed_work(g, w, cw_type, audience) && text_prop(g, w, "dateModified"@) is Some && start_ms <= stamp_ms(g, w)
        <= end_ms
}

/// For every node id, whether it is such a work.
pub open spec fn dated_marks(
    g: PropGraph,
    cw_type: Option<Seq<char>>,
    audience: Option<Seq<char>>,
    start_ms: int,
    end_ms: int,
) -> Seq<bool> {
    Seq::new(id_limit(g) as nat, |w: int| dated_work(g, w, cw_type, audience, start_ms, end_ms))
}

/// Among the works below node id `i` admitted by `from` that tag `t`
/// (`about`, `mentions` or `tag`), the first with the latest timestamp.
pub open spec fn newest_upto(g: PropGraph, from: Seq<bool>, t: u32, i: int) -> Option<int>
    decreases i,
{
    if i <= 0 {
        None
    } else {
        let before = newest_upto(g, from, t, i - 1);
        if i - 1 < from.len() && from[i - 1] && topic_of(g, i - 1, t, true) {
            match before {
                None => Some(i - 1),
                Some(b) => if stamp_ms(g, i - 1) > stamp_ms(g, b) {
                    Some(i - 1)
                } else {
                    before
                },
            }
        } else {
            before
        }
    }
}

proof fn lemma_newest_admitted(g: PropGraph, from: Seq<bool>, t: u32, i: int)
    ensures
        newest_upto(g, from, t, i) matches Some(b) ==> 0 <= b < i && b < from.len() && from[b],
    decreases i,
{
    if i > 0 {
        lemma_newest_admitted(g, from, t, i - 1);
    }
}

/// The `(topic, count, newest, newest dateModified)` rows of the topics below
/// node id `j` tagged by a work admitted by `from`.
pub open spec fn topic_rows(g: PropGraph, from: Seq<bool>, j: int) -> Seq<(u32, usize, i64, Seq<char>)>
    decreases j,
{
    if j <= 0 {
        Seq::empty()
    } else {
        match newest_upto(g, from, (j - 1) as u32, id_limit(g)) {
            Some(b) => topic_rows(g, from, j - 1).push(
                (
                    (j - 1) as u32,
                    topic_count(g, from, (j - 1) as u32, true, id_limit(g)) as usize,
                    stamp_ms(g, b) as i64,
                    text_prop(g, b, "dateModified"@).unwrap(),
                ),
            ),
            None => topic_rows(g, from, j - 1),
        }
    }
}

/// How a topic is shown: its `label`, else its IRI, else `?`.
pub open spec fn topic_name(g: PropGraph, t: int) -> Seq<char> {
    match text_prop(g, t, "label"@) {
        Some(l) => l,
        None => match uri_at(g, t) {
            Some(u) => u,
            None => "?"@,
        },
    }
}

/// The topics of the query with their counts and newest `dateModified`,
/// newest first, then count descending, then topic id; the first `limit`.
pub open spec fn recent_topics(
    g: PropGraph,
    cw_type: Option<Seq<char>>,
    audience: Option<Seq<char>>,
    start: Seq<char>,
    end: Seq<char>,
    limit: int,
) -> Seq<(Seq<char>, usize, Seq<char>)> {
    let from = dated_marks(g, cw_type, audience, spec_parse_ms(encode_utf8(start)), spec_parse_ms(encode_utf8(end)));
    take_upto(topic_rows(g, from, id_limit(g)).sort_by(view_rel::<(u32, usize, i64, String)>()), limit).map_values(
        |r: (u32, usize, i64, Seq<char>)| (topic_name(g, r.0 as int), r.1, r.3),
    )
}

fn topic_text(g: &PropGraph, t: u32) -> (r: String)
    ensures
        r@ == topic_name(*g, t as int),
{
    match text_prop_of(g, t, "label") {
        Some(l) => text_copy(l),
        None => match uri_of(g, t) {
            Some(u) => text_copy(u),
            None => {
                proof {
                    reveal_strlit("?");
                }
                text_copy("?")
            },
        },
    }
}

fn newest_rows(
    g: &PropGraph,
    marks: &Vec<bool>,
    stamps: &Vec<i64>,
    counts: &Vec<usize>,
    best: &Vec<Option<usize>>,
    Ghost(from): Ghost<Seq<bool>>,
) -> (r: Vec<(u32, usize, i64, String)>)
    requires
        marks@ == from,
        marks@.len() == id_limit(*g),
        stamps@.len() == id_limit(*g),
        forall|w: int| 0 <= w < id_limit(*g) && #[trigger] marks@[w] ==> stamps@[w] == stamp_ms(*g, w),
        forall|w: int| 0 <= w < id_limit(*g) && #[trigger] marks@[w] ==> text_prop(*g, w, "dateModified"@) is Some,
        counts@.len() == id_limit(*g),
        forall|q: int|
            0 <= q < id_limit(*g) ==> #[trigger] counts@[q] == topic_count(*g, from, q as u32, true, id_limit(*g)),
        best@.len() == id_limit(*g),
        forall|q: int|
            0 <= q < id_limit(*g) ==> #[trigger] best@[q] == match newest_upto(*g, from, q as u32, id_limit(*g)) {
                Some(b) => Some(b as usize),
                None => None,
            },
    ensures
        views(r@) == topic_rows(*g, from, id_limit(*g)),
{
    let lim = id_count(g);
    let mut rows: Vec<(u32, usize, i64, String)> = Vec::new();
    let mut t: usize = 0;
    while t < lim
        invariant
            lim == id_limit(*g),
            marks@ == from,
            marks@.len() == lim,
            stamps@.len() == lim,
            forall|w: int| 0 <= w < lim && #[trigger] marks@[w] ==> stamps@[w] == stamp_ms(*g, w),
            forall|w: int| 0 <= w < lim && #[trigger] marks@[w] ==> text_prop(*g, w, "dateModified"@) is Some,
            counts@.len() == lim,
            forall|q: int| 0 <= q < lim ==> #[trigger] counts@[q] == topic_count(*g, from, q as u32, true, lim as int),
            best@.len() == lim,
            forall|q: int|
                0 <= q < lim ==> #[trigger] best@[q] == match newest_upto(*g, from, q as u32, lim as int) {
                    Some(b) => Some(b as usize),
                    None => None,
                },
            t <= lim,
            views(rows@) == topic_rows(*g, from, t as int),
        decreases lim - t,
    {
        match best[t] {
            Some(b) => {
                proof {
                    lemma_newest_admitted(*g, from, t as u32, lim as int);
                    assert((t as u32) as int == t as int);
                    assert(marks@[b as int]);
                }
                match text_prop_of(g, b as u32, "dateModified") {
                    Some(d) => {
                        let ghost before_rows = views(rows@);
                        rows.push((t as u32, counts[t], stamps[b], text_copy(d)));
                        proof {
                            assert(views(rows@) =~= before_rows.push((t as u32, counts@[t as int], stamps@[b as int], d@)));
                        }
                    },
                    None => {},
                }
            },
            None => {},
        }
        t = t + 1;
    }
    rows
}

/// The top `limit` topics by the newest modification of a work tagging them
/// (then by tag count, then topic id), among creative works of type `cw_type`
/// (any when `None`) linked to the audience `audience_uri` (any when `None`)
/// whose `dateModified` lies in `[start, end]` as epoch milliseconds. A topic
/// is any target of a work's `about`, `mentions` or `tag` relationships, each
/// work counted once per topic. Each row is `(topic, count, newest
/// dateModified)`, the topic shown by its `label`, else its IRI.
pub fn run(
    g: &PropGraph,
    cw_type: Option<&str>,
    audience_uri: Option<&str>,
    start: &str,
    end: &str,
    limit: usize,
) -> (r: Vec<(String, usize, String)>)
    requires
        ms_cuts_ok(start.spec_bytes()),
        ms_cuts_ok(end.spec_bytes()),
        typed_stamps_readable(*g, opt_text(cw_type), opt_text(audience_uri)),
    ensures
        views(r@) == recent_topics(*g, opt_text(cw_type), opt_text(audience_uri), start@, end@, limit as int),
{
    let start_ms = parse_ms(start);
    let end_ms = parse_ms(end);
    let lim = id_count(g);
    let audience: Vec<bool> = match audience_uri {
        Some(u) => marks_linked_to_uri(g, "audience", u),
        None => Vec::new(),
    };
    let mut marks: Vec<bool> = Vec::new();
    let mut stamps: Vec<i64> = Vec::new();
    while marks.len() < lim
        invariant
            lim == id_limit(*g),
            start_ms == spec_parse_ms(start.spec_bytes()),
            end_ms == spec_parse_ms(end.spec_bytes()),
            typed_stamps_readable(*g, opt_text(cw_type), opt_text(audience_uri)),
            audience_uri is Some ==> audience@.len() == lim,
            forall|w: int|
                0 <= w < lim && audience_uri is Some ==> #[trigger] audience@[w] == links_to_uri(
                    *g,
                    w,
                    "audience"@,
                    audience_uri.unwrap()@,
                ),
            marks@.len() <= lim,
            stamps@.len() == marks@.len(),
            forall|w: int|
                0 <= w < marks@.len() ==> #[trigger] marks@[w] == dated_work(
                    *g,
                    w,
                    opt_text(cw_type),
                    opt_text(audience_uri),
                    start_ms as int,
                    end_ms as int,
                ),
            forall|w: int| 0 <= w < marks@.len() && #[trigger] marks@[w] ==> stamps@[w] == stamp_ms(*g, w),
        decreases lim - marks.len(),
    {
        let w = marks.len();
        let heard = match audience_uri {
            Some(_) => audience[w],
            None => true,
        };
        let typed = match cw_type {
            Some(t) => has_label(g, w as u32, t),
            None => true,
        };
        let mut keep = false;
        let mut ms: i64 = 0;
        if heard && typed && has_label(g, w as u32, "CreativeWork") {
            proof {
                assert(typed_work(*g, w as int, opt_text(cw_type), opt_text(audience_uri)));
            }
            match text_prop_of(g, w as u32, "dateModified") {
                Some(t) => {
                    ms = parse_ms(t);
                    keep = start_ms <= ms && ms <= end_ms;
                },
                None => {},
            }
        }
        marks.push(keep);
        stamps.push(ms);
    }
    let ghost from = dated_marks(*g, opt_text(cw_type), opt_text(audience_uri), start_ms as int, end_ms as int);
    proof {
        assert(marks@ =~= from);
        assert forall|w: int| 0 <= w < lim && #[trigger] marks@[w] implies text_prop(*g, w, "dateModified"@) is Some by {
            assert(from[w] == dated_work(*g, w, opt_text(cw_type), opt_text(audience_uri), start_ms as int, end_ms as int));
        }
    }
    let counts = count_topics(g, &marks, true);
    let about = out_lists(g, "about");
    let mentions = out_lists(g, "mentions");
    let tags = out_lists(g, "tag");
    let mut best: Vec<Option<usize>> = Vec::new();
    while best.len() < lim
        invariant
            best@.len() <= lim,
            forall|t: int| 0 <= t < best@.len() ==> #[trigger] best@[t] is None,
        decreases lim - best.len(),
    {
        best.push(None);
    }
    let mut i: usize = 0;
    while i < lim
        invariant
            lim == id_limit(*g),
            marks@ == from,
            marks@.len() == lim,
            stamps@.len() == lim,
            forall|w: int| 0 <= w < lim && #[trigger] marks@[w] ==> stamps@[w] == stamp_ms(*g, w),
            about@.len() == lim,
            mentions@.len() == lim,
            tags@.len() == lim,
            forall|w: int| 0 <= w < lim ==> #[trigger] about@[w]@ == targets(*g, w, "about"@),
            forall|w: int| 0 <= w < lim ==> #[trigger] mentions@[w]@ == targets(*g, w, "mentions"@),
            forall|w: int| 0 <= w < lim ==> #[trigger] tags@[w]@ == targets(*g, w, "tag"@),
            best@.len() == lim,
            i <= lim,
            forall|t: int|
                0 <= t < lim ==> #[trigger] best@[t] == match newest_upto(*g, from, t as u32, i as int) {
                    Some(b) => Some(b as usize),
                    None => None,
                },
        decreases lim - i,
    {
        if marks[i] {
            let list = topic_list(&about, &mentions, &tags, i, true, Ghost(*g));
            let mut j: usize = 0;
            while j < list.len()
                invariant
                    lim == id_limit(*g),
                    i < lim,
                    marks@ == from,
                    marks@.len() == lim,
                    marks@[i as int],
                    stamps@.len() == lim,
                    forall|w: int| 0 <= w < lim && #[trigger] marks@[w] ==> stamps@[w] == stamp_ms(*g, w),
                    forall|t: u32| #[trigger] list@.contains(t) == topic_of(*g, i as int, t, true),
                    best@.len() == lim,
                    j <= list@.len(),
                    forall|t: int|
                        0 <= t < lim ==> #[trigger] best@[t] == match newest_upto(
                            *g,
                            from,
                            t as u32,
                            if list@.take(j as int).contains(t as u32) {
                                i + 1
                            } else {
                                i as int
                            },
                        ) {
                            Some(b) => Some(b as usize),
                            None => None,
                        },
                decreases list.len() - j,
            {
                let t = list[j] as usize;
                if t < lim {
                    proof {
                        lemma_newest_admitted(*g, from, t as u32, i as int);
                        lemma_newest_admitted(*g, from, t as u32, i + 1);
                        assert(list@.contains(t as u32)) by {
                            assert(list@[j as int] == t as u32);
                        }
                    }
                    match best[t] {
                        None => {
                            best.set(t, Some(i));
                        },
                        Some(b) => {
                            if stamps[i] > stamps[b] {
                                best.set(t, Some(i));
                            }
                        },
                    }
                }
                proof {
                    assert forall|q: int| 0 <= q < lim implies #[trigger] best@[q] == match newest_upto(
                        *g,
                        from,
                        q as u32,
                        if list@.take(j + 1).contains(q as u32) {
                            i + 1
                        } else {
                            i as int
                        },
                    ) {
                        Some(b) => Some(b as usize),
                        None => None,
                    } by {
                        let before = list@.take(j as int);
                        let after = list@.take(j + 1);
                        assert(after =~= before.push(list@[j as int]));
                        if q != t {
                            if after.contains(q as u32) {
                                let p = choose|p: int| 0 <= p < after.len() && #[trigger] after[p] == q as u32;
                                if p == j {
                                    assert((q as u32) as int == q);
                                }
                                assert(before[p] == q as u32);
                            }
                            if before.contains(q as u32) {
                                let p = choose|p: int| 0 <= p < before.len() && #[trigger] before[p] == q as u32;
                                assert(after[p] == q as u32);
                            }
                        } else {
                            assert(after[j as int] == q as u32);
                        }
                    }
                }
                j = j + 1;
            }
            proof {
                assert(list@.take(j as int) =~= list@);
                assert forall|t: int| 0 <= t < lim implies #[trigger] best@[t] == match newest_upto(
                    *g,
                    from,
                    t as u32,
                    i + 1,
                ) {
                    Some(b) => Some(b as usize),
                    None => None,
                } by {
                    assert(list@.contains(t as u32) == topic_of(*g, i as int, t as u32, true));
                }
            }
        }
        i = i + 1;
    }
    let rows = newest_rows(g, &marks, &stamps, &counts, &best, Ghost(from));
    let top = sort_and_take(rows, limit);
    let mut out: Vec<(String, usize, String)> = Vec::new();
    let mut k: usize = 0;
    while k < top.len()
        invariant
            k <= top@.len(),
            views(out@) == views(top@).take(k as int).map_values(
                |r: (u32, usize, i64, Seq<char>)| (topic_name(*g, r.0 as int), r.1, r.3),
            ),
        decreases top.len() - k,
    {
        let ghost before_out = views(out@);
        let name = topic_text(g, top[k].0);
        let date = text_copy(top[k].3.as_str());
        out.push((name, top[k].1, date));
        proof {
            let row = views(top@)[k as int];
            assert(row == (top@[k as int].0, top@[k as int].1, top@[k as int].2, top@[k as int].3@));
            assert(views(out@) =~= before_out.push((topic_name(*g, row.0 as int), row.1, row.3)));
            assert(views(top@).take(k + 1) =~= views(top@).take(k as int).push(row));
            assert(views(out@) =~= views(top@).take(k + 1).map_values(
                |r: (u32, usize, i64, Seq<char>)| (topic_name(*g, r.0 as int), r.1, r.3),
            ));
        }
        k = k + 1;
    }
    proof {
        assert(views(top@).take(k as int) =~= views(top@));
    }
    out
}

} // verus!
