//! SPB advanced query 23: per topic, the number of distinct creation days of
//! the works in one category that a full-text query matches on their title
//! and that bind the rest of the query's pattern. The full-text index belongs
//! to the graph store; the matches come in as `hits`.
use vstd::prelude::*;
use vstd::utf8::encode_utf8;
use crate::dates::{date_cuts_ok, parse_date, spec_parse_date};
use crate::rdfgraph::PropGraph;
use crate::ranking::{sort_and_take, take_upto, view_rel, views};
use crate::spb::access::{
    filled_prop, filled_prop_of, has_prop, hit_marks, id_count, id_limit, out_degrees, out_lists, prop_of, targets,
};
use crate::spb::tally::{links_to_uri, marks_linked_to_uri, uri_count_rows, uri_rows};
use crate::spb::topics::topic_of;

verus! {

/// Node `w` is among `hits`, in the category with IRI `category_uri`, and
/// binds the rest of the pattern: a non-empty `dateCreated` and
/// `description`, an `audience` and a `primaryFormat` relationship, and a
/// `liveCoverage`. Its creation date is then read.
pub open spec fn reaches_date(g: PropGraph, hits: Seq<u32>, category_uri: Seq<char>, w: int) -> bool {
    &&& hits.contains(w as u32)
    &&& links_to_uri(g, w, "category"@, category_uri)
    &&& filled_prop(g, w, "dateCreated"@) is Some
    &&& filled_prop(g, w, "description"@) is Some
    &&& targets(g, w, "audience"@).len() > 0
    &&& targets(g, w, "primaryFormat"@).len() > 0
    &&& prop_of(g, w, "liveCoverage"@) is Some
}

/// Every creation date that the query reads can be read without cutting a
/// character.
pub open spec fn dates_readable(g: PropGraph, hits: Seq<u32>, category_uri: Seq<char>) -> bool {
    forall|w: int|
        0 <= w < id_limit(g) && #[trigger] reaches_date(g, hits, category_uri, w) ==> date_cuts_ok(
            encode_utf8(filled_prop(g, w, "dateCreated"@).unwrap()),
        )
}

/// The creation day (days since the epoch) of work `w` when it reaches its
/// date and the date parses.
pub open spec fn work_day(g: PropGraph, hits: Seq<u32>, category_uri: Seq<char>, w: int) -> Option<i64> {
    if reaches_date(g, hits, category_uri, w) {
        match spec_parse_date(encode_utf8(filled_prop(g, w, "dateCreated"@).unwrap())) {
            Some(p) => Some(p.1),
            None => None,
        }
    } else {
        None
    }
}

/// The creation days of the works below node id `i` that have `t` as an
/// `about` or `mentions` topic.
pub open spec fn topic_days(g: PropGraph, hits: Seq<u32>, category_uri: Seq<char>, t: int, i: int) -> Set<i64>
    decreases i,
{
    if i <= 0 {
        Set::empty()
    } else {
        let before = topic_days(g, hits, category_uri, t, i - 1);
        match work_day(g, hits, category_uri, i - 1) {
            Some(d) => if topic_of(g, i - 1, t as u32, false) {
                before.insert(d)
            } else {
                before
            },
            None => before,
        }
    }
}

/// For every node id, its number of distinct days as a topic.
pub open spec fn day_tally(g: PropGraph, hits: Seq<u32>, category_uri: Seq<char>) -> Seq<usize> {
    Seq::new(id_limit(g) as nat, |t: int| topic_days(g, hits, category_uri, t, id_limit(g)).len() as usize)
}

/// The topics by IRI with their distinct day counts, count descending then
/// IRI, the first `limit`.
pub open spec fn topic_day_ranking(g: PropGraph, hits: Seq<u32>, category_uri: Seq<char>, limit: int) -> Seq<(Seq<char>, usize)> {
    take_upto(
        uri_count_rows(g, day_tally(g, hits, category_uri), id_limit(g)).sort_by(view_rel::<(String, usize)>()),
        limit,
    )
}

/// The numbers `v` hold the set `s`, each once.
pub open spec fn holds_set(v: Seq<i64>, s: Set<i64>) -> bool {
    v.to_set() == s && v.no_duplicates()
}

proof fn lemma_push_new(v: Seq<i64>, d: i64)
    requires
        v.no_duplicates(),
        !v.contains(d),
    ensures
        v.push(d).to_set() == v.to_set().insert(d),
        v.push(d).no_duplicates(),
{
    assert(v.push(d).to_set() =~= v.to_set().insert(d)) by {
        assert forall|x: i64| v.push(d).to_set().contains(x) == v.to_set().insert(d).contains(x) by {
            if v.push(d).contains(x) {
                let q = choose|q: int| 0 <= q < v.push(d).len() && v.push(d)[q] == x;
                if q < v.len() {
                    assert(v[q] == x);
                }
            }
            if v.contains(x) {
                let q = choose|q: int| 0 <= q < v.len() && v[q] == x;
                assert(v.push(d)[q] == x);
            }
            if x == d {
                assert(v.push(d)[v.len() as int] == x);
            }
        }
    }
    assert forall|p: int, q: int| 0 <= p < v.push(d).len() && 0 <= q < v.push(d).len() && p != q implies v.push(d)[p]
        != v.push(d)[q] by {
        if p == v.len() as int {
            assert(v[q] != d);
        } else if q == v.len() as int {
            assert(v[p] != d);
        }
    }
}

fn holds_num(v: &Vec<i64>, d: i64) -> (r: bool)
    ensures
        r == v@.contains(d),
{
    let mut k: usize = 0;
    while k < v.len()
        invariant
            k <= v@.len(),
            forall|q: int| 0 <= q < k ==> v@[q] != d,
        decreases v.len() - k,
    {
        if v[k] == d {
            return true;
        }
        k = k + 1;
    }
    false
}

/// Record day `d` for every node of `list`, each node's days kept without
/// repeats.
fn add_num_day(days: &mut Vec<Vec<i64>>, list: &Vec<u32>, d: i64, Ghost(sets): Ghost<Seq<Set<i64>>>)
    requires
        old(days)@.len() == sets.len(),
        sets.len() <= 0x1_0000_0000,
        forall|t: int| 0 <= t < sets.len() ==> #[trigger] holds_set(old(days)@[t]@, sets[t]),
    ensures
        final(days)@.len() == sets.len(),
        forall|t: int|
            0 <= t < sets.len() ==> holds_set(#[trigger] final(days)@[t]@, (if list@.contains(t as u32) {
                sets[t].insert(d)
            } else {
                sets[t]
            })),
{
    let n = days.len();
    let mut j: usize = 0;
    while j < list.len()
        invariant
            days@.len() == n,
            n == sets.len(),
            n <= 0x1_0000_0000,
            j <= list@.len(),
            forall|t: int|
                0 <= t < n ==> holds_set(#[trigger] days@[t]@, (if list@.take(j as int).contains(t as u32) {
                    sets[t].insert(d)
                } else {
                    sets[t]
                })),
        decreases list.len() - j,
    {
        let who = list[j] as usize;
        let ghost old_days = days@;
        let ghost prefix = list@.take(j as int);
        let ghost next = list@.take(j + 1);
        proof {
            assert(next =~= prefix.push(list@[j as int]));
        }
        if who < n {
            let ghost was = days@[who as int]@;
            proof {
                assert(holds_set(days@[who as int]@, (if prefix.contains(who as u32) {
                    sets[who as int].insert(d)
                } else {
                    sets[who as int]
                })));
            }
            if !holds_num(&days[who], d) {
                proof {
                    lemma_push_new(was, d);
                    if prefix.contains(who as u32) {
                        assert(was.to_set().contains(d));
                        let q = choose|q: int| 0 <= q < was.len() && was[q] == d;
                        assert(was.contains(d));
                    }
                }
                days[who].push(d);
                proof {
                    assert(days@[who as int]@ =~= was.push(d));
                }
            } else {
                proof {
                    assert(was.to_set().contains(d));
                    if !prefix.contains(who as u32) {
                        assert(sets[who as int].insert(d) =~= sets[who as int]);
                    }
                }
            }
        }
        proof {
            assert forall|t: int| 0 <= t < n implies holds_set(#[trigger] days@[t]@, (if next.contains(t as u32) {
                sets[t].insert(d)
            } else {
                sets[t]
            })) by {
                assert(holds_set(old_days[t]@, (if prefix.contains(t as u32) {
                    sets[t].insert(d)
                } else {
                    sets[t]
                })));
                if t as u32 != list@[j as int] || !(who < n) {
                    if t != who {
                        assert(days@[t] == old_days[t]);
                    }
                    if next.contains(t as u32) && !prefix.contains(t as u32) {
                        let p = choose|p: int| 0 <= p < next.len() && #[trigger] next[p] == t as u32;
                        if p < j {
                            assert(prefix[p] == t as u32);
                        }
                    }
                    if prefix.contains(t as u32) {
                        let p = choose|p: int| 0 <= p < prefix.len() && #[trigger] prefix[p] == t as u32;
                        assert(next[p] == t as u32);
                    }
                } else {
                    assert((t as u32) as int == t);
                    assert(t == who as int);
                    assert(next.contains(t as u32)) by {
                        assert(next[j as int] == t as u32);
                    }
                    if prefix.contains(t as u32) {
                        let p = choose|p: int| 0 <= p < prefix.len() && #[trigger] prefix[p] == t as u32;
                        assert(next[p] == t as u32);
                    }
                }
            }
        }
        j = j + 1;
    }
    proof {
        assert(list@.take(j as int) =~= list@);
    }
}

/// Over the creative works among `hits` (the works whose `title` the
/// full-text query matched) that are `category`-linked to `category_uri`
/// and bind the rest of the pattern (`description`, `audience`,
/// `liveCoverage`, `primaryFormat`, `dateCreated`), count per topic (an
/// `about` or `mentions` target) the distinct creation days. Returned as
/// `(topic IRI, days)` ordered by day count descending then IRI, truncated
/// to `limit`.
pub fn run(g: &PropGraph, hits: &Vec<u32>, category_uri: &str, limit: usize) -> (r: Vec<(String, usize)>)
    requires
        dates_readable(*g, hits@, category_uri@),
    ensures
        views(r@) == topic_day_ranking(*g, hits@, category_uri@, limit as int),
{
    let lim = id_count(g);
    let marks = hit_marks(g, hits);
    let cats = marks_linked_to_uri(g, "category", category_uri);
    let auds = out_degrees(g, "audience");
    let formats = out_degrees(g, "primaryFormat");
    let about = out_lists(g, "about");
    let mentions = out_lists(g, "mentions");
    let mut days: Vec<Vec<i64>> = Vec::new();
    while days.len() < lim
        invariant
            days@.len() <= lim,
            forall|t: int| 0 <= t < days@.len() ==> #[trigger] days@[t]@ == Seq::<i64>::empty(),
        decreases lim - days.len(),
    {
        days.push(Vec::new());
    }
    proof {
        assert forall|t: int| 0 <= t < lim implies #[trigger] holds_set(days@[t]@, topic_days(*g, hits@, category_uri@, t, 0)) by {
            assert(days@[t]@.to_set() =~= Set::<i64>::empty());
        }
    }
    let mut i: usize = 0;
    while i < lim
        invariant
            lim == id_limit(*g),
            lim <= 0x1_0000_0000,
            dates_readable(*g, hits@, category_uri@),
            marks@.len() == lim,
            cats@.len() == lim,
            auds@.len() == lim,
            formats@.len() == lim,
            about@.len() == lim,
            mentions@.len() == lim,
            forall|w: int| 0 <= w < lim ==> #[trigger] marks@[w] == hits@.contains(w as u32),
            forall|w: int| 0 <= w < lim ==> #[trigger] cats@[w] == links_to_uri(*g, w, "category"@, category_uri@),
            forall|w: int| 0 <= w < lim ==> #[trigger] auds@[w] == targets(*g, w, "audience"@).len(),
            forall|w: int| 0 <= w < lim ==> #[trigger] formats@[w] == targets(*g, w, "primaryFormat"@).len(),
            forall|w: int| 0 <= w < lim ==> #[trigger] about@[w]@ == targets(*g, w, "about"@),
            forall|w: int| 0 <= w < lim ==> #[trigger] mentions@[w]@ == targets(*g, w, "mentions"@),
            days@.len() == lim,
            i <= lim,
            forall|t: int| 0 <= t < lim ==> #[trigger] holds_set(days@[t]@, topic_days(*g, hits@, category_uri@, t, i as int)),
        decreases lim - i,
    {
        let w = i as u32;
        let mut found: Option<i64> = None;
        if marks[i] && cats[i] && auds[i] > 0 && formats[i] > 0 && has_prop(g, w, "liveCoverage") && filled_prop_of(
            g,
            w,
            "description",
        ).is_some() {
            match filled_prop_of(g, w, "dateCreated") {
                Some(c) => {
                    proof {
                        assert(reaches_date(*g, hits@, category_uri@, i as int));
                    }
                    match parse_date(c) {
                        Some(p) => {
                            found = Some(p.1);
                        },
                        None => {},
                    }
                },
                None => {},
            }
        }
        proof {
            assert(found == work_day(*g, hits@, category_uri@, i as int));
        }
        match found {
            Some(d) => {
                let ghost sets = Seq::new(lim as nat, |t: int| topic_days(*g, hits@, category_uri@, t, i as int));
                proof {
                    assert forall|t: int| 0 <= t < lim implies #[trigger] holds_set(days@[t]@, sets[t]) by {
                        assert(holds_set(days@[t]@, topic_days(*g, hits@, category_uri@, t, i as int)));
                    }
                }
                add_num_day(&mut days, &about[i], d, Ghost(sets));
                let ghost mid = Seq::new(
                    lim as nat,
                    |t: int|
                        if about@[i as int]@.contains(t as u32) {
                            sets[t].insert(d)
                        } else {
                            sets[t]
                        },
                );
                proof {
                    assert forall|t: int| 0 <= t < lim implies #[trigger] holds_set(days@[t]@, mid[t]) by {
                        assert(holds_set(days@[t]@, if about@[i as int]@.contains(t as u32) {
                            sets[t].insert(d)
                        } else {
                            sets[t]
                        }));
                    }
                }
                add_num_day(&mut days, &mentions[i], d, Ghost(mid));
                proof {
                    assert forall|t: int| 0 <= t < lim implies #[trigger] holds_set(
                        days@[t]@,
                        topic_days(*g, hits@, category_uri@, t, i + 1),
                    ) by {
                        assert(holds_set(days@[t]@, if mentions@[i as int]@.contains(t as u32) {
                            mid[t].insert(d)
                        } else {
                            mid[t]
                        }));
                        let s = sets[t];
                        let a = about@[i as int]@.contains(t as u32);
                        let m = mentions@[i as int]@.contains(t as u32);
                        if a && m {
                            assert(s.insert(d).insert(d) =~= s.insert(d));
                        }
                    }
                }
            },
            None => {
                proof {
                    assert forall|t: int| 0 <= t < lim implies #[trigger] holds_set(
                        days@[t]@,
                        topic_days(*g, hits@, category_uri@, t, i + 1),
                    ) by {
                        assert(holds_set(days@[t]@, topic_days(*g, hits@, category_uri@, t, i as int)));
                    }
                }
            },
        }
        i = i + 1;
    }
    let mut counts: Vec<usize> = Vec::new();
    while counts.len() < lim
        invariant
            lim == id_limit(*g),
            days@.len() == lim,
            forall|t: int| 0 <= t < lim ==> #[trigger] holds_set(days@[t]@, topic_days(*g, hits@, category_uri@, t, lim as int)),
            counts@.len() <= lim,
            forall|t: int| 0 <= t < counts@.len() ==> #[trigger] counts@[t] == day_tally(*g, hits@, category_uri@)[t],
        decreases lim - counts.len(),
    {
        let t = counts.len();
        proof {
            assert(holds_set(days@[t as int]@, topic_days(*g, hits@, category_uri@, t as int, lim as int)));
            days@[t as int]@.unique_seq_to_set();
        }
        counts.push(days[t].len());
    }
    proof {
        assert(counts@ =~= day_tally(*g, hits@, category_uri@));
    }
    let rows = uri_rows(g, &counts);
    sort_and_take(rows, limit)
}

} // verus!
