//! BI Q10, experts in a social circle: the persons at a range of `knows`
//! distances from a start person, located in a country, by the tags of
//! their messages that carry a tag of a class.
use vstd::prelude::*;
use crate::bi::lookup::{
    first_with_int, lemma_push_contains, lemma_related_targets, lemma_targets_within, linked_to, named_node, node_named,
    person_by_plid, related, rel_is, rels_within,
};
use crate::bi::q14::{in_country, lives_in};
use crate::bi::q18::marks_of;
use crate::bi::q2::name_or_empty;
use crate::bi::q3::class_tagged;
use crate::bi::q7::occurs_before;
use crate::graphalytics::UNREACHED;
use crate::interactive::{hops_from, knows_depths};
use crate::rdfgraph::{text_copy, PropGraph};
use crate::ranking::{sort_and_take, take_upto, view_rel, views};
use crate::spb::access::{int_prop_of, int_value, targets, targets_of, text_prop_of};
use crate::spb::tally::{links_to_marked, marks_linked_to, rel_to_marked};

verus! {

/// Person `e` is an expert candidate: at a `knows` distance in
/// `[min_dist, max_dist]` by `dist`, and located in `country`.
pub open spec fn expert(g: PropGraph, dist: Seq<i64>, country: int, min_dist: u32, max_dist: u32, e: int) -> bool {
    &&& 0 <= e < dist.len()
    &&& dist[e] != UNREACHED
    &&& min_dist <= dist[e] <= max_dist
    &&& in_country(g, e, country)
}

/// Message `m` is one of `e`'s, carries a tag of class `tc`, and carries
/// tag `t`.
pub open spec fn expert_message(g: PropGraph, e: int, tc: int, t: int, m: int) -> bool {
    targets(g, e, "hasCreator"@).contains(m as u32) && class_tagged(g, m, tc) && related(g, m, t, "hasTag"@)
}

/// The messages below `k` of `e` with a tag of class `tc` that carry `t`.
pub open spec fn expert_count(g: PropGraph, e: int, tc: int, t: int, k: int) -> nat
    decreases k,
{
    if k <= 0 {
        0
    } else {
        expert_count(g, e, tc, t, k - 1) + if expert_message(g, e, tc, t, k - 1) {
            1nat
        } else {
            0nat
        }
    }
}

/// The `(messages, tag name, LDBC id, expert)` rows of expert `e` for the
/// tags below `k`.
pub open spec fn tag_rows(g: PropGraph, e: int, tc: int, k: int) -> Seq<(i64, Seq<char>, i64, u32)>
    decreases k,
{
    if k <= 0 {
        Seq::empty()
    } else {
        let c = expert_count(g, e, tc, k - 1, g.labels@.len() as int);
        if c > 0 {
            tag_rows(g, e, tc, k - 1).push((c as i64, name_or_empty(g, k - 1), int_value(g, e, "plid"@), e as u32))
        } else {
            tag_rows(g, e, tc, k - 1)
        }
    }
}

/// The rows of the experts below `k`.
pub open spec fn expert_rows(
    g: PropGraph,
    dist: Seq<i64>,
    country: int,
    tc: int,
    min_dist: u32,
    max_dist: u32,
    k: int,
) -> Seq<(i64, Seq<char>, i64, u32)>
    decreases k,
{
    if k <= 0 {
        Seq::empty()
    } else if expert(g, dist, country, min_dist, max_dist, k - 1) {
        expert_rows(g, dist, country, tc, min_dist, max_dist, k - 1) + tag_rows(g, k - 1, tc, g.labels@.len() as int)
    } else {
        expert_rows(g, dist, country, tc, min_dist, max_dist, k - 1)
    }
}

/// The answer of Q10 for the hop counts `dist` from the start person:
/// `(expert, tag name, messages)`, most messages first, then by tag name,
/// then by LDBC id, the first 100.
pub open spec fn experts_for(
    g: PropGraph,
    dist: Seq<i64>,
    country: int,
    tc: int,
    min_dist: u32,
    max_dist: u32,
) -> Seq<(u32, Seq<char>, i64)> {
    take_upto(
        expert_rows(g, dist, country, tc, min_dist, max_dist, g.labels@.len() as int).sort_by(
            view_rel::<(i64, String, i64, u32)>(),
        ),
        100,
    ).map_values(|r: (i64, Seq<char>, i64, u32)| (r.3, r.1, r.0))
}

proof fn lemma_expert_count_bound(g: PropGraph, e: int, tc: int, t: int, k: int)
    requires
        0 <= k,
    ensures
        expert_count(g, e, tc, t, k) <= k,
    decreases k,
{
    if k > 0 {
        lemma_expert_count_bound(g, e, tc, t, k - 1);
    }
}

/// The rows of expert `e`.
fn rows_of_expert(g: &PropGraph, e: u32, tc: u32, tagged: &Vec<bool>) -> (r: Vec<(i64, String, i64, u32)>)
    requires
        g.labels@.len() <= u32::MAX,
        rels_within(*g),
        tagged@.len() == g.labels@.len(),
        forall|w: int| 0 <= w < tagged@.len() ==> #[trigger] tagged@[w] == class_tagged(*g, w, tc as int),
    ensures
        views(r@) == tag_rows(*g, e as int, tc as int, g.labels@.len() as int),
{
    let n = g.labels.len();
    let mine = marks_of(&targets_of(g, e, "hasCreator"), n);
    let mut counts: Vec<i64> = Vec::new();
    while counts.len() < n
        invariant
            counts@.len() <= n,
            forall|w: int| 0 <= w < counts@.len() ==> #[trigger] counts@[w] == 0,
        decreases n - counts.len(),
    {
        counts.push(0);
    }
    let mut m: usize = 0;
    while m < n
        invariant
            n == g.labels@.len(),
            n <= u32::MAX,
            rels_within(*g),
            tagged@.len() == n,
            forall|w: int| 0 <= w < n ==> #[trigger] tagged@[w] == class_tagged(*g, w, tc as int),
            mine@.len() == n,
            forall|w: int| 0 <= w < n ==> #[trigger] mine@[w] == targets(*g, e as int, "hasCreator"@).contains(w as u32),
            counts@.len() == n,
            m <= n,
            forall|t: int| 0 <= t < n ==> #[trigger] counts@[t] as int == expert_count(*g, e as int, tc as int, t, m as int),
        decreases n - m,
    {
        if mine[m] && tagged[m] {
            let tags = targets_of(g, m as u32, "hasTag");
            proof {
                lemma_targets_within(*g, m as int, "hasTag"@, g.rels@.len() as int);
            }
            let mut j: usize = 0;
            while j < tags.len()
                invariant
                    n == g.labels@.len(),
                    n <= u32::MAX,
                    m < n,
                    mine@.len() == n,
                    tagged@.len() == n,
                    mine@[m as int] == targets(*g, e as int, "hasCreator"@).contains(m as u32),
                    tagged@[m as int] == class_tagged(*g, m as int, tc as int),
                    mine@[m as int] && tagged@[m as int],
                    tags@ == targets(*g, m as int, "hasTag"@),
                    forall|q: int| 0 <= q < tags@.len() ==> (#[trigger] tags@[q] as int) < n,
                    counts@.len() == n,
                    j <= tags@.len(),
                    forall|t: int|
                        0 <= t < n ==> #[trigger] counts@[t] as int == expert_count(*g, e as int, tc as int, t, m as int)
                            + if tags@.take(j as int).contains(t as u32) {
                            1int
                        } else {
                            0int
                        },
                decreases tags.len() - j,
            {
                let t = tags[j];
                let seen = occurs_before(&tags, j, t);
                proof {
                    assert(tags@.take(j + 1) =~= tags@.take(j as int).push(t));
                    assert forall|x: u32| #[trigger] tags@.take(j + 1).contains(x) == (tags@.take(j as int).contains(x)
                        || t == x) by {
                        lemma_push_contains(tags@.take(j as int), t, x);
                    }
                }
                if !seen {
                    proof {
                        lemma_expert_count_bound(*g, e as int, tc as int, t as int, m as int);
                    }
                    let bumped = counts[t as usize] + 1;
                    counts.set(t as usize, bumped);
                }
                proof {
                    assert forall|x: int| 0 <= x < n implies #[trigger] counts@[x] as int == expert_count(
                        *g,
                        e as int,
                        tc as int,
                        x,
                        m as int,
                    ) + if tags@.take(j + 1).contains(x as u32) {
                        1int
                    } else {
                        0int
                    } by {
                        assert(tags@.take(j + 1).contains(x as u32) == (tags@.take(j as int).contains(x as u32) || t
                            == x as u32));
                    }
                }
                j = j + 1;
            }
            proof {
                assert(tags@.take(j as int) =~= tags@);
                assert forall|t: int| 0 <= t < n implies #[trigger] counts@[t] as int == expert_count(
                    *g,
                    e as int,
                    tc as int,
                    t,
                    m + 1,
                ) by {
                    lemma_related_targets(*g, m as int, "hasTag"@, t as u32);
                }
            }
        }
        m = m + 1;
    }
    let plid = int_prop_of(g, e, "plid");
    let mut rows: Vec<(i64, String, i64, u32)> = Vec::new();
    let mut t: usize = 0;
    while t < n
        invariant
            n == g.labels@.len(),
            n <= u32::MAX,
            counts@.len() == n,
            forall|x: int| 0 <= x < n ==> #[trigger] counts@[x] as int == expert_count(*g, e as int, tc as int, x, n as int),
            plid == int_value(*g, e as int, "plid"@),
            t <= n,
            views(rows@) == tag_rows(*g, e as int, tc as int, t as int),
        decreases n - t,
    {
        if counts[t] > 0 {
            let name = match text_prop_of(g, t as u32, "name") {
                Some(v) => text_copy(v),
                None => String::new(),
            };
            let ghost before = views(rows@);
            rows.push((counts[t], name, plid, e));
            proof {
                reveal_strlit("name");
                assert(views(rows@) =~= before.push((counts@[t as int], name_or_empty(*g, t as int), plid, e)));
            }
        }
        t = t + 1;
    }
    rows
}

/// BI Q10: from the person whose LDBC id is `start_plid` (the smallest node
/// id among several), the persons at a `knows` distance in `[min_dist,
/// max_dist]` located in the country named `country_name`; for each, the
/// tags carried by their messages that carry a tag of the class named
/// `tagclass_name`, with the number of such messages per tag, as `(expert,
/// tag name, messages)`; most messages first, then by tag name, then by
/// LDBC id, the first 100. Nothing when the person, the country or the
/// class is missing.
pub fn q10_experts(
    g: &PropGraph,
    start_plid: i64,
    country_name: &str,
    tagclass_name: &str,
    min_dist: u32,
    max_dist: u32,
) -> (r: Vec<(u32, String, i64)>)
    requires
        g.labels@.len() <= u32::MAX,
        rels_within(*g),
    ensures
        first_with_int(*g, "plid"@, start_plid, g.labels@.len() as int) is None ==> r@.len() == 0,
        named_node(*g, "Country"@, country_name@) is None ==> r@.len() == 0,
        named_node(*g, "TagClass"@, tagclass_name@) is None ==> r@.len() == 0,
        first_with_int(*g, "plid"@, start_plid, g.labels@.len() as int) matches Some(s) ==> (named_node(
            *g,
            "Country"@,
            country_name@,
        ) matches Some(c) ==> (named_node(*g, "TagClass"@, tagclass_name@) matches Some(tc) ==> exists|dist: Seq<i64>|
            #[trigger] knows_depths(*g, s as int, dist) && dist.len() == g.labels@.len() && views(r@) == experts_for(
                *g,
                dist,
                c as int,
                tc as int,
                min_dist,
                max_dist,
            ))),
{
    proof {
        reveal_strlit("Country");
        reveal_strlit("TagClass");
    }
    let start = match person_by_plid(g, start_plid) {
        Some(s) => s,
        None => return Vec::new(),
    };
    let dist = hops_from(g, start);
    let country = match node_named(g, "Country", country_name) {
        Some(c) => c,
        None => return Vec::new(),
    };
    let tc = match node_named(g, "TagClass", tagclass_name) {
        Some(c) => c,
        None => return Vec::new(),
    };
    let n = g.labels.len();
    let class = linked_to(g, "hasType", tc);
    let tagged = marks_linked_to(g, "hasTag", &class);
    proof {
        assert forall|w: int| 0 <= w < n implies #[trigger] tagged@[w] == class_tagged(*g, w, tc as int) by {
            if links_to_marked(*g, w, "hasTag"@, class@) {
                let q = choose|q: int| #[trigger] rel_to_marked(*g, q, w, "hasTag"@, class@);
                let t = g.rels@[q].1 as int;
                assert(rel_is(*g, q, w, t, "hasTag"@));
                assert(related(*g, w, t, "hasTag"@) && related(*g, t, tc as int, "hasType"@));
            }
            if class_tagged(*g, w, tc as int) {
                let t = choose|t: int| #[trigger] related(*g, w, t, "hasTag"@) && related(*g, t, tc as int, "hasType"@);
                let q = choose|q: int| #[trigger] rel_is(*g, q, w, t, "hasTag"@);
                assert(t < n);
                assert(rel_to_marked(*g, q, w, "hasTag"@, class@));
            }
        }
    }
    let mut rows: Vec<(i64, String, i64, u32)> = Vec::new();
    let mut e: usize = 0;
    while e < n
        invariant
            n == g.labels@.len(),
            n <= u32::MAX,
            rels_within(*g),
            dist@.len() == n,
            tagged@.len() == n,
            forall|w: int| 0 <= w < n ==> #[trigger] tagged@[w] == class_tagged(*g, w, tc as int),
            e <= n,
            views(rows@) == expert_rows(*g, dist@, country as int, tc as int, min_dist, max_dist, e as int),
        decreases n - e,
    {
        let d = dist[e];
        if d != UNREACHED && min_dist as i64 <= d && d <= max_dist as i64 && lives_in(g, e as u32, country) {
            let mut more = rows_of_expert(g, e as u32, tc, &tagged);
            let ghost before = views(rows@);
            let ghost added = views(more@);
            rows.append(&mut more);
            proof {
                assert(views(rows@) =~= before + added);
            }
        }
        e = e + 1;
    }
    let top = sort_and_take(rows, 100);
    let mut out: Vec<(u32, String, i64)> = Vec::new();
    let mut k: usize = 0;
    while k < top.len()
        invariant
            k <= top@.len(),
            views(out@) == views(top@).take(k as int).map_values(|r: (i64, Seq<char>, i64, u32)| (r.3, r.1, r.0)),
        decreases top.len() - k,
    {
        let ghost before = views(out@);
        let name = text_copy(top[k].1.as_str());
        out.push((top[k].3, name, top[k].0));
        proof {
            let row = views(top@)[k as int];
            assert(row == (top@[k as int].0, top@[k as int].1@, top@[k as int].2, top@[k as int].3));
            assert(views(out@) =~= before.push((row.3, row.1, row.0)));
            assert(views(top@).take(k + 1) =~= views(top@).take(k as int).push(row));
            assert(views(out@) =~= views(top@).take(k + 1).map_values(|r: (i64, Seq<char>, i64, u32)| (r.3, r.1, r.0)));
        }
        k = k + 1;
    }
    proof {
        assert(views(top@).take(k as int) =~= views(top@));
        assert(knows_depths(*g, start as int, dist@));
    }
    out
}

} // verus!
