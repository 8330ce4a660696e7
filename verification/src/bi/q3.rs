//! BI Q3, popular topics in a country: the forums moderated by persons of a
//! country, by the messages of their threads that carry a tag of a class.
use vstd::prelude::*;
use crate::bi::lookup::{lemma_targets_within, linked_to, named_node, node_named, related, rel_is, rels_within};
use crate::rdfgraph::{text_copy, PropGraph};
use crate::ranking::{sort_and_take, take_upto, view_rel, views};
use crate::spb::access::{int_prop_of, int_value, sources, sources_of, targets, targets_of, text_prop, text_prop_of};
use crate::spb::tally::{links_to_marked, marks_linked_to, rel_to_marked};

verus! {

/// Message `n` is in a thread of forum `f` within `k` replies: a post of
/// the forum, or a reply to a message that is within `k - 1`.
pub open spec fn in_forum_threads(g: PropGraph, f: int, n: int, k: int) -> bool
    decreases k,
{
    if k <= 0 {
        targets(g, f, "containerOf"@).contains(n as u32)
    } else {
        in_forum_threads(g, f, n, k - 1) || exists|q: int| #[trigger] related(g, n, q, "replyOf"@) && in_forum_threads(g, f, q, k - 1)
    }
}

/// Message `n` carries a tag of class `tc`.
pub open spec fn class_tagged(g: PropGraph, n: int, tc: int) -> bool {
    exists|t: int| #[trigger] related(g, n, t, "hasTag"@) && related(g, t, tc, "hasType"@)
}

/// The messages below `k` in the threads of forum `f` that carry a tag of
/// class `tc`.
pub open spec fn topic_messages(g: PropGraph, f: int, tc: int, k: int) -> nat
    decreases k,
{
    if k <= 0 {
        0
    } else {
        topic_messages(g, f, tc, k - 1) + if in_forum_threads(g, f, k - 1, g.labels@.len() as int) && class_tagged(
            g,
            k - 1,
            tc,
        ) {
            1nat
        } else {
            0nat
        }
    }
}

/// The row `(messages, forum id, title, creation day, moderator id)` of
/// forum `f` moderated by `p`.
pub open spec fn forum_row(g: PropGraph, f: int, p: int, tc: int) -> (i64, i64, Seq<char>, i64, i64) {
    (
        topic_messages(g, f, tc, g.labels@.len() as int) as i64,
        int_value(g, f, "flid"@),
        match text_prop(g, f, "title"@) {
            Some(s) => s,
            None => Seq::empty(),
        },
        int_value(g, f, "fday"@),
        int_value(g, p, "plid"@),
    )
}

/// The rows of the first `j` forums `fs` moderated by `p` with a message.
pub open spec fn forum_rows(g: PropGraph, tc: int, p: int, fs: Seq<u32>, j: int) -> Seq<(i64, i64, Seq<char>, i64, i64)>
    decreases j,
{
    if j <= 0 {
        Seq::empty()
    } else if topic_messages(g, fs[j - 1] as int, tc, g.labels@.len() as int) > 0 {
        forum_rows(g, tc, p, fs, j - 1).push(forum_row(g, fs[j - 1] as int, p, tc))
    } else {
        forum_rows(g, tc, p, fs, j - 1)
    }
}

/// The rows of the forums moderated by the first `j` persons `ps`.
pub open spec fn person_rows(g: PropGraph, tc: int, ps: Seq<u32>, j: int) -> Seq<(i64, i64, Seq<char>, i64, i64)>
    decreases j,
{
    if j <= 0 {
        Seq::empty()
    } else {
        let p = ps[j - 1] as int;
        let fs = sources(g, p, "hasModerator"@);
        person_rows(g, tc, ps, j - 1) + forum_rows(g, tc, p, fs, fs.len() as int)
    }
}

/// The rows of the persons located in the first `j` cities `cs`.
pub open spec fn city_rows(g: PropGraph, tc: int, cs: Seq<u32>, j: int) -> Seq<(i64, i64, Seq<char>, i64, i64)>
    decreases j,
{
    if j <= 0 {
        Seq::empty()
    } else {
        let ps = sources(g, cs[j - 1] as int, "isLocatedIn"@);
        city_rows(g, tc, cs, j - 1) + person_rows(g, tc, ps, ps.len() as int)
    }
}

/// The rows of a country, each with its position.
pub open spec fn positioned(rows: Seq<(i64, i64, Seq<char>, i64, i64)>) -> Seq<(i64, i64, u64, Seq<char>, i64, i64)> {
    rows.map(|i: int, r: (i64, i64, Seq<char>, i64, i64)| (r.0, r.1, i as u64, r.2, r.3, r.4))
}

/// The answer of Q3: `(forum id, title, creation day, moderator id,
/// messages)` for the forums moderated by persons of the country named
/// `country_name`, counting the messages of the class named
/// `tagclass_name`; most messages first, then by forum id, then in order of
/// city, person and forum; the first 20. Nothing when the country or the
/// class is missing.
pub open spec fn popular_topics(g: PropGraph, country_name: Seq<char>, tagclass_name: Seq<char>) -> Seq<(i64, Seq<char>, i64, i64, i64)> {
    match (named_node(g, "Country"@, country_name), named_node(g, "TagClass"@, tagclass_name)) {
        (Some(c), Some(tc)) => {
            let cs = sources(g, c as int, "isPartOf"@);
            take_upto(
                positioned(city_rows(g, tc as int, cs, cs.len() as int)).sort_by(
                    view_rel::<(i64, i64, u64, String, i64, i64)>(),
                ),
                20,
            ).map_values(|r: (i64, i64, u64, Seq<char>, i64, i64)| (r.1, r.3, r.4, r.5, r.0))
        },
        _ => Seq::empty(),
    }
}

proof fn lemma_topic_bound(g: PropGraph, f: int, tc: int, k: int)
    requires
        0 <= k,
    ensures
        topic_messages(g, f, tc, k) <= k,
    decreases k,
{
    if k > 0 {
        lemma_topic_bound(g, f, tc, k - 1);
    }
}

/// For every node id, whether it is in a thread of forum `f`.
fn thread_marks(g: &PropGraph, f: u32) -> (r: Vec<bool>)
    requires
        g.labels@.len() <= u32::MAX,
        rels_within(*g),
    ensures
        r@.len() == g.labels@.len(),
        forall|w: int| 0 <= w < r@.len() ==> #[trigger] r@[w] == in_forum_threads(*g, f as int, w, g.labels@.len() as int),
{
    let n = g.labels.len();
    let posts = targets_of(g, f, "containerOf");
    let mut marks: Vec<bool> = Vec::new();
    while marks.len() < n
        invariant
            marks@.len() <= n,
            n <= u32::MAX,
            posts@ == targets(*g, f as int, "containerOf"@),
            forall|w: int| 0 <= w < marks@.len() ==> #[trigger] marks@[w] == in_forum_threads(*g, f as int, w, 0),
        decreases n - marks.len(),
    {
        let w = marks.len();
        proof {
            assert(posts@.take(posts@.len() as int) =~= posts@);
        }
        marks.push(crate::bi::q7::occurs_before(&posts, posts.len(), w as u32));
    }
    let mut k: usize = 0;
    while k < n
        invariant
            n == g.labels@.len(),
            n <= u32::MAX,
            rels_within(*g),
            marks@.len() == n,
            k <= n,
            forall|w: int| 0 <= w < n ==> #[trigger] marks@[w] == in_forum_threads(*g, f as int, w, k as int),
        decreases n - k,
    {
        let linked = marks_linked_to(g, "replyOf", &marks);
        let mut next: Vec<bool> = Vec::new();
        let mut w: usize = 0;
        while w < n
            invariant
                n == g.labels@.len(),
                n <= u32::MAX,
                rels_within(*g),
                marks@.len() == n,
                forall|x: int| 0 <= x < n ==> #[trigger] marks@[x] == in_forum_threads(*g, f as int, x, k as int),
                linked@.len() == n,
                forall|x: int| 0 <= x < n ==> #[trigger] linked@[x] == links_to_marked(*g, x, "replyOf"@, marks@),
                w <= n,
                next@.len() == w,
                forall|x: int| 0 <= x < w ==> #[trigger] next@[x] == in_forum_threads(*g, f as int, x, k + 1),
            decreases n - w,
        {
            proof {
                let x = w as int;
                if links_to_marked(*g, x, "replyOf"@, marks@) {
                    let q = choose|q: int| #[trigger] rel_to_marked(*g, q, x, "replyOf"@, marks@);
                    let p = g.rels@[q].1 as int;
                    assert(rel_is(*g, q, x, p, "replyOf"@));
                    assert(related(*g, x, p, "replyOf"@) && in_forum_threads(*g, f as int, p, k as int));
                }
                if exists|q: int| #[trigger] related(*g, x, q, "replyOf"@) && in_forum_threads(*g, f as int, q, k as int) {
                    let q = choose|q: int| #[trigger] related(*g, x, q, "replyOf"@) && in_forum_threads(*g, f as int, q, k as int);
                    let r = choose|r: int| #[trigger] rel_is(*g, r, x, q, "replyOf"@);
                    assert(g.rels@[r].1 < n);
                    assert(rel_to_marked(*g, r, x, "replyOf"@, marks@));
                }
            }
            next.push(marks[w] || linked[w]);
            w = w + 1;
        }
        marks = next;
        k = k + 1;
    }
    marks
}

/// The number of messages in the threads of forum `f` that carry a tag
/// marked in `class_marked`.
fn count_topic_messages(g: &PropGraph, f: u32, tc: u32, tagged: &Vec<bool>) -> (r: i64)
    requires
        g.labels@.len() <= u32::MAX,
        rels_within(*g),
        tagged@.len() == g.labels@.len(),
        forall|w: int| 0 <= w < tagged@.len() ==> #[trigger] tagged@[w] == class_tagged(*g, w, tc as int),
    ensures
        r as int == topic_messages(*g, f as int, tc as int, g.labels@.len() as int),
{
    let n = g.labels.len();
    let marks = thread_marks(g, f);
    let mut count: i64 = 0;
    let mut w: usize = 0;
    while w < n
        invariant
            n == g.labels@.len(),
            n <= u32::MAX,
            marks@.len() == n,
            forall|x: int| 0 <= x < n ==> #[trigger] marks@[x] == in_forum_threads(*g, f as int, x, n as int),
            tagged@.len() == n,
            forall|x: int| 0 <= x < n ==> #[trigger] tagged@[x] == class_tagged(*g, x, tc as int),
            w <= n,
            count as int == topic_messages(*g, f as int, tc as int, w as int),
        decreases n - w,
    {
        proof {
            lemma_topic_bound(*g, f as int, tc as int, w as int);
        }
        if marks[w] && tagged[w] {
            count = count + 1;
        }
        w = w + 1;
    }
    count
}

/// BI Q3: for the country named `country_name` and the tag class named
/// `tagclass_name` (each the smallest id among several), the forums
/// moderated by persons located in a city of the country (in order of
/// city, person and forum) whose threads hold a message carrying a tag of
/// the class; a thread holds the forum's posts and, transitively, the
/// messages replying to a message it holds. Rows `(forum id, title,
/// creation day, moderator id, messages)`, most messages first, then by
/// forum id, the first 20.
pub fn q3_popular_topics(g: &PropGraph, country_name: &str, tagclass_name: &str) -> (r: Vec<(i64, String, i64, i64, i64)>)
    requires
        g.labels@.len() <= u32::MAX,
        rels_within(*g),
    ensures
        views(r@) == popular_topics(*g, country_name@, tagclass_name@),
{
    proof {
        reveal_strlit("Country");
        reveal_strlit("TagClass");
    }
    let country = match node_named(g, "Country", country_name) {
        Some(c) => c,
        None => return Vec::new(),
    };
    let tc = match node_named(g, "TagClass", tagclass_name) {
        Some(c) => c,
        None => return Vec::new(),
    };
    let n = g.labels.len();
    let class = linked_to(g, "hasType", tc);
    let tagged = marks_linked_to(g, "hasTag", &class);
    proof {
        assert forall|w: int| 0 <= w < n implies #[trigger] tagged@[w] == class_tagged(*g, w, tc as int) by {
            if links_to_marked(*g, w, "hasTag"@, class@) {
                let q = choose|q: int| #[trigger] rel_to_marked(*g, q, w, "hasTag"@, class@);
                let t = g.rels@[q].1 as int;
                assert(rel_is(*g, q, w, t, "hasTag"@));
                assert(related(*g, w, t, "hasTag"@) && related(*g, t, tc as int, "hasType"@));
            }
            if class_tagged(*g, w, tc as int) {
                let t = choose|t: int| #[trigger] related(*g, w, t, "hasTag"@) && related(*g, t, tc as int, "hasType"@);
                let q = choose|q: int| #[trigger] rel_is(*g, q, w, t, "hasTag"@);
                assert(t < n);
                assert(rel_to_marked(*g, q, w, "hasTag"@, class@));
            }
        }
    }
    let cities = sources_of(g, country, "isPartOf");
    let mut rows: Vec<(i64, i64, String, i64, i64)> = Vec::new();
    let mut i: usize = 0;
    while i < cities.len()
        invariant
            n == g.labels@.len(),
            n <= u32::MAX,
            rels_within(*g),
            tagged@.len() == n,
            forall|w: int| 0 <= w < n ==> #[trigger] tagged@[w] == class_tagged(*g, w, tc as int),
            cities@ == sources(*g, country as int, "isPartOf"@),
            i <= cities@.len(),
            views(rows@) == city_rows(*g, tc as int, cities@, i as int),
        decreases cities.len() - i,
    {
        let people = sources_of(g, cities[i], "isLocatedIn");
        let ghost at_city = views(rows@);
        let mut j: usize = 0;
        while j < people.len()
            invariant
                n == g.labels@.len(),
                n <= u32::MAX,
                rels_within(*g),
                tagged@.len() == n,
                forall|w: int| 0 <= w < n ==> #[trigger] tagged@[w] == class_tagged(*g, w, tc as int),
                people@ == sources(*g, cities@[i as int] as int, "isLocatedIn"@),
                j <= people@.len(),
                views(rows@) == at_city + person_rows(*g, tc as int, people@, j as int),
            decreases people.len() - j,
        {
            let p = people[j];
            let forums = sources_of(g, p, "hasModerator");
            let ghost at_person = views(rows@);
            let mut k: usize = 0;
            while k < forums.len()
                invariant
                    n == g.labels@.len(),
                    n <= u32::MAX,
                    rels_within(*g),
                    tagged@.len() == n,
                    forall|w: int| 0 <= w < n ==> #[trigger] tagged@[w] == class_tagged(*g, w, tc as int),
                    forums@ == sources(*g, p as int, "hasModerator"@),
                    k <= forums@.len(),
                    views(rows@) == at_person + forum_rows(*g, tc as int, p as int, forums@, k as int),
                decreases forums.len() - k,
            {
                let f = forums[k];
                let count = count_topic_messages(g, f, tc, &tagged);
                if count > 0 {
                    let title = match text_prop_of(g, f, "title") {
                        Some(v) => text_copy(v),
                        None => String::new(),
                    };
                    let ghost before = views(rows@);
                    rows.push((count, int_prop_of(g, f, "flid"), title, int_prop_of(g, f, "fday"), int_prop_of(g, p, "plid")));
                    proof {
                        reveal_strlit("title");
                        assert(views(rows@) =~= before.push(forum_row(*g, f as int, p as int, tc as int)));
                    }
                }
                k = k + 1;
            }
            proof {
                assert(views(rows@) =~= at_city + person_rows(*g, tc as int, people@, j + 1));
            }
            j = j + 1;
        }
        proof {
            assert(views(rows@) =~= city_rows(*g, tc as int, cities@, i + 1));
        }
        i = i + 1;
    }
    let ghost all = views(rows@);
    let mut keyed: Vec<(i64, i64, u64, String, i64, i64)> = Vec::new();
    let mut q: usize = 0;
    while q < rows.len()
        invariant
            q <= rows@.len(),
            all == views(rows@),
            views(keyed@) == positioned(all).take(q as int),
        decreases rows.len() - q,
    {
        let ghost before = views(keyed@);
        let r = &rows[q];
        let title = text_copy(r.2.as_str());
        keyed.push((r.0, r.1, q as u64, title, r.3, r.4));
        proof {
            let row = all[q as int];
            assert(row == (rows@[q as int].0, rows@[q as int].1, rows@[q as int].2@, rows@[q as int].3, rows@[q as int].4));
            assert(positioned(all)[q as int] == (row.0, row.1, q as u64, row.2, row.3, row.4));
            assert(views(keyed@) =~= before.push((row.0, row.1, q as u64, row.2, row.3, row.4)));
            assert(views(keyed@) =~= positioned(all).take(q + 1));
        }
        q = q + 1;
    }
    proof {
        assert(positioned(all).take(q as int) =~= positioned(all));
    }
    let top = sort_and_take(keyed, 20);
    let mut out: Vec<(i64, String, i64, i64, i64)> = Vec::new();
    let mut k: usize = 0;
    while k < top.len()
        invariant
            k <= top@.len(),
            views(out@) == views(top@).take(k as int).map_values(
                |r: (i64, i64, u64, Seq<char>, i64, i64)| (r.1, r.3, r.4, r.5, r.0),
            ),
        decreases top.len() - k,
    {
        let ghost before = views(out@);
        let title = text_copy(top[k].3.as_str());
        out.push((top[k].1, title, top[k].4, top[k].5, top[k].0));
        proof {
            let row = views(top@)[k as int];
            assert(row == (
                top@[k as int].0,
                top@[k as int].1,
                top@[k as int].2,
                top@[k as int].3@,
                top@[k as int].4,
                top@[k as int].5,
            ));
            assert(views(out@) =~= before.push((row.1, row.3, row.4, row.5, row.0)));
            assert(views(top@).take(k + 1) =~= views(top@).take(k as int).push(row));
            assert(views(out@) =~= views(top@).take(k + 1).map_values(
                |r: (i64, i64, u64, Seq<char>, i64, i64)| (r.1, r.3, r.4, r.5, r.0),
            ));
        }
        k = k + 1;
    }
    proof {
        assert(views(top@).take(k as int) =~= views(top@));
    }
    out
}

} // verus!
