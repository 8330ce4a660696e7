//! BI Q8, central person for a tag: persons scored by their interest in a
//! tag and their messages with it in a period, plus their friends' scores.
use vstd::prelude::*;
use crate::bi::lookup::{
    lemma_sources_bound, lemma_sources_within, lemma_targets_bound, lemma_targets_within, linked_to, named_node, node_named,
    related, rels_within,
};
use crate::bi::q5::{lemma_occurrences_grow, occurrences, tagged_messages};
use crate::rdfgraph::PropGraph;
use crate::ranking::{lemma_ranked_take, rank_and_take, rank_rel, take_upto, RankOrder};
use crate::spb::access::{int_prop_of, int_value, sources, sources_of, targets, targets_of};

verus! {

/// Over the first `i` messages tagged `t`: those `p` created strictly
/// between days `start` and `end`.
pub open spec fn window_posts(g: PropGraph, t: int, start: i64, end: i64, p: int, i: int) -> nat
    decreases i,
{
    if i <= 0 {
        0
    } else {
        let m = tagged_messages(g, t)[i - 1] as int;
        let day = int_value(g, m, "day"@);
        window_posts(g, t, start, end, p, i - 1) + if start < day && day < end {
            let c = sources(g, m, "hasCreator"@);
            occurrences(c, p, c.len() as int)
        } else {
            0
        }
    }
}

/// The base score of `p`: 100 for an interest in tag `t`, plus the messages
/// with the tag created in the period.
pub open spec fn base_score(g: PropGraph, t: int, start: i64, end: i64, p: int) -> int {
    (if related(g, p, t, "hasInterest"@) {
        100int
    } else {
        0int
    }) + window_posts(g, t, start, end, p, tagged_messages(g, t).len() as int)
}

/// The base scores of the first `j` acquaintances of `p` (one per `knows`
/// relationship), summed.
pub open spec fn friends_score(g: PropGraph, t: int, start: i64, end: i64, p: int, j: int) -> int
    decreases j,
{
    if j <= 0 {
        0
    } else {
        friends_score(g, t, start, end, p, j - 1) + base_score(g, t, start, end, targets(g, p, "knows"@)[j - 1] as int)
    }
}

/// The friends' score of `p`.
pub open spec fn friends_total(g: PropGraph, t: int, start: i64, end: i64, p: int) -> int {
    friends_score(g, t, start, end, p, targets(g, p, "knows"@).len() as int)
}

/// The `(total, LDBC id, person, score, friends' score)` keys of the
/// persons below `k` with a base score.
pub open spec fn central_keys(g: PropGraph, t: int, start: i64, end: i64, k: int) -> Seq<(i64, i64, u32, i64, i64)>
    decreases k,
{
    if k <= 0 {
        Seq::empty()
    } else {
        let p = k - 1;
        let s = base_score(g, t, start, end, p);
        let fs = friends_total(g, t, start, end, p);
        if s > 0 {
            central_keys(g, t, start, end, k - 1).push(((s + fs) as i64, int_value(g, p, "plid"@), p as u32, s as i64, fs as i64))
        } else {
            central_keys(g, t, start, end, k - 1)
        }
    }
}

/// The answer of Q8: `(person, score, friends' score)` for the tag named
/// `tag_name`, largest total first, then by LDBC id, the first 100; nothing
/// when no tag has that name.
pub open spec fn central_persons(g: PropGraph, tag_name: Seq<char>, start: i64, end: i64) -> Seq<(u32, i64, i64)> {
    match named_node(g, "Tag"@, tag_name) {
        Some(t) => take_upto(
            central_keys(g, t as int, start, end, g.labels@.len() as int).sort_by(rank_rel::<(i64, i64, u32, i64, i64)>()),
            100,
        ).map_values(|k: (i64, i64, u32, i64, i64)| (k.2, k.3, k.4)),
        None => Seq::empty(),
    }
}

/// The totals of the persons with a base score fit an `i64`.
pub open spec fn central_fits(g: PropGraph, t: int, start: i64, end: i64) -> bool {
    forall|p: int|
        0 <= p < g.labels@.len() ==> #[trigger] base_score(g, t, start, end, p) + friends_total(g, t, start, end, p)
            <= i64::MAX
}

proof fn lemma_window_bound(g: PropGraph, t: int, start: i64, end: i64, p: int, i: int)
    requires
        0 <= i <= tagged_messages(g, t).len(),
    ensures
        window_posts(g, t, start, end, p, i) <= i * g.rels@.len(),
    decreases i,
{
    if i > 0 {
        lemma_window_bound(g, t, start, end, p, i - 1);
        let m = tagged_messages(g, t)[i - 1] as int;
        let c = sources(g, m, "hasCreator"@);
        lemma_sources_bound(g, m, "hasCreator"@, g.rels@.len() as int);
        lemma_occurrences_grow(c, p, 0, c.len() as int);
        lemma_occurrences_bound(c, p, c.len() as int);
        assert((i - 1) * g.rels@.len() + g.rels@.len() == i * g.rels@.len()) by (nonlinear_arith);
    }
}

proof fn lemma_occurrences_bound(s: Seq<u32>, p: int, j: int)
    requires
        0 <= j,
    ensures
        occurrences(s, p, j) <= j,
    decreases j,
{
    if j > 0 {
        lemma_occurrences_bound(s, p, j - 1);
    }
}

proof fn lemma_friends_grow(g: PropGraph, t: int, start: i64, end: i64, p: int, j: int, m: int)
    requires
        0 <= j <= m,
    ensures
        friends_score(g, t, start, end, p, j) <= friends_score(g, t, start, end, p, m),
        0 <= friends_score(g, t, start, end, p, j),
    decreases m - j,
{
    if j < m {
        lemma_friends_grow(g, t, start, end, p, j, m - 1);
    } else {
        lemma_friends_nonneg(g, t, start, end, p, j);
    }
}

proof fn lemma_friends_nonneg(g: PropGraph, t: int, start: i64, end: i64, p: int, j: int)
    ensures
        0 <= friends_score(g, t, start, end, p, j),
    decreases j,
{
    if j > 0 {
        lemma_friends_nonneg(g, t, start, end, p, j - 1);
    }
}

/// BI Q8: for the tag named `tag_name` (the smallest id among several),
/// each person's score, 100 for an interest in the tag plus the messages
/// with the tag they created strictly between days `start_day` and
/// `end_day` (a message counts once per `hasTag` and `hasCreator`
/// relationship), and the summed scores of the persons they know (one per
/// `knows` relationship), as `(person, score, friends' score)` for the
/// persons with a score; largest total first, then by LDBC id, the first
/// 100.
pub fn q8_central_person(g: &PropGraph, tag_name: &str, start_day: i64, end_day: i64) -> (r: Vec<(u32, i64, i64)>)
    requires
        g.labels@.len() <= u32::MAX,
        g.rels@.len() <= u32::MAX,
        rels_within(*g),
        named_node(*g, "Tag"@, tag_name@) matches Some(t) ==> central_fits(*g, t as int, start_day, end_day),
    ensures
        r@ == central_persons(*g, tag_name@, start_day, end_day),
{
    proof {
        reveal_strlit("Tag");
    }
    let t = match node_named(g, "Tag", tag_name) {
        Some(t) => t,
        None => return Vec::new(),
    };
    let n = g.labels.len();
    let interested = linked_to(g, "hasInterest", t);
    let ms = sources_of(g, t, "hasTag");
    proof {
        lemma_sources_bound(*g, t as int, "hasTag"@, g.rels@.len() as int);
    }
    let mut counts: Vec<u64> = Vec::new();
    while counts.len() < n
        invariant
            counts@.len() <= n,
            forall|p: int| 0 <= p < counts@.len() ==> #[trigger] counts@[p] == 0,
        decreases n - counts.len(),
    {
        counts.push(0);
    }
    let mut i: usize = 0;
    while i < ms.len()
        invariant
            n == g.labels@.len(),
            n <= u32::MAX,
            g.rels@.len() <= u32::MAX,
            rels_within(*g),
            ms@ == tagged_messages(*g, t as int),
            ms@.len() <= g.rels@.len(),
            counts@.len() == n,
            i <= ms@.len(),
            forall|p: int|
                0 <= p < n ==> #[trigger] counts@[p] as int == window_posts(*g, t as int, start_day, end_day, p, i as int),
        decreases ms.len() - i,
    {
        let m = ms[i];
        let day = int_prop_of(g, m, "day");
        if start_day < day && day < end_day {
            let creators = sources_of(g, m, "hasCreator");
            proof {
                lemma_sources_within(*g, m as int, "hasCreator"@, g.rels@.len() as int);
            }
            let mut j: usize = 0;
            while j < creators.len()
                invariant
                    n == g.labels@.len(),
                    n <= u32::MAX,
                    g.rels@.len() <= u32::MAX,
                    ms@ == tagged_messages(*g, t as int),
                    ms@.len() <= g.rels@.len(),
                    i < ms@.len(),
                    m == ms@[i as int],
                    start_day < int_value(*g, m as int, "day"@) < end_day,
                    creators@ == sources(*g, m as int, "hasCreator"@),
                    forall|q: int| 0 <= q < creators@.len() ==> (#[trigger] creators@[q] as int) < n,
                    counts@.len() == n,
                    j <= creators@.len(),
                    forall|p: int|
                        0 <= p < n ==> #[trigger] counts@[p] as int == window_posts(
                            *g,
                            t as int,
                            start_day,
                            end_day,
                            p,
                            i as int,
                        ) + occurrences(creators@, p, j as int),
                decreases creators.len() - j,
            {
                let p = creators[j] as usize;
                proof {
                    lemma_window_bound(*g, t as int, start_day, end_day, p as int, i + 1);
                    lemma_occurrences_grow(creators@, p as int, j + 1, creators@.len() as int);
                    assert((i + 1) * g.rels@.len() <= 0xffff_ffff * 0xffff_ffffint) by (nonlinear_arith)
                        requires
                            i + 1 <= g.rels@.len(),
                            g.rels@.len() <= 0xffff_ffff,
                    ;
                }
                let bumped = counts[p] + 1;
                counts.set(p, bumped);
                proof {
                    assert forall|q: int| 0 <= q < n && q != p implies occurrences(creators@, q, j + 1) == occurrences(
                        creators@,
                        q,
                        j as int,
                    ) by {}
                }
                j = j + 1;
            }
        }
        i = i + 1;
    }
    let mut scores: Vec<i64> = Vec::new();
    let mut p: usize = 0;
    while p < n
        invariant
            n == g.labels@.len(),
            n <= u32::MAX,
            g.rels@.len() <= u32::MAX,
            ms@ == tagged_messages(*g, t as int),
            ms@.len() <= g.rels@.len(),
            counts@.len() == n,
            forall|q: int|
                0 <= q < n ==> #[trigger] counts@[q] as int == window_posts(
                    *g,
                    t as int,
                    start_day,
                    end_day,
                    q,
                    ms@.len() as int,
                ),
            interested@.len() == n,
            forall|q: int| 0 <= q < n ==> #[trigger] interested@[q] == related(*g, q, t as int, "hasInterest"@),
            central_fits(*g, t as int, start_day, end_day),
            p <= n,
            scores@.len() == p,
            forall|q: int| 0 <= q < p ==> #[trigger] scores@[q] as int == base_score(*g, t as int, start_day, end_day, q),
        decreases n - p,
    {
        proof {
            lemma_friends_nonneg(*g, t as int, start_day, end_day, p as int, targets(*g, p as int, "knows"@).len() as int);
            assert(base_score(*g, t as int, start_day, end_day, p as int) + friends_total(
                *g,
                t as int,
                start_day,
                end_day,
                p as int,
            ) <= i64::MAX);
        }
        let c = counts[p] as i64;
        let s = if interested[p] {
            100 + c
        } else {
            c
        };
        scores.push(s);
        p = p + 1;
    }
    let mut keys: Vec<(i64, i64, u32, i64, i64)> = Vec::new();
    let mut p: usize = 0;
    while p < n
        invariant
            n == g.labels@.len(),
            n <= u32::MAX,
            rels_within(*g),
            central_fits(*g, t as int, start_day, end_day),
            scores@.len() == n,
            forall|q: int| 0 <= q < n ==> #[trigger] scores@[q] as int == base_score(*g, t as int, start_day, end_day, q),
            forall|q: int| 0 <= q < n ==> 0 <= #[trigger] scores@[q],
            p <= n,
            keys@ == central_keys(*g, t as int, start_day, end_day, p as int),
        decreases n - p,
    {
        if scores[p] > 0 {
            let friends = targets_of(g, p as u32, "knows");
            proof {
                lemma_targets_within(*g, p as int, "knows"@, g.rels@.len() as int);
            }
            let mut fs: i64 = 0;
            let mut j: usize = 0;
            while j < friends.len()
                invariant
                    n == g.labels@.len(),
                    p < n,
                    central_fits(*g, t as int, start_day, end_day),
                    scores@.len() == n,
                    forall|q: int| 0 <= q < n ==> #[trigger] scores@[q] as int == base_score(*g, t as int, start_day, end_day, q),
                    forall|q: int| 0 <= q < n ==> 0 <= #[trigger] scores@[q],
                    scores@[p as int] > 0,
                    friends@ == targets(*g, p as int, "knows"@),
                    forall|q: int| 0 <= q < friends@.len() ==> (#[trigger] friends@[q] as int) < n,
                    j <= friends@.len(),
                    fs as int == friends_score(*g, t as int, start_day, end_day, p as int, j as int),
                decreases friends.len() - j,
            {
                proof {
                    lemma_friends_grow(*g, t as int, start_day, end_day, p as int, j + 1, friends@.len() as int);
                    assert(base_score(*g, t as int, start_day, end_day, p as int) + friends_total(
                        *g,
                        t as int,
                        start_day,
                        end_day,
                        p as int,
                    ) <= i64::MAX);
                }
                fs = fs + scores[friends[j] as usize];
                j = j + 1;
            }
            proof {
                assert(base_score(*g, t as int, start_day, end_day, p as int) + friends_total(
                    *g,
                    t as int,
                    start_day,
                    end_day,
                    p as int,
                ) <= i64::MAX);
            }
            let plid = int_prop_of(g, p as u32, "plid");
            keys.push((scores[p] + fs, plid, p as u32, scores[p], fs));
        }
        p = p + 1;
    }
    let best = rank_and_take(keys, 100);
    let mut out: Vec<(u32, i64, i64)> = Vec::new();
    let mut k: usize = 0;
    while k < best.len()
        invariant
            k <= best@.len(),
            out@ == best@.take(k as int).map_values(|x: (i64, i64, u32, i64, i64)| (x.2, x.3, x.4)),
        decreases best.len() - k,
    {
        out.push((best[k].2, best[k].3, best[k].4));
        proof {
            assert(best@.take(k + 1) =~= best@.take(k as int).push(best@[k as int]));
            assert(out@ =~= best@.take(k + 1).map_values(|x: (i64, i64, u32, i64, i64)| (x.2, x.3, x.4)));
        }
        k = k + 1;
    }
    proof {
        assert(best@.take(k as int) =~= best@);
    }
    out
}

proof fn lemma_friends_score_nonneg(g: PropGraph, t: int, start: i64, end: i64, p: int, j: int)
    ensures
        friends_score(g, t, start, end, p, j) >= 0,
    decreases j,
{
    if j > 0 {
        lemma_friends_score_nonneg(g, t, start, end, p, j - 1);
    }
}

/// A Q8 key's total is its person's score plus the friends' score, the
/// score positive.
pub open spec fn key_adds_up(k: (i64, i64, u32, i64, i64)) -> bool {
    k.0 == k.3 + k.4 && k.3 > 0 && k.4 >= 0
}

proof fn lemma_central_keys_add_up(g: PropGraph, t: int, start: i64, end: i64, k: int)
    requires
        central_fits(g, t, start, end),
        k <= g.labels@.len(),
    ensures
        forall|i: int| 0 <= i < central_keys(g, t, start, end, k).len() ==> #[trigger] key_adds_up(central_keys(g, t, start, end, k)[i]),
    decreases k,
{
    if k > 0 {
        lemma_central_keys_add_up(g, t, start, end, k - 1);
        let p = k - 1;
        lemma_friends_score_nonneg(g, t, start, end, p, targets(g, p, "knows"@).len() as int);
        assert(base_score(g, t, start, end, p) + friends_total(g, t, start, end, p) <= i64::MAX);
        let prev = central_keys(g, t, start, end, k - 1);
        let keys = central_keys(g, t, start, end, k);
        assert forall|i: int| 0 <= i < keys.len() implies #[trigger] key_adds_up(keys[i]) by {
            if i < prev.len() {
                assert(keys[i] == prev[i]);
                assert(key_adds_up(prev[i]));
            }
        }
    }
}

/// Q8's base score is 100 for an interest in the tag plus the person's
/// tagged messages in the period, so never negative and at least 100 with
/// the interest.
pub proof fn law_q8_base_score(g: PropGraph, t: int, start: i64, end: i64, p: int)
    ensures
        base_score(g, t, start, end, p) - window_posts(g, t, start, end, p, tagged_messages(g, t).len() as int) == if related(
            g,
            p,
            t,
            "hasInterest"@,
        ) {
            100int
        } else {
            0int
        },
        base_score(g, t, start, end, p) >= 0,
        related(g, p, t, "hasInterest"@) ==> base_score(g, t, start, end, p) >= 100,
{
}

/// Q8 ranks persons by score plus friends' score: down the answer that sum
/// never grows, every listed person has a positive score, and a scored
/// person left out has no larger sum than any person in it.
pub proof fn law_q8_largest_total_first(g: PropGraph, tag_name: Seq<char>, start: i64, end: i64)
    requires
        named_node(g, "Tag"@, tag_name) matches Some(t) ==> central_fits(g, t as int, start, end),
    ensures
        forall|i: int, j: int|
            0 <= i < j < central_persons(g, tag_name, start, end).len() ==> (#[trigger] central_persons(g, tag_name, start, end)[i]).1
                + central_persons(g, tag_name, start, end)[i].2 >= (#[trigger] central_persons(g, tag_name, start, end)[j]).1
                + central_persons(g, tag_name, start, end)[j].2,
        forall|i: int| 0 <= i < central_persons(g, tag_name, start, end).len() ==> #[trigger] central_persons(g, tag_name, start, end)[i].1 > 0,
        named_node(g, "Tag"@, tag_name) matches Some(t) ==> forall|q: int, i: int|
            #![trigger central_keys(g, t as int, start, end, g.labels@.len() as int)[q], central_persons(g, tag_name, start, end)[i]]
            0 <= q < central_keys(g, t as int, start, end, g.labels@.len() as int).len() && !central_persons(g, tag_name, start, end).contains(
                (
                    central_keys(g, t as int, start, end, g.labels@.len() as int)[q].2,
                    central_keys(g, t as int, start, end, g.labels@.len() as int)[q].3,
                    central_keys(g, t as int, start, end, g.labels@.len() as int)[q].4,
                ),
            ) && 0 <= i < central_persons(g, tag_name, start, end).len() ==> central_keys(g, t as int, start, end, g.labels@.len() as int)[q].3
                + central_keys(g, t as int, start, end, g.labels@.len() as int)[q].4 <= central_persons(g, tag_name, start, end)[i].1
                + central_persons(g, tag_name, start, end)[i].2,
{
    match named_node(g, "Tag"@, tag_name) {
        Some(t) => {
            let keys = central_keys(g, t as int, start, end, g.labels@.len() as int);
            lemma_ranked_take(keys, 100);
            lemma_central_keys_add_up(g, t as int, start, end, g.labels@.len() as int);
            let k = take_upto(keys.sort_by(rank_rel::<(i64, i64, u32, i64, i64)>()), 100);
            let res = central_persons(g, tag_name, start, end);
            assert(res == k.map_values(|x: (i64, i64, u32, i64, i64)| (x.2, x.3, x.4)));
            assert forall|i: int| 0 <= i < k.len() implies #[trigger] key_adds_up(k[i]) by {
                assert(k.contains(k[i]));
                assert(keys.contains(k[i]));
                let q = choose|q: int| 0 <= q < keys.len() && keys[q] == k[i];
                assert(key_adds_up(keys[q]));
            }
            assert forall|i: int, j: int| 0 <= i < j < res.len() implies (#[trigger] res[i]).1 + res[i].2 >= (#[trigger] res[j]).1
                + res[j].2 by {
                assert(k[i].ranks_le(k[j]));
                assert(key_adds_up(k[i]) && key_adds_up(k[j]));
            }
            assert forall|i: int| 0 <= i < res.len() implies #[trigger] res[i].1 > 0 by {
                assert(key_adds_up(k[i]));
            }
            assert forall|q: int, i: int|
                #![trigger keys[q], res[i]]
                0 <= q < keys.len() && !res.contains((keys[q].2, keys[q].3, keys[q].4)) && 0 <= i < res.len() implies keys[q].3
                    + keys[q].4 <= res[i].1 + res[i].2 by {
                assert(keys.contains(keys[q]));
                assert(key_adds_up(keys[q]));
                if k.contains(keys[q]) {
                    let p = choose|p: int| 0 <= p < k.len() && k[p] == keys[q];
                    assert(res[p] == (keys[q].2, keys[q].3, keys[q].4));
                }
                assert(k[i].ranks_le(keys[q]));
                assert(key_adds_up(k[i]));
            }
        },
        None => {},
    }
}

} // verus!
