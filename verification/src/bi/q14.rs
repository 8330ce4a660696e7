//! BI Q14, international dialog: for each city of one country, the pair of
//! acquainted persons (one in that city, one in a second country) whose
//! replies and likes between them score highest.
use vstd::prelude::*;
use crate::bi::lookup::{named_node, node_named};
use crate::bi::q2::name_or_empty;
use crate::rdfgraph::{text_copy, PropGraph};
use crate::ranking::{lemma_sorted_take, sort_and_take, take_upto, view_rel, views, ViewOrder};
use crate::spb::access::{int_prop_of, int_value, sources, sources_of, targets, targets_of, text_prop_of};

verus! {

/// The creator of message `m`: the source of its first `hasCreator`
/// relationship.
pub open spec fn creator_of(g: PropGraph, m: int) -> Option<u32> {
    let s = sources(g, m, "hasCreator"@);
    if s.len() > 0 {
        Some(s[0])
    } else {
        None
    }
}

/// The `j`-th message that message `m` replies to exists and was created by `q`.
pub open spec fn answers(g: PropGraph, m: int, j: int, q: int) -> bool {
    &&& 0 <= j < targets(g, m, "replyOf"@).len()
    &&& creator_of(g, targets(g, m, "replyOf"@)[j] as int) == Some(q as u32)
}

/// Person `p` created a message that replies to a message of person `q`.
pub open spec fn replied_to(g: PropGraph, p: int, q: int) -> bool {
    let made = targets(g, p, "hasCreator"@);
    exists|i: int, j: int| 0 <= i < made.len() && #[trigger] answers(g, made[i] as int, j, q)
}

/// Person `p` likes a message of person `q`.
pub open spec fn liked(g: PropGraph, p: int, q: int) -> bool {
    let likes = targets(g, p, "likes"@);
    exists|i: int| 0 <= i < likes.len() && #[trigger] creator_of(g, likes[i] as int) == Some(q as u32)
}

/// Person `p` is located in city `city`.
pub open spec fn located_in(g: PropGraph, p: int, city: int) -> bool {
    sources(g, city, "isLocatedIn"@).contains(p as u32)
}

/// Person `p` is located in a city that is part of `country`.
pub open spec fn in_country(g: PropGraph, p: int, country: int) -> bool {
    let cities = sources(g, country, "isPartOf"@);
    exists|i: int| 0 <= i < cities.len() && #[trigger] located_in(g, p, cities[i] as int)
}

/// The dialog score of persons `p1` and `p2`: 4 when `p1` replied to `p2`,
/// 1 when `p2` replied to `p1`, 10 when `p1` likes a message of `p2`, 1 when
/// `p2` likes one of `p1`.
pub open spec fn dialog_score(g: PropGraph, p1: int, p2: int) -> i64 {
    ((if replied_to(g, p1, p2) {
        4int
    } else {
        0int
    }) + (if replied_to(g, p2, p1) {
        1int
    } else {
        0int
    }) + (if liked(g, p1, p2) {
        10int
    } else {
        0int
    }) + (if liked(g, p2, p1) {
        1int
    } else {
        0int
    })) as i64
}

/// Candidate `b` stays the best against candidate `c`: a higher score, or
/// the same score with a smaller first id, or the same first id and a second
/// id no larger.
pub open spec fn keeps(b: (i64, i64, i64, u32, u32), c: (i64, i64, i64, u32, u32)) -> bool {
    b.0 > c.0 || (b.0 == c.0 && (b.1 < c.1 || (b.1 == c.1 && b.2 <= c.2)))
}

/// The candidate `(score, first id, second id, first, second)` of persons
/// `p1` and `p2`.
pub open spec fn candidate(g: PropGraph, p1: int, p2: int) -> (i64, i64, i64, u32, u32) {
    (dialog_score(g, p1, p2), int_value(g, p1, "plid"@), int_value(g, p2, "plid"@), p1 as u32, p2 as u32)
}

/// The best candidate so far after looking at `c`.
pub open spec fn step(best: Option<(i64, i64, i64, u32, u32)>, c: (i64, i64, i64, u32, u32)) -> Option<(i64, i64, i64, u32, u32)> {
    match best {
        Some(b) => if keeps(b, c) {
            Some(b)
        } else {
            Some(c)
        },
        None => Some(c),
    }
}

/// The best candidate after the first `j` acquaintances of `p1` that live in
/// `country`, starting from `best`.
pub open spec fn best_among_friends(
    g: PropGraph,
    best: Option<(i64, i64, i64, u32, u32)>,
    p1: int,
    country: int,
    j: int,
) -> Option<(i64, i64, i64, u32, u32)>
    decreases j,
{
    if j <= 0 {
        best
    } else {
        let prev = best_among_friends(g, best, p1, country, j - 1);
        let p2 = targets(g, p1, "knows"@)[j - 1] as int;
        if in_country(g, p2, country) {
            step(prev, candidate(g, p1, p2))
        } else {
            prev
        }
    }
}

/// The best candidate over the first `j` persons of `people` and their
/// acquaintances in `country`.
pub open spec fn best_among(g: PropGraph, people: Seq<u32>, country: int, j: int) -> Option<(i64, i64, i64, u32, u32)>
    decreases j,
{
    if j <= 0 {
        None
    } else {
        let p1 = people[j - 1] as int;
        best_among_friends(g, best_among(g, people, country, j - 1), p1, country, targets(g, p1, "knows"@).len() as int)
    }
}

/// The best candidate of a city: over the persons located in it.
pub open spec fn city_best(g: PropGraph, city: int, country: int) -> Option<(i64, i64, i64, u32, u32)> {
    let people = sources(g, city, "isLocatedIn"@);
    best_among(g, people, country, people.len() as int)
}

/// The rows `(score, first id, second id, position, first, second, city
/// name)` of the first `j` cities of `country1`, one per city with a
/// candidate in `country2`.
pub open spec fn dialog_rows(g: PropGraph, country1: int, country2: int, j: int) -> Seq<(i64, i64, i64, u64, u32, u32, Seq<char>)>
    decreases j,
{
    if j <= 0 {
        Seq::empty()
    } else {
        let city = sources(g, country1, "isPartOf"@)[j - 1] as int;
        match city_best(g, city, country2) {
            Some(b) => dialog_rows(g, country1, country2, j - 1).push(
                (b.0, b.1, b.2, (j - 1) as u64, b.3, b.4, name_or_empty(g, city)),
            ),
            None => dialog_rows(g, country1, country2, j - 1),
        }
    }
}

/// The answer of Q14: one row `(first, second, city name, score)` per city
/// of the country named `c1_name` that has a candidate in the country named
/// `c2_name`, highest score first, then by the two persons' ids, cities in
/// order on full ties; the first 100. Nothing when a country is missing.
pub open spec fn international_dialog(g: PropGraph, c1_name: Seq<char>, c2_name: Seq<char>) -> Seq<(u32, u32, Seq<char>, i64)> {
    match (named_node(g, "Country"@, c1_name), named_node(g, "Country"@, c2_name)) {
        (Some(a), Some(b)) => take_upto(
            dialog_rows(g, a as int, b as int, sources(g, a as int, "isPartOf"@).len() as int).sort_by(
                view_rel::<(i64, i64, i64, u64, u32, u32, String)>(),
            ),
            100,
        ).map_values(|r: (i64, i64, i64, u64, u32, u32, Seq<char>)| (r.4, r.5, r.6, r.0)),
        _ => Seq::empty(),
    }
}

/// The creator of message `m`, as [`creator_of`].
fn creator(g: &PropGraph, m: u32) -> (r: Option<u32>)
    ensures
        r == creator_of(*g, m as int),
{
    let s = sources_of(g, m, "hasCreator");
    if s.len() > 0 {
        Some(s[0])
    } else {
        None
    }
}

/// Whether person `p` replied to a message of person `q`.
fn replies_to(g: &PropGraph, p: u32, q: u32) -> (r: bool)
    ensures
        r == replied_to(*g, p as int, q as int),
{
    let made = targets_of(g, p, "hasCreator");
    let mut i: usize = 0;
    while i < made.len()
        invariant
            made@ == targets(*g, p as int, "hasCreator"@),
            i <= made@.len(),
            forall|a: int, b: int| 0 <= a < i ==> !#[trigger] answers(*g, made@[a] as int, b, q as int),
        decreases made.len() - i,
    {
        let parents = targets_of(g, made[i], "replyOf");
        let mut j: usize = 0;
        while j < parents.len()
            invariant
                made@ == targets(*g, p as int, "hasCreator"@),
                i < made@.len(),
                parents@ == targets(*g, made@[i as int] as int, "replyOf"@),
                j <= parents@.len(),
                forall|b: int| 0 <= b < j ==> !#[trigger] answers(*g, made@[i as int] as int, b, q as int),
            decreases parents.len() - j,
        {
            if creator(g, parents[j]) == Some(q) {
                proof {
                    assert(answers(*g, made@[i as int] as int, j as int, q as int));
                }
                return true;
            }
            j = j + 1;
        }
        proof {
            assert forall|b: int| !#[trigger] answers(*g, made@[i as int] as int, b, q as int) by {
                if 0 <= b < parents@.len() {
                    assert(!answers(*g, made@[i as int] as int, b, q as int));
                }
            }
        }
        i = i + 1;
    }
    false
}

/// Whether person `p` likes a message of person `q`.
fn likes_message_of(g: &PropGraph, p: u32, q: u32) -> (r: bool)
    ensures
        r == liked(*g, p as int, q as int),
{
    let likes = targets_of(g, p, "likes");
    let mut i: usize = 0;
    while i < likes.len()
        invariant
            likes@ == targets(*g, p as int, "likes"@),
            i <= likes@.len(),
            forall|a: int| 0 <= a < i ==> #[trigger] creator_of(*g, likes@[a] as int) != Some(q),
        decreases likes.len() - i,
    {
        if creator(g, likes[i]) == Some(q) {
            return true;
        }
        i = i + 1;
    }
    false
}

/// Whether person `p` is located in a city of `country`.
pub(crate) fn lives_in(g: &PropGraph, p: u32, country: u32) -> (r: bool)
    ensures
        r == in_country(*g, p as int, country as int),
{
    let cities = sources_of(g, country, "isPartOf");
    let mut i: usize = 0;
    while i < cities.len()
        invariant
            cities@ == sources(*g, country as int, "isPartOf"@),
            i <= cities@.len(),
            forall|a: int| 0 <= a < i ==> !#[trigger] located_in(*g, p as int, cities@[a] as int),
        decreases cities.len() - i,
    {
        let people = sources_of(g, cities[i], "isLocatedIn");
        let mut j: usize = 0;
        while j < people.len()
            invariant
                cities@ == sources(*g, country as int, "isPartOf"@),
                i < cities@.len(),
                people@ == sources(*g, cities@[i as int] as int, "isLocatedIn"@),
                j <= people@.len(),
                forall|b: int| 0 <= b < j ==> people@[b] != p,
            decreases people.len() - j,
        {
            if people[j] == p {
                proof {
                    assert(people@.contains(p));
                    assert(located_in(*g, p as int, cities@[i as int] as int));
                }
                return true;
            }
            j = j + 1;
        }
        proof {
            assert(!people@.contains(p));
        }
        i = i + 1;
    }
    false
}

/// The dialog score of `p1` and `p2`.
fn score_pair(g: &PropGraph, p1: u32, p2: u32) -> (r: i64)
    ensures
        r == dialog_score(*g, p1 as int, p2 as int),
{
    let mut score: i64 = 0;
    if replies_to(g, p1, p2) {
        score = score + 4;
    }
    if replies_to(g, p2, p1) {
        score = score + 1;
    }
    if likes_message_of(g, p1, p2) {
        score = score + 10;
    }
    if likes_message_of(g, p2, p1) {
        score = score + 1;
    }
    score
}

/// The best candidate of `city` for acquaintances in `country`.
fn best_of_city(g: &PropGraph, city: u32, country: u32) -> (r: Option<(i64, i64, i64, u32, u32)>)
    ensures
        r == city_best(*g, city as int, country as int),
{
    let people = sources_of(g, city, "isLocatedIn");
    let mut best: Option<(i64, i64, i64, u32, u32)> = None;
    let mut i: usize = 0;
    while i < people.len()
        invariant
            people@ == sources(*g, city as int, "isLocatedIn"@),
            i <= people@.len(),
            best == best_among(*g, people@, country as int, i as int),
        decreases people.len() - i,
    {
        let p1 = people[i];
        let friends = targets_of(g, p1, "knows");
        let ghost start = best;
        let mut j: usize = 0;
        while j < friends.len()
            invariant
                friends@ == targets(*g, p1 as int, "knows"@),
                j <= friends@.len(),
                best == best_among_friends(*g, start, p1 as int, country as int, j as int),
            decreases friends.len() - j,
        {
            let p2 = friends[j];
            if lives_in(g, p2, country) {
                let score = score_pair(g, p1, p2);
                let pa = int_prop_of(g, p1, "plid");
                let pb = int_prop_of(g, p2, "plid");
                let cand = (score, pa, pb, p1, p2);
                best = match best {
                    Some(b) => if b.0 > score || (b.0 == score && (b.1 < pa || (b.1 == pa && b.2 <= pb))) {
                        Some(b)
                    } else {
                        Some(cand)
                    },
                    None => Some(cand),
                };
            }
            j = j + 1;
        }
        i = i + 1;
    }
    best
}

/// BI Q14: for each city of the country named `c1_name` (a node labelled
/// `Country`, the smallest id among several), the best-scoring pair of a
/// person located in that city and a person they know located in the
/// country named `c2_name`, scored by [`dialog_score`] (ties: smaller first
/// LDBC id, then smaller second, else the earlier pair); one row
/// `(first, second, city name, score)` per city with such a pair, highest
/// score first, then by the two LDBC ids; the first 100.
pub fn q14_international_dialog(g: &PropGraph, c1_name: &str, c2_name: &str) -> (r: Vec<(u32, u32, String, i64)>)
    requires
        g.labels@.len() <= u32::MAX,
    ensures
        views(r@) == international_dialog(*g, c1_name@, c2_name@),
{
    proof {
        reveal_strlit("Country");
    }
    let country1 = match node_named(g, "Country", c1_name) {
        Some(c) => c,
        None => return Vec::new(),
    };
    let country2 = match node_named(g, "Country", c2_name) {
        Some(c) => c,
        None => return Vec::new(),
    };
    let cities = sources_of(g, country1, "isPartOf");
    let mut rows: Vec<(i64, i64, i64, u64, u32, u32, String)> = Vec::new();
    let mut j: usize = 0;
    while j < cities.len()
        invariant
            cities@ == sources(*g, country1 as int, "isPartOf"@),
            j <= cities@.len(),
            views(rows@) == dialog_rows(*g, country1 as int, country2 as int, j as int),
        decreases cities.len() - j,
    {
        let city = cities[j];
        match best_of_city(g, city, country2) {
            Some(b) => {
                let name = match text_prop_of(g, city, "name") {
                    Some(v) => text_copy(v),
                    None => String::new(),
                };
                let ghost before = views(rows@);
                rows.push((b.0, b.1, b.2, j as u64, b.3, b.4, name));
                proof {
                    reveal_strlit("name");
                    assert(views(rows@) =~= before.push(
                        (b.0, b.1, b.2, j as u64, b.3, b.4, name_or_empty(*g, city as int)),
                    ));
                }
            },
            None => {},
        }
        j = j + 1;
    }
    let top = sort_and_take(rows, 100);
    let mut out: Vec<(u32, u32, String, i64)> = Vec::new();
    let mut k: usize = 0;
    while k < top.len()
        invariant
            k <= top@.len(),
            views(out@) == views(top@).take(k as int).map_values(
                |r: (i64, i64, i64, u64, u32, u32, Seq<char>)| (r.4, r.5, r.6, r.0),
            ),
        decreases top.len() - k,
    {
        let ghost before = views(out@);
        let name = text_copy(top[k].6.as_str());
        out.push((top[k].4, top[k].5, name, top[k].0));
        proof {
            let row = views(top@)[k as int];
            assert(row == (
                top@[k as int].0,
                top@[k as int].1,
                top@[k as int].2,
                top@[k as int].3,
                top@[k as int].4,
                top@[k as int].5,
                top@[k as int].6@,
            ));
            assert(views(out@) =~= before.push((row.4, row.5, row.6, row.0)));
            assert(views(top@).take(k + 1) =~= views(top@).take(k as int).push(row));
            assert(views(out@) =~= views(top@).take(k + 1).map_values(
                |r: (i64, i64, i64, u64, u32, u32, Seq<char>)| (r.4, r.5, r.6, r.0),
            ));
        }
        k = k + 1;
    }
    proof {
        assert(views(top@).take(k as int) =~= views(top@));
    }
    out
}

/// How Q14 weighs a pair: a reply from the first person to the second
/// counts 4, one back counts 1, a like from the first of a message of the
/// second counts 10, one back counts 1; so a pair whose only interaction is
/// a reply from the first scores 4, and the same pair the other way round 1.
pub proof fn law_dialog_weights(g: PropGraph, p1: int, p2: int)
    ensures
        dialog_score(g, p1, p2) == 4 * (replied_to(g, p1, p2) as int) + (replied_to(g, p2, p1) as int) + 10 * (liked(
            g,
            p1,
            p2,
        ) as int) + (liked(g, p2, p1) as int),
        replied_to(g, p1, p2) && !replied_to(g, p2, p1) && !liked(g, p1, p2) && !liked(g, p2, p1) ==> dialog_score(g, p1, p2)
            == 4 && dialog_score(g, p2, p1) == 1,
        liked(g, p1, p2) && !liked(g, p2, p1) && !replied_to(g, p1, p2) && !replied_to(g, p2, p1) ==> dialog_score(g, p1, p2)
            == 10 && dialog_score(g, p2, p1) == 1,
        dialog_score(g, p1, p2) - dialog_score(g, p2, p1) == 3 * ((replied_to(g, p1, p2) as int) - (replied_to(g, p2, p1) as int))
            + 9 * ((liked(g, p1, p2) as int) - (liked(g, p2, p1) as int)),
{
}

/// `b` is a candidate of `p1` with one of the first `j` of its
/// acquaintances that live in `country`.
pub open spec fn friend_candidate(g: PropGraph, b: (i64, i64, i64, u32, u32), p1: int, country: int, j: int) -> bool {
    exists|i: int|
        0 <= i < j && in_country(g, targets(g, p1, "knows"@)[i] as int, country) && b == #[trigger] candidate(
            g,
            p1,
            targets(g, p1, "knows"@)[i] as int,
        )
}

proof fn lemma_best_among_friends(
    g: PropGraph,
    best: Option<(i64, i64, i64, u32, u32)>,
    p1: int,
    country: int,
    j: int,
)
    requires
        0 <= j <= targets(g, p1, "knows"@).len(),
    ensures
        best matches Some(b0) ==> best_among_friends(g, best, p1, country, j) matches Some(b) && b.0 >= b0.0,
        forall|i: int|
            0 <= i < j && in_country(g, targets(g, p1, "knows"@)[i] as int, country) ==> (best_among_friends(
                g,
                best,
                p1,
                country,
                j,
            ) matches Some(b) && b.0 >= dialog_score(g, p1, #[trigger] targets(g, p1, "knows"@)[i] as int)),
        best_among_friends(g, best, p1, country, j) matches Some(b) ==> best == Some(b) || friend_candidate(
            g,
            b,
            p1,
            country,
            j,
        ),
    decreases j,
{
    if j > 0 {
        lemma_best_among_friends(g, best, p1, country, j - 1);
        let prev = best_among_friends(g, best, p1, country, j - 1);
        let p2 = targets(g, p1, "knows"@)[j - 1] as int;
        let r = best_among_friends(g, best, p1, country, j);
        if in_country(g, p2, country) {
            let c = candidate(g, p1, p2);
            assert(r == step(prev, c));
            if r == Some(c) {
                assert(friend_candidate(g, c, p1, country, j));
            }
        }
        match r {
            Some(b) => {
                if let Some(pb) = prev {
                    if pb == b && best != Some(b) {
                        let i = choose|i: int|
                            0 <= i < j - 1 && in_country(g, targets(g, p1, "knows"@)[i] as int, country) && b == #[trigger] candidate(
                                g,
                                p1,
                                targets(g, p1, "knows"@)[i] as int,
                            );
                        assert(friend_candidate(g, b, p1, country, j));
                    }
                }
            },
            None => {},
        }
    }
}

/// `b` is a candidate of one of the first `j` persons of `people` with one
/// of their acquaintances in `country`.
pub open spec fn people_candidate(g: PropGraph, b: (i64, i64, i64, u32, u32), people: Seq<u32>, country: int, j: int) -> bool {
    exists|k: int|
        0 <= k < j && #[trigger] friend_candidate(g, b, people[k] as int, country, targets(g, people[k] as int, "knows"@).len() as int)
}

proof fn lemma_best_among(g: PropGraph, people: Seq<u32>, country: int, j: int)
    requires
        0 <= j <= people.len(),
    ensures
        forall|k: int, i: int|
            0 <= k < j && 0 <= i < targets(g, people[k] as int, "knows"@).len() && in_country(
                g,
                targets(g, people[k] as int, "knows"@)[i] as int,
                country,
            ) ==> (best_among(g, people, country, j) matches Some(b) && b.0 >= dialog_score(
                g,
                people[k] as int,
                #[trigger] targets(g, #[trigger] people[k] as int, "knows"@)[i] as int,
            )),
        best_among(g, people, country, j) matches Some(b) ==> people_candidate(g, b, people, country, j),
    decreases j,
{
    if j > 0 {
        lemma_best_among(g, people, country, j - 1);
        let prev = best_among(g, people, country, j - 1);
        let p1 = people[j - 1] as int;
        let n = targets(g, p1, "knows"@).len() as int;
        lemma_best_among_friends(g, prev, p1, country, n);
        let r = best_among(g, people, country, j);
        assert forall|k: int, i: int|
            0 <= k < j && 0 <= i < targets(g, people[k] as int, "knows"@).len() && in_country(
                g,
                targets(g, people[k] as int, "knows"@)[i] as int,
                country,
            ) implies (r matches Some(b) && b.0 >= dialog_score(
                g,
                people[k] as int,
                #[trigger] targets(g, #[trigger] people[k] as int, "knows"@)[i] as int,
            )) by {
            if k < j - 1 {
                assert(prev matches Some(pb) && pb.0 >= dialog_score(g, people[k] as int, targets(g, people[k] as int, "knows"@)[i] as int));
            } else {
                assert(people[k] as int == p1);
            }
        }
        match r {
            Some(b) => {
                if prev == Some(b) {
                    let k = choose|k: int|
                        0 <= k < j - 1 && #[trigger] friend_candidate(
                            g,
                            b,
                            people[k] as int,
                            country,
                            targets(g, people[k] as int, "knows"@).len() as int,
                        );
                    assert(people_candidate(g, b, people, country, j));
                } else {
                    assert(friend_candidate(g, b, p1, country, n));
                    assert(people_candidate(g, b, people, country, j));
                }
            },
            None => {},
        }
    }
}

/// Q14 picks, in a city, the acquainted pair with the highest dialog score:
/// a pick is a pair of a person of the city and an acquaintance in the other
/// country, with that pair's score, no lower than the score of any such pair;
/// and there is a pick whenever there is such a pair.
pub proof fn law_q14_city_best_scores_highest(g: PropGraph, city: int, country: int)
    ensures
        forall|k: int, i: int|
            0 <= k < sources(g, city, "isLocatedIn"@).len() && 0 <= i < targets(
                g,
                sources(g, city, "isLocatedIn"@)[k] as int,
                "knows"@,
            ).len() && in_country(g, targets(g, sources(g, city, "isLocatedIn"@)[k] as int, "knows"@)[i] as int, country)
                ==> (city_best(g, city, country) matches Some(b) && b.0 >= dialog_score(
                g,
                sources(g, city, "isLocatedIn"@)[k] as int,
                #[trigger] targets(g, #[trigger] sources(g, city, "isLocatedIn"@)[k] as int, "knows"@)[i] as int,
            )),
        city_best(g, city, country) matches Some(b) ==> b.0 == dialog_score(g, b.3 as int, b.4 as int) && sources(
            g,
            city,
            "isLocatedIn"@,
        ).contains(b.3) && targets(g, b.3 as int, "knows"@).contains(b.4) && in_country(g, b.4 as int, country),
{
    let people = sources(g, city, "isLocatedIn"@);
    lemma_best_among(g, people, country, people.len() as int);
    match city_best(g, city, country) {
        Some(b) => {
            let k = choose|k: int|
                0 <= k < people.len() && #[trigger] friend_candidate(
                    g,
                    b,
                    people[k] as int,
                    country,
                    targets(g, people[k] as int, "knows"@).len() as int,
                );
            let p1 = people[k] as int;
            let i = choose|i: int|
                0 <= i < targets(g, p1, "knows"@).len() && in_country(g, targets(g, p1, "knows"@)[i] as int, country) && b
                    == #[trigger] candidate(g, p1, targets(g, p1, "knows"@)[i] as int);
            assert(people[k] == b.3);
            assert(targets(g, p1, "knows"@)[i] == b.4);
        },
        None => {},
    }
}

/// Q14 lists the cities' best pairs highest score first: the score never
/// grows down the answer, and a city's pick left out scores no higher than
/// any row in it.
pub proof fn law_q14_highest_score_first(g: PropGraph, c1_name: Seq<char>, c2_name: Seq<char>)
    ensures
        forall|i: int, j: int|
            0 <= i < j < international_dialog(g, c1_name, c2_name).len() ==> (#[trigger] international_dialog(
                g,
                c1_name,
                c2_name,
            )[i]).3 >= (#[trigger] international_dialog(g, c1_name, c2_name)[j]).3,
        (named_node(g, "Country"@, c1_name), named_node(g, "Country"@, c2_name)) matches (Some(a), Some(b)) ==> forall|
            q: int,
            i: int,
        |
            #![trigger dialog_rows(g, a as int, b as int, sources(g, a as int, "isPartOf"@).len() as int)[q], international_dialog(g, c1_name, c2_name)[i]]
            0 <= q < dialog_rows(g, a as int, b as int, sources(g, a as int, "isPartOf"@).len() as int).len()
                && !international_dialog(g, c1_name, c2_name).contains(
                (
                    dialog_rows(g, a as int, b as int, sources(g, a as int, "isPartOf"@).len() as int)[q].4,
                    dialog_rows(g, a as int, b as int, sources(g, a as int, "isPartOf"@).len() as int)[q].5,
                    dialog_rows(g, a as int, b as int, sources(g, a as int, "isPartOf"@).len() as int)[q].6,
                    dialog_rows(g, a as int, b as int, sources(g, a as int, "isPartOf"@).len() as int)[q].0,
                ),
            ) && 0 <= i < international_dialog(g, c1_name, c2_name).len() ==> dialog_rows(
                g,
                a as int,
                b as int,
                sources(g, a as int, "isPartOf"@).len() as int,
            )[q].0 <= international_dialog(g, c1_name, c2_name)[i].3,
{
    match (named_node(g, "Country"@, c1_name), named_node(g, "Country"@, c2_name)) {
        (Some(a), Some(b)) => {
            let rows = dialog_rows(g, a as int, b as int, sources(g, a as int, "isPartOf"@).len() as int);
            let r = view_rel::<(i64, i64, i64, u64, u32, u32, String)>();
            <(i64, i64, i64, u64, u32, u32, String)>::lemma_view_total();
            assert(r == |x: (i64, i64, i64, u64, u32, u32, Seq<char>), y: (i64, i64, i64, u64, u32, u32, Seq<char>)| <(
                i64,
                i64,
                i64,
                u64,
                u32,
                u32,
                String,
            )>::view_le(x, y));
            lemma_sorted_take(rows, r, 100);
            let t = rows.sort_by(r);
            let k = take_upto(t, 100);
            let res = international_dialog(g, c1_name, c2_name);
            assert(res == k.map_values(|x: (i64, i64, i64, u64, u32, u32, Seq<char>)| (x.4, x.5, x.6, x.0)));
            assert forall|i: int, j: int| 0 <= i < j < res.len() implies (#[trigger] res[i]).3 >= (#[trigger] res[j]).3 by {
                assert(k[i] == t[i] && k[j] == t[j]);
                assert(r(t[i], t[j]));
            }
            assert forall|q: int, i: int|
                #![trigger rows[q], res[i]]
                0 <= q < rows.len() && !res.contains((rows[q].4, rows[q].5, rows[q].6, rows[q].0)) && 0 <= i < res.len()
                    implies rows[q].0 <= res[i].3 by {
                assert(rows.contains(rows[q]));
                if k.contains(rows[q]) {
                    let p = choose|p: int| 0 <= p < k.len() && k[p] == rows[q];
                    assert(res[p] == (rows[q].4, rows[q].5, rows[q].6, rows[q].0));
                }
                assert(r(k[i], rows[q]));
            }
        },
        _ => {},
    }
}

} // verus!
