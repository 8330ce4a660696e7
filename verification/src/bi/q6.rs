//! BI Q6, most authoritative users on a topic: the creators of the messages
//! with a given tag, scored by the popularity of the persons who liked those
//! messages.
use vstd::prelude::*;
use crate::bi::lookup::{lemma_push_contains, lemma_sources_bound, lemma_sources_within, lemma_targets_bound, named_node, node_named, rels_within};
use crate::bi::q5::tagged_messages;
use crate::rdfgraph::PropGraph;
use crate::ranking::{lemma_sorted_take, rank_and_take, rank_rel, take_upto, RankOrder};
use crate::spb::access::{int_prop_of, int_value, sources, sources_of, targets, targets_of};

verus! {

/// The `i`-th tagged message has a like, `p1` among its creators and `p2`
/// among those who like it.
pub open spec fn liked_by(g: PropGraph, t: int, i: int, p1: int, p2: int) -> bool {
    let m = tagged_messages(g, t)[i] as int;
    &&& 0 <= i < tagged_messages(g, t).len()
    &&& sources(g, m, "hasCreator"@).contains(p1 as u32)
    &&& sources(g, m, "likes"@).contains(p2 as u32)
}

/// Some of the first `i` tagged messages has a like and `p1` among its
/// creators.
pub open spec fn liked_creator_upto(g: PropGraph, t: int, p1: int, i: int) -> bool {
    exists|q: int| 0 <= q < i && #[trigger] sources(g, tagged_messages(g, t)[q] as int, "likes"@).len() > 0
        && sources(g, tagged_messages(g, t)[q] as int, "hasCreator"@).contains(p1 as u32)
}

/// Person `p1` created a tagged message that has a like.
pub open spec fn liked_creator(g: PropGraph, t: int, p1: int) -> bool {
    liked_creator_upto(g, t, p1, tagged_messages(g, t).len() as int)
}

/// Person `p2` likes a tagged message created by `p1`.
pub open spec fn liker_of(g: PropGraph, t: int, p1: int, p2: int) -> bool {
    exists|i: int| #[trigger] liked_by(g, t, i, p1, p2)
}

/// The likes of the messages among the first `j` created by `p`.
pub open spec fn popularity_upto(g: PropGraph, p: int, j: int) -> nat
    decreases j,
{
    if j <= 0 {
        0
    } else {
        popularity_upto(g, p, j - 1) + sources(g, targets(g, p, "hasCreator"@)[j - 1] as int, "likes"@).len()
    }
}

/// The likes the messages of `p` received (a message counts once per
/// `hasCreator` relationship).
pub open spec fn popularity(g: PropGraph, p: int) -> nat {
    popularity_upto(g, p, targets(g, p, "hasCreator"@).len() as int)
}

/// The popularity of the persons below `k` who like a tagged message of
/// `p1`, summed.
pub open spec fn authority_upto(g: PropGraph, t: int, p1: int, k: int) -> nat
    decreases k,
{
    if k <= 0 {
        0
    } else {
        authority_upto(g, t, p1, k - 1) + if liker_of(g, t, p1, k - 1) {
            popularity(g, k - 1)
        } else {
            0
        }
    }
}

/// The authority of `p1` for tag `t`.
pub open spec fn authority(g: PropGraph, t: int, p1: int) -> nat {
    authority_upto(g, t, p1, g.labels@.len() as int)
}

/// The `(score, LDBC id, person)` keys of the creators below `k` of a tagged
/// message with a like.
pub open spec fn authority_keys(g: PropGraph, t: int, k: int) -> Seq<(u64, i64, u32)>
    decreases k,
{
    if k <= 0 {
        Seq::empty()
    } else if liked_creator(g, t, k - 1) {
        authority_keys(g, t, k - 1).push((authority(g, t, k - 1) as u64, int_value(g, k - 1, "plid"@), (k - 1) as u32))
    } else {
        authority_keys(g, t, k - 1)
    }
}

/// The answer of Q6: `(person, score)` for the tag named `tag_name`, highest
/// score first, then by LDBC id, the first 100; nothing when no tag has
/// that name.
pub open spec fn authoritative_users(g: PropGraph, tag_name: Seq<char>) -> Seq<(u32, u64)> {
    match named_node(g, "Tag"@, tag_name) {
        Some(t) => take_upto(
            authority_keys(g, t as int, g.labels@.len() as int).sort_by(rank_rel::<(u64, i64, u32)>()),
            100,
        ).map_values(|k: (u64, i64, u32)| (k.2, k.0)),
        None => Seq::empty(),
    }
}

/// The authority scores of the creators of the messages tagged `t` fit a
/// `u64`.
pub open spec fn authority_fits(g: PropGraph, t: int) -> bool {
    forall|p: int| 0 <= p < g.labels@.len() ==> #[trigger] authority(g, t, p) <= u64::MAX
}

impl RankOrder for (u64, i64, u32) {
    /// A `(score, LDBC id, person)` key: highest score first, then LDBC id,
    /// then node id.
    open spec fn ranks_le(self, other: Self) -> bool {
        if self.0 != other.0 {
            self.0 > other.0
        } else if self.1 != other.1 {
            self.1 < other.1
        } else {
            self.2 <= other.2
        }
    }

    proof fn lemma_rank_total() {
    }

    fn comes_no_later(&self, other: &Self) -> (r: bool) {
        if self.0 != other.0 {
            self.0 > other.0
        } else if self.1 != other.1 {
            self.1 < other.1
        } else {
            self.2 <= other.2
        }
    }
}

proof fn lemma_popularity_bound(g: PropGraph, p: int, j: int)
    requires
        0 <= j <= targets(g, p, "hasCreator"@).len(),
    ensures
        popularity_upto(g, p, j) <= j * g.rels@.len(),
    decreases j,
{
    if j > 0 {
        lemma_popularity_bound(g, p, j - 1);
        lemma_sources_bound(
            g,
            targets(g, p, "hasCreator"@)[j - 1] as int,
            "likes"@,
            g.rels@.len() as int,
        );
        assert((j - 1) * g.rels@.len() + g.rels@.len() == j * g.rels@.len()) by (nonlinear_arith);
    }
}

/// The popularity of every node, by id.
fn popularities(g: &PropGraph) -> (r: Vec<u64>)
    requires
        g.labels@.len() <= u32::MAX,
        g.rels@.len() <= u32::MAX,
    ensures
        r@.len() == g.labels@.len(),
        forall|p: int| 0 <= p < r@.len() ==> #[trigger] r@[p] as int == popularity(*g, p),
{
    let n = g.labels.len();
    let mut out: Vec<u64> = Vec::new();
    let mut p: usize = 0;
    while p < n
        invariant
            n == g.labels@.len(),
            n <= u32::MAX,
            g.rels@.len() <= u32::MAX,
            p <= n,
            out@.len() == p,
            forall|q: int| 0 <= q < p ==> #[trigger] out@[q] as int == popularity(*g, q),
        decreases n - p,
    {
        let made = targets_of(g, p as u32, "hasCreator");
        proof {
            lemma_targets_bound(*g, p as int, "hasCreator"@, g.rels@.len() as int);
        }
        let mut total: u64 = 0;
        let mut j: usize = 0;
        while j < made.len()
            invariant
                g.rels@.len() <= u32::MAX,
                made@ == targets(*g, p as int, "hasCreator"@),
                made@.len() <= g.rels@.len(),
                j <= made@.len(),
                total as int == popularity_upto(*g, p as int, j as int),
            decreases made.len() - j,
        {
            let likes = sources_of(g, made[j], "likes").len() as u64;
            proof {
                lemma_popularity_bound(*g, p as int, j + 1);
                assert((j + 1) * g.rels@.len() <= 0xffff_ffff * 0xffff_ffffint) by (nonlinear_arith)
                    requires
                        j + 1 <= g.rels@.len(),
                        g.rels@.len() <= 0xffff_ffff,
                ;
            }
            total = total + likes;
            j = j + 1;
        }
        out.push(total);
        p = p + 1;
    }
    out
}

/// For `p1`: whether each node likes a tagged message of `p1`, and whether
/// `p1` created a tagged message with a like.
fn likers_of(g: &PropGraph, ms: &Vec<u32>, t: u32, p1: u32) -> (r: (Vec<bool>, bool))
    requires
        g.labels@.len() <= u32::MAX,
        rels_within(*g),
        ms@ == tagged_messages(*g, t as int),
    ensures
        r.0@.len() == g.labels@.len(),
        forall|p2: int| 0 <= p2 < r.0@.len() ==> #[trigger] r.0@[p2] == liker_of(*g, t as int, p1 as int, p2),
        r.1 == liked_creator(*g, t as int, p1 as int),
{
    let n = g.labels.len();
    let mut marks: Vec<bool> = Vec::new();
    while marks.len() < n
        invariant
            marks@.len() <= n,
            forall|w: int| 0 <= w < marks@.len() ==> !#[trigger] marks@[w],
        decreases n - marks.len(),
    {
        marks.push(false);
    }
    let mut entry = false;
    let mut i: usize = 0;
    while i < ms.len()
        invariant
            n == g.labels@.len(),
            n <= u32::MAX,
            rels_within(*g),
            ms@ == tagged_messages(*g, t as int),
            marks@.len() == n,
            i <= ms@.len(),
            forall|p2: int| 0 <= p2 < n ==> #[trigger] marks@[p2] == exists|q: int| 0 <= q < i && #[trigger] liked_by(*g, t as int, q, p1 as int, p2),
            entry == liked_creator_upto(*g, t as int, p1 as int, i as int),
        decreases ms.len() - i,
    {
        let m = ms[i];
        let likers = sources_of(g, m, "likes");
        let creators = sources_of(g, m, "hasCreator");
        let mut made_by = false;
        let mut j: usize = 0;
        while j < creators.len()
            invariant
                j <= creators@.len(),
                made_by == creators@.take(j as int).contains(p1),
            decreases creators.len() - j,
        {
            proof {
                assert(creators@.take(j + 1) =~= creators@.take(j as int).push(creators@[j as int]));
                lemma_push_contains(creators@.take(j as int), creators@[j as int], p1);
            }
            if creators[j] == p1 {
                made_by = true;
            }
            j = j + 1;
        }
        proof {
            assert(creators@.take(j as int) =~= creators@);
            lemma_sources_within(*g, m as int, "likes"@, g.rels@.len() as int);
        }
        let ghost before = marks@;
        if made_by && likers.len() > 0 {
            entry = true;
            let mut k: usize = 0;
            while k < likers.len()
                invariant
                    n == g.labels@.len(),
                    n <= u32::MAX,
                    marks@.len() == n,
                    likers@ == sources(*g, m as int, "likes"@),
                    before.len() == n,
                    forall|q: int| 0 <= q < likers@.len() ==> (#[trigger] likers@[q] as int) < n,
                    k <= likers@.len(),
                    forall|p2: int| 0 <= p2 < n ==> #[trigger] marks@[p2] == (before[p2] || likers@.take(k as int).contains(p2 as u32)),
                decreases likers.len() - k,
            {
                let p2 = likers[k];
                marks.set(p2 as usize, true);
                proof {
                    assert(likers@.take(k + 1) =~= likers@.take(k as int).push(p2));
                    assert forall|x: u32| #[trigger] likers@.take(k + 1).contains(x) == (likers@.take(k as int).contains(x)
                        || p2 == x) by {
                        lemma_push_contains(likers@.take(k as int), p2, x);
                    }
                    assert forall|x: int| 0 <= x < n implies #[trigger] marks@[x] == (before[x] || likers@.take(k + 1).contains(
                        x as u32,
                    )) by {
                        if x == p2 as int {
                            assert(likers@.take(k + 1)[k as int] == p2);
                        }
                    }
                }
                k = k + 1;
            }
            proof {
                assert(likers@.take(k as int) =~= likers@);
            }
        }
        proof {
            assert forall|p2: int| 0 <= p2 < n implies #[trigger] marks@[p2] == exists|q: int|
                0 <= q < i + 1 && #[trigger] liked_by(*g, t as int, q, p1 as int, p2) by {
                if liked_by(*g, t as int, i as int, p1 as int, p2) {
                    assert(likers@.len() > 0);
                }
                if exists|q: int| 0 <= q < i + 1 && #[trigger] liked_by(*g, t as int, q, p1 as int, p2) {
                    let q = choose|q: int| 0 <= q < i + 1 && #[trigger] liked_by(*g, t as int, q, p1 as int, p2);
                    if q < i {
                        assert(before[p2]);
                    }
                }
            }
            if liked_creator_upto(*g, t as int, p1 as int, i + 1) && !liked_creator_upto(*g, t as int, p1 as int, i as int) {
                let q = choose|q: int| 0 <= q < i + 1 && #[trigger] sources(*g, tagged_messages(*g, t as int)[q] as int, "likes"@).len() > 0
                    && sources(*g, tagged_messages(*g, t as int)[q] as int, "hasCreator"@).contains(p1);
                assert(q == i);
            }
            if made_by && likers@.len() > 0 {
                assert(sources(*g, tagged_messages(*g, t as int)[i as int] as int, "likes"@).len() > 0);
            }
        }
        i = i + 1;
    }
    proof {
        assert forall|p2: int| 0 <= p2 < n implies #[trigger] marks@[p2] == liker_of(*g, t as int, p1 as int, p2) by {
            if liker_of(*g, t as int, p1 as int, p2) {
                let q = choose|q: int| #[trigger] liked_by(*g, t as int, q, p1 as int, p2);
                assert(0 <= q < i);
            }
        }
    }
    (marks, entry)
}

/// BI Q6: for the tag named `tag_name` (the smallest id among several),
/// every creator of a message with that tag and at least one like, scored by
/// the likes received by all messages of the persons who like such a
/// message (each such person counted once), as `(person, score)`; highest
/// score first, then by LDBC id, the first 100.
pub fn q6_authoritative(g: &PropGraph, tag_name: &str) -> (r: Vec<(u32, u64)>)
    requires
        g.labels@.len() <= u32::MAX,
        g.rels@.len() <= u32::MAX,
        rels_within(*g),
        named_node(*g, "Tag"@, tag_name@) matches Some(t) ==> authority_fits(*g, t as int),
    ensures
        r@ == authoritative_users(*g, tag_name@),
{
    proof {
        reveal_strlit("Tag");
    }
    let t = match node_named(g, "Tag", tag_name) {
        Some(t) => t,
        None => return Vec::new(),
    };
    let n = g.labels.len();
    let ms = sources_of(g, t, "hasTag");
    let pop = popularities(g);
    let mut keys: Vec<(u64, i64, u32)> = Vec::new();
    let mut p1: usize = 0;
    while p1 < n
        invariant
            n == g.labels@.len(),
            n <= u32::MAX,
            g.rels@.len() <= u32::MAX,
            rels_within(*g),
            authority_fits(*g, t as int),
            ms@ == tagged_messages(*g, t as int),
            pop@.len() == n,
            forall|p: int| 0 <= p < n ==> #[trigger] pop@[p] as int == popularity(*g, p),
            p1 <= n,
            keys@ == authority_keys(*g, t as int, p1 as int),
        decreases n - p1,
    {
        let (marks, entry) = likers_of(g, &ms, t, p1 as u32);
        if entry {
            let mut score: u64 = 0;
            let mut p2: usize = 0;
            while p2 < n
                invariant
                    n == g.labels@.len(),
                    p1 < n,
                    authority_fits(*g, t as int),
                    pop@.len() == n,
                    forall|p: int| 0 <= p < n ==> #[trigger] pop@[p] as int == popularity(*g, p),
                    marks@.len() == n,
                    forall|p: int| 0 <= p < n ==> #[trigger] marks@[p] == liker_of(*g, t as int, p1 as int, p),
                    p2 <= n,
                    score as int == authority_upto(*g, t as int, p1 as int, p2 as int),
                decreases n - p2,
            {
                if marks[p2] {
                    proof {
                        lemma_authority_grows(*g, t as int, p1 as int, p2 + 1, n as int);
                        assert(authority(*g, t as int, p1 as int) <= u64::MAX);
                    }
                    score = score + pop[p2];
                }
                p2 = p2 + 1;
            }
            let plid = int_prop_of(g, p1 as u32, "plid");
            keys.push((score, plid, p1 as u32));
        }
        p1 = p1 + 1;
    }
    let best = rank_and_take(keys, 100);
    let mut out: Vec<(u32, u64)> = Vec::new();
    let mut k: usize = 0;
    while k < best.len()
        invariant
            k <= best@.len(),
            out@ == best@.take(k as int).map_values(|x: (u64, i64, u32)| (x.2, x.0)),
        decreases best.len() - k,
    {
        out.push((best[k].2, best[k].0));
        proof {
            assert(best@.take(k + 1) =~= best@.take(k as int).push(best@[k as int]));
            assert(out@ =~= best@.take(k + 1).map_values(|x: (u64, i64, u32)| (x.2, x.0)));
        }
        k = k + 1;
    }
    proof {
        assert(best@.take(k as int) =~= best@);
    }
    out
}

proof fn lemma_authority_grows(g: PropGraph, t: int, p1: int, k: int, m: int)
    requires
        0 <= k <= m,
    ensures
        authority_upto(g, t, p1, k) <= authority_upto(g, t, p1, m),
    decreases m - k,
{
    if k < m {
        lemma_authority_grows(g, t, p1, k, m - 1);
    }
}

/// Q6 ranks creators by authority: for a tag that exists, the answer never
/// has a higher score after a lower one, and a creator left out of it has
/// no higher score than any person in it.
pub proof fn law_q6_highest_score_first(g: PropGraph, tag_name: Seq<char>)
    ensures
        forall|i: int, j: int|
            0 <= i < j < authoritative_users(g, tag_name).len() ==> (#[trigger] authoritative_users(g, tag_name)[i]).1
                >= (#[trigger] authoritative_users(g, tag_name)[j]).1,
        named_node(g, "Tag"@, tag_name) matches Some(t) ==> forall|q: int, i: int|
            #![trigger authority_keys(g, t as int, g.labels@.len() as int)[q], authoritative_users(g, tag_name)[i]]
            0 <= q < authority_keys(g, t as int, g.labels@.len() as int).len() && !authoritative_users(g, tag_name).contains(
                (
                    authority_keys(g, t as int, g.labels@.len() as int)[q].2,
                    authority_keys(g, t as int, g.labels@.len() as int)[q].0,
                ),
            ) && 0 <= i < authoritative_users(g, tag_name).len() ==> authority_keys(g, t as int, g.labels@.len() as int)[q].0
                <= authoritative_users(g, tag_name)[i].1,
{
    match named_node(g, "Tag"@, tag_name) {
        Some(tg) => {
            let keys = authority_keys(g, tg as int, g.labels@.len() as int);
            let r = rank_rel::<(u64, i64, u32)>();
            <(u64, i64, u32)>::lemma_rank_total();
            assert(r == |a: (u64, i64, u32), b: (u64, i64, u32)| a.ranks_le(b));
            lemma_sorted_take(keys, r, 100);
            let t = keys.sort_by(r);
            let k = take_upto(t, 100);
            let res = authoritative_users(g, tag_name);
            assert(res == k.map_values(|x: (u64, i64, u32)| (x.2, x.0)));
            assert forall|i: int, j: int| 0 <= i < j < res.len() implies (#[trigger] res[i]).1 >= (#[trigger] res[j]).1 by {
                assert(k[i] == t[i] && k[j] == t[j]);
                assert(r(t[i], t[j]));
            }
            assert forall|q: int, i: int|
                #![trigger keys[q], res[i]]
                0 <= q < keys.len() && !res.contains((keys[q].2, keys[q].0)) && 0 <= i < res.len() implies keys[q].0
                    <= res[i].1 by {
                assert(keys.contains(keys[q]));
                if k.contains(keys[q]) {
                    let p = choose|p: int| 0 <= p < k.len() && k[p] == keys[q];
                    assert(res[p] == (keys[q].2, keys[q].0));
                }
                assert(r(k[i], keys[q]));
            }
        },
        None => {},
    }
}

/// Q6 keys: a higher score comes first, and a key comes no later than another only with a score no lower.
pub proof fn law_authority_keys_highest_first(a: (u64, i64, u32), b: (u64, i64, u32))
    ensures
        a.0 > b.0 ==> a.ranks_le(b),
        a.ranks_le(b) ==> a.0 >= b.0,
{
}

} // verus!
