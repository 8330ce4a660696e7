//! BI Q5, most active posters of a topic: the creators of the messages with
//! a given tag, scored by those messages, their replies and their likes.
use vstd::prelude::*;
use crate::bi::lookup::{lemma_sources_within, named_node, node_named, rels_within};
use crate::rdfgraph::PropGraph;
use crate::ranking::{lemma_ranked_take, rank_and_take, rank_rel, take_upto, RankOrder};
use crate::spb::access::{int_prop_of, int_value, sources, sources_of};

verus! {

/// How often `p` occurs among the first `j` items of `s`.
pub open spec fn occurrences(s: Seq<u32>, p: int, j: int) -> nat
    decreases j,
{
    if j <= 0 {
        0
    } else {
        occurrences(s, p, j - 1) + if s[j - 1] as int == p {
            1nat
        } else {
            0nat
        }
    }
}

/// How often `p` is a creator of message `m`.
pub open spec fn creator_count(g: PropGraph, m: int, p: int) -> nat {
    let c = sources(g, m, "hasCreator"@);
    occurrences(c, p, c.len() as int)
}

/// The messages tagged `t`, one per `hasTag` relationship.
pub open spec fn tagged_messages(g: PropGraph, t: int) -> Seq<u32> {
    sources(g, t, "hasTag"@)
}

/// Over the first `i` tagged messages: the messages created by `p`.
pub open spec fn posts_of(g: PropGraph, t: int, p: int, i: int) -> nat
    decreases i,
{
    if i <= 0 {
        0
    } else {
        posts_of(g, t, p, i - 1) + creator_count(g, tagged_messages(g, t)[i - 1] as int, p)
    }
}

/// Over the first `i` tagged messages: the replies to those created by `p`.
pub open spec fn replies_of(g: PropGraph, t: int, p: int, i: int) -> nat
    decreases i,
{
    if i <= 0 {
        0
    } else {
        let m = tagged_messages(g, t)[i - 1] as int;
        replies_of(g, t, p, i - 1) + creator_count(g, m, p) * sources(g, m, "replyOf"@).len()
    }
}

/// Over the first `i` tagged messages: the likes of those created by `p`.
pub open spec fn likes_of(g: PropGraph, t: int, p: int, i: int) -> nat
    decreases i,
{
    if i <= 0 {
        0
    } else {
        let m = tagged_messages(g, t)[i - 1] as int;
        likes_of(g, t, p, i - 1) + creator_count(g, m, p) * sources(g, m, "likes"@).len()
    }
}

/// The activity score of `p` for tag `t`: messages, plus twice the
/// replies, plus ten times the likes.
pub open spec fn activity(g: PropGraph, t: int, p: int) -> int {
    let i = tagged_messages(g, t).len() as int;
    (posts_of(g, t, p, i) + 2 * replies_of(g, t, p, i) + 10 * likes_of(g, t, p, i)) as int
}

/// The rows `(person, messages, replies, likes, score)` of the creators
/// below node id `k` of a message tagged `t`.
pub open spec fn poster_rows(g: PropGraph, t: int, k: int) -> Seq<(u32, u64, u64, u64, u64)>
    decreases k,
{
    if k <= 0 {
        Seq::empty()
    } else {
        let i = tagged_messages(g, t).len() as int;
        let p = k - 1;
        if posts_of(g, t, p, i) > 0 {
            poster_rows(g, t, k - 1).push(
                (
                    p as u32,
                    posts_of(g, t, p, i) as u64,
                    replies_of(g, t, p, i) as u64,
                    likes_of(g, t, p, i) as u64,
                    activity(g, t, p) as u64,
                ),
            )
        } else {
            poster_rows(g, t, k - 1)
        }
    }
}

/// The scores of the creators of the messages tagged `t` fit a `u64`.
pub open spec fn activity_fits(g: PropGraph, t: int) -> bool {
    forall|p: int| 0 <= p < g.labels@.len() ==> #[trigger] activity(g, t, p) <= u64::MAX
}

/// A poster row ranked by score, the LDBC id of its person decides ties.
pub open spec fn poster_key(g: PropGraph, r: (u32, u64, u64, u64, u64)) -> (u64, i64, u32, u64, u64, u64) {
    (r.4, int_value(g, r.0 as int, "plid"@), r.0, r.1, r.2, r.3)
}

/// The answer of Q5: the posters of the tag named `tag_name`, highest score
/// first, then by LDBC id, the first 100; nothing when no tag has that name.
pub open spec fn active_posters(g: PropGraph, tag_name: Seq<char>) -> Seq<(u32, u64, u64, u64, u64)> {
    match named_node(g, "Tag"@, tag_name) {
        Some(t) => take_upto(
            poster_rows(g, t as int, g.labels@.len() as int).map_values(
                |r: (u32, u64, u64, u64, u64)| poster_key(g, r),
            ).sort_by(rank_rel::<(u64, i64, u32, u64, u64, u64)>()),
            100,
        ).map_values(|k: (u64, i64, u32, u64, u64, u64)| (k.2, k.3, k.4, k.5, k.0)),
        None => Seq::empty(),
    }
}

impl RankOrder for (u64, i64, u32, u64, u64, u64) {
    /// A `(score, LDBC id, person, ...)` key: highest score first, then LDBC
    /// id, then node id, then the counts.
    open spec fn ranks_le(self, other: Self) -> bool {
        if self.0 != other.0 {
            self.0 > other.0
        } else if self.1 != other.1 {
            self.1 < other.1
        } else if self.2 != other.2 {
            self.2 < other.2
        } else if self.3 != other.3 {
            self.3 < other.3
        } else if self.4 != other.4 {
            self.4 < other.4
        } else {
            self.5 <= other.5
        }
    }

    proof fn lemma_rank_total() {
    }

    fn comes_no_later(&self, other: &Self) -> (r: bool) {
        if self.0 != other.0 {
            self.0 > other.0
        } else if self.1 != other.1 {
            self.1 < other.1
        } else if self.2 != other.2 {
            self.2 < other.2
        } else if self.3 != other.3 {
            self.3 < other.3
        } else if self.4 != other.4 {
            self.4 < other.4
        } else {
            self.5 <= other.5
        }
    }
}

proof fn lemma_parts_fit(g: PropGraph, t: int, p: int, i: int)
    requires
        0 <= i <= tagged_messages(g, t).len(),
    ensures
        posts_of(g, t, p, i) <= posts_of(g, t, p, tagged_messages(g, t).len() as int),
        replies_of(g, t, p, i) <= replies_of(g, t, p, tagged_messages(g, t).len() as int),
        likes_of(g, t, p, i) <= likes_of(g, t, p, tagged_messages(g, t).len() as int),
    decreases tagged_messages(g, t).len() - i,
{
    if i < tagged_messages(g, t).len() {
        lemma_parts_fit(g, t, p, i + 1);
    }
}

/// BI Q5: for the tag named `tag_name` (the smallest id among several),
/// every creator of a message with that tag, with the number of such
/// messages they created, the replies and the likes those messages
/// received, and the score messages + 2 × replies + 10 × likes, as
/// `(person, messages, replies, likes, score)`; highest score first, then by
/// LDBC id, the first 100. A message counts once per `hasTag` relationship.
pub fn q5_active_posters(g: &PropGraph, tag_name: &str) -> (r: Vec<(u32, u64, u64, u64, u64)>)
    requires
        g.labels@.len() <= u32::MAX,
        rels_within(*g),
        named_node(*g, "Tag"@, tag_name@) matches Some(t) ==> activity_fits(*g, t as int),
    ensures
        r@ == active_posters(*g, tag_name@),
{
    proof {
        reveal_strlit("Tag");
    }
    let t = match node_named(g, "Tag", tag_name) {
        Some(t) => t,
        None => return Vec::new(),
    };
    let n = g.labels.len();
    let ms = sources_of(g, t, "hasTag");
    let mut posts: Vec<u64> = Vec::new();
    let mut replies: Vec<u64> = Vec::new();
    let mut likes: Vec<u64> = Vec::new();
    while posts.len() < n
        invariant
            posts@.len() <= n,
            replies@.len() == posts@.len(),
            likes@.len() == posts@.len(),
            forall|p: int| 0 <= p < posts@.len() ==> #[trigger] posts@[p] == 0 && replies@[p] == 0 && likes@[p] == 0,
        decreases n - posts.len(),
    {
        posts.push(0);
        replies.push(0);
        likes.push(0);
    }
    let mut i: usize = 0;
    while i < ms.len()
        invariant
            n == g.labels@.len(),
            n <= u32::MAX,
            rels_within(*g),
            activity_fits(*g, t as int),
            ms@ == tagged_messages(*g, t as int),
            posts@.len() == n,
            replies@.len() == n,
            likes@.len() == n,
            i <= ms@.len(),
            forall|p: int|
                0 <= p < n ==> #[trigger] posts@[p] as int == posts_of(*g, t as int, p, i as int) && replies@[p] as int
                    == replies_of(*g, t as int, p, i as int) && likes@[p] as int == likes_of(*g, t as int, p, i as int),
        decreases ms.len() - i,
    {
        let m = ms[i];
        let liked = sources_of(g, m, "likes").len() as u64;
        let answered = sources_of(g, m, "replyOf").len() as u64;
        let creators = sources_of(g, m, "hasCreator");
        proof {
            lemma_sources_within(*g, m as int, "hasCreator"@, g.rels@.len() as int);
        }
        let mut j: usize = 0;
        while j < creators.len()
            invariant
                n == g.labels@.len(),
                n <= u32::MAX,
                activity_fits(*g, t as int),
                ms@ == tagged_messages(*g, t as int),
                i < ms@.len(),
                m == ms@[i as int],
                creators@ == sources(*g, m as int, "hasCreator"@),
                forall|q: int| 0 <= q < creators@.len() ==> (#[trigger] creators@[q] as int) < n,
                liked == sources(*g, m as int, "likes"@).len(),
                answered == sources(*g, m as int, "replyOf"@).len(),
                posts@.len() == n,
                replies@.len() == n,
                likes@.len() == n,
                j <= creators@.len(),
                forall|p: int|
                    0 <= p < n ==> {
                        let o = occurrences(creators@, p, j as int);
                        &&& #[trigger] posts@[p] as int == posts_of(*g, t as int, p, i as int) + o
                        &&& replies@[p] as int == replies_of(*g, t as int, p, i as int) + o * answered
                        &&& likes@[p] as int == likes_of(*g, t as int, p, i as int) + o * liked
                    },
            decreases creators.len() - j,
        {
            let p = creators[j] as usize;
            proof {
                let o = occurrences(creators@, p as int, j as int);
                assert(occurrences(creators@, p as int, j + 1) == o + 1);
                assert(o + 1 <= creator_count(*g, m as int, p as int)) by {
                    lemma_occurrences_grow(creators@, p as int, j + 1, creators@.len() as int);
                }
                lemma_parts_fit(*g, t as int, p as int, i + 1);
                assert(posts_of(*g, t as int, p as int, i + 1) == posts_of(*g, t as int, p as int, i as int)
                    + creator_count(*g, m as int, p as int));
                assert((o + 1) * answered <= creator_count(*g, m as int, p as int) * answered) by (nonlinear_arith)
                    requires
                        o + 1 <= creator_count(*g, m as int, p as int),
                ;
                assert((o + 1) * liked <= creator_count(*g, m as int, p as int) * liked) by (nonlinear_arith)
                    requires
                        o + 1 <= creator_count(*g, m as int, p as int),
                ;
                assert(activity(*g, t as int, p as int) <= u64::MAX);
                assert((o + 1) * answered == o * answered + answered) by (nonlinear_arith);
                assert((o + 1) * liked == o * liked + liked) by (nonlinear_arith);
            }
            let np = posts[p] + 1;
            let nr = replies[p] + answered;
            let nl = likes[p] + liked;
            posts.set(p, np);
            replies.set(p, nr);
            likes.set(p, nl);
            proof {
                assert forall|q: int| 0 <= q < n && q != p implies occurrences(creators@, q, j + 1) == occurrences(
                    creators@,
                    q,
                    j as int,
                ) by {}
            }
            j = j + 1;
        }
        i = i + 1;
    }
    let mut keys: Vec<(u64, i64, u32, u64, u64, u64)> = Vec::new();
    let mut p: usize = 0;
    while p < n
        invariant
            n == g.labels@.len(),
            n <= u32::MAX,
            activity_fits(*g, t as int),
            ms@ == tagged_messages(*g, t as int),
            posts@.len() == n,
            replies@.len() == n,
            likes@.len() == n,
            forall|q: int|
                0 <= q < n ==> #[trigger] posts@[q] as int == posts_of(*g, t as int, q, ms@.len() as int) && replies@[q]
                    as int == replies_of(*g, t as int, q, ms@.len() as int) && likes@[q] as int == likes_of(
                    *g,
                    t as int,
                    q,
                    ms@.len() as int,
                ),
            p <= n,
            keys@ == poster_rows(*g, t as int, p as int).map_values(|r: (u32, u64, u64, u64, u64)| poster_key(*g, r)),
        decreases n - p,
    {
        if posts[p] > 0 {
            proof {
                assert(activity(*g, t as int, p as int) <= u64::MAX);
            }
            let score = posts[p] + 2 * replies[p] + 10 * likes[p];
            let plid = int_prop_of(g, p as u32, "plid");
            keys.push((score, plid, p as u32, posts[p], replies[p], likes[p]));
        }
        p = p + 1;
    }
    let best = rank_and_take(keys, 100);
    let mut out: Vec<(u32, u64, u64, u64, u64)> = Vec::new();
    let mut k: usize = 0;
    while k < best.len()
        invariant
            k <= best@.len(),
            out@ == best@.take(k as int).map_values(|x: (u64, i64, u32, u64, u64, u64)| (x.2, x.3, x.4, x.5, x.0)),
        decreases best.len() - k,
    {
        out.push((best[k].2, best[k].3, best[k].4, best[k].5, best[k].0));
        proof {
            assert(best@.take(k + 1) =~= best@.take(k as int).push(best@[k as int]));
            assert(out@ =~= best@.take(k + 1).map_values(
                |x: (u64, i64, u32, u64, u64, u64)| (x.2, x.3, x.4, x.5, x.0),
            ));
        }
        k = k + 1;
    }
    proof {
        assert(best@.take(k as int) =~= best@);
    }
    out
}

pub(crate) proof fn lemma_occurrences_grow(s: Seq<u32>, p: int, j: int, k: int)
    requires
        0 <= j <= k,
    ensures
        occurrences(s, p, j) <= occurrences(s, p, k),
    decreases k - j,
{
    if j < k {
        lemma_occurrences_grow(s, p, j, k - 1);
    }
}

/// A poster row's score is its messages, twice its replies and ten times its
/// likes.
pub open spec fn weighted(r: (u32, u64, u64, u64, u64)) -> bool {
    r.4 == r.1 + 2 * r.2 + 10 * r.3
}

proof fn lemma_poster_rows_weighted(g: PropGraph, t: int, k: int)
    requires
        activity_fits(g, t),
        k <= g.labels@.len(),
    ensures
        forall|i: int| 0 <= i < poster_rows(g, t, k).len() ==> #[trigger] weighted(poster_rows(g, t, k)[i]),
    decreases k,
{
    if k > 0 {
        lemma_poster_rows_weighted(g, t, k - 1);
        let prev = poster_rows(g, t, k - 1);
        let rows = poster_rows(g, t, k);
        assert(activity(g, t, k - 1) <= u64::MAX);
        assert forall|i: int| 0 <= i < rows.len() implies #[trigger] weighted(rows[i]) by {
            if i < prev.len() {
                assert(rows[i] == prev[i]);
                assert(weighted(prev[i]));
            }
        }
    }
}

/// Q5 scores each poster by messages + 2 × replies + 10 × likes and ranks
/// by that score: every row's score is so made up, scores never grow down
/// the answer, and a poster of the tag left out has no higher score than any
/// poster in it.
pub proof fn law_q5_weighted_score_first(g: PropGraph, tag_name: Seq<char>)
    requires
        named_node(g, "Tag"@, tag_name) matches Some(t) ==> activity_fits(g, t as int),
    ensures
        forall|i: int| 0 <= i < active_posters(g, tag_name).len() ==> #[trigger] weighted(active_posters(g, tag_name)[i]),
        forall|i: int, j: int|
            0 <= i < j < active_posters(g, tag_name).len() ==> (#[trigger] active_posters(g, tag_name)[i]).4
                >= (#[trigger] active_posters(g, tag_name)[j]).4,
        named_node(g, "Tag"@, tag_name) matches Some(t) ==> forall|x: (u32, u64, u64, u64, u64), i: int|
            #![trigger poster_rows(g, t as int, g.labels@.len() as int).contains(x), active_posters(g, tag_name)[i]]
            poster_rows(g, t as int, g.labels@.len() as int).contains(x) && !active_posters(g, tag_name).contains(x) && 0 <= i
                < active_posters(g, tag_name).len() ==> x.4 <= active_posters(g, tag_name)[i].4,
{
    match named_node(g, "Tag"@, tag_name) {
        Some(t) => {
            let rows = poster_rows(g, t as int, g.labels@.len() as int);
            let keys = rows.map_values(|r: (u32, u64, u64, u64, u64)| poster_key(g, r));
            lemma_ranked_take(keys, 100);
            lemma_poster_rows_weighted(g, t as int, g.labels@.len() as int);
            let k = take_upto(keys.sort_by(rank_rel::<(u64, i64, u32, u64, u64, u64)>()), 100);
            let res = active_posters(g, tag_name);
            let back = |x: (u64, i64, u32, u64, u64, u64)| (x.2, x.3, x.4, x.5, x.0);
            assert(res == k.map_values(back));
            assert forall|i: int| 0 <= i < res.len() implies #[trigger] weighted(res[i]) by {
                assert(k.contains(k[i]));
                assert(keys.contains(k[i]));
                let q = choose|q: int| 0 <= q < keys.len() && keys[q] == k[i];
                assert(keys[q] == poster_key(g, rows[q]));
                assert(weighted(rows[q]));
                assert(res[i] == rows[q]);
            }
            assert forall|i: int, j: int| 0 <= i < j < res.len() implies (#[trigger] res[i]).4 >= (#[trigger] res[j]).4 by {
                assert(k[i].ranks_le(k[j]));
            }
            assert forall|x: (u32, u64, u64, u64, u64), i: int|
                #![trigger rows.contains(x), res[i]]
                rows.contains(x) && !res.contains(x) && 0 <= i < res.len() implies x.4 <= res[i].4 by {
                let q = choose|q: int| 0 <= q < rows.len() && rows[q] == x;
                assert(keys[q] == poster_key(g, x));
                assert(keys.contains(poster_key(g, x)));
                if k.contains(poster_key(g, x)) {
                    let p = choose|p: int| 0 <= p < k.len() && k[p] == poster_key(g, x);
                    assert(res[p] == x);
                }
                assert(k[i].ranks_le(poster_key(g, x)));
            }
        },
        None => {},
    }
}

/// Q5 keys: a higher score comes first, and a key comes no later than another only with a score no lower.
pub proof fn law_poster_keys_highest_score_first(a: (u64, i64, u32, u64, u64, u64), b: (u64, i64, u32, u64, u64, u64))
    ensures
        a.0 > b.0 ==> a.ranks_le(b),
        a.ranks_le(b) ==> a.0 >= b.0,
{
}

} // verus!
