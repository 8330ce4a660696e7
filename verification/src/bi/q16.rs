//! BI Q16, fake news detection: the persons who posted on a topic on a given
//! day while few of their acquaintances did, for two topics at once.
use vstd::prelude::*;
use crate::bi::lookup::{lemma_sources_within, lemma_targets_within, named_node, node_named, rels_within};
use crate::bi::q5::{occurrences, tagged_messages};
use crate::rdfgraph::PropGraph;
use crate::ranking::{lemma_ranked_take, rank_and_take, rank_rel, take_upto, RankOrder};
use crate::spb::access::{int_prop_of, int_value, sources, sources_of, targets, targets_of};

verus! {

/// Over the first `i` messages tagged `t`: those created on `day` by `p`.
pub open spec fn day_posts(g: PropGraph, t: int, day: i64, p: int, i: int) -> nat
    decreases i,
{
    if i <= 0 {
        0
    } else {
        let m = tagged_messages(g, t)[i - 1] as int;
        day_posts(g, t, day, p, i - 1) + if int_value(g, m, "day"@) == day {
            let c = sources(g, m, "hasCreator"@);
            occurrences(c, p, c.len() as int)
        } else {
            0
        }
    }
}

/// The messages tagged `t` that `p` created on `day`.
pub open spec fn posts_on_day(g: PropGraph, t: int, day: i64, p: int) -> nat {
    day_posts(g, t, day, p, tagged_messages(g, t).len() as int)
}

/// Among the first `j` acquaintances of `p` (one per `knows` relationship),
/// those who created a message tagged `t` on `day`.
pub open spec fn posting_friends(g: PropGraph, t: int, day: i64, p: int, j: int) -> nat
    decreases j,
{
    if j <= 0 {
        0
    } else {
        posting_friends(g, t, day, p, j - 1) + if posts_on_day(
            g,
            t,
            day,
            targets(g, p, "knows"@)[j - 1] as int,
        ) > 0 {
            1nat
        } else {
            0nat
        }
    }
}

/// The `(person, messages)` rows, by id below `k`, of the persons who created
/// a message tagged `t` on `day` and know at most `max_knows` others who did.
pub open spec fn param_rows(g: PropGraph, t: int, day: i64, max_knows: i64, k: int) -> Seq<(u32, i64)>
    decreases k,
{
    if k <= 0 {
        Seq::empty()
    } else {
        let p = k - 1;
        let n = posts_on_day(g, t, day, p);
        if n > 0 && posting_friends(g, t, day, p, targets(g, p, "knows"@).len() as int) <= max_knows {
            param_rows(g, t, day, max_knows, k - 1).push((p as u32, n as i64))
        } else {
            param_rows(g, t, day, max_knows, k - 1)
        }
    }
}

/// The answer of one Q16 parameter: the rows for the tag named `tag_name`,
/// by person id; nothing when no tag has that name.
pub open spec fn param_result(g: PropGraph, tag_name: Seq<char>, day: i64, max_knows: i64) -> Seq<(u32, i64)> {
    match named_node(g, "Tag"@, tag_name) {
        Some(t) => param_rows(g, t as int, day, max_knows, g.labels@.len() as int),
        None => Seq::empty(),
    }
}

proof fn lemma_day_posts_bound(g: PropGraph, t: int, day: i64, p: int, i: int)
    requires
        0 <= i <= tagged_messages(g, t).len(),
    ensures
        day_posts(g, t, day, p, i) <= i * g.rels@.len(),
    decreases i,
{
    if i > 0 {
        lemma_day_posts_bound(g, t, day, p, i - 1);
        let m = tagged_messages(g, t)[i - 1] as int;
        let c = sources(g, m, "hasCreator"@);
        crate::bi::lookup::lemma_sources_bound(g, m, "hasCreator"@, g.rels@.len() as int);
        lemma_occurrences_bound(c, p, c.len() as int);
        assert((i - 1) * g.rels@.len() + g.rels@.len() == i * g.rels@.len()) by (nonlinear_arith);
    }
}

proof fn lemma_occurrences_bound(s: Seq<u32>, p: int, j: int)
    requires
        0 <= j,
    ensures
        occurrences(s, p, j) <= j,
    decreases j,
{
    if j > 0 {
        lemma_occurrences_bound(s, p, j - 1);
    }
}

proof fn lemma_friends_bound(g: PropGraph, t: int, day: i64, p: int, j: int)
    requires
        0 <= j,
    ensures
        posting_friends(g, t, day, p, j) <= j,
    decreases j,
{
    if j > 0 {
        lemma_friends_bound(g, t, day, p, j - 1);
    }
}

/// BI Q16 for one parameter pair: for the tag named `tag_name` (the smallest
/// id among several), the persons who created a message with that tag on
/// `day` (a message counts once per `hasTag` and `hasCreator` relationship)
/// and who know at most `max_knows` persons who did too (one per `knows`
/// relationship), with the number of such messages, as `(person, messages)`
/// ordered by person.
pub fn q16_param_result(g: &PropGraph, tag_name: &str, day: i64, max_knows: i64) -> (r: Vec<(u32, i64)>)
    requires
        g.labels@.len() <= u32::MAX,
        g.rels@.len() <= u32::MAX,
        rels_within(*g),
    ensures
        r@ == param_result(*g, tag_name@, day, max_knows),
{
    proof {
        reveal_strlit("Tag");
    }
    let t = match node_named(g, "Tag", tag_name) {
        Some(t) => t,
        None => return Vec::new(),
    };
    let n = g.labels.len();
    let ms = sources_of(g, t, "hasTag");
    proof {
        crate::bi::lookup::lemma_sources_bound(*g, t as int, "hasTag"@, g.rels@.len() as int);
    }
    let mut counts: Vec<u64> = Vec::new();
    while counts.len() < n
        invariant
            counts@.len() <= n,
            forall|p: int| 0 <= p < counts@.len() ==> #[trigger] counts@[p] == 0,
        decreases n - counts.len(),
    {
        counts.push(0);
    }
    let mut i: usize = 0;
    while i < ms.len()
        invariant
            n == g.labels@.len(),
            n <= u32::MAX,
            g.rels@.len() <= u32::MAX,
            rels_within(*g),
            ms@ == tagged_messages(*g, t as int),
            ms@.len() <= g.rels@.len(),
            counts@.len() == n,
            i <= ms@.len(),
            forall|p: int| 0 <= p < n ==> #[trigger] counts@[p] as int == day_posts(*g, t as int, day, p, i as int),
        decreases ms.len() - i,
    {
        let m = ms[i];
        if int_prop_of(g, m, "day") == day {
            let creators = sources_of(g, m, "hasCreator");
            proof {
                lemma_sources_within(*g, m as int, "hasCreator"@, g.rels@.len() as int);
            }
            let mut j: usize = 0;
            while j < creators.len()
                invariant
                    n == g.labels@.len(),
                    n <= u32::MAX,
                    g.rels@.len() <= u32::MAX,
                    ms@ == tagged_messages(*g, t as int),
                    ms@.len() <= g.rels@.len(),
                    i < ms@.len(),
                    m == ms@[i as int],
                    int_value(*g, m as int, "day"@) == day,
                    creators@ == sources(*g, m as int, "hasCreator"@),
                    forall|q: int| 0 <= q < creators@.len() ==> (#[trigger] creators@[q] as int) < n,
                    counts@.len() == n,
                    j <= creators@.len(),
                    forall|p: int|
                        0 <= p < n ==> #[trigger] counts@[p] as int == day_posts(*g, t as int, day, p, i as int)
                            + occurrences(creators@, p, j as int),
                decreases creators.len() - j,
            {
                let p = creators[j] as usize;
                proof {
                    lemma_day_posts_bound(*g, t as int, day, p as int, i + 1);
                    crate::bi::q5::lemma_occurrences_grow(creators@, p as int, j + 1, creators@.len() as int);
                    assert((i + 1) * g.rels@.len() <= 0xffff_ffff * 0xffff_ffffint) by (nonlinear_arith)
                        requires
                            i + 1 <= g.rels@.len(),
                            g.rels@.len() <= 0xffff_ffff,
                    ;
                }
                let bumped = counts[p] + 1;
                counts.set(p, bumped);
                proof {
                    assert forall|q: int| 0 <= q < n && q != p implies occurrences(creators@, q, j + 1) == occurrences(
                        creators@,
                        q,
                        j as int,
                    ) by {}
                }
                j = j + 1;
            }
        }
        i = i + 1;
    }
    let mut rows: Vec<(u32, i64)> = Vec::new();
    let mut p: usize = 0;
    while p < n
        invariant
            n == g.labels@.len(),
            n <= u32::MAX,
            g.rels@.len() <= u32::MAX,
            rels_within(*g),
            ms@ == tagged_messages(*g, t as int),
            ms@.len() <= g.rels@.len(),
            counts@.len() == n,
            forall|q: int| 0 <= q < n ==> #[trigger] counts@[q] as int == posts_on_day(*g, t as int, day, q),
            p <= n,
            rows@ == param_rows(*g, t as int, day, max_knows, p as int),
        decreases n - p,
    {
        if counts[p] > 0 {
            let friends = targets_of(g, p as u32, "knows");
            proof {
                lemma_targets_within(*g, p as int, "knows"@, g.rels@.len() as int);
                crate::bi::lookup::lemma_targets_bound(*g, p as int, "knows"@, g.rels@.len() as int);
            }
            let mut near: i64 = 0;
            let mut j: usize = 0;
            while j < friends.len()
                invariant
                    n == g.labels@.len(),
                    g.rels@.len() <= u32::MAX,
                    counts@.len() == n,
                    forall|q: int| 0 <= q < n ==> #[trigger] counts@[q] as int == posts_on_day(*g, t as int, day, q),
                    friends@ == targets(*g, p as int, "knows"@),
                    friends@.len() <= g.rels@.len(),
                    forall|q: int| 0 <= q < friends@.len() ==> (#[trigger] friends@[q] as int) < n,
                    j <= friends@.len(),
                    near as int == posting_friends(*g, t as int, day, p as int, j as int),
                decreases friends.len() - j,
            {
                proof {
                    lemma_friends_bound(*g, t as int, day, p as int, j as int);
                }
                if counts[friends[j] as usize] > 0 {
                    near = near + 1;
                }
                j = j + 1;
            }
            if near <= max_knows {
                proof {
                    lemma_day_posts_bound(*g, t as int, day, p as int, ms@.len() as int);
                    assert(ms@.len() * g.rels@.len() <= 0xffff_ffff * 0xffff_ffffint) by (nonlinear_arith)
                        requires
                            ms@.len() <= g.rels@.len(),
                            g.rels@.len() <= 0xffff_ffff,
                    ;
                }
                rows.push((p as u32, counts[p] as i64));
            }
        }
        p = p + 1;
    }
    rows
}

/// The first value `rb` gives for person `p`.
pub open spec fn value_for(rb: Seq<(u32, i64)>, p: u32, j: int) -> Option<i64>
    decreases j,
{
    if j <= 0 {
        None
    } else {
        match value_for(rb, p, j - 1) {
            Some(v) => Some(v),
            None => if rb[j - 1].0 == p {
                Some(rb[j - 1].1)
            } else {
                None
            },
        }
    }
}

/// The `(sum, LDBC id, person, first, second)` keys of the persons of the
/// first `i` rows of `ra` that `rb` also has.
pub open spec fn joined_keys(g: PropGraph, ra: Seq<(u32, i64)>, rb: Seq<(u32, i64)>, i: int) -> Seq<(i64, i64, u32, i64, i64)>
    decreases i,
{
    if i <= 0 {
        Seq::empty()
    } else {
        let (p, ca) = ra[i - 1];
        match value_for(rb, p, rb.len() as int) {
            Some(cb) => joined_keys(g, ra, rb, i - 1).push(((ca + cb) as i64, int_value(g, p as int, "plid"@), p, ca, cb)),
            None => joined_keys(g, ra, rb, i - 1),
        }
    }
}

/// The answer of Q16: the persons of both parameter results, as `(person,
/// first, second)`, most messages in total first, then by LDBC id, the
/// first 20.
pub open spec fn fake_news(g: PropGraph, ra: Seq<(u32, i64)>, rb: Seq<(u32, i64)>) -> Seq<(u32, i64, i64)> {
    take_upto(joined_keys(g, ra, rb, ra.len() as int).sort_by(rank_rel::<(i64, i64, u32, i64, i64)>()), 20).map_values(
        |k: (i64, i64, u32, i64, i64)| (k.2, k.3, k.4),
    )
}

impl RankOrder for (i64, i64, u32, i64, i64) {
    /// A `(sum, LDBC id, person, first, second)` key: largest sum first, then
    /// LDBC id, then node id, then the two counts.
    open spec fn ranks_le(self, other: Self) -> bool {
        if self.0 != other.0 {
            self.0 > other.0
        } else if self.1 != other.1 {
            self.1 < other.1
        } else if self.2 != other.2 {
            self.2 < other.2
        } else if self.3 != other.3 {
            self.3 < other.3
        } else {
            self.4 <= other.4
        }
    }

    proof fn lemma_rank_total() {
    }

    fn comes_no_later(&self, other: &Self) -> (r: bool) {
        if self.0 != other.0 {
            self.0 > other.0
        } else if self.1 != other.1 {
            self.1 < other.1
        } else if self.2 != other.2 {
            self.2 < other.2
        } else if self.3 != other.3 {
            self.3 < other.3
        } else {
            self.4 <= other.4
        }
    }
}

/// BI Q16: the persons in both parameter results `ra` and `rb` (the first
/// row of `rb` for a person counts), as `(person, messages for the first,
/// messages for the second)`, largest total first, then by LDBC id, the
/// first 20.
pub fn q16_fake_news(g: &PropGraph, ra: &Vec<(u32, i64)>, rb: &Vec<(u32, i64)>) -> (r: Vec<(u32, i64, i64)>)
    requires
        forall|i: int, j: int|
            0 <= i < ra@.len() && 0 <= j < rb@.len() && (#[trigger] ra@[i]).0 == (#[trigger] rb@[j]).0 ==> i64::MIN
                <= ra@[i].1 + rb@[j].1 <= i64::MAX,
    ensures
        r@ == fake_news(*g, ra@, rb@),
{
    let mut keys: Vec<(i64, i64, u32, i64, i64)> = Vec::new();
    let mut i: usize = 0;
    while i < ra.len()
        invariant
            i <= ra@.len(),
            forall|a: int, b: int|
                0 <= a < ra@.len() && 0 <= b < rb@.len() && (#[trigger] ra@[a]).0 == (#[trigger] rb@[b]).0 ==> i64::MIN
                    <= ra@[a].1 + rb@[b].1 <= i64::MAX,
            keys@ == joined_keys(*g, ra@, rb@, i as int),
        decreases ra.len() - i,
    {
        let (p, ca) = ra[i];
        let mut found: Option<i64> = None;
        let mut j: usize = 0;
        while j < rb.len()
            invariant
                j <= rb@.len(),
                found == value_for(rb@, p, j as int),
                found matches Some(v) ==> exists|b: int| 0 <= b < rb@.len() && rb@[b].0 == p && rb@[b].1 == v,
            decreases rb.len() - j,
        {
            if found.is_none() && rb[j].0 == p {
                found = Some(rb[j].1);
            }
            j = j + 1;
        }
        match found {
            Some(cb) => {
                proof {
                    let b = choose|b: int| 0 <= b < rb@.len() && rb@[b].0 == p && rb@[b].1 == cb;
                    assert(ra@[i as int].0 == rb@[b].0);
                }
                let plid = int_prop_of(g, p, "plid");
                keys.push((ca + cb, plid, p, ca, cb));
            },
            None => {},
        }
        i = i + 1;
    }
    let best = rank_and_take(keys, 20);
    let mut out: Vec<(u32, i64, i64)> = Vec::new();
    let mut k: usize = 0;
    while k < best.len()
        invariant
            k <= best@.len(),
            out@ == best@.take(k as int).map_values(|x: (i64, i64, u32, i64, i64)| (x.2, x.3, x.4)),
        decreases best.len() - k,
    {
        out.push((best[k].2, best[k].3, best[k].4));
        proof {
            assert(best@.take(k + 1) =~= best@.take(k as int).push(best@[k as int]));
            assert(out@ =~= best@.take(k + 1).map_values(|x: (i64, i64, u32, i64, i64)| (x.2, x.3, x.4)));
        }
        k = k + 1;
    }
    proof {
        assert(best@.take(k as int) =~= best@);
    }
    out
}

proof fn lemma_value_for_found(rb: Seq<(u32, i64)>, p: u32, j: int)
    requires
        value_for(rb, p, j) is Some,
        j <= rb.len(),
    ensures
        exists|q: int| 0 <= q < j && rb[q].0 == p && #[trigger] rb[q].1 == value_for(rb, p, j).unwrap(),
    decreases j,
{
    if value_for(rb, p, j - 1) is Some {
        lemma_value_for_found(rb, p, j - 1);
    } else {
        assert(rb[j - 1].1 == value_for(rb, p, j).unwrap());
    }
}

/// Both parameter results give each person sums that fit an `i64`.
pub open spec fn sums_fit(ra: Seq<(u32, i64)>, rb: Seq<(u32, i64)>) -> bool {
    forall|i: int, j: int|
        0 <= i < ra.len() && 0 <= j < rb.len() && (#[trigger] ra[i]).0 == (#[trigger] rb[j]).0 ==> i64::MIN <= ra[i].1
            + rb[j].1 <= i64::MAX
}

/// A Q16 key's sum is its two counts added.
pub open spec fn sum_of_counts(k: (i64, i64, u32, i64, i64)) -> bool {
    k.0 == k.3 + k.4
}

proof fn lemma_joined_keys_sum(g: PropGraph, ra: Seq<(u32, i64)>, rb: Seq<(u32, i64)>, i: int)
    requires
        sums_fit(ra, rb),
        i <= ra.len(),
    ensures
        forall|q: int| 0 <= q < joined_keys(g, ra, rb, i).len() ==> #[trigger] sum_of_counts(joined_keys(g, ra, rb, i)[q]),
    decreases i,
{
    if i > 0 {
        lemma_joined_keys_sum(g, ra, rb, i - 1);
        let (p, ca) = ra[i - 1];
        let prev = joined_keys(g, ra, rb, i - 1);
        let keys = joined_keys(g, ra, rb, i);
        match value_for(rb, p, rb.len() as int) {
            Some(cb) => {
                lemma_value_for_found(rb, p, rb.len() as int);
                let q = choose|q: int| 0 <= q < rb.len() && rb[q].0 == p && #[trigger] rb[q].1 == cb;
                assert(ra[i - 1].0 == rb[q].0);
                assert(i64::MIN <= ca + cb <= i64::MAX);
                assert forall|x: int| 0 <= x < keys.len() implies #[trigger] sum_of_counts(keys[x]) by {
                    if x < prev.len() {
                        assert(keys[x] == prev[x]);
                        assert(sum_of_counts(prev[x]));
                    }
                }
            },
            None => {},
        }
    }
}

/// Q16 ranks the persons of both results by their two counts added: down
/// the answer that sum never grows, and a person of both left out has no
/// larger sum than any person in it.
pub proof fn law_q16_largest_sum_first(g: PropGraph, ra: Seq<(u32, i64)>, rb: Seq<(u32, i64)>)
    requires
        sums_fit(ra, rb),
    ensures
        forall|i: int, j: int|
            0 <= i < j < fake_news(g, ra, rb).len() ==> (#[trigger] fake_news(g, ra, rb)[i]).1 + fake_news(g, ra, rb)[i].2 >= (
            #[trigger] fake_news(g, ra, rb)[j]).1 + fake_news(g, ra, rb)[j].2,
        forall|q: int, i: int|
            #![trigger joined_keys(g, ra, rb, ra.len() as int)[q], fake_news(g, ra, rb)[i]]
            0 <= q < joined_keys(g, ra, rb, ra.len() as int).len() && !fake_news(g, ra, rb).contains(
                (
                    joined_keys(g, ra, rb, ra.len() as int)[q].2,
                    joined_keys(g, ra, rb, ra.len() as int)[q].3,
                    joined_keys(g, ra, rb, ra.len() as int)[q].4,
                ),
            ) && 0 <= i < fake_news(g, ra, rb).len() ==> joined_keys(g, ra, rb, ra.len() as int)[q].3 + joined_keys(
                g,
                ra,
                rb,
                ra.len() as int,
            )[q].4 <= fake_news(g, ra, rb)[i].1 + fake_news(g, ra, rb)[i].2,
{
    let keys = joined_keys(g, ra, rb, ra.len() as int);
    lemma_ranked_take(keys, 20);
    lemma_joined_keys_sum(g, ra, rb, ra.len() as int);
    let k = take_upto(keys.sort_by(rank_rel::<(i64, i64, u32, i64, i64)>()), 20);
    let res = fake_news(g, ra, rb);
    assert(res == k.map_values(|x: (i64, i64, u32, i64, i64)| (x.2, x.3, x.4)));
    assert forall|i: int| 0 <= i < k.len() implies #[trigger] sum_of_counts(k[i]) by {
        assert(k.contains(k[i]));
        assert(keys.contains(k[i]));
        let q = choose|q: int| 0 <= q < keys.len() && keys[q] == k[i];
        assert(sum_of_counts(keys[q]));
    }
    assert forall|i: int, j: int| 0 <= i < j < res.len() implies (#[trigger] res[i]).1 + res[i].2 >= (#[trigger] res[j]).1
        + res[j].2 by {
        assert(k[i].ranks_le(k[j]));
        assert(sum_of_counts(k[i]) && sum_of_counts(k[j]));
    }
    assert forall|q: int, i: int|
        #![trigger keys[q], res[i]]
        0 <= q < keys.len() && !res.contains((keys[q].2, keys[q].3, keys[q].4)) && 0 <= i < res.len() implies keys[q].3
            + keys[q].4 <= res[i].1 + res[i].2 by {
        assert(keys.contains(keys[q]));
        assert(sum_of_counts(keys[q]));
        if k.contains(keys[q]) {
            let p = choose|p: int| 0 <= p < k.len() && k[p] == keys[q];
            assert(res[p] == (keys[q].2, keys[q].3, keys[q].4));
        }
        assert(k[i].ranks_le(keys[q]));
        assert(sum_of_counts(k[i]));
    }
}

/// Q16 and Q8 rows: a larger total comes first, and a row comes no later than another only with a total no smaller.
pub proof fn law_sum_rows_largest_first(a: (i64, i64, u32, i64, i64), b: (i64, i64, u32, i64, i64))
    ensures
        a.0 > b.0 ==> a.ranks_le(b),
        a.ranks_le(b) ==> a.0 >= b.0,
{
}

} // verus!
