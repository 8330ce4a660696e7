//! BI Q18, friend recommendation: pairs of persons interested in a tag who
//! do not know each other, by their mutual acquaintances.
use vstd::prelude::*;
use crate::bi::lookup::{lemma_push_contains, lemma_targets_within, linked_to, named_node, node_named, related, rels_within};
use crate::bi::q7::occurs_before;
use crate::rdfgraph::PropGraph;
use crate::ranking::{lemma_ranked_take, rank_and_take, rank_rel, take_upto, RankOrder};
use crate::spb::access::{int_prop_of, int_value, targets, targets_of};

verus! {

/// Node `m` is an acquaintance of `p1` who knows `p2`.
pub open spec fn mutual_friend(g: PropGraph, p1: int, p2: int, m: int) -> bool {
    targets(g, p1, "knows"@).contains(m as u32) && targets(g, m, "knows"@).contains(p2 as u32)
}

/// The mutual acquaintances of `p1` and `p2` below node id `k`.
pub open spec fn mutual_upto(g: PropGraph, p1: int, p2: int, k: int) -> nat
    decreases k,
{
    if k <= 0 {
        0
    } else {
        mutual_upto(g, p1, p2, k - 1) + if mutual_friend(g, p1, p2, k - 1) {
            1nat
        } else {
            0nat
        }
    }
}

/// The mutual acquaintances of `p1` and `p2`.
pub open spec fn mutual_count(g: PropGraph, p1: int, p2: int) -> nat {
    mutual_upto(g, p1, p2, g.labels@.len() as int)
}

/// `p2` can be recommended to `p1` for tag `t`: both are interested in it,
/// they differ, `p1` does not know `p2`, and they have a mutual acquaintance.
pub open spec fn recommendable(g: PropGraph, t: int, p1: int, p2: int) -> bool {
    &&& related(g, p1, t, "hasInterest"@)
    &&& related(g, p2, t, "hasInterest"@)
    &&& p1 != p2
    &&& !targets(g, p1, "knows"@).contains(p2 as u32)
    &&& mutual_count(g, p1, p2) > 0
}

/// The `(mutual, first LDBC id, second LDBC id, first, second)` keys of the
/// recommendable pairs whose second person is below `k`, for first person
/// `p1`.
pub open spec fn pair_keys_of(g: PropGraph, t: int, p1: int, k: int) -> Seq<(u64, i64, i64, u32, u32)>
    decreases k,
{
    if k <= 0 {
        Seq::empty()
    } else if recommendable(g, t, p1, k - 1) {
        pair_keys_of(g, t, p1, k - 1).push(
            (
                mutual_count(g, p1, k - 1) as u64,
                int_value(g, p1, "plid"@),
                int_value(g, k - 1, "plid"@),
                p1 as u32,
                (k - 1) as u32,
            ),
        )
    } else {
        pair_keys_of(g, t, p1, k - 1)
    }
}

/// The keys of all recommendable pairs whose first person is below `k`.
pub open spec fn pair_keys(g: PropGraph, t: int, k: int) -> Seq<(u64, i64, i64, u32, u32)>
    decreases k,
{
    if k <= 0 {
        Seq::empty()
    } else {
        pair_keys(g, t, k - 1) + pair_keys_of(g, t, k - 1, g.labels@.len() as int)
    }
}

/// The answer of Q18: `(first, second, mutual)` for the tag named
/// `tag_name`, most mutual acquaintances first, then by the two LDBC ids,
/// the first 20; nothing when no tag has that name.
pub open spec fn recommendations(g: PropGraph, tag_name: Seq<char>) -> Seq<(u32, u32, u64)> {
    match named_node(g, "Tag"@, tag_name) {
        Some(t) => take_upto(
            pair_keys(g, t as int, g.labels@.len() as int).sort_by(rank_rel::<(u64, i64, i64, u32, u32)>()),
            20,
        ).map_values(|k: (u64, i64, i64, u32, u32)| (k.3, k.4, k.0)),
        None => Seq::empty(),
    }
}

impl RankOrder for (u64, i64, i64, u32, u32) {
    /// A `(count, first id, second id, first, second)` key: largest count
    /// first, then the ids, then the nodes.
    open spec fn ranks_le(self, other: Self) -> bool {
        if self.0 != other.0 {
            self.0 > other.0
        } else if self.1 != other.1 {
            self.1 < other.1
        } else if self.2 != other.2 {
            self.2 < other.2
        } else if self.3 != other.3 {
            self.3 < other.3
        } else {
            self.4 <= other.4
        }
    }

    proof fn lemma_rank_total() {
    }

    fn comes_no_later(&self, other: &Self) -> (r: bool) {
        if self.0 != other.0 {
            self.0 > other.0
        } else if self.1 != other.1 {
            self.1 < other.1
        } else if self.2 != other.2 {
            self.2 < other.2
        } else if self.3 != other.3 {
            self.3 < other.3
        } else {
            self.4 <= other.4
        }
    }
}

proof fn lemma_mutual_bound(g: PropGraph, p1: int, p2: int, k: int)
    requires
        0 <= k,
    ensures
        mutual_upto(g, p1, p2, k) <= k,
    decreases k,
{
    if k > 0 {
        lemma_mutual_bound(g, p1, p2, k - 1);
    }
}

/// For every node id, whether it is in `v`.
pub(crate) fn marks_of(v: &Vec<u32>, n: usize) -> (r: Vec<bool>)
    requires
        n <= u32::MAX,
    ensures
        r@.len() == n,
        forall|w: int| 0 <= w < n ==> #[trigger] r@[w] == v@.contains(w as u32),
{
    let mut marks: Vec<bool> = Vec::new();
    while marks.len() < n
        invariant
            marks@.len() <= n,
            n <= u32::MAX,
            forall|w: int| 0 <= w < marks@.len() ==> #[trigger] marks@[w] == v@.contains(w as u32),
        decreases n - marks.len(),
    {
        let w = marks.len();
        proof {
            assert(v@.take(v@.len() as int) =~= v@);
        }
        let found = occurs_before(v, v.len(), w as u32);
        marks.push(found);
    }
    marks
}

/// The mutual acquaintances of `p1` with every node, by id.
fn mutual_counts(g: &PropGraph, p1: u32, knows1: &Vec<bool>) -> (r: Vec<u64>)
    requires
        g.labels@.len() <= u32::MAX,
        rels_within(*g),
        knows1@.len() == g.labels@.len(),
        forall|w: int| 0 <= w < knows1@.len() ==> #[trigger] knows1@[w] == targets(*g, p1 as int, "knows"@).contains(w as u32),
    ensures
        r@.len() == g.labels@.len(),
        forall|p2: int| 0 <= p2 < r@.len() ==> #[trigger] r@[p2] as int == mutual_count(*g, p1 as int, p2),
{
    let n = g.labels.len();
    let mut counts: Vec<u64> = Vec::new();
    while counts.len() < n
        invariant
            counts@.len() <= n,
            forall|w: int| 0 <= w < counts@.len() ==> #[trigger] counts@[w] == 0,
        decreases n - counts.len(),
    {
        counts.push(0);
    }
    let mut m: usize = 0;
    while m < n
        invariant
            n == g.labels@.len(),
            n <= u32::MAX,
            rels_within(*g),
            knows1@.len() == n,
            forall|w: int| 0 <= w < n ==> #[trigger] knows1@[w] == targets(*g, p1 as int, "knows"@).contains(w as u32),
            counts@.len() == n,
            m <= n,
            forall|p2: int| 0 <= p2 < n ==> #[trigger] counts@[p2] as int == mutual_upto(*g, p1 as int, p2, m as int),
        decreases n - m,
    {
        if knows1[m] {
            let theirs = targets_of(g, m as u32, "knows");
            proof {
                lemma_targets_within(*g, m as int, "knows"@, g.rels@.len() as int);
            }
            let mut j: usize = 0;
            while j < theirs.len()
                invariant
                    n == g.labels@.len(),
                    n <= u32::MAX,
                    m < n,
                    knows1@.len() == n,
                    knows1@[m as int] == targets(*g, p1 as int, "knows"@).contains(m as u32),
                    knows1@[m as int],
                    theirs@ == targets(*g, m as int, "knows"@),
                    forall|q: int| 0 <= q < theirs@.len() ==> (#[trigger] theirs@[q] as int) < n,
                    counts@.len() == n,
                    j <= theirs@.len(),
                    forall|p2: int|
                        0 <= p2 < n ==> #[trigger] counts@[p2] as int == mutual_upto(*g, p1 as int, p2, m as int) + if theirs@.take(
                            j as int,
                        ).contains(p2 as u32) {
                            1int
                        } else {
                            0int
                        },
                decreases theirs.len() - j,
            {
                let p2 = theirs[j];
                let seen = occurs_before(&theirs, j, p2);
                proof {
                    assert(theirs@.take(j + 1) =~= theirs@.take(j as int).push(p2));
                    assert forall|x: u32| #[trigger] theirs@.take(j + 1).contains(x) == (theirs@.take(j as int).contains(x)
                        || p2 == x) by {
                        lemma_push_contains(theirs@.take(j as int), p2, x);
                    }
                }
                if !seen {
                    proof {
                        lemma_mutual_bound(*g, p1 as int, p2 as int, m as int);
                    }
                    let bumped = counts[p2 as usize] + 1;
                    counts.set(p2 as usize, bumped);
                }
                proof {
                    assert forall|x: int| 0 <= x < n implies #[trigger] counts@[x] as int == mutual_upto(
                        *g,
                        p1 as int,
                        x,
                        m as int,
                    ) + if theirs@.take(j + 1).contains(x as u32) {
                        1int
                    } else {
                        0int
                    } by {
                        assert(theirs@.take(j + 1).contains(x as u32) == (theirs@.take(j as int).contains(x as u32) || p2
                            == x as u32));
                    }
                }
                j = j + 1;
            }
            proof {
                assert(theirs@.take(j as int) =~= theirs@);
            }
        }
        m = m + 1;
    }
    counts
}

/// BI Q18: for the tag named `tag_name` (the smallest id among several),
/// the ordered pairs of distinct persons both interested in the tag, the
/// first not knowing the second, with their number of mutual acquaintances
/// (persons the first knows who know the second), as `(first, second,
/// mutual)` for the pairs with one; most first, then by the first and second
/// LDBC ids, the first 20.
pub fn q18_friend_recommendation(g: &PropGraph, tag_name: &str) -> (r: Vec<(u32, u32, u64)>)
    requires
        g.labels@.len() <= u32::MAX,
        rels_within(*g),
    ensures
        r@ == recommendations(*g, tag_name@),
{
    proof {
        reveal_strlit("Tag");
    }
    let t = match node_named(g, "Tag", tag_name) {
        Some(t) => t,
        None => return Vec::new(),
    };
    let n = g.labels.len();
    let interested = linked_to(g, "hasInterest", t);
    let mut keys: Vec<(u64, i64, i64, u32, u32)> = Vec::new();
    let mut p1: usize = 0;
    while p1 < n
        invariant
            n == g.labels@.len(),
            n <= u32::MAX,
            rels_within(*g),
            interested@.len() == n,
            forall|w: int| 0 <= w < n ==> #[trigger] interested@[w] == related(*g, w, t as int, "hasInterest"@),
            p1 <= n,
            keys@ == pair_keys(*g, t as int, p1 as int),
        decreases n - p1,
    {
        let ghost before = keys@;
        if interested[p1] {
            let knows1 = marks_of(&targets_of(g, p1 as u32, "knows"), n);
            let counts = mutual_counts(g, p1 as u32, &knows1);
            let plid1 = int_prop_of(g, p1 as u32, "plid");
            let mut p2: usize = 0;
            while p2 < n
                invariant
                    n == g.labels@.len(),
                    n <= u32::MAX,
                    p1 < n,
                    related(*g, p1 as int, t as int, "hasInterest"@),
                    interested@.len() == n,
                    forall|w: int| 0 <= w < n ==> #[trigger] interested@[w] == related(*g, w, t as int, "hasInterest"@),
                    knows1@.len() == n,
                    forall|w: int| 0 <= w < n ==> #[trigger] knows1@[w] == targets(*g, p1 as int, "knows"@).contains(w as u32),
                    counts@.len() == n,
                    forall|w: int| 0 <= w < n ==> #[trigger] counts@[w] as int == mutual_count(*g, p1 as int, w),
                    plid1 == int_value(*g, p1 as int, "plid"@),
                    p2 <= n,
                    keys@ == before + pair_keys_of(*g, t as int, p1 as int, p2 as int),
                decreases n - p2,
            {
                if counts[p2] > 0 && interested[p2] && p2 != p1 && !knows1[p2] {
                    let plid2 = int_prop_of(g, p2 as u32, "plid");
                    keys.push((counts[p2], plid1, plid2, p1 as u32, p2 as u32));
                }
                p2 = p2 + 1;
            }
        } else {
            proof {
                assert forall|k: int| 0 <= k <= n implies #[trigger] pair_keys_of(*g, t as int, p1 as int, k)
                    =~= Seq::<(u64, i64, i64, u32, u32)>::empty() by {
                    lemma_no_keys(*g, t as int, p1 as int, k);
                }
            }
        }
        p1 = p1 + 1;
    }
    let best = rank_and_take(keys, 20);
    let mut out: Vec<(u32, u32, u64)> = Vec::new();
    let mut k: usize = 0;
    while k < best.len()
        invariant
            k <= best@.len(),
            out@ == best@.take(k as int).map_values(|x: (u64, i64, i64, u32, u32)| (x.3, x.4, x.0)),
        decreases best.len() - k,
    {
        out.push((best[k].3, best[k].4, best[k].0));
        proof {
            assert(best@.take(k + 1) =~= best@.take(k as int).push(best@[k as int]));
            assert(out@ =~= best@.take(k + 1).map_values(|x: (u64, i64, i64, u32, u32)| (x.3, x.4, x.0)));
        }
        k = k + 1;
    }
    proof {
        assert(best@.take(k as int) =~= best@);
    }
    out
}

proof fn lemma_no_keys(g: PropGraph, t: int, p1: int, k: int)
    requires
        !related(g, p1, t, "hasInterest"@),
    ensures
        pair_keys_of(g, t, p1, k) =~= Seq::<(u64, i64, i64, u32, u32)>::empty(),
    decreases k,
{
    if k > 0 {
        lemma_no_keys(g, t, p1, k - 1);
    }
}

/// Q18 ranks recommended pairs by mutual acquaintances: the count never
/// grows down the answer, and a recommendable pair left out has no more
/// mutual acquaintances than any pair in it.
pub proof fn law_q18_most_mutual_first(g: PropGraph, tag_name: Seq<char>)
    ensures
        forall|i: int, j: int|
            0 <= i < j < recommendations(g, tag_name).len() ==> (#[trigger] recommendations(g, tag_name)[i]).2
                >= (#[trigger] recommendations(g, tag_name)[j]).2,
        named_node(g, "Tag"@, tag_name) matches Some(t) ==> forall|q: int, i: int|
            #![trigger pair_keys(g, t as int, g.labels@.len() as int)[q], recommendations(g, tag_name)[i]]
            0 <= q < pair_keys(g, t as int, g.labels@.len() as int).len() && !recommendations(g, tag_name).contains(
                (
                    pair_keys(g, t as int, g.labels@.len() as int)[q].3,
                    pair_keys(g, t as int, g.labels@.len() as int)[q].4,
                    pair_keys(g, t as int, g.labels@.len() as int)[q].0,
                ),
            ) && 0 <= i < recommendations(g, tag_name).len() ==> pair_keys(g, t as int, g.labels@.len() as int)[q].0
                <= recommendations(g, tag_name)[i].2,
{
    match named_node(g, "Tag"@, tag_name) {
        Some(t) => {
            let keys = pair_keys(g, t as int, g.labels@.len() as int);
            lemma_ranked_take(keys, 20);
            let k = take_upto(keys.sort_by(rank_rel::<(u64, i64, i64, u32, u32)>()), 20);
            let res = recommendations(g, tag_name);
            assert(res == k.map_values(|x: (u64, i64, i64, u32, u32)| (x.3, x.4, x.0)));
            assert forall|i: int, j: int| 0 <= i < j < res.len() implies (#[trigger] res[i]).2 >= (#[trigger] res[j]).2 by {
                assert(k[i].ranks_le(k[j]));
            }
            assert forall|q: int, i: int|
                #![trigger keys[q], res[i]]
                0 <= q < keys.len() && !res.contains((keys[q].3, keys[q].4, keys[q].0)) && 0 <= i < res.len() implies keys[q].0
                    <= res[i].2 by {
                assert(keys.contains(keys[q]));
                if k.contains(keys[q]) {
                    let p = choose|p: int| 0 <= p < k.len() && k[p] == keys[q];
                    assert(res[p] == (keys[q].3, keys[q].4, keys[q].0));
                }
                assert(k[i].ranks_le(keys[q]));
            }
        },
        None => {},
    }
}

/// Q18 keys: more mutual acquaintances come first, and a key comes no later than another only with no fewer.
pub proof fn law_pair_keys_most_mutual_first(a: (u64, i64, i64, u32, u32), b: (u64, i64, i64, u32, u32))
    ensures
        a.0 > b.0 ==> a.ranks_le(b),
        a.ranks_le(b) ==> a.0 >= b.0,
{
}

} // verus!
