//! Reply interactions between persons: for each unordered pair of persons,
//! how often a comment by one replies to a message by the other.
use vstd::prelude::*;
use vstd::relations::sorted_by;
use crate::rdfgraph::PropGraph;
use crate::ranking::{rank_rel, sort_ranked, RankOrder};
use crate::spb::access::{has_label, labelled, sources, sources_of, targets, targets_of};

verus! {

/// The creator of message `m`: the source of its first `hasCreator`
/// relationship.
pub open spec fn first_creator(g: PropGraph, m: int) -> Option<u32> {
    let s = sources(g, m, "hasCreator"@);
    if s.len() > 0 {
        Some(s[0])
    } else {
        None
    }
}

/// The unordered pair of `a` and `b`, smaller first.
pub open spec fn pair_key(a: u32, b: u32) -> (u32, u32) {
    if a < b {
        (a, b)
    } else {
        (b, a)
    }
}

/// The `j`-th message comment `c` replies to was created by someone other
/// than the creator of `c`, and the two make the pair `key`.
pub open spec fn reply_between(g: PropGraph, c: int, j: int, key: (u32, u32)) -> bool {
    &&& labelled(g, c, "Comment"@)
    &&& 0 <= j < targets(g, c, "replyOf"@).len()
    &&& match (first_creator(g, c), first_creator(g, targets(g, c, "replyOf"@)[j] as int)) {
        (Some(a), Some(b)) => a != b && pair_key(a, b) == key,
        _ => false,
    }
}

/// The replies of comment `c` among its first `j` that make the pair `key`.
pub open spec fn replies_between(g: PropGraph, c: int, key: (u32, u32), j: int) -> nat
    decreases j,
{
    if j <= 0 {
        0
    } else {
        replies_between(g, c, key, j - 1) + if reply_between(g, c, j - 1, key) {
            1nat
        } else {
            0nat
        }
    }
}

/// The interactions of the pair `key` over the comments below `k`.
pub open spec fn interactions_upto(g: PropGraph, key: (u32, u32), k: int) -> nat
    decreases k,
{
    if k <= 0 {
        0
    } else {
        interactions_upto(g, key, k - 1) + replies_between(
            g,
            k - 1,
            key,
            targets(g, k - 1, "replyOf"@).len() as int,
        )
    }
}

/// The interactions of the pair `key`: the replies, over all comments, from
/// one of the pair to a message of the other.
pub open spec fn interactions(g: PropGraph, key: (u32, u32)) -> nat {
    interactions_upto(g, key, g.labels@.len() as int)
}

/// The interactions so far: the comments below `k` in full and the first
/// `j` replies of comment `k`.
pub open spec fn interactions_so_far(g: PropGraph, key: (u32, u32), k: int, j: int) -> nat {
    interactions_upto(g, key, k) + replies_between(g, k, key, j)
}

/// `rows` hold one `(pair, count)` row per pair with an interaction so far,
/// without repeats.
pub open spec fn counted_pairs(g: PropGraph, rows: Seq<((u32, u32), u32)>, k: int, j: int) -> bool {
    &&& forall|a: int, b: int| 0 <= a < b < rows.len() ==> (#[trigger] rows[a]).0 != (#[trigger] rows[b]).0
    &&& forall|i: int|
        0 <= i < rows.len() ==> (#[trigger] rows[i]).1 as int == interactions_so_far(g, rows[i].0, k, j) && rows[i].1
            > 0
    &&& forall|key: (u32, u32)|
        #[trigger] interactions_so_far(g, key, k, j) > 0 ==> exists|i: int| 0 <= i < rows.len() && (#[trigger] rows[i]).0 == key
}

/// `rows` is the interaction map of `g`: one `(pair, interactions)` row per
/// pair of persons with an interaction, ordered by pair.
pub open spec fn interaction_map(g: PropGraph, rows: Seq<((u32, u32), u32)>) -> bool {
    &&& sorted_by(rows, rank_rel::<((u32, u32), u32)>())
    &&& rows.no_duplicates()
    &&& forall|i: int| 0 <= i < rows.len() ==> (#[trigger] rows[i]).1 as int == interactions(g, rows[i].0) && rows[i].1 > 0
    &&& forall|key: (u32, u32)| #[trigger] interactions(g, key) > 0 ==> exists|i: int| 0 <= i < rows.len() && (#[trigger] rows[i]).0 == key
}

impl RankOrder for ((u32, u32), u32) {
    /// A `(pair, count)` row: by pair, then count.
    open spec fn ranks_le(self, other: Self) -> bool {
        if self.0.0 != other.0.0 {
            self.0.0 < other.0.0
        } else if self.0.1 != other.0.1 {
            self.0.1 < other.0.1
        } else {
            self.1 <= other.1
        }
    }

    proof fn lemma_rank_total() {
    }

    fn comes_no_later(&self, other: &Self) -> (r: bool) {
        if self.0.0 != other.0.0 {
            self.0.0 < other.0.0
        } else if self.0.1 != other.0.1 {
            self.0.1 < other.0.1
        } else {
            self.1 <= other.1
        }
    }
}

/// The count of a pair so far never exceeds its final count.
proof fn lemma_so_far_bound(g: PropGraph, key: (u32, u32), c: int, j: int)
    requires
        0 <= c < g.labels@.len(),
        0 <= j <= targets(g, c, "replyOf"@).len(),
    ensures
        interactions_so_far(g, key, c, j) <= interactions(g, key),
{
    lemma_replies_grow(g, c, key, j, targets(g, c, "replyOf"@).len() as int);
    lemma_interactions_grow(g, key, c + 1, g.labels@.len() as int);
}

proof fn lemma_replies_grow(g: PropGraph, c: int, key: (u32, u32), j: int, m: int)
    requires
        0 <= j <= m,
    ensures
        replies_between(g, c, key, j) <= replies_between(g, c, key, m),
    decreases m - j,
{
    if j < m {
        lemma_replies_grow(g, c, key, j, m - 1);
    }
}

proof fn lemma_interactions_grow(g: PropGraph, key: (u32, u32), k: int, m: int)
    requires
        0 <= k <= m,
    ensures
        interactions_upto(g, key, k) <= interactions_upto(g, key, m),
    decreases m - k,
{
    if k < m {
        lemma_interactions_grow(g, key, k, m - 1);
    }
}

proof fn lemma_replies_bound(g: PropGraph, c: int, key: (u32, u32), j: int)
    requires
        0 <= j,
    ensures
        replies_between(g, c, key, j) <= j,
    decreases j,
{
    if j > 0 {
        lemma_replies_bound(g, c, key, j - 1);
    }
}

/// The first row of `rows` for `key`.
fn find_key(rows: &Vec<((u32, u32), u32)>, key: (u32, u32)) -> (r: Option<usize>)
    ensures
        match r {
            Some(i) => i < rows@.len() && rows@[i as int].0 == key,
            None => forall|i: int| 0 <= i < rows@.len() ==> (#[trigger] rows@[i]).0 != key,
        },
{
    let mut i: usize = 0;
    while i < rows.len()
        invariant
            i <= rows@.len(),
            forall|q: int| 0 <= q < i ==> (#[trigger] rows@[q]).0 != key,
        decreases rows.len() - i,
    {
        if rows[i].0.0 == key.0 && rows[i].0.1 == key.1 {
            return Some(i);
        }
        i = i + 1;
    }
    None
}

/// The creator of message `m`.
fn creator_of_node(g: &PropGraph, m: u32) -> (r: Option<u32>)
    ensures
        r == first_creator(*g, m as int),
{
    let s = sources_of(g, m, "hasCreator");
    if s.len() > 0 {
        Some(s[0])
    } else {
        None
    }
}

/// The reply interactions of every pair of persons: one `(pair, count)` row
/// per unordered pair (smaller node id first) with at least one comment by
/// one of them replying to a message by the other (creators are the sources
/// of the first `hasCreator` relationships; a comment counts once per reply
/// relationship), ordered by pair.
pub fn build_interaction_map(g: &PropGraph) -> (r: Vec<((u32, u32), u32)>)
    requires
        g.labels@.len() <= u32::MAX,
        forall|key: (u32, u32)| #[trigger] interactions(*g, key) <= u32::MAX,
    ensures
        interaction_map(*g, r@),
{
    let n = g.labels.len();
    let mut rows: Vec<((u32, u32), u32)> = Vec::new();
    let mut c: usize = 0;
    while c < n
        invariant
            n == g.labels@.len(),
            n <= u32::MAX,
            forall|key: (u32, u32)| #[trigger] interactions(*g, key) <= u32::MAX,
            c <= n,
            counted_pairs(*g, rows@, c as int, 0),
        decreases n - c,
    {
        proof {
            reveal_strlit("Comment");
        }
        if has_label(g, c as u32, "Comment") {
            match creator_of_node(g, c as u32) {
                Some(a) => {
                    let parents = targets_of(g, c as u32, "replyOf");
                    let mut j: usize = 0;
                    while j < parents.len()
                        invariant
                            n == g.labels@.len(),
                            n <= u32::MAX,
                            forall|key: (u32, u32)| #[trigger] interactions(*g, key) <= u32::MAX,
                            c < n,
                            labelled(*g, c as int, "Comment"@),
                            first_creator(*g, c as int) == Some(a),
                            parents@ == targets(*g, c as int, "replyOf"@),
                            j <= parents@.len(),
                            counted_pairs(*g, rows@, c as int, j as int),
                        decreases parents.len() - j,
                    {
                        let ghost before = rows@;
                        match creator_of_node(g, parents[j]) {
                            Some(b) => {
                                if a != b {
                                    let key = if a < b {
                                        (a, b)
                                    } else {
                                        (b, a)
                                    };
                                    proof {
                                        assert(reply_between(*g, c as int, j as int, key));
                                        assert forall|k2: (u32, u32)| k2 != key implies !reply_between(
                                            *g,
                                            c as int,
                                            j as int,
                                            k2,
                                        ) by {}
                                        lemma_so_far_bound(*g, key, c as int, j + 1);
                                        assert(interactions(*g, key) <= u32::MAX);
                                    }
                                    match find_key(&rows, key) {
                                        Some(i) => {
                                            let bumped = rows[i].1 + 1;
                                            rows.set(i, (key, bumped));
                                            proof {
                                                lemma_counted_bump(*g, before, rows@, c as int, j as int, i as int, key);
                                            }
                                        },
                                        None => {
                                            rows.push((key, 1));
                                            proof {
                                                lemma_counted_new(*g, before, rows@, c as int, j as int, key);
                                            }
                                        },
                                    }
                                } else {
                                    proof {
                                        lemma_counted_same(*g, rows@, c as int, j as int);
                                    }
                                }
                            },
                            None => {
                                proof {
                                    lemma_counted_same(*g, rows@, c as int, j as int);
                                }
                            },
                        }
                        j = j + 1;
                    }
                    proof {
                        lemma_counted_next(*g, rows@, c as int, j as int);
                    }
                },
                None => {
                    proof {
                        lemma_counted_none(*g, rows@, c as int, targets(*g, c as int, "replyOf"@).len() as int);
                        lemma_counted_next(*g, rows@, c as int, targets(*g, c as int, "replyOf"@).len() as int);
                    }
                },
            }
        } else {
            proof {
                lemma_counted_none(*g, rows@, c as int, targets(*g, c as int, "replyOf"@).len() as int);
                lemma_counted_next(*g, rows@, c as int, targets(*g, c as int, "replyOf"@).len() as int);
            }
        }
        c = c + 1;
    }
    let ghost counted = rows@;
    let sorted = sort_ranked(rows);
    proof {
        lemma_map_sorted(*g, counted, sorted@);
    }
    sorted
}

/// A reply that makes no pair changes no count.
proof fn lemma_counted_same(g: PropGraph, rows: Seq<((u32, u32), u32)>, c: int, j: int)
    requires
        counted_pairs(g, rows, c, j),
        forall|key: (u32, u32)| !reply_between(g, c, j, key),
        0 <= j,
    ensures
        counted_pairs(g, rows, c, j + 1),
{
    assert forall|key: (u32, u32)| #[trigger] interactions_so_far(g, key, c, j + 1) == interactions_so_far(g, key, c, j) by {}
    assert forall|i: int| 0 <= i < rows.len() implies (#[trigger] rows[i]).1 as int == interactions_so_far(
        g,
        rows[i].0,
        c,
        j + 1,
    ) && rows[i].1 > 0 by {
        assert(interactions_so_far(g, rows[i].0, c, j + 1) == interactions_so_far(g, rows[i].0, c, j));
    }
    assert forall|key: (u32, u32)| #[trigger] interactions_so_far(g, key, c, j + 1) > 0 implies exists|i: int|
        0 <= i < rows.len() && (#[trigger] rows[i]).0 == key by {
        assert(interactions_so_far(g, key, c, j) > 0);
    }
}

/// A comment without a creator, or a node that is no comment, makes no pair.
proof fn lemma_counted_none(g: PropGraph, rows: Seq<((u32, u32), u32)>, c: int, len: int)
    requires
        counted_pairs(g, rows, c, 0),
        !labelled(g, c, "Comment"@) || first_creator(g, c) is None,
        len == targets(g, c, "replyOf"@).len(),
    ensures
        counted_pairs(g, rows, c, len),
{
    assert forall|key: (u32, u32), j: int| 0 <= j <= len implies #[trigger] replies_between(g, c, key, j) == 0 by {
        lemma_replies_zero(g, c, key, j);
    }
    assert forall|key: (u32, u32)| #[trigger] interactions_so_far(g, key, c, len) == interactions_so_far(g, key, c, 0) by {
        assert(replies_between(g, c, key, len) == 0);
    }
    assert forall|i: int| 0 <= i < rows.len() implies (#[trigger] rows[i]).1 as int == interactions_so_far(
        g,
        rows[i].0,
        c,
        len,
    ) && rows[i].1 > 0 by {
        assert(interactions_so_far(g, rows[i].0, c, len) == interactions_so_far(g, rows[i].0, c, 0));
    }
    assert forall|key: (u32, u32)| #[trigger] interactions_so_far(g, key, c, len) > 0 implies exists|i: int|
        0 <= i < rows.len() && (#[trigger] rows[i]).0 == key by {
        assert(interactions_so_far(g, key, c, 0) > 0);
    }
}

proof fn lemma_replies_zero(g: PropGraph, c: int, key: (u32, u32), j: int)
    requires
        !labelled(g, c, "Comment"@) || first_creator(g, c) is None,
    ensures
        replies_between(g, c, key, j) == 0,
    decreases j,
{
    if j > 0 {
        lemma_replies_zero(g, c, key, j - 1);
    }
}

/// Moving on from comment `c` once all its replies are counted.
proof fn lemma_counted_next(g: PropGraph, rows: Seq<((u32, u32), u32)>, c: int, j: int)
    requires
        counted_pairs(g, rows, c, j),
        0 <= c,
        j == targets(g, c, "replyOf"@).len(),
    ensures
        counted_pairs(g, rows, c + 1, 0),
{
    assert forall|key: (u32, u32)| #[trigger] interactions_so_far(g, key, c + 1, 0) == interactions_so_far(g, key, c, j) by {}
    assert forall|i: int| 0 <= i < rows.len() implies (#[trigger] rows[i]).1 as int == interactions_so_far(
        g,
        rows[i].0,
        c + 1,
        0,
    ) && rows[i].1 > 0 by {
        assert(interactions_so_far(g, rows[i].0, c + 1, 0) == interactions_so_far(g, rows[i].0, c, j));
    }
    assert forall|key: (u32, u32)| #[trigger] interactions_so_far(g, key, c + 1, 0) > 0 implies exists|i: int|
        0 <= i < rows.len() && (#[trigger] rows[i]).0 == key by {
        assert(interactions_so_far(g, key, c, j) > 0);
    }
}

/// Counting reply `j` of comment `c` into the existing row `i` of its pair.
proof fn lemma_counted_bump(
    g: PropGraph,
    before: Seq<((u32, u32), u32)>,
    rows: Seq<((u32, u32), u32)>,
    c: int,
    j: int,
    i: int,
    key: (u32, u32),
)
    requires
        counted_pairs(g, before, c, j),
        0 <= j,
        0 <= i < before.len(),
        before[i].0 == key,
        reply_between(g, c, j, key),
        forall|k2: (u32, u32)| k2 != key ==> !reply_between(g, c, j, k2),
        before[i].1 + 1 <= u32::MAX,
        rows == before.update(i, (key, (before[i].1 + 1) as u32)),
    ensures
        counted_pairs(g, rows, c, j + 1),
{
    assert forall|a: int, b: int| 0 <= a < b < rows.len() implies (#[trigger] rows[a]).0 != (#[trigger] rows[b]).0 by {
        assert(before[a].0 != before[b].0);
    }
    assert forall|q: int| 0 <= q < rows.len() implies (#[trigger] rows[q]).1 as int == interactions_so_far(
        g,
        rows[q].0,
        c,
        j + 1,
    ) && rows[q].1 > 0 by {
        if q != i {
            assert(before[q].0 != key);
        }
    }
    assert forall|k2: (u32, u32)| #[trigger] interactions_so_far(g, k2, c, j + 1) > 0 implies exists|q: int|
        0 <= q < rows.len() && (#[trigger] rows[q]).0 == k2 by {
        if k2 == key {
            assert(rows[i].0 == k2);
        } else {
            assert(interactions_so_far(g, k2, c, j) > 0);
            let q = choose|q: int| 0 <= q < before.len() && (#[trigger] before[q]).0 == k2;
            assert(rows[q].0 == k2);
        }
    }
}

/// Counting reply `j` of comment `c` into a new row for its pair.
proof fn lemma_counted_new(
    g: PropGraph,
    before: Seq<((u32, u32), u32)>,
    rows: Seq<((u32, u32), u32)>,
    c: int,
    j: int,
    key: (u32, u32),
)
    requires
        counted_pairs(g, before, c, j),
        0 <= j,
        forall|q: int| 0 <= q < before.len() ==> (#[trigger] before[q]).0 != key,
        reply_between(g, c, j, key),
        forall|k2: (u32, u32)| k2 != key ==> !reply_between(g, c, j, k2),
        rows == before.push((key, 1u32)),
    ensures
        counted_pairs(g, rows, c, j + 1),
{
    if interactions_so_far(g, key, c, j) > 0 {
        let q = choose|q: int| 0 <= q < before.len() && (#[trigger] before[q]).0 == key;
        assert(false);
    }
    let last = before.len() as int;
    assert forall|a: int, b: int| 0 <= a < b < rows.len() implies (#[trigger] rows[a]).0 != (#[trigger] rows[b]).0 by {
        if b < last {
            assert(before[a].0 != before[b].0);
        } else {
            assert(before[a].0 != key);
        }
    }
    assert forall|q: int| 0 <= q < rows.len() implies (#[trigger] rows[q]).1 as int == interactions_so_far(
        g,
        rows[q].0,
        c,
        j + 1,
    ) && rows[q].1 > 0 by {
        if q < last {
            assert(before[q].0 != key);
        }
    }
    assert forall|k2: (u32, u32)| #[trigger] interactions_so_far(g, k2, c, j + 1) > 0 implies exists|q: int|
        0 <= q < rows.len() && (#[trigger] rows[q]).0 == k2 by {
        if k2 == key {
            assert(rows[last].0 == k2);
        } else {
            assert(interactions_so_far(g, k2, c, j) > 0);
            let q = choose|q: int| 0 <= q < before.len() && (#[trigger] before[q]).0 == k2;
            assert(rows[q].0 == k2);
        }
    }
}

/// Sorting the counted pairs gives the interaction map.
proof fn lemma_map_sorted(g: PropGraph, counted: Seq<((u32, u32), u32)>, rows: Seq<((u32, u32), u32)>)
    requires
        counted_pairs(g, counted, g.labels@.len() as int, 0),
        rows == counted.sort_by(rank_rel::<((u32, u32), u32)>()),
    ensures
        interaction_map(g, rows),
{
    let n = g.labels@.len() as int;
    let rel = rank_rel::<((u32, u32), u32)>();
    <((u32, u32), u32) as RankOrder>::lemma_rank_total();
    assert(rel == |a: ((u32, u32), u32), b: ((u32, u32), u32)| a.ranks_le(b));
    counted.lemma_sort_by_ensures(rel);
    broadcast use vstd::seq_lib::to_multiset_contains;
    assert forall|key: (u32, u32)| #[trigger] interactions_so_far(g, key, n, 0) == interactions(g, key) by {}
    assert(counted.no_duplicates()) by {
        assert forall|i: int, j: int| 0 <= i < counted.len() && 0 <= j < counted.len() && i != j implies counted[i]
            != counted[j] by {
            if i < j {
                assert(counted[i].0 != counted[j].0);
            } else {
                assert(counted[j].0 != counted[i].0);
            }
        }
    }
    counted.lemma_multiset_has_no_duplicates();
    rows.lemma_multiset_has_no_duplicates_conv();
    assert forall|i: int| 0 <= i < rows.len() implies (#[trigger] rows[i]).1 as int == interactions(g, rows[i].0)
        && rows[i].1 > 0 by {
        assert(rows.contains(rows[i]));
        assert(rows.to_multiset().count(rows[i]) > 0);
        assert(counted.contains(rows[i]));
        let j = choose|j: int| 0 <= j < counted.len() && counted[j] == rows[i];
        assert(interactions_so_far(g, counted[j].0, n, 0) == interactions(g, counted[j].0));
    }
    assert forall|key: (u32, u32)| #[trigger] interactions(g, key) > 0 implies exists|i: int|
        0 <= i < rows.len() && (#[trigger] rows[i]).0 == key by {
        assert(interactions_so_far(g, key, n, 0) > 0);
        let j = choose|j: int| 0 <= j < counted.len() && (#[trigger] counted[j]).0 == key;
        assert(counted.contains(counted[j]));
        assert(counted.to_multiset().count(counted[j]) > 0);
        assert(rows.contains(counted[j]));
        let i = choose|i: int| 0 <= i < rows.len() && rows[i] == counted[j];
        assert(rows[i].0 == key);
    }
}

/// Interaction rows: a pair with a smaller first person comes first, and a row comes no later than another only with a first person no larger.
pub proof fn law_pair_counts_by_first_person(a: ((u32, u32), u32), b: ((u32, u32), u32))
    ensures
        a.0.0 < b.0.0 ==> a.ranks_le(b),
        a.ranks_le(b) ==> a.0.0 <= b.0.0,
{
}

} // verus!
