//! BI Q1, the posting summary: messages created before a cutoff day, grouped
//! by creation year, kind (post or comment) and length class.
use vstd::prelude::*;
use vstd::relations::sorted_by;
use crate::rdfgraph::PropGraph;
use crate::ranking::{rank_rel, sort_ranked, RankOrder};
use crate::spb::access::{has_label, int_prop_of, int_value, labelled, true_prop, true_prop_of};

verus! {

/// The length class of a message of `len` characters: 0 below 40, 1 below
/// 80, 2 below 160, 3 from 160 on.
pub open spec fn length_class(len: i64) -> u8 {
    if len < 40 {
        0
    } else if len < 80 {
        1
    } else if len < 160 {
        2
    } else {
        3
    }
}

/// The label of a message of the given kind.
pub open spec fn message_label(is_comment: bool) -> Seq<char> {
    if is_comment {
        "Comment"@
    } else {
        "Post"@
    }
}

/// Node `n` is a message of the given kind created before day `cutoff`.
pub open spec fn posted_before(g: PropGraph, n: int, is_comment: bool, cutoff: i64) -> bool {
    labelled(g, n, message_label(is_comment)) && int_value(g, n, "day"@) < cutoff
}

/// How many of the nodes below `k` are messages of the kind created before
/// day `cutoff`.
pub open spec fn count_posted(g: PropGraph, is_comment: bool, cutoff: i64, k: int) -> nat
    decreases k,
{
    if k <= 0 {
        0
    } else {
        count_posted(g, is_comment, cutoff, k - 1) + if posted_before(g, k - 1, is_comment, cutoff) {
            1nat
        } else {
            0nat
        }
    }
}

/// The `(year, is comment, length class)` group of message `n`.
pub open spec fn group_of(g: PropGraph, n: int, is_comment: bool) -> (i64, bool, u8) {
    (int_value(g, n, "year"@), is_comment, length_class(int_value(g, n, "len"@)))
}

/// Node `n` counts toward group `key`: a message of the group's kind created
/// before `cutoff`, with content, in that group.
pub open spec fn in_group(g: PropGraph, n: int, cutoff: i64, key: (i64, bool, u8)) -> bool {
    posted_before(g, n, key.1, cutoff) && true_prop(g, n, "content"@) && group_of(g, n, key.1) == key
}

/// How many of the nodes below `k` count toward group `key`.
pub open spec fn group_size(g: PropGraph, cutoff: i64, key: (i64, bool, u8), k: int) -> nat
    decreases k,
{
    if k <= 0 {
        0
    } else {
        group_size(g, cutoff, key, k - 1) + if in_group(g, k - 1, cutoff, key) {
            1nat
        } else {
            0nat
        }
    }
}

/// The summed length of the nodes below `k` that count toward group `key`.
pub open spec fn group_length(g: PropGraph, cutoff: i64, key: (i64, bool, u8), k: int) -> int
    decreases k,
{
    if k <= 0 {
        0
    } else {
        group_length(g, cutoff, key, k - 1) + if in_group(g, k - 1, cutoff, key) {
            int_value(g, k - 1, "len"@) as int
        } else {
            0
        }
    }
}

/// The length of a message with content created before `cutoff`, as a
/// magnitude (0 for any other node).
pub open spec fn counted_length(g: PropGraph, n: int, is_comment: bool, cutoff: i64) -> int {
    if posted_before(g, n, is_comment, cutoff) && true_prop(g, n, "content"@) {
        let len = int_value(g, n, "len"@) as int;
        if len < 0 {
            -len
        } else {
            len
        }
    } else {
        0
    }
}

/// The summed length magnitudes of the messages with content created before
/// `cutoff` among the nodes below `k`, posts and comments alike.
pub open spec fn length_magnitude(g: PropGraph, cutoff: i64, k: int) -> int
    decreases k,
{
    if k <= 0 {
        0
    } else {
        length_magnitude(g, cutoff, k - 1) + counted_length(g, k - 1, false, cutoff) + counted_length(
            g,
            k - 1,
            true,
            cutoff,
        )
    }
}

/// The group of a summary row.
pub open spec fn row_key(r: (i64, bool, u8, u64, i64)) -> (i64, bool, u8) {
    (r.0, r.1, r.2)
}

/// The nodes scanned so far for a group's kind: `kp` posts, `kc` comments.
pub open spec fn scanned(key: (i64, bool, u8), kp: int, kc: int) -> int {
    if key.1 {
        kc
    } else {
        kp
    }
}

/// `rows` summarise the groups over the first `kp` nodes (posts) and `kc`
/// nodes (comments): one row per group with a message, with its size and
/// summed length.
pub open spec fn groups_so_far(
    g: PropGraph,
    cutoff: i64,
    rows: Seq<(i64, bool, u8, u64, i64)>,
    kp: int,
    kc: int,
) -> bool {
    &&& forall|i: int, j: int| 0 <= i < j < rows.len() ==> row_key(#[trigger] rows[i]) != row_key(#[trigger] rows[j])
    &&& forall|i: int|
        0 <= i < rows.len() ==> {
            let key = row_key(#[trigger] rows[i]);
            &&& rows[i].3 as int == group_size(g, cutoff, key, scanned(key, kp, kc))
            &&& rows[i].3 > 0
            &&& rows[i].4 as int == group_length(g, cutoff, key, scanned(key, kp, kc))
        }
    &&& forall|key: (i64, bool, u8)|
        #[trigger] group_size(g, cutoff, key, scanned(key, kp, kc)) > 0 ==> exists|i: int|
            0 <= i < rows.len() && row_key(#[trigger] rows[i]) == key
}

/// `rows` is the posting summary of `g` for `cutoff`: exactly one row
/// `(year, is comment, length class, messages, summed length)` per group that
/// has a message, without repeats, in summary order.
pub open spec fn posting_summary(g: PropGraph, cutoff: i64, rows: Seq<(i64, bool, u8, u64, i64)>) -> bool {
    let n = g.labels@.len() as int;
    &&& rows.no_duplicates()
    &&& sorted_by(rows, rank_rel::<(i64, bool, u8, u64, i64)>())
    &&& forall|i: int|
        0 <= i < rows.len() ==> {
            let key = row_key(#[trigger] rows[i]);
            &&& rows[i].3 as int == group_size(g, cutoff, key, n)
            &&& rows[i].3 > 0
            &&& rows[i].4 as int == group_length(g, cutoff, key, n)
        }
    &&& forall|key: (i64, bool, u8)|
        #[trigger] group_size(g, cutoff, key, n) > 0 ==> exists|i: int|
            0 <= i < rows.len() && row_key(#[trigger] rows[i]) == key
}

impl RankOrder for (i64, bool, u8, u64, i64) {
    /// A summary row: year descending, posts before comments, length class
    /// ascending (then size and summed length, which a summary never needs).
    open spec fn ranks_le(self, other: Self) -> bool {
        self.0 > other.0 || (self.0 == other.0 && ((!self.1 && other.1) || (self.1 == other.1 && (self.2 < other.2
            || (self.2 == other.2 && (self.3 < other.3 || (self.3 == other.3 && self.4 <= other.4)))))))
    }

    proof fn lemma_rank_total() {
    }

    fn comes_no_later(&self, other: &Self) -> (r: bool) {
        self.0 > other.0 || (self.0 == other.0 && ((!self.1 && other.1) || (self.1 == other.1 && (self.2 < other.2
            || (self.2 == other.2 && (self.3 < other.3 || (self.3 == other.3 && self.4 <= other.4)))))))
    }
}

proof fn lemma_count_posted_bound(g: PropGraph, is_comment: bool, cutoff: i64, k: int)
    requires
        0 <= k,
    ensures
        count_posted(g, is_comment, cutoff, k) <= k,
    decreases k,
{
    if k > 0 {
        lemma_count_posted_bound(g, is_comment, cutoff, k - 1);
    }
}

proof fn lemma_magnitude_grows(g: PropGraph, cutoff: i64, k: int, m: int)
    requires
        0 <= k <= m,
    ensures
        length_magnitude(g, cutoff, k) <= length_magnitude(g, cutoff, m),
    decreases m - k,
{
    if k < m {
        lemma_magnitude_grows(g, cutoff, k, m - 1);
    }
}

/// A group's summed length is bounded by the length magnitudes of the
/// messages of its kind scanned so far.
proof fn lemma_group_length_bound(g: PropGraph, cutoff: i64, key: (i64, bool, u8), k: int)
    requires
        0 <= k,
    ensures
        group_length(g, cutoff, key, k) <= length_magnitude(g, cutoff, k),
        -group_length(g, cutoff, key, k) <= length_magnitude(g, cutoff, k),
        0 <= length_magnitude(g, cutoff, k),
    decreases k,
{
    if k > 0 {
        lemma_group_length_bound(g, cutoff, key, k - 1);
    }
}

/// The first row of `rows` with group `key`.
fn find_group(rows: &Vec<(i64, bool, u8, u64, i64)>, key: (i64, bool, u8)) -> (r: Option<usize>)
    ensures
        match r {
            Some(i) => i < rows@.len() && row_key(rows@[i as int]) == key,
            None => forall|i: int| 0 <= i < rows@.len() ==> row_key(#[trigger] rows@[i]) != key,
        },
{
    let mut i: usize = 0;
    while i < rows.len()
        invariant
            i <= rows@.len(),
            forall|j: int| 0 <= j < i ==> row_key(#[trigger] rows@[j]) != key,
        decreases rows.len() - i,
    {
        if rows[i].0 == key.0 && rows[i].1 == key.1 && rows[i].2 == key.2 {
            return Some(i);
        }
        i = i + 1;
    }
    None
}

/// Add the messages of one kind to the summary rows and the message count.
fn scan_kind(g: &PropGraph, cutoff: i64, is_comment: bool, rows: &mut Vec<(i64, bool, u8, u64, i64)>, total: &mut u64)
    requires
        g.labels@.len() <= u32::MAX,
        length_magnitude(*g, cutoff, g.labels@.len() as int) <= i64::MAX,
        *old(total) <= u32::MAX,
        groups_so_far(
            *g,
            cutoff,
            old(rows)@,
            if is_comment {
                g.labels@.len() as int
            } else {
                0
            },
            0,
        ),
    ensures
        *final(total) == *old(total) + count_posted(*g, is_comment, cutoff, g.labels@.len() as int),
        groups_so_far(
            *g,
            cutoff,
            final(rows)@,
            g.labels@.len() as int,
            if is_comment {
                g.labels@.len() as int
            } else {
                0
            },
        ),
{
    let n = g.labels.len();
    let label = if is_comment {
        "Comment"
    } else {
        "Post"
    };
    proof {
        reveal_strlit("Comment");
        reveal_strlit("Post");
        lemma_count_posted_bound(*g, is_comment, cutoff, n as int);
    }
    let ghost start = *total;
    let ghost kp0: int = if is_comment {
        n as int
    } else {
        0
    };
    let mut k: usize = 0;
    while k < n
        invariant
            n == g.labels@.len(),
            n <= u32::MAX,
            label@ == message_label(is_comment),
            kp0 == if is_comment {
                n as int
            } else {
                0
            },
            length_magnitude(*g, cutoff, n as int) <= i64::MAX,
            start <= u32::MAX,
            count_posted(*g, is_comment, cutoff, n as int) <= n,
            k <= n,
            *total == start + count_posted(*g, is_comment, cutoff, k as int),
            groups_so_far(
                *g,
                cutoff,
                rows@,
                if is_comment {
                    kp0
                } else {
                    k as int
                },
                if is_comment {
                    k as int
                } else {
                    0
                },
            ),
        decreases n - k,
    {
        let ghost before = rows@;
        let ghost kp: int = if is_comment {
            kp0
        } else {
            k as int
        };
        let ghost kc: int = if is_comment {
            k as int
        } else {
            0
        };
        let ghost kp1: int = if is_comment {
            kp0
        } else {
            k + 1
        };
        let ghost kc1: int = if is_comment {
            k + 1
        } else {
            0
        };
        proof {
            lemma_count_posted_bound(*g, is_comment, cutoff, k + 1);
            lemma_count_posted_bound(*g, is_comment, cutoff, k as int);
        }
        let counted = has_label(g, k as u32, label) && int_prop_of(g, k as u32, "day") < cutoff;
        if counted {
            *total = *total + 1;
        }
        let with_content = counted && true_prop_of(g, k as u32, "content");
        if with_content {
            let len = int_prop_of(g, k as u32, "len");
            let year = int_prop_of(g, k as u32, "year");
            let class: u8 = if len < 40 {
                0
            } else if len < 80 {
                1
            } else if len < 160 {
                2
            } else {
                3
            };
            let key = (year, is_comment, class);
            proof {
                assert(in_group(*g, k as int, cutoff, key));
                assert forall|other: (i64, bool, u8)| other != key && other.1 == is_comment implies !in_group(*g, k as int, cutoff, other) by {}
                lemma_group_length_bound(*g, cutoff, key, k + 1);
                lemma_magnitude_grows(*g, cutoff, k + 1, n as int);
                assert(group_size(*g, cutoff, key, k + 1) <= k + 1) by {
                    lemma_group_size_bound(*g, cutoff, key, k + 1);
                }
            }
            match find_group(rows, key) {
                Some(i) => {
                    proof {
                        assert(row_key(before[i as int]) == key);
                        assert(scanned(key, kp, kc) == k);
                    }
                    let size = rows[i].3 + 1;
                    let sum = rows[i].4 + len;
                    rows.set(i, (year, is_comment, class, size, sum));
                    proof {
                        assert forall|key2: (i64, bool, u8)|
                            #[trigger] group_size(*g, cutoff, key2, scanned(key2, kp1, kc1)) > 0 implies exists|j: int|
                                0 <= j < rows@.len() && row_key(#[trigger] rows@[j]) == key2 by {
                            if key2 == key {
                                assert(row_key(rows@[i as int]) == key2);
                            } else {
                                if key2.1 == is_comment {
                                    assert(!in_group(*g, k as int, cutoff, key2));
                                }
                                assert(group_size(*g, cutoff, key2, scanned(key2, kp, kc)) > 0);
                                let j = choose|j: int| 0 <= j < before.len() && row_key(#[trigger] before[j]) == key2;
                                assert(row_key(rows@[j]) == key2);
                            }
                        }
                        assert forall|j: int| 0 <= j < rows@.len() implies {
                            let key2 = row_key(#[trigger] rows@[j]);
                            &&& rows@[j].3 as int == group_size(*g, cutoff, key2, scanned(key2, kp1, kc1))
                            &&& rows@[j].3 > 0
                            &&& rows@[j].4 as int == group_length(*g, cutoff, key2, scanned(key2, kp1, kc1))
                        } by {
                            if j != i {
                                let key2 = row_key(before[j]);
                                assert(key2 != key);
                                if key2.1 == is_comment {
                                    assert(!in_group(*g, k as int, cutoff, key2));
                                }
                            }
                        }
                        assert forall|a: int, b: int| 0 <= a < b < rows@.len() implies row_key(
                            #[trigger] rows@[a],
                        ) != row_key(#[trigger] rows@[b]) by {
                            assert(row_key(before[a]) != row_key(before[b]));
                        }
                    }
                },
                None => {
                    proof {
                        assert(scanned(key, kp, kc) == k);
                        if group_size(*g, cutoff, key, k as int) > 0 {
                            let j = choose|j: int| 0 <= j < before.len() && row_key(#[trigger] before[j]) == key;
                            assert(row_key(before[j]) != key);
                        }
                        lemma_empty_group(*g, cutoff, key, k as int);
                    }
                    rows.push((year, is_comment, class, 1, len));
                    proof {
                        let last = (before.len()) as int;
                        assert(row_key(rows@[last]) == key);
                        assert forall|key2: (i64, bool, u8)|
                            #[trigger] group_size(*g, cutoff, key2, scanned(key2, kp1, kc1)) > 0 implies exists|j: int|
                                0 <= j < rows@.len() && row_key(#[trigger] rows@[j]) == key2 by {
                            if key2 == key {
                                assert(row_key(rows@[last]) == key2);
                            } else {
                                if key2.1 == is_comment {
                                    assert(!in_group(*g, k as int, cutoff, key2));
                                }
                                assert(group_size(*g, cutoff, key2, scanned(key2, kp, kc)) > 0);
                                let j = choose|j: int| 0 <= j < before.len() && row_key(#[trigger] before[j]) == key2;
                                assert(row_key(rows@[j]) == key2);
                            }
                        }
                        assert forall|j: int| 0 <= j < rows@.len() implies {
                            let key2 = row_key(#[trigger] rows@[j]);
                            &&& rows@[j].3 as int == group_size(*g, cutoff, key2, scanned(key2, kp1, kc1))
                            &&& rows@[j].3 > 0
                            &&& rows@[j].4 as int == group_length(*g, cutoff, key2, scanned(key2, kp1, kc1))
                        } by {
                            if j < last {
                                let key2 = row_key(before[j]);
                                assert(key2 != key);
                                if key2.1 == is_comment {
                                    assert(!in_group(*g, k as int, cutoff, key2));
                                }
                            }
                        }
                        assert forall|a: int, b: int| 0 <= a < b < rows@.len() implies row_key(
                            #[trigger] rows@[a],
                        ) != row_key(#[trigger] rows@[b]) by {
                            if b < last {
                                assert(row_key(before[a]) != row_key(before[b]));
                            }
                        }
                    }
                },
            }
        } else {
            proof {
                assert forall|other: (i64, bool, u8)| other.1 == is_comment implies !in_group(*g, k as int, cutoff, other) by {}
                assert forall|key2: (i64, bool, u8)|
                    #[trigger] group_size(*g, cutoff, key2, scanned(key2, kp1, kc1)) > 0 implies exists|j: int|
                        0 <= j < rows@.len() && row_key(#[trigger] rows@[j]) == key2 by {
                    assert(group_size(*g, cutoff, key2, scanned(key2, kp, kc)) > 0);
                }
                assert forall|j: int| 0 <= j < rows@.len() implies {
                    let key2 = row_key(#[trigger] rows@[j]);
                    &&& rows@[j].3 as int == group_size(*g, cutoff, key2, scanned(key2, kp1, kc1))
                    &&& rows@[j].3 > 0
                    &&& rows@[j].4 as int == group_length(*g, cutoff, key2, scanned(key2, kp1, kc1))
                } by {}
            }
        }
        k = k + 1;
    }
}

proof fn lemma_empty_group(g: PropGraph, cutoff: i64, key: (i64, bool, u8), k: int)
    requires
        0 <= k,
        group_size(g, cutoff, key, k) == 0,
    ensures
        group_length(g, cutoff, key, k) == 0,
    decreases k,
{
    if k > 0 {
        lemma_empty_group(g, cutoff, key, k - 1);
    }
}

proof fn lemma_group_size_bound(g: PropGraph, cutoff: i64, key: (i64, bool, u8), k: int)
    requires
        0 <= k,
    ensures
        group_size(g, cutoff, key, k) <= k,
    decreases k,
{
    if k > 0 {
        lemma_group_size_bound(g, cutoff, key, k - 1);
    }
}

/// BI Q1: the messages created before day `cutoff_day`, grouped by
/// `(year, is comment, length class)` over the messages with content, one row
/// `(year, is comment, length class, messages, summed length)` per group,
/// year descending, posts before comments, length class ascending; with the
/// number of all messages created before the cutoff (a node labelled both
/// post and comment counts once as each).
pub fn q1_posting_summary(g: &PropGraph, cutoff_day: i64) -> (r: (Vec<(i64, bool, u8, u64, i64)>, u64))
    requires
        g.labels@.len() <= u32::MAX,
        length_magnitude(*g, cutoff_day, g.labels@.len() as int) <= i64::MAX,
    ensures
        r.1 == count_posted(*g, false, cutoff_day, g.labels@.len() as int) + count_posted(
            *g,
            true,
            cutoff_day,
            g.labels@.len() as int,
        ),
        posting_summary(*g, cutoff_day, r.0@),
{
    let n = g.labels.len();
    let mut total: u64 = 0;
    let mut rows: Vec<(i64, bool, u8, u64, i64)> = Vec::new();
    proof {
        lemma_count_posted_bound(*g, false, cutoff_day, n as int);
        assert forall|key: (i64, bool, u8)| #[trigger] group_size(*g, cutoff_day, key, scanned(key, 0, 0)) == 0 by {}
    }
    scan_kind(g, cutoff_day, false, &mut rows, &mut total);
    scan_kind(g, cutoff_day, true, &mut rows, &mut total);
    let ghost groups = rows@;
    let sorted = sort_ranked(rows);
    proof {
        lemma_summary_sorted(*g, cutoff_day, groups, sorted@);
    }
    (sorted, total)
}

/// Sorting the finished groups gives the posting summary.
proof fn lemma_summary_sorted(
    g: PropGraph,
    cutoff: i64,
    groups: Seq<(i64, bool, u8, u64, i64)>,
    rows: Seq<(i64, bool, u8, u64, i64)>,
)
    requires
        groups_so_far(g, cutoff, groups, g.labels@.len() as int, g.labels@.len() as int),
        rows == groups.sort_by(rank_rel::<(i64, bool, u8, u64, i64)>()),
    ensures
        posting_summary(g, cutoff, rows),
{
    let n = g.labels@.len() as int;
    let rel = rank_rel::<(i64, bool, u8, u64, i64)>();
    <(i64, bool, u8, u64, i64) as RankOrder>::lemma_rank_total();
    assert(rel == |a: (i64, bool, u8, u64, i64), b: (i64, bool, u8, u64, i64)| a.ranks_le(b));
    groups.lemma_sort_by_ensures(rel);
    broadcast use vstd::seq_lib::to_multiset_contains;
    assert forall|key: (i64, bool, u8)| scanned(key, n, n) == n by {}
    assert(groups.no_duplicates()) by {
        assert forall|i: int, j: int| 0 <= i < groups.len() && 0 <= j < groups.len() && i != j implies groups[i]
            != groups[j] by {
            if i < j {
                assert(row_key(groups[i]) != row_key(groups[j]));
            } else {
                assert(row_key(groups[j]) != row_key(groups[i]));
            }
        }
    }
    groups.lemma_multiset_has_no_duplicates();
    rows.lemma_multiset_has_no_duplicates_conv();
    assert forall|i: int| 0 <= i < rows.len() implies {
        let key = row_key(#[trigger] rows[i]);
        &&& rows[i].3 as int == group_size(g, cutoff, key, n)
        &&& rows[i].3 > 0
        &&& rows[i].4 as int == group_length(g, cutoff, key, n)
    } by {
        assert(rows.contains(rows[i]));
        assert(rows.to_multiset().count(rows[i]) > 0);
        assert(groups.contains(rows[i]));
        let j = choose|j: int| 0 <= j < groups.len() && groups[j] == rows[i];
        assert(row_key(groups[j]) == row_key(rows[i]));
        assert(scanned(row_key(groups[j]), n, n) == n);
    }
    assert forall|key: (i64, bool, u8)| #[trigger] group_size(g, cutoff, key, n) > 0 implies exists|i: int|
        0 <= i < rows.len() && row_key(#[trigger] rows[i]) == key by {
        assert(scanned(key, n, n) == n);
        assert(group_size(g, cutoff, key, scanned(key, n, n)) > 0);
        let j = choose|j: int| 0 <= j < groups.len() && row_key(#[trigger] groups[j]) == key;
        assert(groups.contains(groups[j]));
        assert(groups.to_multiset().count(groups[j]) > 0);
        assert(rows.contains(groups[j]));
        let i = choose|i: int| 0 <= i < rows.len() && rows[i] == groups[j];
        assert(row_key(rows[i]) == key);
    }
}

/// Q1 summary rows: a later year comes first, and a row comes no later than another only with a year no earlier.
pub proof fn law_summary_rows_newest_year_first(a: (i64, bool, u8, u64, i64), b: (i64, bool, u8, u64, i64))
    ensures
        a.0 > b.0 ==> a.ranks_le(b),
        a.ranks_le(b) ==> a.0 >= b.0,
{
}

/// Q1's length categories: below 40, from 40 below 80, from 80 below 160,
/// and 160 or more; a longer message never falls in a lower category.
pub proof fn law_q1_length_classes(len: i64, other: i64)
    ensures
        len < 40 ==> length_class(len) == 0,
        40 <= len < 80 ==> length_class(len) == 1,
        80 <= len < 160 ==> length_class(len) == 2,
        160 <= len ==> length_class(len) == 3,
        len <= other ==> length_class(len) <= length_class(other),
{
}

} // verus!
