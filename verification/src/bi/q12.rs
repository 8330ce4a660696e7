//! BI Q12, how many persons have a given number of messages: per person,
//! the short recent messages with content whose thread's root post is in
//! one of some languages; then persons by that number.
use vstd::prelude::*;
use vstd::relations::sorted_by;
use crate::bi::lookup::{lemma_sources_within, rels_within};
use crate::bi::patterns::{count_marked, count_true};
use crate::bi::q1::message_label;
use crate::bi::q4::{first_target, first_target_of};
use crate::bi::q5::{lemma_occurrences_grow, occurrences};
use crate::rdfgraph::PropGraph;
use crate::rdfload::same_text;
use crate::ranking::{rank_rel, sort_ranked, RankOrder};
use crate::spb::access::{has_label, int_prop_of, int_value, labelled, sources, sources_of, text_prop, text_prop_of, true_prop, true_prop_of};

verus! {

/// The root of the reply chain of `n`: following the first `replyOf`
/// relationship while there is one, at most `fuel` times.
pub open spec fn reply_root(g: PropGraph, n: int, fuel: int) -> int
    decreases fuel,
{
    if fuel <= 0 {
        n
    } else {
        match first_target(g, n, "replyOf"@) {
            Some(p) => reply_root(g, p as int, fuel - 1),
            None => n,
        }
    }
}

/// Text `l` is one of `langs`.
pub open spec fn lang_listed(langs: Seq<&str>, l: Seq<char>) -> bool {
    exists|i: int| 0 <= i < langs.len() && #[trigger] langs[i]@ == l
}

/// Message `m` of the kind counts: created after `min_day`, with content,
/// shorter than `len_thr`, and the root of its thread has a listed `lang`.
pub open spec fn counted_message(g: PropGraph, m: int, is_comment: bool, min_day: i64, len_thr: i64, langs: Seq<&str>) -> bool {
    &&& labelled(g, m, message_label(is_comment))
    &&& int_value(g, m, "day"@) > min_day
    &&& true_prop(g, m, "content"@)
    &&& int_value(g, m, "len"@) < len_thr
    &&& match text_prop(g, reply_root(g, m, g.labels@.len() as int), "lang"@) {
        Some(l) => lang_listed(langs, l),
        None => false,
    }
}

/// How often `p` created message `m` of the kind, when it counts.
pub open spec fn counted_for(g: PropGraph, m: int, is_comment: bool, min_day: i64, len_thr: i64, langs: Seq<&str>, p: int) -> nat {
    if counted_message(g, m, is_comment, min_day, len_thr, langs) {
        let c = sources(g, m, "hasCreator"@);
        occurrences(c, p, c.len() as int)
    } else {
        0
    }
}

/// The counted messages among the nodes below `k` created by `p`, posts and
/// comments alike (one per `hasCreator` relationship).
pub open spec fn person_messages(g: PropGraph, p: int, min_day: i64, len_thr: i64, langs: Seq<&str>, k: int) -> nat
    decreases k,
{
    if k <= 0 {
        0
    } else {
        person_messages(g, p, min_day, len_thr, langs, k - 1) + counted_for(g, k - 1, false, min_day, len_thr, langs, p)
            + counted_for(g, k - 1, true, min_day, len_thr, langs, p)
    }
}

/// The counted messages of `p`.
pub open spec fn messages_of_person(g: PropGraph, p: int, min_day: i64, len_thr: i64, langs: Seq<&str>) -> nat {
    person_messages(g, p, min_day, len_thr, langs, g.labels@.len() as int)
}

/// The nodes below `k` with exactly `c` counted messages.
pub open spec fn with_count(g: PropGraph, c: int, min_day: i64, len_thr: i64, langs: Seq<&str>, k: int) -> nat {
    count_marked(|p: int| messages_of_person(g, p, min_day, len_thr, langs) == c, k)
}

/// The persons without counted messages: the nodes labelled `Person` less
/// the nodes with a counted message, 0 at least.
pub open spec fn zero_bucket(g: PropGraph, min_day: i64, len_thr: i64, langs: Seq<&str>) -> int {
    let n = g.labels@.len() as int;
    let persons = count_marked(|p: int| labelled(g, p, "Person"@), n);
    let active = count_marked(|p: int| messages_of_person(g, p, min_day, len_thr, langs) > 0, n);
    if persons >= active {
        persons - active
    } else {
        0
    }
}

/// `rows` is the histogram: `(messages, persons)` for each positive number
/// of messages some node has, and `(0, zero bucket)`; no repeats; most
/// persons first, then most messages.
pub open spec fn message_histogram(g: PropGraph, min_day: i64, len_thr: i64, langs: Seq<&str>, rows: Seq<(u64, u64)>) -> bool {
    let n = g.labels@.len() as int;
    &&& rows.no_duplicates()
    &&& sorted_by(rows, rank_rel::<(u64, u64)>())
    &&& forall|i: int|
        0 <= i < rows.len() ==> {
            let r = #[trigger] rows[i];
            if r.0 == 0 {
                r.1 as int == zero_bucket(g, min_day, len_thr, langs)
            } else {
                r.1 as int == with_count(g, r.0 as int, min_day, len_thr, langs, n) && r.1 > 0
            }
        }
    &&& exists|i: int| 0 <= i < rows.len() && (#[trigger] rows[i]).0 == 0
    &&& forall|c: u64|
        c > 0 && #[trigger] with_count(g, c as int, min_day, len_thr, langs, n) > 0 ==> exists|i: int|
            0 <= i < rows.len() && (#[trigger] rows[i]).0 == c
}

impl RankOrder for (u64, u64) {
    /// A `(messages, persons)` row: most persons first, then most messages.
    open spec fn ranks_le(self, other: Self) -> bool {
        self.1 > other.1 || (self.1 == other.1 && self.0 >= other.0)
    }

    proof fn lemma_rank_total() {
    }

    fn comes_no_later(&self, other: &Self) -> (r: bool) {
        self.1 > other.1 || (self.1 == other.1 && self.0 >= other.0)
    }
}

/// The root of the reply chain of `n`, following at most `fuel` replies.
fn root_of(g: &PropGraph, n: u32, fuel: usize) -> (r: u32)
    ensures
        r as int == reply_root(*g, n as int, fuel as int),
{
    let mut cur = n;
    let mut left = fuel;
    while left > 0
        invariant
            reply_root(*g, n as int, fuel as int) == reply_root(*g, cur as int, left as int),
        decreases left,
    {
        match first_target_of(g, cur, "replyOf") {
            Some(p) => {
                cur = p;
                left = left - 1;
            },
            None => {
                return cur;
            },
        }
    }
    cur
}

/// Whether `l` is one of `langs`.
fn listed(langs: &[&str], l: &str) -> (r: bool)
    ensures
        r == lang_listed(langs@, l@),
{
    let mut i: usize = 0;
    while i < langs.len()
        invariant
            i <= langs@.len(),
            forall|q: int| 0 <= q < i ==> (#[trigger] langs@[q])@ != l@,
        decreases langs.len() - i,
    {
        if same_text(langs[i], l) {
            return true;
        }
        i = i + 1;
    }
    false
}

/// Whether message `m` of the kind counts.
fn counts_message(g: &PropGraph, m: u32, is_comment: bool, min_day: i64, len_thr: i64, langs: &[&str]) -> (r: bool)
    requires
        g.labels@.len() <= u32::MAX,
    ensures
        r == counted_message(*g, m as int, is_comment, min_day, len_thr, langs@),
{
    proof {
        reveal_strlit("Post");
        reveal_strlit("Comment");
        reveal_strlit("lang");
    }
    let label = if is_comment {
        "Comment"
    } else {
        "Post"
    };
    if !(has_label(g, m, label) && int_prop_of(g, m, "day") > min_day && true_prop_of(g, m, "content") && int_prop_of(
        g,
        m,
        "len",
    ) < len_thr) {
        return false;
    }
    let root = root_of(g, m, g.labels.len());
    match text_prop_of(g, root, "lang") {
        Some(l) => listed(langs, l),
        None => false,
    }
}

/// The counted messages of every person, by node id.
fn per_person(g: &PropGraph, min_day: i64, len_thr: i64, langs: &[&str]) -> (r: Vec<u64>)
    requires
        g.labels@.len() <= u32::MAX,
        rels_within(*g),
        forall|p: int| 0 <= p < g.labels@.len() ==> #[trigger] messages_of_person(*g, p, min_day, len_thr, langs@) <= u64::MAX,
    ensures
        r@.len() == g.labels@.len(),
        forall|p: int| 0 <= p < r@.len() ==> #[trigger] r@[p] as int == messages_of_person(*g, p, min_day, len_thr, langs@),
{
    let n = g.labels.len();
    let mut counts: Vec<u64> = Vec::new();
    while counts.len() < n
        invariant
            counts@.len() <= n,
            forall|p: int| 0 <= p < counts@.len() ==> #[trigger] counts@[p] == 0,
        decreases n - counts.len(),
    {
        counts.push(0);
    }
    let mut m: usize = 0;
    while m < n
        invariant
            n == g.labels@.len(),
            n <= u32::MAX,
            rels_within(*g),
            forall|p: int| 0 <= p < n ==> #[trigger] messages_of_person(*g, p, min_day, len_thr, langs@) <= u64::MAX,
            counts@.len() == n,
            m <= n,
            forall|p: int| 0 <= p < n ==> #[trigger] counts@[p] as int == person_messages(*g, p, min_day, len_thr, langs@, m as int),
        decreases n - m,
    {
        let creators = sources_of(g, m as u32, "hasCreator");
        proof {
            lemma_sources_within(*g, m as int, "hasCreator"@, g.rels@.len() as int);
        }
        let ghost base = counts@;
        let mut pass: usize = 0;
        while pass < 2
            invariant
                n == g.labels@.len(),
                n <= u32::MAX,
                forall|p: int| 0 <= p < n ==> #[trigger] messages_of_person(*g, p, min_day, len_thr, langs@) <= u64::MAX,
                m < n,
                creators@ == sources(*g, m as int, "hasCreator"@),
                forall|q: int| 0 <= q < creators@.len() ==> (#[trigger] creators@[q] as int) < n,
                base.len() == n,
                forall|p: int| 0 <= p < n ==> #[trigger] base[p] as int == person_messages(*g, p, min_day, len_thr, langs@, m as int),
                counts@.len() == n,
                pass <= 2,
                forall|p: int|
                    0 <= p < n ==> #[trigger] counts@[p] as int == base[p] + (if pass >= 1 {
                        counted_for(*g, m as int, false, min_day, len_thr, langs@, p) as int
                    } else {
                        0int
                    }) + (if pass >= 2 {
                        counted_for(*g, m as int, true, min_day, len_thr, langs@, p) as int
                    } else {
                        0int
                    }),
            decreases 2 - pass,
        {
            let is_comment = pass == 1;
            if counts_message(g, m as u32, is_comment, min_day, len_thr, langs) {
                let ghost at_pass = counts@;
                let mut j: usize = 0;
                while j < creators.len()
                    invariant
                        n == g.labels@.len(),
                        n <= u32::MAX,
                        forall|p: int| 0 <= p < n ==> #[trigger] messages_of_person(*g, p, min_day, len_thr, langs@) <= u64::MAX,
                        m < n,
                        creators@ == sources(*g, m as int, "hasCreator"@),
                        forall|q: int| 0 <= q < creators@.len() ==> (#[trigger] creators@[q] as int) < n,
                        base.len() == n,
                        forall|p: int| 0 <= p < n ==> #[trigger] base[p] as int == person_messages(*g, p, min_day, len_thr, langs@, m as int),
                        counted_message(*g, m as int, is_comment, min_day, len_thr, langs@),
                        is_comment == (pass == 1),
                        pass < 2,
                        at_pass.len() == n,
                        forall|p: int|
                            0 <= p < n ==> #[trigger] at_pass[p] as int == base[p] + (if pass >= 1 {
                                counted_for(*g, m as int, false, min_day, len_thr, langs@, p) as int
                            } else {
                                0int
                            }),
                        counts@.len() == n,
                        j <= creators@.len(),
                        forall|p: int| 0 <= p < n ==> #[trigger] counts@[p] as int == at_pass[p] + occurrences(creators@, p, j as int),
                    decreases creators.len() - j,
                {
                    let p = creators[j] as usize;
                    proof {
                        lemma_occurrences_grow(creators@, p as int, j + 1, creators@.len() as int);
                        lemma_person_grows(*g, p as int, min_day, len_thr, langs@, m + 1, n as int);
                        assert(messages_of_person(*g, p as int, min_day, len_thr, langs@) <= u64::MAX);
                    }
                    let bumped = counts[p] + 1;
                    counts.set(p, bumped);
                    proof {
                        assert forall|q: int| 0 <= q < n && q != p implies occurrences(creators@, q, j + 1) == occurrences(
                            creators@,
                            q,
                            j as int,
                        ) by {}
                    }
                    j = j + 1;
                }
            }
            pass = pass + 1;
        }
        m = m + 1;
    }
    counts
}

proof fn lemma_person_grows(g: PropGraph, p: int, min_day: i64, len_thr: i64, langs: Seq<&str>, k: int, m: int)
    requires
        0 <= k <= m,
    ensures
        person_messages(g, p, min_day, len_thr, langs, k) <= person_messages(g, p, min_day, len_thr, langs, m),
    decreases m - k,
{
    if k < m {
        lemma_person_grows(g, p, min_day, len_thr, langs, k, m - 1);
    }
}

/// Counting by two predicates that agree below `k` gives the same count.
proof fn lemma_count_same(f: spec_fn(int) -> bool, h: spec_fn(int) -> bool, k: int)
    requires
        forall|p: int| 0 <= p < k ==> #[trigger] f(p) == h(p),
    ensures
        count_marked(f, k) == count_marked(h, k),
    decreases k,
{
    if k > 0 {
        lemma_count_same(f, h, k - 1);
    }
}

/// The nodes below `q` whose count in `per` is `c`.
pub open spec fn nodes_with(per: Seq<u64>, c: u64, q: int) -> nat {
    count_marked(|p: int| per[p] == c, q)
}

/// `rows` tally the counts `per` of the nodes below `q`: one `(count,
/// nodes)` row per positive count some node has.
pub open spec fn tallied(per: Seq<u64>, rows: Seq<(u64, u64)>, q: int) -> bool {
    &&& forall|a: int, b: int| 0 <= a < b < rows.len() ==> (#[trigger] rows[a]).0 != (#[trigger] rows[b]).0
    &&& forall|i: int|
        0 <= i < rows.len() ==> (#[trigger] rows[i]).0 > 0 && rows[i].1 as int == count_marked(
            |p: int| per[p] == rows[i].0,
            q,
        ) && rows[i].1 > 0
    &&& forall|c: u64| c > 0 && #[trigger] nodes_with(per, c, q) > 0 ==> exists|i: int| 0 <= i < rows.len() && (#[trigger] rows[i]).0 == c
}

/// Tally the positive counts of `per`.
fn tally_counts(per: &Vec<u64>) -> (rows: Vec<(u64, u64)>)
    requires
        per@.len() <= u32::MAX,
    ensures
        tallied(per@, rows@, per@.len() as int),
{
    let mut rows: Vec<(u64, u64)> = Vec::new();
    let mut q: usize = 0;
    while q < per.len()
        invariant
            per@.len() <= u32::MAX,
            q <= per@.len(),
            tallied(per@, rows@, q as int),
            forall|i: int| 0 <= i < rows@.len() ==> (#[trigger] rows@[i]).1 <= q,
        decreases per.len() - q,
    {
        let c = per[q];
        let ghost before = rows@;
        proof {
            assert forall|d: u64| #[trigger] nodes_with(per@, d, q + 1) == nodes_with(per@, d, q as int)
                + if per@[q as int] == d {
                1nat
            } else {
                0nat
            } by {}
        }
        if c > 0 {
            let mut found: Option<usize> = None;
            let mut i: usize = 0;
            while i < rows.len()
                invariant
                    i <= rows@.len(),
                    found matches Some(k) ==> k < rows@.len() && rows@[k as int].0 == c,
                    found is None ==> forall|k: int| 0 <= k < i ==> (#[trigger] rows@[k]).0 != c,
                decreases rows.len() - i,
            {
                if found.is_none() && rows[i].0 == c {
                    found = Some(i);
                }
                i = i + 1;
            }
            match found {
                Some(k) => {
                    let bumped = rows[k].1 + 1;
                    rows.set(k, (c, bumped));
                    proof {
                        assert forall|a: int, b: int| 0 <= a < b < rows@.len() implies (#[trigger] rows@[a]).0 != (#[trigger] rows@[b]).0 by {
                            assert(before[a].0 != before[b].0);
                        }
                        assert forall|j: int| 0 <= j < rows@.len() implies (#[trigger] rows@[j]).0 > 0 && rows@[j].1 as int
                            == nodes_with(per@, rows@[j].0, q + 1) && rows@[j].1 > 0 by {
                            if j != k {
                                assert(before[j].0 != c);
                            }
                        }
                        assert forall|d: u64| d > 0 && #[trigger] nodes_with(per@, d, q + 1) > 0 implies exists|j: int|
                            0 <= j < rows@.len() && (#[trigger] rows@[j]).0 == d by {
                            if d == c {
                                assert(rows@[k as int].0 == d);
                            } else {
                                assert(nodes_with(per@, d, q as int) > 0);
                                let j = choose|j: int| 0 <= j < before.len() && (#[trigger] before[j]).0 == d;
                                assert(rows@[j].0 == d);
                            }
                        }
                    }
                },
                None => {
                    proof {
                        if nodes_with(per@, c, q as int) > 0 {
                            let j = choose|j: int| 0 <= j < before.len() && (#[trigger] before[j]).0 == c;
                            assert(before[j].0 != c);
                        }
                    }
                    rows.push((c, 1));
                    proof {
                        let last = before.len() as int;
                        assert forall|a: int, b: int| 0 <= a < b < rows@.len() implies (#[trigger] rows@[a]).0 != (#[trigger] rows@[b]).0 by {
                            if b < last {
                                assert(before[a].0 != before[b].0);
                            } else {
                                assert(before[a].0 != c);
                            }
                        }
                        assert forall|j: int| 0 <= j < rows@.len() implies (#[trigger] rows@[j]).0 > 0 && rows@[j].1 as int
                            == nodes_with(per@, rows@[j].0, q + 1) && rows@[j].1 > 0 by {
                            if j < last {
                                assert(before[j].0 != c);
                            }
                        }
                        assert forall|d: u64| d > 0 && #[trigger] nodes_with(per@, d, q + 1) > 0 implies exists|j: int|
                            0 <= j < rows@.len() && (#[trigger] rows@[j]).0 == d by {
                            if d == c {
                                assert(rows@[last].0 == d);
                            } else {
                                assert(nodes_with(per@, d, q as int) > 0);
                                let j = choose|j: int| 0 <= j < before.len() && (#[trigger] before[j]).0 == d;
                                assert(rows@[j].0 == d);
                            }
                        }
                    }
                },
            }
        } else {
            proof {
                assert forall|j: int| 0 <= j < rows@.len() implies (#[trigger] rows@[j]).0 > 0 && rows@[j].1 as int
                    == nodes_with(per@, rows@[j].0, q + 1) && rows@[j].1 > 0 by {}
                assert forall|d: u64| d > 0 && #[trigger] nodes_with(per@, d, q + 1) > 0 implies exists|j: int|
                    0 <= j < rows@.len() && (#[trigger] rows@[j]).0 == d by {
                    assert(nodes_with(per@, d, q as int) > 0);
                }
            }
        }
        q = q + 1;
    }
    rows
}

/// Sorting the tallied rows and the zero row gives the histogram.
proof fn lemma_histogram(
    g: PropGraph,
    min_day: i64,
    len_thr: i64,
    langs: Seq<&str>,
    per: Seq<u64>,
    tally: Seq<(u64, u64)>,
    zero: u64,
    rows: Seq<(u64, u64)>,
)
    requires
        per.len() == g.labels@.len(),
        forall|p: int| 0 <= p < per.len() ==> #[trigger] per[p] as int == messages_of_person(g, p, min_day, len_thr, langs),
        tallied(per, tally, per.len() as int),
        zero as int == zero_bucket(g, min_day, len_thr, langs),
        rows == tally.push((0u64, zero)).sort_by(rank_rel::<(u64, u64)>()),
    ensures
        message_histogram(g, min_day, len_thr, langs, rows),
{
    let n = g.labels@.len() as int;
    let all = tally.push((0u64, zero));
    let rel = rank_rel::<(u64, u64)>();
    <(u64, u64) as RankOrder>::lemma_rank_total();
    assert(rel == |a: (u64, u64), b: (u64, u64)| a.ranks_le(b));
    all.lemma_sort_by_ensures(rel);
    broadcast use vstd::seq_lib::to_multiset_contains;
    assert forall|c: u64| #[trigger] nodes_with(per, c, n) == with_count(g, c as int, min_day, len_thr, langs, n) by {
        lemma_count_same(|p: int| per[p] == c, |p: int| messages_of_person(g, p, min_day, len_thr, langs) == c as int, n);
    }
    let last = tally.len() as int;
    assert(all.no_duplicates()) by {
        assert forall|i: int, j: int| 0 <= i < all.len() && 0 <= j < all.len() && i != j implies all[i] != all[j] by {
            if i < last && j < last {
                if i < j {
                    assert(tally[i].0 != tally[j].0);
                } else {
                    assert(tally[j].0 != tally[i].0);
                }
            } else if i < last {
                assert(tally[i].0 > 0);
            } else {
                assert(tally[j].0 > 0);
            }
        }
    }
    all.lemma_multiset_has_no_duplicates();
    rows.lemma_multiset_has_no_duplicates_conv();
    assert forall|i: int| 0 <= i < rows.len() implies {
        let r = #[trigger] rows[i];
        if r.0 == 0 {
            r.1 as int == zero_bucket(g, min_day, len_thr, langs)
        } else {
            r.1 as int == with_count(g, r.0 as int, min_day, len_thr, langs, n) && r.1 > 0
        }
    } by {
        assert(rows.contains(rows[i]));
        assert(rows.to_multiset().count(rows[i]) > 0);
        assert(all.contains(rows[i]));
        let j = choose|j: int| 0 <= j < all.len() && all[j] == rows[i];
        if j < last {
            assert(tally[j].0 > 0);
            assert(nodes_with(per, tally[j].0, n) == with_count(g, tally[j].0 as int, min_day, len_thr, langs, n));
        }
    }
    assert(all[last] == (0u64, zero));
    assert(all.contains((0u64, zero)));
    assert(all.to_multiset().count((0u64, zero)) > 0);
    assert(rows.contains((0u64, zero)));
    let z = choose|i: int| 0 <= i < rows.len() && rows[i] == (0u64, zero);
    assert(rows[z].0 == 0);
    assert forall|c: u64| c > 0 && #[trigger] with_count(g, c as int, min_day, len_thr, langs, n) > 0 implies exists|i: int|
        0 <= i < rows.len() && (#[trigger] rows[i]).0 == c by {
        assert(nodes_with(per, c, n) > 0);
        let j = choose|j: int| 0 <= j < tally.len() && (#[trigger] tally[j]).0 == c;
        assert(all[j] == tally[j]);
        assert(all.contains(tally[j]));
        assert(all.to_multiset().count(tally[j]) > 0);
        assert(rows.contains(tally[j]));
        let i = choose|i: int| 0 <= i < rows.len() && rows[i] == tally[j];
        assert(rows[i].0 == c);
    }
}

/// BI Q12: for every node, the messages (posts and comments, one per
/// `hasCreator` relationship of a node to it) created after `min_day`, with
/// content, shorter than `len_thr`, whose thread's root (reached by
/// following the first `replyOf` relationship while there is one, at most
/// once per node) has a `lang` among `langs`; then `(messages, nodes)` for
/// each positive number of messages, and `(0, persons without a message)`;
/// most nodes first, then most messages.
pub fn q12_message_counts(g: &PropGraph, min_day: i64, len_thr: i64, langs: &[&str]) -> (r: Vec<(u64, u64)>)
    requires
        g.labels@.len() <= u32::MAX,
        rels_within(*g),
        forall|p: int| 0 <= p < g.labels@.len() ==> #[trigger] messages_of_person(*g, p, min_day, len_thr, langs@) <= u64::MAX,
    ensures
        message_histogram(*g, min_day, len_thr, langs@, r@),
{
    let n = g.labels.len();
    let per = per_person(g, min_day, len_thr, langs);
    let tally = tally_counts(&per);
    let mut persons: Vec<bool> = Vec::new();
    let mut active: Vec<bool> = Vec::new();
    while persons.len() < n
        invariant
            n == g.labels@.len(),
            n <= u32::MAX,
            per@.len() == n,
            forall|p: int| 0 <= p < n ==> #[trigger] per@[p] as int == messages_of_person(*g, p, min_day, len_thr, langs@),
            persons@.len() <= n,
            active@.len() == persons@.len(),
            forall|p: int| 0 <= p < persons@.len() ==> #[trigger] persons@[p] == labelled(*g, p, "Person"@),
            forall|p: int| 0 <= p < active@.len() ==> #[trigger] active@[p] == (messages_of_person(*g, p, min_day, len_thr, langs@) > 0),
        decreases n - persons.len(),
    {
        proof {
            reveal_strlit("Person");
        }
        let p = persons.len();
        persons.push(has_label(g, p as u32, "Person"));
        active.push(per[p] > 0);
    }
    let ghost is_person = |p: int| labelled(*g, p, "Person"@);
    let ghost is_active = |p: int| messages_of_person(*g, p, min_day, len_thr, langs@) > 0;
    let np = count_true(&persons, Ghost(is_person));
    let na = count_true(&active, Ghost(is_active));
    proof {
        lemma_count_marked_bound(is_person, n as int);
    }
    let zero: u64 = if np >= na {
        (np - na) as u64
    } else {
        0
    };
    let mut rows = tally;
    let ghost tallied_rows = rows@;
    rows.push((0, zero));
    proof {
        assert(rows@ == tallied_rows.push((0u64, zero)));
    }
    let sorted = sort_ranked(rows);
    proof {
        lemma_histogram(*g, min_day, len_thr, langs@, per@, tallied_rows, zero, sorted@);
    }
    sorted
}

proof fn lemma_count_marked_bound(marked: spec_fn(int) -> bool, k: int)
    requires
        0 <= k,
    ensures
        count_marked(marked, k) <= k,
    decreases k,
{
    if k > 0 {
        lemma_count_marked_bound(marked, k - 1);
    }
}

/// Q12 histogram rows: more persons come first, and a row comes no later than another only with no fewer persons.
pub proof fn law_histogram_most_persons_first(a: (u64, u64), b: (u64, u64))
    ensures
        a.1 > b.1 ==> a.ranks_le(b),
        a.ranks_le(b) ==> a.1 >= b.1,
{
}

} // verus!
