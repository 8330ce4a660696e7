//! BI Q9, top thread initiators: persons by the posts they started in a
//! period and the messages of those threads created in the period.
use vstd::prelude::*;
use crate::bi::lookup::{lemma_sources_within, rels_within};
use crate::bi::q4::{creator_of_message, first_target, first_target_of, message_creator, single_reply};
use crate::rdfgraph::PropGraph;
use crate::ranking::{lemma_sorted_take, rank_and_take, rank_rel, take_upto, RankOrder};
use crate::spb::access::{has_label, int_prop_of, int_value, labelled};

verus! {

/// Node `post` starts a thread in the period: a post created on a day in
/// `[start, end]`.
pub open spec fn thread_start(g: PropGraph, post: int, start: i64, end: i64) -> bool {
    labelled(g, post, "Post"@) && start <= int_value(g, post, "day"@) <= end
}

/// Following the first `replyOf` relationship from `n` leads to `post`
/// within `fuel` steps through messages created no later than `end` (`n`
/// itself aside).
pub open spec fn reached_in_time(g: PropGraph, n: int, post: int, end: i64, fuel: int) -> bool
    decreases fuel,
{
    if n == post {
        true
    } else if fuel <= 0 {
        false
    } else {
        match first_target(g, n, "replyOf"@) {
            Some(parent) => int_value(g, parent as int, "day"@) <= end && reached_in_time(g, parent as int, post, end, fuel - 1),
            None => false,
        }
    }
}

/// Message `n` counts toward the thread of `post`: it is reached in time
/// and created in `[start, end]`.
pub open spec fn thread_counts_message(g: PropGraph, n: int, post: int, start: i64, end: i64) -> bool {
    reached_in_time(g, n, post, end, g.labels@.len() as int) && start <= int_value(g, n, "day"@) <= end
}

/// The messages below `k` counting toward the thread of `post`.
pub open spec fn thread_size(g: PropGraph, post: int, start: i64, end: i64, k: int) -> nat
    decreases k,
{
    if k <= 0 {
        0
    } else {
        thread_size(g, post, start, end, k - 1) + if thread_counts_message(g, k - 1, post, start, end) {
            1nat
        } else {
            0nat
        }
    }
}

/// Post `post` starts a thread in the period and was created by `p`.
pub open spec fn started_by(g: PropGraph, post: int, start: i64, end: i64, p: int) -> bool {
    thread_start(g, post, start, end) && creator_of_message(g, post) == Some(p as u32)
}

/// The threads `p` started among the posts below `k`.
pub open spec fn threads_of(g: PropGraph, p: int, start: i64, end: i64, k: int) -> nat
    decreases k,
{
    if k <= 0 {
        0
    } else {
        threads_of(g, p, start, end, k - 1) + if started_by(g, k - 1, start, end, p) {
            1nat
        } else {
            0nat
        }
    }
}

/// The messages in the threads `p` started among the posts below `k`.
pub open spec fn thread_messages_of(g: PropGraph, p: int, start: i64, end: i64, k: int) -> nat
    decreases k,
{
    if k <= 0 {
        0
    } else {
        thread_messages_of(g, p, start, end, k - 1) + if started_by(g, k - 1, start, end, p) {
            thread_size(g, k - 1, start, end, g.labels@.len() as int)
        } else {
            0
        }
    }
}

/// The `(messages, LDBC id, person, threads)` keys of the persons below `k`
/// who started a thread.
pub open spec fn initiator_keys(g: PropGraph, start: i64, end: i64, k: int) -> Seq<(u64, i64, u32, u64)>
    decreases k,
{
    if k <= 0 {
        Seq::empty()
    } else {
        let n = g.labels@.len() as int;
        let p = k - 1;
        if threads_of(g, p, start, end, n) > 0 {
            initiator_keys(g, start, end, k - 1).push(
                (
                    thread_messages_of(g, p, start, end, n) as u64,
                    int_value(g, p, "plid"@),
                    p as u32,
                    threads_of(g, p, start, end, n) as u64,
                ),
            )
        } else {
            initiator_keys(g, start, end, k - 1)
        }
    }
}

/// The answer of Q9: `(person, threads, messages)`, most messages first,
/// then by LDBC id, the first 100.
pub open spec fn thread_initiators(g: PropGraph, start: i64, end: i64) -> Seq<(u32, u64, u64)> {
    take_upto(
        initiator_keys(g, start, end, g.labels@.len() as int).sort_by(rank_rel::<(u64, i64, u32, u64)>()),
        100,
    ).map_values(|k: (u64, i64, u32, u64)| (k.2, k.3, k.0))
}

impl RankOrder for (u64, i64, u32, u64) {
    /// A `(messages, LDBC id, person, threads)` key: most messages first,
    /// then LDBC id, then node id, then threads.
    open spec fn ranks_le(self, other: Self) -> bool {
        if self.0 != other.0 {
            self.0 > other.0
        } else if self.1 != other.1 {
            self.1 < other.1
        } else if self.2 != other.2 {
            self.2 < other.2
        } else {
            self.3 <= other.3
        }
    }

    proof fn lemma_rank_total() {
    }

    fn comes_no_later(&self, other: &Self) -> (r: bool) {
        if self.0 != other.0 {
            self.0 > other.0
        } else if self.1 != other.1 {
            self.1 < other.1
        } else if self.2 != other.2 {
            self.2 < other.2
        } else {
            self.3 <= other.3
        }
    }
}

/// Whether message `n` is reached from `post` in time, looking at most
/// `fuel` replies up.
fn reached(g: &PropGraph, n: u32, post: u32, end: i64, fuel: usize) -> (r: bool)
    ensures
        r == reached_in_time(*g, n as int, post as int, end, fuel as int),
{
    let mut cur = n;
    let mut left = fuel;
    while cur != post && left > 0
        invariant
            reached_in_time(*g, n as int, post as int, end, fuel as int) == reached_in_time(
                *g,
                cur as int,
                post as int,
                end,
                left as int,
            ),
        decreases left,
    {
        match first_target_of(g, cur, "replyOf") {
            Some(parent) => {
                if int_prop_of(g, parent, "day") > end {
                    return false;
                }
                cur = parent;
                left = left - 1;
            },
            None => {
                return false;
            },
        }
    }
    cur == post
}

proof fn lemma_thread_size_bound(g: PropGraph, post: int, start: i64, end: i64, k: int)
    requires
        0 <= k,
    ensures
        thread_size(g, post, start, end, k) <= k,
    decreases k,
{
    if k > 0 {
        lemma_thread_size_bound(g, post, start, end, k - 1);
    }
}

proof fn lemma_threads_bound(g: PropGraph, p: int, start: i64, end: i64, k: int)
    requires
        0 <= k <= g.labels@.len(),
    ensures
        threads_of(g, p, start, end, k) <= k,
        thread_messages_of(g, p, start, end, k) <= k * g.labels@.len(),
    decreases k,
{
    if k > 0 {
        lemma_threads_bound(g, p, start, end, k - 1);
        lemma_thread_size_bound(g, k - 1, start, end, g.labels@.len() as int);
        assert((k - 1) * g.labels@.len() + g.labels@.len() == k * g.labels@.len()) by (nonlinear_arith);
    }
}

/// BI Q9: for every person who created a post on a day in
/// `[start_day, end_day]` (a post's creator is the source of its first
/// `hasCreator` relationship), the number of such posts and the number of
/// messages in their reply threads created in the period, where a thread
/// is followed down only through messages created no later than `end_day`;
/// as `(person, threads, messages)`, most messages first, then by LDBC id,
/// the first 100.
#[verifier::spinoff_prover]
pub fn q9_thread_initiators(g: &PropGraph, start_day: i64, end_day: i64) -> (r: Vec<(u32, u64, u64)>)
    requires
        g.labels@.len() <= u32::MAX,
        rels_within(*g),
        single_reply(*g),
    ensures
        r@ == thread_initiators(*g, start_day, end_day),
{
    let n = g.labels.len();
    let mut threads: Vec<u64> = Vec::new();
    let mut msgs: Vec<u64> = Vec::new();
    while threads.len() < n
        invariant
            threads@.len() <= n,
            msgs@.len() == threads@.len(),
            forall|p: int| 0 <= p < threads@.len() ==> #[trigger] threads@[p] == 0 && msgs@[p] == 0,
        decreases n - threads.len(),
    {
        threads.push(0);
        msgs.push(0);
    }
    let mut post: usize = 0;
    while post < n
        invariant
            n == g.labels@.len(),
            n <= u32::MAX,
            rels_within(*g),
            threads@.len() == n,
            msgs@.len() == n,
            post <= n,
            forall|p: int|
                0 <= p < n ==> #[trigger] threads@[p] as int == threads_of(*g, p, start_day, end_day, post as int)
                    && msgs@[p] as int == thread_messages_of(*g, p, start_day, end_day, post as int),
        decreases n - post,
    {
        proof {
            reveal_strlit("Post");
        }
        let pd = int_prop_of(g, post as u32, "day");
        if has_label(g, post as u32, "Post") && start_day <= pd && pd <= end_day {
            match message_creator(g, post as u32) {
                Some(c) => {
                    proof {
                        lemma_sources_within(*g, post as int, "hasCreator"@, g.rels@.len() as int);
                    }
                    let mut size: u64 = 0;
                    let mut m: usize = 0;
                    while m < n
                        invariant
                            n == g.labels@.len(),
                            n <= u32::MAX,
                            post < n,
                            m <= n,
                            size as int == thread_size(*g, post as int, start_day, end_day, m as int),
                        decreases n - m,
                    {
                        proof {
                            lemma_thread_size_bound(*g, post as int, start_day, end_day, m as int);
                        }
                        let d = int_prop_of(g, m as u32, "day");
                        if start_day <= d && d <= end_day && reached(g, m as u32, post as u32, end_day, n) {
                            size = size + 1;
                        }
                        m = m + 1;
                    }
                    proof {
                        lemma_threads_bound(*g, c as int, start_day, end_day, post + 1);
                        assert((post + 1) * n <= 0xffff_ffff * 0xffff_ffffint) by (nonlinear_arith)
                            requires
                                post + 1 <= n,
                                n <= 0xffff_ffff,
                        ;
                        assert forall|p: int| 0 <= p < n && p != c as int implies !started_by(
                            *g,
                            post as int,
                            start_day,
                            end_day,
                            p,
                        ) by {}
                        assert(started_by(*g, post as int, start_day, end_day, c as int));
                    }
                    let t = threads[c as usize] + 1;
                    let s = msgs[c as usize] + size;
                    let ghost before_t = threads@;
                    let ghost before_m = msgs@;
                    threads.set(c as usize, t);
                    msgs.set(c as usize, s);
                    proof {
                        assert(threads_of(*g, c as int, start_day, end_day, post + 1) == threads_of(
                            *g,
                            c as int,
                            start_day,
                            end_day,
                            post as int,
                        ) + 1);
                        assert(thread_messages_of(*g, c as int, start_day, end_day, post + 1) == thread_messages_of(
                            *g,
                            c as int,
                            start_day,
                            end_day,
                            post as int,
                        ) + thread_size(*g, post as int, start_day, end_day, n as int));
                        assert(threads@[c as int] as int == threads_of(*g, c as int, start_day, end_day, post + 1));
                        assert(msgs@[c as int] as int == thread_messages_of(*g, c as int, start_day, end_day, post + 1));
                    }
                },
                None => {
                    proof {
                        assert forall|p: int| 0 <= p < n implies !started_by(*g, post as int, start_day, end_day, p) by {}
                    }
                },
            }
        } else {
            proof {
                assert forall|p: int| 0 <= p < n implies !started_by(*g, post as int, start_day, end_day, p) by {}
            }
        }
        proof {
            assert forall|p: int| 0 <= p < n implies #[trigger] threads@[p] as int == threads_of(
                *g,
                p,
                start_day,
                end_day,
                post + 1,
            ) && msgs@[p] as int == thread_messages_of(*g, p, start_day, end_day, post + 1) by {
                assert(threads_of(*g, p, start_day, end_day, post + 1) == threads_of(*g, p, start_day, end_day, post as int)
                    + if started_by(*g, post as int, start_day, end_day, p) {
                    1nat
                } else {
                    0nat
                });
                assert(thread_messages_of(*g, p, start_day, end_day, post + 1) == thread_messages_of(
                    *g,
                    p,
                    start_day,
                    end_day,
                    post as int,
                ) + if started_by(*g, post as int, start_day, end_day, p) {
                    thread_size(*g, post as int, start_day, end_day, n as int)
                } else {
                    0
                });
                assert(threads@[p] as int == threads_of(*g, p, start_day, end_day, post + 1));
                assert(msgs@[p] as int == thread_messages_of(*g, p, start_day, end_day, post + 1));
            }
        }
        post = post + 1;
    }
    let mut keys: Vec<(u64, i64, u32, u64)> = Vec::new();
    let mut p: usize = 0;
    while p < n
        invariant
            n == g.labels@.len(),
            n <= u32::MAX,
            threads@.len() == n,
            msgs@.len() == n,
            forall|q: int|
                0 <= q < n ==> #[trigger] threads@[q] as int == threads_of(*g, q, start_day, end_day, n as int)
                    && msgs@[q] as int == thread_messages_of(*g, q, start_day, end_day, n as int),
            p <= n,
            keys@ == initiator_keys(*g, start_day, end_day, p as int),
        decreases n - p,
    {
        if threads[p] > 0 {
            let plid = int_prop_of(g, p as u32, "plid");
            keys.push((msgs[p], plid, p as u32, threads[p]));
        }
        p = p + 1;
    }
    let best = rank_and_take(keys, 100);
    let mut out: Vec<(u32, u64, u64)> = Vec::new();
    let mut k: usize = 0;
    while k < best.len()
        invariant
            k <= best@.len(),
            out@ == best@.take(k as int).map_values(|x: (u64, i64, u32, u64)| (x.2, x.3, x.0)),
        decreases best.len() - k,
    {
        out.push((best[k].2, best[k].3, best[k].0));
        proof {
            assert(best@.take(k + 1) =~= best@.take(k as int).push(best@[k as int]));
            assert(out@ =~= best@.take(k + 1).map_values(|x: (u64, i64, u32, u64)| (x.2, x.3, x.0)));
        }
        k = k + 1;
    }
    proof {
        assert(best@.take(k as int) =~= best@);
    }
    out
}

/// Q9 ranks initiators by their thread messages: the answer never has more
/// messages after fewer, and an initiator left out of it has no more
/// messages than any person in it.
pub proof fn law_q9_most_messages_first(g: PropGraph, start: i64, end: i64)
    ensures
        forall|i: int, j: int|
            0 <= i < j < thread_initiators(g, start, end).len() ==> (#[trigger] thread_initiators(g, start, end)[i]).2
                >= (#[trigger] thread_initiators(g, start, end)[j]).2,
        forall|q: int, i: int|
            #![trigger initiator_keys(g, start, end, g.labels@.len() as int)[q], thread_initiators(g, start, end)[i]]
            0 <= q < initiator_keys(g, start, end, g.labels@.len() as int).len() && !thread_initiators(g, start, end).contains(
                (
                    initiator_keys(g, start, end, g.labels@.len() as int)[q].2,
                    initiator_keys(g, start, end, g.labels@.len() as int)[q].3,
                    initiator_keys(g, start, end, g.labels@.len() as int)[q].0,
                ),
            ) && 0 <= i < thread_initiators(g, start, end).len() ==> initiator_keys(
                g,
                start,
                end,
                g.labels@.len() as int,
            )[q].0 <= thread_initiators(g, start, end)[i].2,
{
    let keys = initiator_keys(g, start, end, g.labels@.len() as int);
    let r = rank_rel::<(u64, i64, u32, u64)>();
    <(u64, i64, u32, u64)>::lemma_rank_total();
    assert(r == |a: (u64, i64, u32, u64), b: (u64, i64, u32, u64)| a.ranks_le(b));
    lemma_sorted_take(keys, r, 100);
    let t = keys.sort_by(r);
    let k = take_upto(t, 100);
    let res = thread_initiators(g, start, end);
    assert(res == k.map_values(|x: (u64, i64, u32, u64)| (x.2, x.3, x.0)));
    assert forall|i: int, j: int| 0 <= i < j < res.len() implies (#[trigger] res[i]).2 >= (#[trigger] res[j]).2 by {
        assert(k[i] == t[i] && k[j] == t[j]);
        assert(r(t[i], t[j]));
    }
    assert forall|q: int, i: int|
        #![trigger keys[q], res[i]]
        0 <= q < keys.len() && !res.contains((keys[q].2, keys[q].3, keys[q].0)) && 0 <= i < res.len() implies keys[q].0
            <= res[i].2 by {
        assert(keys.contains(keys[q]));
        if k.contains(keys[q]) {
            let p = choose|p: int| 0 <= p < k.len() && k[p] == keys[q];
            assert(res[p] == (keys[q].2, keys[q].3, keys[q].0));
        }
        assert(r(k[i], keys[q]));
    }
}

/// Q9 keys: more messages come first, and a key comes no later than another only with no fewer messages.
pub proof fn law_initiator_keys_most_messages_first(a: (u64, i64, u32, u64), b: (u64, i64, u32, u64))
    ensures
        a.0 > b.0 ==> a.ranks_le(b),
        a.ranks_le(b) ==> a.0 >= b.0,
{
}

} // verus!
