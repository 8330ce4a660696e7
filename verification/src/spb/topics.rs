//! The topics that works tag: the targets of their `about` and `mentions`
//! relationships (the sub-properties of `tag`), and of direct `tag`
//! relationships where a query reads those too, each topic once per work.
use vstd::prelude::*;
use crate::rdfgraph::PropGraph;
use crate::spb::access::{id_count, id_limit, out_lists, targets};

verus! {

/// Node `t` is a topic of work `w`.
pub open spec fn topic_of(g: PropGraph, w: int, t: u32, with_tag: bool) -> bool {
    targets(g, w, "about"@).contains(t) || targets(g, w, "mentions"@).contains(t) || (with_tag && targets(
        g,
        w,
        "tag"@,
    ).contains(t))
}

/// How many of the works below node id `i` that `from` admits have `t` as a
/// topic.
pub open spec fn topic_count(g: PropGraph, from: Seq<bool>, t: u32, with_tag: bool, i: int) -> nat
    decreases i,
{
    if i <= 0 {
        0
    } else {
        topic_count(g, from, t, with_tag, i - 1) + if i - 1 < from.len() && from[i - 1] && topic_of(
            g,
            i - 1,
            t,
            with_tag,
        ) {
            1nat
        } else {
            0nat
        }
    }
}

proof fn lemma_topic_count_bound(g: PropGraph, from: Seq<bool>, t: u32, with_tag: bool, i: int)
    requires
        i >= 0,
    ensures
        topic_count(g, from, t, with_tag, i) <= i,
    decreases i,
{
    if i > 0 {
        lemma_topic_count_bound(g, from, t, with_tag, i - 1);
    }
}

proof fn lemma_contains_concat(a: Seq<u32>, b: Seq<u32>, t: u32)
    ensures
        (a + b).contains(t) == (a.contains(t) || b.contains(t)),
{
    if (a + b).contains(t) {
        let q = choose|q: int| 0 <= q < (a + b).len() && (a + b)[q] == t;
        if q < a.len() {
            assert(a[q] == t);
        } else {
            assert(b[q - a.len()] == t);
        }
    }
    if a.contains(t) {
        let q = choose|q: int| 0 <= q < a.len() && a[q] == t;
        assert((a + b)[q] == t);
    }
    if b.contains(t) {
        let q = choose|q: int| 0 <= q < b.len() && b[q] == t;
        assert((a + b)[a.len() + q] == t);
    }
}

/// The topics of work `w`, listed with repeats.
pub(crate) fn topic_list(
    about: &Vec<Vec<u32>>,
    mentions: &Vec<Vec<u32>>,
    tags: &Vec<Vec<u32>>,
    w: usize,
    with_tag: bool,
    Ghost(g): Ghost<PropGraph>,
) -> (r: Vec<u32>)
    requires
        w < about@.len(),
        w < mentions@.len(),
        w < tags@.len(),
        about@[w as int]@ == targets(g, w as int, "about"@),
        mentions@[w as int]@ == targets(g, w as int, "mentions"@),
        tags@[w as int]@ == targets(g, w as int, "tag"@),
    ensures
        forall|t: u32| #[trigger] r@.contains(t) == topic_of(g, w as int, t, with_tag),
{
    let mut list: Vec<u32> = Vec::new();
    let mut j: usize = 0;
    while j < about[w].len()
        invariant
            w < about@.len(),
            j <= about@[w as int]@.len(),
            list@ == about@[w as int]@.take(j as int),
        decreases about@[w as int]@.len() - j,
    {
        list.push(about[w][j]);
        proof {
            assert(about@[w as int]@.take(j + 1) =~= about@[w as int]@.take(j as int).push(about@[w as int]@[j as int]));
        }
        j = j + 1;
    }
    let ghost first = list@;
    j = 0;
    while j < mentions[w].len()
        invariant
            w < mentions@.len(),
            j <= mentions@[w as int]@.len(),
            list@ == first + mentions@[w as int]@.take(j as int),
        decreases mentions@[w as int]@.len() - j,
    {
        list.push(mentions[w][j]);
        proof {
            assert(mentions@[w as int]@.take(j + 1) =~= mentions@[w as int]@.take(j as int).push(
                mentions@[w as int]@[j as int],
            ));
            assert(first + mentions@[w as int]@.take(j + 1) =~= (first + mentions@[w as int]@.take(j as int)).push(
                mentions@[w as int]@[j as int],
            ));
        }
        j = j + 1;
    }
    let ghost second = list@;
    if with_tag {
        j = 0;
        while j < tags[w].len()
            invariant
                w < tags@.len(),
                j <= tags@[w as int]@.len(),
                list@ == second + tags@[w as int]@.take(j as int),
            decreases tags@[w as int]@.len() - j,
        {
            list.push(tags[w][j]);
            proof {
                assert(tags@[w as int]@.take(j + 1) =~= tags@[w as int]@.take(j as int).push(tags@[w as int]@[j as int]));
                assert(second + tags@[w as int]@.take(j + 1) =~= (second + tags@[w as int]@.take(j as int)).push(
                    tags@[w as int]@[j as int],
                ));
            }
            j = j + 1;
        }
    }
    proof {
        let a = about@[w as int]@;
        let m = mentions@[w as int]@;
        let tg = tags@[w as int]@;
        assert(a.take(a.len() as int) =~= a);
        assert(m.take(m.len() as int) =~= m);
        assert(tg.take(tg.len() as int) =~= tg);
        assert forall|t: u32| #[trigger] list@.contains(t) == topic_of(g, w as int, t, with_tag) by {
            lemma_contains_concat(a, m, t);
            if with_tag {
                lemma_contains_concat(a + m, tg, t);
            }
        }
    }
    list
}

/// For every node id, how many of the works that `from` admits have it as a
/// topic (each work counted once however many relationships reach the topic).
pub fn count_topics(g: &PropGraph, from: &Vec<bool>, with_tag: bool) -> (r: Vec<usize>)
    ensures
        r@.len() == id_limit(*g),
        forall|t: int| 0 <= t < r@.len() ==> #[trigger] r@[t] == topic_count(*g, from@, t as u32, with_tag, id_limit(*g)),
{
    let lim = id_count(g);
    let about = out_lists(g, "about");
    let mentions = out_lists(g, "mentions");
    let tags = out_lists(g, "tag");
    let mut counts: Vec<usize> = Vec::new();
    let mut stamps: Vec<usize> = Vec::new();
    while counts.len() < lim
        invariant
            counts@.len() == stamps@.len(),
            counts@.len() <= lim,
            forall|t: int| 0 <= t < counts@.len() ==> #[trigger] counts@[t] == 0,
            forall|t: int| 0 <= t < stamps@.len() ==> #[trigger] stamps@[t] == 0,
        decreases lim - counts.len(),
    {
        counts.push(0);
        stamps.push(0);
    }
    let mut i: usize = 0;
    while i < lim
        invariant
            lim == id_limit(*g),
            about@.len() == lim,
            mentions@.len() == lim,
            tags@.len() == lim,
            forall|w: int| 0 <= w < lim ==> #[trigger] about@[w]@ == targets(*g, w, "about"@),
            forall|w: int| 0 <= w < lim ==> #[trigger] mentions@[w]@ == targets(*g, w, "mentions"@),
            forall|w: int| 0 <= w < lim ==> #[trigger] tags@[w]@ == targets(*g, w, "tag"@),
            counts@.len() == lim,
            stamps@.len() == lim,
            i <= lim,
            forall|t: int| 0 <= t < lim ==> #[trigger] counts@[t] == topic_count(*g, from@, t as u32, with_tag, i as int),
            forall|t: int| 0 <= t < lim ==> #[trigger] stamps@[t] <= i,
        decreases lim - i,
    {
        if i < from.len() && from[i] {
            let list = topic_list(&about, &mentions, &tags, i, with_tag, Ghost(*g));
            let mut j: usize = 0;
            while j < list.len()
                invariant
                    lim == id_limit(*g),
                    i < lim,
                    i < from@.len() && from@[i as int],
                    counts@.len() == lim,
                    stamps@.len() == lim,
                    j <= list@.len(),
                    forall|t: int| 0 <= t < lim ==> #[trigger] stamps@[t] <= i + 1,
                    forall|t: int| 0 <= t < lim ==> (#[trigger] stamps@[t] == i + 1) == list@.take(j as int).contains(t as u32),
                    forall|t: int|
                        0 <= t < lim ==> #[trigger] counts@[t] == topic_count(*g, from@, t as u32, with_tag, i as int) + if stamps@[t]
                            == i + 1 {
                            1nat
                        } else {
                            0nat
                        },
                decreases list.len() - j,
            {
                let t = list[j] as usize;
                if t < lim && stamps[t] != i + 1 {
                    proof {
                        lemma_topic_count_bound(*g, from@, t as u32, with_tag, i as int);
                    }
                    stamps.set(t, i + 1);
                    counts.set(t, counts[t] + 1);
                }
                proof {
                    assert forall|q: int| 0 <= q < lim implies (#[trigger] stamps@[q] == i + 1) == list@.take(j + 1).contains(
                        q as u32,
                    ) by {
                        assert(list@.take(j + 1) =~= list@.take(j as int).push(list@[j as int]));
                        lemma_contains_concat(list@.take(j as int), seq![list@[j as int]], q as u32);
                        assert(list@.take(j as int).push(list@[j as int]) =~= list@.take(j as int) + seq![list@[j as int]]);
                        if q == t {
                            assert(seq![list@[j as int]][0] == q as u32);
                        }
                        if seq![list@[j as int]].contains(q as u32) {
                            assert((q as u32) as int == q);
                        }
                    }
                }
                j = j + 1;
            }
            proof {
                assert(list@.take(j as int) =~= list@);
                assert forall|t: int| 0 <= t < lim implies #[trigger] counts@[t] == topic_count(
                    *g,
                    from@,
                    t as u32,
                    with_tag,
                    i + 1,
                ) by {
                    assert(list@.contains(t as u32) == topic_of(*g, i as int, t as u32, with_tag));
                }
            }
        }
        i = i + 1;
    }
    counts
}

} // verus!
