//! BI Q7, related topics: the other tags of the comments that reply to
//! messages carrying a given tag without carrying it themselves.
use vstd::prelude::*;
use crate::bi::lookup::{
    lemma_related_targets, lemma_targets_within, linked_to, named_node, node_named, related, rel_is, rels_within,
};
use crate::bi::q2::name_or_empty;
use crate::rdfgraph::{text_copy, PropGraph};
use crate::ranking::{sort_and_take, take_upto, view_rel, views};
use crate::spb::access::{targets, targets_of, text_prop_of};
use crate::spb::tally::{links_to_marked, marks_linked_to, rel_to_marked};

verus! {

/// Comment `c` replies to a message tagged `t` and is not tagged `t` itself.
pub open spec fn related_comment(g: PropGraph, t: int, c: int) -> bool {
    &&& exists|m: int| #[trigger] related(g, c, m, "replyOf"@) && related(g, m, t, "hasTag"@)
    &&& !related(g, c, t, "hasTag"@)
}

/// How many of the comments below `k` related to tag `t` carry tag `rt`.
pub open spec fn related_count(g: PropGraph, t: int, rt: int, k: int) -> nat
    decreases k,
{
    if k <= 0 {
        0
    } else {
        related_count(g, t, rt, k - 1) + if related_comment(g, t, k - 1) && related(g, k - 1, rt, "hasTag"@) {
            1nat
        } else {
            0nat
        }
    }
}

/// The `(name, comments)` rows of the tags below `k` carried by a comment
/// related to tag `t`, by id.
pub open spec fn related_rows(g: PropGraph, t: int, k: int) -> Seq<(Seq<char>, usize)>
    decreases k,
{
    if k <= 0 {
        Seq::empty()
    } else {
        let n = related_count(g, t, k - 1, g.labels@.len() as int);
        if n > 0 {
            related_rows(g, t, k - 1).push((name_or_empty(g, k - 1), n as usize))
        } else {
            related_rows(g, t, k - 1)
        }
    }
}

/// The answer of Q7: the related tags of the tag named `tag_name`, most
/// comments first, then by name, the first 100; nothing when no tag has
/// that name.
pub open spec fn related_topics(g: PropGraph, tag_name: Seq<char>) -> Seq<(Seq<char>, usize)> {
    match named_node(g, "Tag"@, tag_name) {
        Some(t) => take_upto(
            related_rows(g, t as int, g.labels@.len() as int).sort_by(view_rel::<(String, usize)>()),
            100,
        ),
        None => Seq::empty(),
    }
}

proof fn lemma_related_count_bound(g: PropGraph, t: int, rt: int, k: int)
    requires
        0 <= k,
    ensures
        related_count(g, t, rt, k) <= k,
    decreases k,
{
    if k > 0 {
        lemma_related_count_bound(g, t, rt, k - 1);
    }
}

/// Whether `x` occurs among the first `j` items of `v`.
pub(crate) fn occurs_before(v: &Vec<u32>, j: usize, x: u32) -> (r: bool)
    requires
        j <= v@.len(),
    ensures
        r == v@.take(j as int).contains(x),
{
    let mut i: usize = 0;
    while i < j
        invariant
            j <= v@.len(),
            i <= j,
            forall|q: int| 0 <= q < i ==> v@[q] != x,
        decreases j - i,
    {
        if v[i] == x {
            proof {
                assert(v@.take(j as int)[i as int] == x);
            }
            return true;
        }
        i = i + 1;
    }
    proof {
        assert forall|q: int| 0 <= q < j implies v@.take(j as int)[q] != x by {}
    }
    false
}

/// For every node id, whether it is a comment related to tag `t`.
fn related_comments(g: &PropGraph, t: u32) -> (r: Vec<bool>)
    requires
        g.labels@.len() <= u32::MAX,
        rels_within(*g),
        (t as int) < g.labels@.len(),
    ensures
        r@.len() == g.labels@.len(),
        forall|c: int| 0 <= c < r@.len() ==> #[trigger] r@[c] == related_comment(*g, t as int, c),
{
    let n = g.labels.len();
    let tagged = linked_to(g, "hasTag", t);
    let replies = marks_linked_to(g, "replyOf", &tagged);
    let mut out: Vec<bool> = Vec::new();
    let mut c: usize = 0;
    while c < n
        invariant
            n == g.labels@.len(),
            n <= u32::MAX,
            rels_within(*g),
            tagged@.len() == n,
            forall|w: int| 0 <= w < n ==> #[trigger] tagged@[w] == related(*g, w, t as int, "hasTag"@),
            replies@.len() == n,
            forall|w: int| 0 <= w < n ==> #[trigger] replies@[w] == links_to_marked(*g, w, "replyOf"@, tagged@),
            c <= n,
            out@.len() == c,
            forall|w: int| 0 <= w < c ==> #[trigger] out@[w] == related_comment(*g, t as int, w),
        decreases n - c,
    {
        let v = replies[c] && !tagged[c];
        proof {
            let w = c as int;
            if links_to_marked(*g, w, "replyOf"@, tagged@) {
                let k = choose|k: int| #[trigger] rel_to_marked(*g, k, w, "replyOf"@, tagged@);
                let m = g.rels@[k].1 as int;
                assert(rel_is(*g, k, w, m, "replyOf"@));
                assert(related(*g, w, m, "replyOf"@) && related(*g, m, t as int, "hasTag"@));
            }
            if exists|m: int| #[trigger] related(*g, w, m, "replyOf"@) && related(*g, m, t as int, "hasTag"@) {
                let m = choose|m: int| #[trigger] related(*g, w, m, "replyOf"@) && related(*g, m, t as int, "hasTag"@);
                let k = choose|k: int| #[trigger] rel_is(*g, k, w, m, "replyOf"@);
                assert(m < n);
                assert(rel_to_marked(*g, k, w, "replyOf"@, tagged@));
            }
        }
        out.push(v);
        c = c + 1;
    }
    out
}

/// BI Q7: for the tag named `tag_name` (the smallest id among several), the
/// comments replying to a message with that tag that do not carry it
/// themselves; for every other tag such comments carry, the number of
/// distinct comments, as `(tag name, comments)`, most first, then by name,
/// the first 100.
pub fn q7_related_topics(g: &PropGraph, tag_name: &str) -> (r: Vec<(String, usize)>)
    requires
        g.labels@.len() <= u32::MAX,
        rels_within(*g),
    ensures
        views(r@) == related_topics(*g, tag_name@),
{
    proof {
        reveal_strlit("Tag");
    }
    let target = match node_named(g, "Tag", tag_name) {
        Some(t) => t,
        None => return Vec::new(),
    };
    let n = g.labels.len();
    let chosen = related_comments(g, target);
    let mut counts: Vec<usize> = Vec::new();
    while counts.len() < n
        invariant
            counts@.len() <= n,
            forall|w: int| 0 <= w < counts@.len() ==> #[trigger] counts@[w] == 0,
        decreases n - counts.len(),
    {
        counts.push(0);
    }
    let mut c: usize = 0;
    while c < n
        invariant
            n == g.labels@.len(),
            n <= u32::MAX,
            rels_within(*g),
            (target as int) < n,
            chosen@.len() == n,
            forall|w: int| 0 <= w < n ==> #[trigger] chosen@[w] == related_comment(*g, target as int, w),
            counts@.len() == n,
            c <= n,
            forall|rt: int| 0 <= rt < n ==> #[trigger] counts@[rt] as int == related_count(*g, target as int, rt, c as int),
        decreases n - c,
    {
        if chosen[c] {
            let tags = targets_of(g, c as u32, "hasTag");
            proof {
                lemma_targets_within(*g, c as int, "hasTag"@, g.rels@.len() as int);
            }
            let mut j: usize = 0;
            while j < tags.len()
                invariant
                    n == g.labels@.len(),
                    n <= u32::MAX,
                    c < n,
                    chosen@.len() == n,
                    chosen@[c as int] == related_comment(*g, target as int, c as int),
                    chosen@[c as int],
                    tags@ == targets(*g, c as int, "hasTag"@),
                    forall|q: int| 0 <= q < tags@.len() ==> (#[trigger] tags@[q] as int) < n,
                    counts@.len() == n,
                    j <= tags@.len(),
                    forall|rt: int|
                        0 <= rt < n ==> #[trigger] counts@[rt] as int == related_count(*g, target as int, rt, c as int)
                            + if tags@.take(j as int).contains(rt as u32) {
                            1int
                        } else {
                            0int
                        },
                decreases tags.len() - j,
            {
                let rt = tags[j];
                let seen = occurs_before(&tags, j, rt);
                proof {
                    assert forall|x: u32| #[trigger] tags@.take(j + 1).contains(x) == (tags@.take(j as int).contains(x)
                        || x == rt) by {
                        assert(tags@.take(j + 1) =~= tags@.take(j as int).push(rt));
                        if x == rt {
                            assert(tags@.take(j + 1)[j as int] == rt);
                        }
                    }
                }
                if !seen {
                    proof {
                        lemma_related_count_bound(*g, target as int, rt as int, c as int);
                    }
                    let bumped = counts[rt as usize] + 1;
                    counts.set(rt as usize, bumped);
                }
                proof {
                    assert forall|x: int| 0 <= x < n implies #[trigger] counts@[x] as int == related_count(
                        *g,
                        target as int,
                        x,
                        c as int,
                    ) + if tags@.take(j + 1).contains(x as u32) {
                        1int
                    } else {
                        0int
                    } by {
                        assert(tags@.take(j + 1).contains(x as u32) == (tags@.take(j as int).contains(x as u32) || x
                            as u32 == rt));
                    }
                }
                j = j + 1;
            }
            proof {
                assert(tags@.take(j as int) =~= tags@);
                assert forall|rt: int| 0 <= rt < n implies #[trigger] counts@[rt] as int == related_count(
                    *g,
                    target as int,
                    rt,
                    c + 1,
                ) by {
                    lemma_related_targets(*g, c as int, "hasTag"@, rt as u32);
                }
            }
        } else {
            proof {
                assert forall|rt: int| 0 <= rt < n implies #[trigger] counts@[rt] as int == related_count(
                    *g,
                    target as int,
                    rt,
                    c + 1,
                ) by {}
            }
        }
        c = c + 1;
    }
    let mut rows: Vec<(String, usize)> = Vec::new();
    let mut rt: usize = 0;
    while rt < n
        invariant
            n == g.labels@.len(),
            n <= u32::MAX,
            counts@.len() == n,
            forall|x: int| 0 <= x < n ==> #[trigger] counts@[x] as int == related_count(*g, target as int, x, n as int),
            rt <= n,
            views(rows@) == related_rows(*g, target as int, rt as int),
        decreases n - rt,
    {
        if counts[rt] > 0 {
            let name = match text_prop_of(g, rt as u32, "name") {
                Some(v) => text_copy(v),
                None => String::new(),
            };
            let ghost before = views(rows@);
            rows.push((name, counts[rt]));
            proof {
                reveal_strlit("name");
                assert(views(rows@) =~= before.push((name_or_empty(*g, rt as int), counts@[rt as int])));
            }
        }
        rt = rt + 1;
    }
    sort_and_take(rows, 100)
}

} // verus!
