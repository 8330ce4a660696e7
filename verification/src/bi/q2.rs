//! BI Q2, tag evolution: for the tags of a tag class, how often messages
//! used each in two consecutive 100-day windows.
use vstd::prelude::*;
use crate::bi::lookup::{linked_to, named_node, node_named, related};
use crate::rdfgraph::{text_copy, PropGraph};
use crate::ranking::{lemma_sorted_take, sort_and_take, take_upto, view_rel, views, ViewOrder};
use crate::rdfload::same_text;
use crate::spb::access::{has_label, int_prop_of, int_value, labelled, text_prop, text_prop_of};

verus! {

/// Node `s` is labelled `l` and was created on a day in `[lo, hi)`.
pub open spec fn dated_in(g: PropGraph, s: int, l: Seq<char>, lo: int, hi: int) -> bool {
    labelled(g, s, l) && lo <= int_value(g, s, "day"@) < hi
}

/// The uses of tag `t` by the `hasTag` relationships below `k` from messages
/// created in `[lo, hi)`: once for a post and once for a comment.
pub open spec fn tag_uses(g: PropGraph, t: int, lo: int, hi: int, k: int) -> nat
    decreases k,
{
    if k <= 0 {
        0
    } else {
        tag_uses(g, t, lo, hi, k - 1) + if g.rels@[k - 1].1 == t && g.rels@[k - 1].2@ == "hasTag"@ {
            (if dated_in(g, g.rels@[k - 1].0 as int, "Post"@, lo, hi) {
                1nat
            } else {
                0nat
            }) + (if dated_in(g, g.rels@[k - 1].0 as int, "Comment"@, lo, hi) {
                1nat
            } else {
                0nat
            })
        } else {
            0nat
        }
    }
}

/// The uses of tag `t` in `[lo, hi)` over all relationships.
pub open spec fn tag_use_count(g: PropGraph, t: int, lo: int, hi: int) -> nat {
    tag_uses(g, t, lo, hi, g.rels@.len() as int)
}

/// The `name` of node `n`, empty when it has none.
pub open spec fn name_or_empty(g: PropGraph, n: int) -> Seq<char> {
    match text_prop(g, n, "name"@) {
        Some(s) => s,
        None => Seq::empty(),
    }
}

/// `|a - b|`.
pub open spec fn gap(a: int, b: int) -> int {
    if a >= b {
        a - b
    } else {
        b - a
    }
}

/// Node `t` is a tag of class `c`.
pub open spec fn tag_of_class(g: PropGraph, t: int, c: int) -> bool {
    labelled(g, t, "Tag"@) && related(g, t, c, "hasType"@)
}

/// The `(name, uses in the first window, uses in the second, difference)`
/// rows of the tags of class `c` below node id `k`, by id.
pub open spec fn evolution_rows(g: PropGraph, c: int, day0: int, k: int) -> Seq<(Seq<char>, u64, u64, u64)>
    decreases k,
{
    if k <= 0 {
        Seq::empty()
    } else if tag_of_class(g, k - 1, c) {
        let n1 = tag_use_count(g, k - 1, day0, day0 + 100) as int;
        let n2 = tag_use_count(g, k - 1, day0 + 100, day0 + 200) as int;
        evolution_rows(g, c, day0, k - 1).push((name_or_empty(g, k - 1), n1 as u64, n2 as u64, gap(n1, n2) as u64))
    } else {
        evolution_rows(g, c, day0, k - 1)
    }
}

/// The answer of Q2: the tags of the class named `class_name` with their
/// uses in the two windows from `day0`, largest difference first, then by
/// name, the first 100; nothing when no tag class has that name.
pub open spec fn tag_evolution(g: PropGraph, day0: int, class_name: Seq<char>) -> Seq<(Seq<char>, u64, u64, u64)> {
    match named_node(g, "TagClass"@, class_name) {
        Some(c) => take_upto(
            evolution_rows(g, c as int, day0, g.labels@.len() as int).sort_by(view_rel::<(String, u64, u64, u64)>()),
            100,
        ),
        None => Seq::empty(),
    }
}

proof fn lemma_tag_uses_bound(g: PropGraph, t: int, lo: int, hi: int, k: int)
    requires
        0 <= k,
    ensures
        tag_uses(g, t, lo, hi, k) <= 2 * k,
    decreases k,
{
    if k > 0 {
        lemma_tag_uses_bound(g, t, lo, hi, k - 1);
    }
}

/// Whether a node with these labels and creation day counts once or twice:
/// once per message label it carries.
fn window_weight(g: &PropGraph, s: u32, lo: i64, hi: i64) -> (r: u64)
    ensures
        r == (if dated_in(*g, s as int, "Post"@, lo as int, hi as int) {
            1int
        } else {
            0int
        }) + (if dated_in(*g, s as int, "Comment"@, lo as int, hi as int) {
            1int
        } else {
            0int
        }),
{
    let day = int_prop_of(g, s, "day");
    if !(lo <= day && day < hi) {
        return 0;
    }
    let mut w: u64 = 0;
    if has_label(g, s, "Post") {
        w = w + 1;
    }
    if has_label(g, s, "Comment") {
        w = w + 1;
    }
    w
}

/// The uses of every tag in the window `[lo, hi)`, by node id.
fn count_uses(g: &PropGraph, lo: i64, hi: i64) -> (r: Vec<u64>)
    requires
        g.labels@.len() <= u32::MAX,
        g.rels@.len() <= u32::MAX,
    ensures
        r@.len() == g.labels@.len(),
        forall|t: int| 0 <= t < r@.len() ==> #[trigger] r@[t] as int == tag_use_count(*g, t, lo as int, hi as int),
{
    let n = g.labels.len();
    let mut counts: Vec<u64> = Vec::new();
    while counts.len() < n
        invariant
            counts@.len() <= n,
            forall|t: int| 0 <= t < counts@.len() ==> #[trigger] counts@[t] == 0,
        decreases n - counts.len(),
    {
        counts.push(0);
    }
    let mut k: usize = 0;
    while k < g.rels.len()
        invariant
            n == g.labels@.len(),
            g.rels@.len() <= u32::MAX,
            counts@.len() == n,
            k <= g.rels@.len(),
            forall|t: int| 0 <= t < n ==> #[trigger] counts@[t] as int == tag_uses(*g, t, lo as int, hi as int, k as int),
        decreases g.rels.len() - k,
    {
        let s = g.rels[k].0;
        let t = g.rels[k].1;
        proof {
            reveal_strlit("hasTag");
        }
        if (t as usize) < n && same_text(g.rels[k].2.as_str(), "hasTag") {
            let w = window_weight(g, s, lo, hi);
            proof {
                lemma_tag_uses_bound(*g, t as int, lo as int, hi as int, k + 1);
            }
            let c = counts[t as usize] + w;
            counts.set(t as usize, c);
        }
        proof {
            reveal_strlit("Post");
            reveal_strlit("Comment");
        }
        k = k + 1;
    }
    counts
}

/// BI Q2: for the tags of the tag class named `class_name` (the one with
/// the smallest id among several), the uses of each by messages created in
/// the 100 days from `date0_day` and in the 100 days after those, with the
/// difference, as `(tag name, first, second, difference)`; largest
/// difference first, then by name, the first 100.
pub fn q2_tag_evolution(g: &PropGraph, date0_day: i64, class_name: &str) -> (r: Vec<(String, u64, u64, u64)>)
    requires
        g.labels@.len() <= u32::MAX,
        g.rels@.len() <= u32::MAX,
        date0_day + 200 <= i64::MAX,
    ensures
        views(r@) == tag_evolution(*g, date0_day as int, class_name@),
{
    let target = match node_named(g, "TagClass", class_name) {
        Some(c) => c,
        None => return Vec::new(),
    };
    let n = g.labels.len();
    let of_class = linked_to(g, "hasType", target);
    let first = count_uses(g, date0_day, date0_day + 100);
    let second = count_uses(g, date0_day + 100, date0_day + 200);
    let mut rows: Vec<(String, u64, u64, u64)> = Vec::new();
    let mut t: usize = 0;
    while t < n
        invariant
            n == g.labels@.len(),
            n <= u32::MAX,
            g.rels@.len() <= u32::MAX,
            (target as int) < n,
            of_class@.len() == n,
            forall|w: int| 0 <= w < n ==> #[trigger] of_class@[w] == related(*g, w, target as int, "hasType"@),
            first@.len() == n,
            second@.len() == n,
            forall|w: int|
                0 <= w < n ==> #[trigger] first@[w] as int == tag_use_count(
                    *g,
                    w,
                    date0_day as int,
                    date0_day + 100,
                ),
            forall|w: int|
                0 <= w < n ==> #[trigger] second@[w] as int == tag_use_count(
                    *g,
                    w,
                    date0_day + 100,
                    date0_day + 200,
                ),
            t <= n,
            views(rows@) == evolution_rows(*g, target as int, date0_day as int, t as int),
        decreases n - t,
    {
        if of_class[t] && has_label(g, t as u32, "Tag") {
            let name = match text_prop_of(g, t as u32, "name") {
                Some(v) => text_copy(v),
                None => String::new(),
            };
            let a = first[t];
            let b = second[t];
            let d = if a >= b {
                a - b
            } else {
                b - a
            };
            let ghost before = views(rows@);
            rows.push((name, a, b, d));
            proof {
                reveal_strlit("Tag");
                reveal_strlit("name");
                assert(tag_of_class(*g, t as int, target as int));
                assert(views(rows@) =~= before.push((name_or_empty(*g, t as int), a, b, d)));
            }
        } else {
            proof {
                reveal_strlit("Tag");
            }
        }
        t = t + 1;
    }
    let out = sort_and_take(rows, 100);
    proof {
        reveal_strlit("TagClass");
    }
    out
}

/// `d` is the distance between `a` and `b`.
pub open spec fn is_distance(a: u64, b: u64, d: u64) -> bool {
    d + if a <= b { a } else { b } == if a <= b { b } else { a }
}

proof fn lemma_rows_distance(g: PropGraph, c: int, day0: int, k: int)
    requires
        g.rels@.len() <= u32::MAX,
    ensures
        forall|i: int|
            0 <= i < evolution_rows(g, c, day0, k).len() ==> #[trigger] is_distance(
                evolution_rows(g, c, day0, k)[i].1,
                evolution_rows(g, c, day0, k)[i].2,
                evolution_rows(g, c, day0, k)[i].3,
            ),
    decreases k,
{
    if k > 0 {
        lemma_rows_distance(g, c, day0, k - 1);
        lemma_tag_uses_bound(g, k - 1, day0, day0 + 100, g.rels@.len() as int);
        lemma_tag_uses_bound(g, k - 1, day0 + 100, day0 + 200, g.rels@.len() as int);
        let prev = evolution_rows(g, c, day0, k - 1);
        let rows = evolution_rows(g, c, day0, k);
        if tag_of_class(g, k - 1, c) {
            let n1 = tag_use_count(g, k - 1, day0, day0 + 100) as int;
            let n2 = tag_use_count(g, k - 1, day0 + 100, day0 + 200) as int;
            assert(rows == prev.push((name_or_empty(g, k - 1), n1 as u64, n2 as u64, gap(n1, n2) as u64)));
            assert forall|i: int| 0 <= i < rows.len() implies #[trigger] is_distance(rows[i].1, rows[i].2, rows[i].3) by {
                if i < prev.len() {
                    assert(rows[i] == prev[i]);
                    assert(is_distance(prev[i].1, prev[i].2, prev[i].3));
                }
            }
        }
    }
}

/// Q2 reports each tag's two window counts and the distance between them,
/// largest distance first: every row's difference is the distance between
/// its counts, the differences never grow down the answer, and a tag of the
/// class left out has no larger difference than any tag in it.
pub proof fn law_q2_largest_difference_first(g: PropGraph, day0: int, class_name: Seq<char>)
    requires
        g.rels@.len() <= u32::MAX,
    ensures
        forall|i: int|
            0 <= i < tag_evolution(g, day0, class_name).len() ==> #[trigger] is_distance(
                tag_evolution(g, day0, class_name)[i].1,
                tag_evolution(g, day0, class_name)[i].2,
                tag_evolution(g, day0, class_name)[i].3,
            ),
        forall|i: int, j: int|
            0 <= i < j < tag_evolution(g, day0, class_name).len() ==> (#[trigger] tag_evolution(g, day0, class_name)[i]).3
                >= (#[trigger] tag_evolution(g, day0, class_name)[j]).3,
        named_node(g, "TagClass"@, class_name) matches Some(c) ==> forall|x: (Seq<char>, u64, u64, u64), i: int|
            #![trigger evolution_rows(g, c as int, day0, g.labels@.len() as int).contains(x), tag_evolution(g, day0, class_name)[i]]
            evolution_rows(g, c as int, day0, g.labels@.len() as int).contains(x) && !tag_evolution(g, day0, class_name).contains(x)
                && 0 <= i < tag_evolution(g, day0, class_name).len() ==> x.3 <= tag_evolution(g, day0, class_name)[i].3,
{
    match named_node(g, "TagClass"@, class_name) {
        Some(c) => {
            let rows = evolution_rows(g, c as int, day0, g.labels@.len() as int);
            let r = view_rel::<(String, u64, u64, u64)>();
            <(String, u64, u64, u64)>::lemma_view_total();
            assert(r == |a: (Seq<char>, u64, u64, u64), b: (Seq<char>, u64, u64, u64)| <(String, u64, u64, u64)>::view_le(a, b));
            lemma_sorted_take(rows, r, 100);
            lemma_rows_distance(g, c as int, day0, g.labels@.len() as int);
            let t = rows.sort_by(r);
            let k = take_upto(t, 100);
            assert(k == tag_evolution(g, day0, class_name));
            assert forall|i: int| 0 <= i < k.len() implies #[trigger] is_distance(k[i].1, k[i].2, k[i].3) by {
                assert(k.contains(k[i]));
                let q = choose|q: int| 0 <= q < rows.len() && rows[q] == k[i];
                assert(is_distance(rows[q].1, rows[q].2, rows[q].3));
            }
            assert forall|i: int, j: int| 0 <= i < j < k.len() implies (#[trigger] k[i]).3 >= (#[trigger] k[j]).3 by {
                assert(k[i] == t[i] && k[j] == t[j]);
                assert(r(t[i], t[j]));
            }
            assert forall|x: (Seq<char>, u64, u64, u64), i: int|
                #![trigger rows.contains(x), k[i]]
                rows.contains(x) && !k.contains(x) && 0 <= i < k.len() implies x.3 <= k[i].3 by {
                assert(r(k[i], x));
            }
        },
        None => {},
    }
}

} // verus!
