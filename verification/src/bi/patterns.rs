//! The simplified analytical patterns: how many distinct tags, tag pairs
//! and message creators the messages of the graph involve.
use vstd::prelude::*;
use crate::bi::interaction::pair_key;
use crate::bi::lookup::{lemma_targets_within, rels_within};
use crate::rdfgraph::PropGraph;
use crate::rdfload::same_text;
use crate::spb::access::{has_label, labelled, targets, targets_of};

verus! {

/// Node `m` is a post or a comment.
pub open spec fn is_message(g: PropGraph, m: int) -> bool {
    labelled(g, m, "Post"@) || labelled(g, m, "Comment"@)
}

/// Relationship `k` tags a message with `t`.
pub open spec fn tags_message(g: PropGraph, k: int, t: int) -> bool {
    &&& 0 <= k < g.rels@.len()
    &&& g.rels@[k].1 == t
    &&& g.rels@[k].2@ == "hasTag"@
    &&& is_message(g, g.rels@[k].0 as int)
}

/// Tag `t` is used by some message.
pub open spec fn used_tag(g: PropGraph, t: int) -> bool {
    exists|k: int| #[trigger] tags_message(g, k, t)
}

/// The nodes below `k` that satisfy `marked`.
pub open spec fn count_marked(marked: spec_fn(int) -> bool, k: int) -> nat
    decreases k,
{
    if k <= 0 {
        0
    } else {
        count_marked(marked, k - 1) + if marked(k - 1) {
            1nat
        } else {
            0nat
        }
    }
}

/// The number of `true` entries among the first `k` of `marks`.
pub(crate) fn count_true(marks: &Vec<bool>, marked: Ghost<spec_fn(int) -> bool>) -> (r: usize)
    requires
        forall|w: int| 0 <= w < marks@.len() ==> #[trigger] marks@[w] == marked@(w),
    ensures
        r == count_marked(marked@, marks@.len() as int),
{
    let mut count: usize = 0;
    let mut w: usize = 0;
    while w < marks.len()
        invariant
            w <= marks@.len(),
            forall|x: int| 0 <= x < marks@.len() ==> #[trigger] marks@[x] == marked@(x),
            count == count_marked(marked@, w as int),
            count <= w,
        decreases marks.len() - w,
    {
        if marks[w] {
            count = count + 1;
        }
        w = w + 1;
    }
    count
}

/// The distinct tags that posts and comments carry.
pub fn bi3_popular_topics(g: &PropGraph) -> (r: usize)
    requires
        g.labels@.len() <= u32::MAX,
        rels_within(*g),
    ensures
        r == count_marked(|t: int| used_tag(*g, t), g.labels@.len() as int),
{
    let n = g.labels.len();
    let mut marks: Vec<bool> = Vec::new();
    while marks.len() < n
        invariant
            marks@.len() <= n,
            forall|w: int| 0 <= w < marks@.len() ==> !#[trigger] marks@[w],
        decreases n - marks.len(),
    {
        marks.push(false);
    }
    let mut k: usize = 0;
    while k < g.rels.len()
        invariant
            n == g.labels@.len(),
            n <= u32::MAX,
            rels_within(*g),
            marks@.len() == n,
            k <= g.rels@.len(),
            forall|t: int| 0 <= t < n ==> (#[trigger] marks@[t] <==> exists|q: int| 0 <= q < k && #[trigger] tags_message(*g, q, t)),
        decreases g.rels.len() - k,
    {
        proof {
            reveal_strlit("hasTag");
            reveal_strlit("Post");
            reveal_strlit("Comment");
        }
        let s = g.rels[k].0;
        let t = g.rels[k].1;
        let hit = same_text(g.rels[k].2.as_str(), "hasTag") && (has_label(g, s, "Post") || has_label(g, s, "Comment"));
        proof {
            assert(hit == tags_message(*g, k as int, t as int));
            assert((t as int) < n);
        }
        if hit {
            marks.set(t as usize, true);
        }
        proof {
            assert forall|x: int| 0 <= x < n implies (#[trigger] marks@[x] <==> exists|q: int|
                0 <= q < k + 1 && #[trigger] tags_message(*g, q, x)) by {
                if tags_message(*g, k as int, x) {
                    assert(x == t as int);
                }
                if exists|q: int| 0 <= q < k + 1 && #[trigger] tags_message(*g, q, x) {
                    let q = choose|q: int| 0 <= q < k + 1 && #[trigger] tags_message(*g, q, x);
                    if q < k {
                        assert(marks@[x]);
                    }
                }
            }
        }
        k = k + 1;
    }
    let ghost marked = |t: int| used_tag(*g, t);
    proof {
        assert forall|t: int| 0 <= t < n implies #[trigger] marks@[t] == marked(t) by {
            if used_tag(*g, t) {
                let q = choose|q: int| #[trigger] tags_message(*g, q, t);
                assert(0 <= q < k);
            }
        }
    }
    count_true(&marks, Ghost(marked))
}

/// Relationship `k` runs from a person `c` into a node labelled `l`.
pub open spec fn person_into(g: PropGraph, k: int, c: int, l: Seq<char>) -> bool {
    &&& 0 <= k < g.rels@.len()
    &&& g.rels@[k].0 == c
    &&& labelled(g, c, "Person"@)
    &&& labelled(g, g.rels@[k].1 as int, l)
}

/// Person `c` has a relationship of any type into a node labelled `l`.
pub open spec fn creator_of_label(g: PropGraph, c: int, l: Seq<char>) -> bool {
    exists|k: int| #[trigger] person_into(g, k, c, l)
}

/// The distinct persons with a relationship of any type into a node
/// labelled `label` (the creators of its messages in the loaded graph).
pub fn top_creators(g: &PropGraph, label: &str) -> (r: usize)
    requires
        g.labels@.len() <= u32::MAX,
        rels_within(*g),
    ensures
        r == count_marked(|c: int| creator_of_label(*g, c, label@), g.labels@.len() as int),
{
    let n = g.labels.len();
    let mut marks: Vec<bool> = Vec::new();
    while marks.len() < n
        invariant
            marks@.len() <= n,
            forall|w: int| 0 <= w < marks@.len() ==> !#[trigger] marks@[w],
        decreases n - marks.len(),
    {
        marks.push(false);
    }
    let mut k: usize = 0;
    while k < g.rels.len()
        invariant
            n == g.labels@.len(),
            n <= u32::MAX,
            rels_within(*g),
            marks@.len() == n,
            k <= g.rels@.len(),
            forall|c: int| 0 <= c < n ==> (#[trigger] marks@[c] <==> exists|q: int| 0 <= q < k && #[trigger] person_into(*g, q, c, label@)),
        decreases g.rels.len() - k,
    {
        proof {
            reveal_strlit("Person");
        }
        let s = g.rels[k].0;
        let hit = has_label(g, s, "Person") && has_label(g, g.rels[k].1, label);
        proof {
            assert(hit == person_into(*g, k as int, s as int, label@));
            assert((s as int) < n);
        }
        if hit {
            marks.set(s as usize, true);
        }
        proof {
            assert forall|x: int| 0 <= x < n implies (#[trigger] marks@[x] <==> exists|q: int|
                0 <= q < k + 1 && #[trigger] person_into(*g, q, x, label@)) by {
                if person_into(*g, k as int, x, label@) {
                    assert(x == s as int);
                }
                if exists|q: int| 0 <= q < k + 1 && #[trigger] person_into(*g, q, x, label@) {
                    let q = choose|q: int| 0 <= q < k + 1 && #[trigger] person_into(*g, q, x, label@);
                    if q < k {
                        assert(marks@[x]);
                    }
                }
            }
        }
        k = k + 1;
    }
    let ghost marked = |c: int| creator_of_label(*g, c, label@);
    proof {
        assert forall|c: int| 0 <= c < n implies #[trigger] marks@[c] == marked(c) by {
            if creator_of_label(*g, c, label@) {
                let q = choose|q: int| #[trigger] person_into(*g, q, c, label@);
                assert(0 <= q < k);
            }
        }
    }
    count_true(&marks, Ghost(marked))
}

/// The tags `i` and `j` (in relationship order) of message `m` make the
/// pair `key`.
pub open spec fn pair_on(g: PropGraph, m: int, i: int, j: int, key: (u32, u32)) -> bool {
    let tags = targets(g, m, "hasTag"@);
    &&& is_message(g, m)
    &&& 0 <= i < j < tags.len()
    &&& pair_key(tags[i], tags[j]) == key
}

/// Some message carries the pair `(a, b)` of tags.
pub open spec fn used_pair(g: PropGraph, a: int, b: int) -> bool {
    exists|m: int, i: int, j: int| #[trigger] pair_on(g, m, i, j, (a as u32, b as u32))
}

/// The distinct tag pairs whose smaller tag is below `a`.
pub open spec fn pair_total(g: PropGraph, a: int) -> nat
    decreases a,
{
    if a <= 0 {
        0
    } else {
        pair_total(g, a - 1) + count_marked(|b: int| used_pair(g, a - 1, b), g.labels@.len() as int)
    }
}

proof fn lemma_count_marked_bound(marked: spec_fn(int) -> bool, k: int)
    requires
        0 <= k,
    ensures
        count_marked(marked, k) <= k,
    decreases k,
{
    if k > 0 {
        lemma_count_marked_bound(marked, k - 1);
    }
}

/// The marks of the tags `b` such that a message carries the pair `(a, b)`.
fn pair_marks(g: &PropGraph, a: u32) -> (r: Vec<bool>)
    requires
        g.labels@.len() <= u32::MAX,
        rels_within(*g),
    ensures
        r@.len() == g.labels@.len(),
        forall|b: int| 0 <= b < r@.len() ==> #[trigger] r@[b] == used_pair(*g, a as int, b),
{
    let n = g.labels.len();
    let mut marks: Vec<bool> = Vec::new();
    while marks.len() < n
        invariant
            marks@.len() <= n,
            forall|w: int| 0 <= w < marks@.len() ==> !#[trigger] marks@[w],
        decreases n - marks.len(),
    {
        marks.push(false);
    }
    let mut m: usize = 0;
    while m < n
        invariant
            n == g.labels@.len(),
            n <= u32::MAX,
            rels_within(*g),
            marks@.len() == n,
            m <= n,
            forall|b: int|
                0 <= b < n ==> (#[trigger] marks@[b] <==> exists|m2: int, i: int, j: int|
                    0 <= m2 < m && #[trigger] pair_on(*g, m2, i, j, (a, b as u32))),
        decreases n - m,
    {
        proof {
            reveal_strlit("Post");
            reveal_strlit("Comment");
        }
        let ghost before = marks@;
        if has_label(g, m as u32, "Post") || has_label(g, m as u32, "Comment") {
            let tags = targets_of(g, m as u32, "hasTag");
            proof {
                lemma_targets_within(*g, m as int, "hasTag"@, g.rels@.len() as int);
            }
            let mut i: usize = 0;
            while i < tags.len()
                invariant
                    n == g.labels@.len(),
                    n <= u32::MAX,
                    m < n,
                    is_message(*g, m as int),
                    tags@ == targets(*g, m as int, "hasTag"@),
                    forall|q: int| 0 <= q < tags@.len() ==> (#[trigger] tags@[q] as int) < n,
                    marks@.len() == n,
                    before.len() == n,
                    i <= tags@.len(),
                    forall|b: int|
                        0 <= b < n ==> (#[trigger] marks@[b] <==> (before[b] || exists|i2: int, j: int|
                            0 <= i2 < i && #[trigger] pair_on(*g, m as int, i2, j, (a, b as u32)))),
                decreases tags.len() - i,
            {
                let ghost at_i = marks@;
                let mut j: usize = i + 1;
                while j < tags.len()
                    invariant
                        n == g.labels@.len(),
                        n <= u32::MAX,
                        m < n,
                        is_message(*g, m as int),
                        tags@ == targets(*g, m as int, "hasTag"@),
                        forall|q: int| 0 <= q < tags@.len() ==> (#[trigger] tags@[q] as int) < n,
                        marks@.len() == n,
                        at_i.len() == n,
                        i < tags@.len(),
                        i + 1 <= j <= tags@.len(),
                        forall|b: int|
                            0 <= b < n ==> (#[trigger] marks@[b] <==> (at_i[b] || exists|j2: int|
                                i < j2 < j && #[trigger] pair_on(*g, m as int, i as int, j2, (a, b as u32)))),
                    decreases tags.len() - j,
                {
                    let x = tags[i];
                    let y = tags[j];
                    let key = if x < y {
                        (x, y)
                    } else {
                        (y, x)
                    };
                    proof {
                        assert(pair_key(x, y) == key);
                        assert(pair_on(*g, m as int, i as int, j as int, key));
                    }
                    if key.0 == a {
                        marks.set(key.1 as usize, true);
                    }
                    proof {
                        assert forall|b: int| 0 <= b < n implies (#[trigger] marks@[b] <==> (at_i[b] || exists|j2: int|
                            i < j2 < j + 1 && #[trigger] pair_on(*g, m as int, i as int, j2, (a, b as u32)))) by {
                            if pair_on(*g, m as int, i as int, j as int, (a, b as u32)) {
                                assert(key == (a, b as u32));
                            }
                            if exists|j2: int| i < j2 < j + 1 && #[trigger] pair_on(*g, m as int, i as int, j2, (a, b as u32)) {
                                let j2 = choose|j2: int| i < j2 < j + 1 && #[trigger] pair_on(*g, m as int, i as int, j2, (a, b as u32));
                                if j2 < j {
                                    assert(exists|j3: int| i < j3 < j && #[trigger] pair_on(*g, m as int, i as int, j3, (a, b as u32)));
                                }
                            }
                        }
                    }
                    j = j + 1;
                }
                proof {
                    assert forall|b: int| 0 <= b < n implies (#[trigger] marks@[b] <==> (before[b] || exists|i2: int, j2: int|
                        0 <= i2 < i + 1 && #[trigger] pair_on(*g, m as int, i2, j2, (a, b as u32)))) by {
                        if exists|i2: int, j2: int| 0 <= i2 < i + 1 && #[trigger] pair_on(*g, m as int, i2, j2, (a, b as u32)) {
                            let (i2, j2) = choose|i2: int, j2: int| 0 <= i2 < i + 1 && #[trigger] pair_on(*g, m as int, i2, j2, (a, b as u32));
                            if i2 < i {
                                assert(exists|i3: int, j3: int| 0 <= i3 < i && #[trigger] pair_on(*g, m as int, i3, j3, (a, b as u32)));
                            } else {
                                assert(i < j2 < j);
                            }
                        }
                        if exists|i2: int, j2: int| 0 <= i2 < i && #[trigger] pair_on(*g, m as int, i2, j2, (a, b as u32)) {
                            let (i2, j2) = choose|i2: int, j2: int| 0 <= i2 < i && #[trigger] pair_on(*g, m as int, i2, j2, (a, b as u32));
                            assert(0 <= i2 < i + 1);
                        }
                        if exists|j2: int| i < j2 < j && #[trigger] pair_on(*g, m as int, i as int, j2, (a, b as u32)) {
                            let j2 = choose|j2: int| i < j2 < j && #[trigger] pair_on(*g, m as int, i as int, j2, (a, b as u32));
                            assert(pair_on(*g, m as int, i as int, j2, (a, b as u32)));
                        }
                    }
                }
                i = i + 1;
            }
            proof {
                assert forall|b: int| 0 <= b < n implies (#[trigger] marks@[b] <==> exists|m2: int, i2: int, j2: int|
                    0 <= m2 < m + 1 && #[trigger] pair_on(*g, m2, i2, j2, (a, b as u32))) by {
                    if exists|m2: int, i2: int, j2: int| 0 <= m2 < m + 1 && #[trigger] pair_on(*g, m2, i2, j2, (a, b as u32)) {
                        let (m2, i2, j2) = choose|m2: int, i2: int, j2: int| 0 <= m2 < m + 1 && #[trigger] pair_on(*g, m2, i2, j2, (a, b as u32));
                        if m2 < m {
                            assert(before[b]);
                        } else {
                            assert(0 <= i2 < i);
                        }
                    }
                    if exists|i2: int, j2: int| 0 <= i2 < i && #[trigger] pair_on(*g, m as int, i2, j2, (a, b as u32)) {
                        let (i2, j2) = choose|i2: int, j2: int| 0 <= i2 < i && #[trigger] pair_on(*g, m as int, i2, j2, (a, b as u32));
                        assert(pair_on(*g, m as int, i2, j2, (a, b as u32)));
                    }
                    if before[b] {
                        let (m2, i2, j2) = choose|m2: int, i2: int, j2: int| 0 <= m2 < m && #[trigger] pair_on(*g, m2, i2, j2, (a, b as u32));
                        assert(pair_on(*g, m2, i2, j2, (a, b as u32)));
                    }
                }
            }
        } else {
            proof {
                assert forall|b: int| 0 <= b < n implies (#[trigger] marks@[b] <==> exists|m2: int, i2: int, j2: int|
                    0 <= m2 < m + 1 && #[trigger] pair_on(*g, m2, i2, j2, (a, b as u32))) by {
                    if exists|m2: int, i2: int, j2: int| 0 <= m2 < m + 1 && #[trigger] pair_on(*g, m2, i2, j2, (a, b as u32)) {
                        let (m2, i2, j2) = choose|m2: int, i2: int, j2: int| 0 <= m2 < m + 1 && #[trigger] pair_on(*g, m2, i2, j2, (a, b as u32));
                        assert(m2 != m);
                    }
                    if before[b] {
                        let (m2, i2, j2) = choose|m2: int, i2: int, j2: int| 0 <= m2 < m && #[trigger] pair_on(*g, m2, i2, j2, (a, b as u32));
                        assert(pair_on(*g, m2, i2, j2, (a, b as u32)));
                    }
                }
            }
        }
        m = m + 1;
    }
    proof {
        assert forall|b: int| 0 <= b < n implies #[trigger] marks@[b] == used_pair(*g, a as int, b) by {
            if used_pair(*g, a as int, b) {
                let (m2, i2, j2) = choose|m2: int, i2: int, j2: int| #[trigger] pair_on(*g, m2, i2, j2, (a, b as u32));
                assert(0 <= m2 < n);
            }
        }
    }
    marks
}

/// The distinct unordered pairs of tags (smaller id first; a tag twice on a
/// message makes a pair with itself) that some post or comment carries
/// together.
pub fn bi1_tag_evolution(g: &PropGraph) -> (r: usize)
    requires
        g.labels@.len() <= u32::MAX,
        g.labels@.len() * g.labels@.len() <= usize::MAX,
        rels_within(*g),
    ensures
        r == pair_total(*g, g.labels@.len() as int),
{
    let n = g.labels.len();
    let mut total: usize = 0;
    let mut a: usize = 0;
    while a < n
        invariant
            n == g.labels@.len(),
            n <= u32::MAX,
            n * n <= usize::MAX,
            rels_within(*g),
            a <= n,
            total == pair_total(*g, a as int),
            total <= a * n,
        decreases n - a,
    {
        let marks = pair_marks(g, a as u32);
        let ghost marked = |b: int| used_pair(*g, a as int, b);
        let count = count_true(&marks, Ghost(marked));
        proof {
            lemma_count_marked_bound(marked, n as int);
            assert(a * n + n == (a + 1) * n) by (nonlinear_arith);
            assert((a + 1) * n <= n * n) by (nonlinear_arith)
                requires
                    a + 1 <= n,
            ;
            assert(marked == |b: int| used_pair(*g, a as int, b));
        }
        total = total + count;
        a = a + 1;
    }
    total
}

} // verus!
