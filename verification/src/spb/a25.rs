//! SPB advanced query 25: the entities that co-occur with a given entity in
//! creative works, by the number of distinct days on which they do.
use vstd::prelude::*;
use vstd::utf8::encode_utf8;
use crate::dates::{is_boundary, on_boundary};
use crate::rdfgraph::PropGraph;
use crate::ranking::{rank_rel, top_k_by_count, RankOrder};
use crate::spb::access::{
    filled_prop, filled_prop_of, has_label, id_count, id_limit, labelled, linked_into, node_by_uri, node_with_uri,
    out_lists, targets,
};
use crate::spb::tally::{node_count_rows, node_rows};

verus! {

/// The day of a timestamp: its first ten bytes, when they end on a
/// character boundary.
pub open spec fn day_bytes(t: Seq<char>) -> Option<Seq<u8>> {
    let b = encode_utf8(t);
    if 10 <= b.len() && on_boundary(b, 10) {
        Some(b.subrange(0, 10))
    } else {
        None
    }
}

/// The day of work `cw` when it is a creative work `about` node `a` with a
/// non-empty `dateCreated` that has a day.
pub open spec fn co_day(g: PropGraph, a: u32, cw: int) -> Option<Seq<u8>> {
    if labelled(g, cw, "CreativeWork"@) && targets(g, cw, "about"@).contains(a) {
        match filled_prop(g, cw, "dateCreated"@) {
            Some(t) => day_bytes(t),
            None => None,
        }
    } else {
        None
    }
}

/// The days on which `who` co-occurs with `a` in the works below node id `i`:
/// the day of each such work that is also `about` `who`, for `who` other than `a`.
pub open spec fn shared_days(g: PropGraph, a: u32, who: int, i: int) -> Set<Seq<u8>>
    decreases i,
{
    if i <= 0 {
        Set::empty()
    } else {
        let before = shared_days(g, a, who, i - 1);
        match co_day(g, a, i - 1) {
            Some(d) => if who != a && targets(g, i - 1, "about"@).contains(who as u32) {
                before.insert(d)
            } else {
                before
            },
            None => before,
        }
    }
}

/// For every node id, the number of days on which it co-occurs with `a`.
pub open spec fn day_counts(g: PropGraph, a: u32) -> Seq<usize> {
    Seq::new(id_limit(g) as nat, |who: int| shared_days(g, a, who, id_limit(g)).len() as usize)
}

/// The entities co-occurring with the node with IRI `uri_a`, with their
/// day counts, days descending then node id, the first `limit`; nothing when
/// the IRI is unknown.
pub open spec fn co_occurring(g: PropGraph, uri_a: Seq<char>, limit: int) -> Seq<(u32, usize)> {
    match node_with_uri(g, uri_a) {
        Some(a) => {
            let rows = node_count_rows(day_counts(g, a), id_limit(g));
            rows.sort_by(rank_rel::<(u32, usize)>()).take(
                if limit < rows.len() {
                    limit
                } else {
                    rows.len() as int
                },
            )
        },
        None => Seq::empty(),
    }
}

/// The byte sequences held by a list of byte vectors.
pub open spec fn byte_rows(v: Seq<Vec<u8>>) -> Seq<Seq<u8>> {
    v.map_values(|x: Vec<u8>| x@)
}

/// The byte vectors `v` hold the days `s`, each once.
pub open spec fn holds_days(v: Seq<Vec<u8>>, s: Set<Seq<u8>>) -> bool {
    byte_rows(v).to_set() == s && byte_rows(v).no_duplicates()
}

fn day_of(t: &str) -> (r: Option<Vec<u8>>)
    ensures
        match r {
            Some(d) => day_bytes(t@) == Some(d@),
            None => day_bytes(t@) is None,
        },
{
    let b = t.as_bytes();
    if b.len() >= 10 && is_boundary(b, 10) {
        let mut d: Vec<u8> = Vec::new();
        let mut k: usize = 0;
        while k < 10
            invariant
                10 <= b@.len(),
                k <= 10,
                d@ == b@.subrange(0, k as int),
            decreases 10 - k,
        {
            d.push(b[k]);
            proof {
                assert(b@.subrange(0, k + 1) =~= b@.subrange(0, k as int).push(b@[k as int]));
            }
            k = k + 1;
        }
        Some(d)
    } else {
        None
    }
}

fn same_bytes(x: &Vec<u8>, y: &Vec<u8>) -> (r: bool)
    ensures
        r == (x@ == y@),
{
    if x.len() != y.len() {
        return false;
    }
    let mut k: usize = 0;
    while k < x.len()
        invariant
            x@.len() == y@.len(),
            k <= x@.len(),
            forall|q: int| 0 <= q < k ==> x@[q] == y@[q],
        decreases x.len() - k,
    {
        if x[k] != y[k] {
            return false;
        }
        k = k + 1;
    }
    proof {
        assert(x@ =~= y@);
    }
    true
}

fn holds_day(days: &Vec<Vec<u8>>, d: &Vec<u8>) -> (r: bool)
    ensures
        r == byte_rows(days@).contains(d@),
{
    let mut k: usize = 0;
    while k < days.len()
        invariant
            k <= days@.len(),
            forall|q: int| 0 <= q < k ==> byte_rows(days@)[q] != d@,
        decreases days.len() - k,
    {
        if same_bytes(&days[k], d) {
            proof {
                assert(byte_rows(days@)[k as int] == d@);
            }
            return true;
        }
        k = k + 1;
    }
    false
}

proof fn push_set_lemma(before: Seq<Seq<u8>>, d: Seq<u8>)
    requires
        before.no_duplicates(),
        !before.contains(d),
    ensures
        before.push(d).to_set() == before.to_set().insert(d),
        before.push(d).no_duplicates(),
{
    assert(before.push(d).to_set() =~= before.to_set().insert(d)) by {
        assert forall|x: Seq<u8>| before.push(d).to_set().contains(x) == before.to_set().insert(d).contains(x) by {
            if before.push(d).contains(x) {
                let q = choose|q: int| 0 <= q < before.push(d).len() && before.push(d)[q] == x;
                if q < before.len() {
                    assert(before[q] == x);
                }
            }
            if before.contains(x) {
                let q = choose|q: int| 0 <= q < before.len() && before[q] == x;
                assert(before.push(d)[q] == x);
            }
            if x == d {
                assert(before.push(d)[before.len() as int] == x);
            }
        }
    }
    assert forall|p: int, q: int|
        0 <= p < before.push(d).len() && 0 <= q < before.push(d).len() && p != q implies before.push(d)[p]
        != before.push(d)[q] by {
        if p == before.len() as int {
            assert(before[q] != d);
        } else if q == before.len() as int {
            assert(before[p] != d);
        }
    }
}

/// Record day `d` for every node of `list` other than `a`, each node's days
/// kept without repeats.
fn add_day(days: &mut Vec<Vec<Vec<u8>>>, list: &Vec<u32>, d: &Vec<u8>, a: u32, Ghost(sets): Ghost<Seq<Set<Seq<u8>>>>)
    requires
        old(days)@.len() == sets.len(),
        sets.len() <= 0x1_0000_0000,
        forall|w: int|
            0 <= w < sets.len() ==> #[trigger] holds_days(old(days)@[w]@, sets[w]),
    ensures
        final(days)@.len() == sets.len(),
        forall|w: int|
            0 <= w < sets.len() ==> holds_days(#[trigger] final(days)@[w]@, (if w != a && list@.contains(
                w as u32,
            ) {
                sets[w].insert(d@)
            } else {
                sets[w]
            })),
{
    let n = days.len();
    let mut j: usize = 0;
    while j < list.len()
        invariant
            days@.len() == n,
            n == sets.len(),
            n <= 0x1_0000_0000,
            j <= list@.len(),
            forall|w: int|
                0 <= w < n ==> holds_days(#[trigger] days@[w]@, (if w != a && list@.take(j as int).contains(
                    w as u32,
                ) {
                    sets[w].insert(d@)
                } else {
                    sets[w]
                })),
        decreases list.len() - j,
    {
        let who = list[j] as usize;
        let ghost old_days = days@;
        let ghost prefix = list@.take(j as int);
        let ghost next = list@.take(j + 1);
        proof {
            assert(next =~= prefix.push(list@[j as int]));
        }
        if who < n && who != a as usize {
            let ghost was = byte_rows(days@[who as int]@);
            proof {
                assert(holds_days(days@[who as int]@, (if who != a && prefix.contains(who as u32) {
                    sets[who as int].insert(d@)
                } else {
                    sets[who as int]
                })));
                assert(next.contains(who as u32)) by {
                    assert(next[j as int] == who as u32);
                }
            }
            if !holds_day(&days[who], d) {
                let copy = d.clone();
                proof {
                    assert(copy@ == d@);
                    push_set_lemma(was, d@);
                    if prefix.contains(who as u32) {
                        assert(was.to_set().contains(d@));
                        let q = choose|q: int| 0 <= q < was.len() && was[q] == d@;
                        assert(was.contains(d@));
                    }
                }
                days[who].push(copy);
                proof {
                    assert(byte_rows(days@[who as int]@) =~= was.push(d@));
                }
            } else {
                proof {
                    assert(was.to_set().contains(d@));
                    if !prefix.contains(who as u32) {
                        assert(sets[who as int].insert(d@) =~= sets[who as int]);
                    }
                }
            }
        }
        proof {
            assert forall|w: int| 0 <= w < n implies holds_days(#[trigger] days@[w]@, (if w != a && next.contains(
                w as u32,
            ) {
                sets[w].insert(d@)
            } else {
                sets[w]
            })) by {
                assert(holds_days(old_days[w]@, (if w != a && prefix.contains(w as u32) {
                    sets[w].insert(d@)
                } else {
                    sets[w]
                })));
                if w as u32 != list@[j as int] || !(who < n && who != a as usize) {
                    if w != who {
                        assert(days@[w] == old_days[w]);
                    }
                    if next.contains(w as u32) && !prefix.contains(w as u32) {
                        let p = choose|p: int| 0 <= p < next.len() && #[trigger] next[p] == w as u32;
                        if p < j {
                            assert(prefix[p] == w as u32);
                        }
                    }
                    if prefix.contains(w as u32) {
                        let p = choose|p: int| 0 <= p < prefix.len() && #[trigger] prefix[p] == w as u32;
                        assert(next[p] == w as u32);
                    }
                } else {
                    assert((w as u32) as int == w);
                    if prefix.contains(w as u32) {
                        let p = choose|p: int| 0 <= p < prefix.len() && #[trigger] prefix[p] == w as u32;
                        assert(next[p] == w as u32);
                    }
                }
            }
        }
        j = j + 1;
    }
    proof {
        assert(list@.take(j as int) =~= list@);
    }
}

/// Entities co-occurring with the entity at `uri_a` in creative works
/// (`about` both), each with the number of distinct calendar days (the first
/// ten bytes of a work's non-empty `dateCreated`) on which a co-occurrence
/// happens; ordered by day count descending then node id, truncated to
/// `limit`. Empty when `uri_a` resolves to no node.
pub fn run(g: &PropGraph, uri_a: &str, limit: usize) -> (r: Vec<(u32, usize)>)
    ensures
        r@ == co_occurring(*g, uri_a@, limit as int),
{
    let a = match node_by_uri(g, uri_a) {
        Some(n) => n,
        None => return Vec::new(),
    };
    let lim = id_count(g);
    let about_a = linked_into(g, a, "about");
    let about = out_lists(g, "about");
    let mut days: Vec<Vec<Vec<u8>>> = Vec::new();
    while days.len() < lim
        invariant
            days@.len() <= lim,
            forall|w: int| 0 <= w < days@.len() ==> #[trigger] days@[w]@ == Seq::<Vec<u8>>::empty(),
        decreases lim - days.len(),
    {
        days.push(Vec::new());
    }
    proof {
        assert forall|w: int| 0 <= w < lim implies #[trigger] holds_days(days@[w]@, shared_days(*g, a, w, 0)) by {
            assert(byte_rows(days@[w]@) =~= Seq::<Seq<u8>>::empty());
            assert(byte_rows(days@[w]@).to_set() =~= shared_days(*g, a, w, 0));
        }
    }
    let mut i: usize = 0;
    while i < lim
        invariant
            lim == id_limit(*g),
            about_a@.len() == lim,
            forall|w: int| 0 <= w < lim ==> #[trigger] about_a@[w] == targets(*g, w, "about"@).contains(a),
            about@.len() == lim,
            forall|w: int| 0 <= w < lim ==> #[trigger] about@[w]@ == targets(*g, w, "about"@),
            days@.len() == lim,
            i <= lim,
            forall|w: int|
                0 <= w < lim ==> #[trigger] holds_days(days@[w]@, shared_days(*g, a, w, i as int)),
        decreases lim - i,
    {
        let mut found: Option<Vec<u8>> = None;
        if about_a[i] && has_label(g, i as u32, "CreativeWork") {
            match filled_prop_of(g, i as u32, "dateCreated") {
                Some(t) => {
                    found = day_of(t);
                },
                None => {},
            }
        }
        proof {
            assert(match found {
                Some(d) => co_day(*g, a, i as int) == Some(d@),
                None => co_day(*g, a, i as int) is None,
            });
        }
        match found {
            Some(d) => {
                let list = &about[i];
                let ghost sets = Seq::new(lim as nat, |w: int| shared_days(*g, a, w, i as int));
                proof {
                    assert forall|w: int| 0 <= w < lim implies #[trigger] holds_days(days@[w]@, sets[w]) by {
                        assert(holds_days(days@[w]@, shared_days(*g, a, w, i as int)));
                    }
                }
                add_day(&mut days, list, &d, a, Ghost(sets));
                proof {
                    assert forall|w: int| 0 <= w < lim implies #[trigger] holds_days(days@[w]@, shared_days(
                        *g,
                        a,
                        w,
                        i + 1,
                    )) by {
                        assert(holds_days(days@[w]@, if w != a && list@.contains(w as u32) {
                            sets[w].insert(d@)
                        } else {
                            sets[w]
                        }));
                    }
                }
            },
            None => {
                proof {
                    assert forall|w: int| 0 <= w < lim implies #[trigger] holds_days(days@[w]@, shared_days(
                        *g,
                        a,
                        w,
                        i + 1,
                    )) by {
                        assert(holds_days(days@[w]@, shared_days(*g, a, w, i as int)));
                    }
                }
            },
        }
        i = i + 1;
    }
    let mut counts: Vec<usize> = Vec::new();
    while counts.len() < lim
        invariant
            lim == id_limit(*g),
            days@.len() == lim,
            forall|w: int|
                0 <= w < lim ==> #[trigger] holds_days(days@[w]@, shared_days(*g, a, w, lim as int)),
            counts@.len() <= lim,
            forall|w: int| 0 <= w < counts@.len() ==> #[trigger] counts@[w] == day_counts(*g, a)[w],
        decreases lim - counts.len(),
    {
        let w = counts.len();
        proof {
            assert(holds_days(days@[w as int]@, shared_days(*g, a, w as int, lim as int)));
            byte_rows(days@[w as int]@).unique_seq_to_set();
        }
        counts.push(days[w].len());
    }
    proof {
        assert(counts@ =~= day_counts(*g, a));
    }
    let rows = node_rows(&counts);
    top_k_by_count(rows, limit)
}

proof fn lemma_no_days_with_self(g: PropGraph, a: u32, i: int)
    ensures
        shared_days(g, a, a as int, i) == Set::<Seq<u8>>::empty(),
    decreases i,
{
    if i > 0 {
        lemma_no_days_with_self(g, a, i - 1);
    }
}

proof fn lemma_rows_positive(c: Seq<usize>, j: int)
    requires
        j <= c.len(),
        c.len() <= 0x1_0000_0000,
    ensures
        forall|k: int|
            0 <= k < node_count_rows(c, j).len() ==> (#[trigger] node_count_rows(c, j)[k]).0 < j && c[
                node_count_rows(c, j)[k].0 as int
            ] > 0,
    decreases j,
{
    if j > 0 {
        lemma_rows_positive(c, j - 1);
        assert(((j - 1) as u32) as int == j - 1);
        let prev = node_count_rows(c, j - 1);
        let rows = node_count_rows(c, j);
        assert forall|k: int| 0 <= k < rows.len() implies (#[trigger] rows[k]).0 < j && c[rows[k].0 as int] > 0 by {
            if k < prev.len() {
                assert(rows[k] == prev[k]);
            } else {
                assert(rows[k] == ((j - 1) as u32, c[j - 1]));
            }
        }
    }
}

/// An entity is never among the entities that co-occur with it.
pub proof fn law_related_excludes_self(g: PropGraph, uri_a: Seq<char>, limit: int)
    requires
        0 <= limit,
    ensures
        node_with_uri(g, uri_a) matches Some(a) ==> forall|k: int|
            0 <= k < co_occurring(g, uri_a, limit).len() ==> (#[trigger] co_occurring(g, uri_a, limit)[k]).0 != a,
{
    match node_with_uri(g, uri_a) {
        Some(a) => {
            let c = day_counts(g, a);
            let rows = node_count_rows(c, id_limit(g));
            let rel = rank_rel::<(u32, usize)>();
            <(u32, usize)>::lemma_rank_total();
            assert(rel == |x: (u32, usize), y: (u32, usize)| x.ranks_le(y));
            rows.lemma_sort_by_ensures(rel);
            lemma_rows_positive(c, id_limit(g));
            if (a as int) < id_limit(g) {
                lemma_no_days_with_self(g, a, id_limit(g));
                assert(c[a as int] == 0);
            }
            let sorted = rows.sort_by(rel);
            let out = co_occurring(g, uri_a, limit);
            assert(sorted.len() == rows.len()) by {
                broadcast use vstd::seq_lib::group_to_multiset_ensures;
                assert(sorted.to_multiset().len() == rows.to_multiset().len());
            }
            assert forall|k: int| 0 <= k < out.len() implies (#[trigger] out[k]).0 != a by {
                broadcast use vstd::seq_lib::group_to_multiset_ensures;
                assert(out[k] == sorted[k]);
                assert(sorted.contains(sorted[k]));
                assert(sorted.to_multiset().count(sorted[k]) > 0);
                assert(rows.contains(sorted[k]));
                let q = choose|q: int| 0 <= q < rows.len() && rows[q] == sorted[k];
                assert(c[rows[q].0 as int] > 0);
            }
        },
        None => {},
    }
}

} // verus!
