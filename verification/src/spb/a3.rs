//! SPB advanced query 3: creative works modified within a time window,
//! counted by the minute of the hour of their modification.
use vstd::prelude::*;
use vstd::utf8::encode_utf8;
use crate::dates::{bytes_at, is_boundary, lemma_digits_bound, on_boundary};
use crate::json::{decimal, push_decimal};
use crate::numtext::{all_digits, parse_u32_radix, spec_parse_u32};
use crate::rdfgraph::PropGraph;
use crate::ranking::{rank_rel, sort_ranked, views};
use crate::spb::access::{has_label, id_count, id_limit, labelled, text_prop, text_prop_of};
use crate::text::string_of;
use crate::textorder::{text_before, text_lt};

verus! {

/// The minute of a timestamp `YYYY-MM-DDTHH:MM:SS`: what `t.get(14..16)`
/// parses to as an unsigned number.
pub open spec fn minute_of(t: Seq<char>) -> Option<u32> {
    let b = encode_utf8(t);
    if 16 <= b.len() && on_boundary(b, 14) && on_boundary(b, 16) {
        spec_parse_u32(bytes_at(b, 14, 16))
    } else {
        None
    }
}

/// The minute under which node `w` is counted: a creative work whose text
/// `dateModified` lies strictly between `after` and `before`.
pub open spec fn counted_minute(g: PropGraph, w: int, after: Seq<char>, before: Seq<char>) -> Option<u32> {
    if labelled(g, w, "CreativeWork"@) {
        match text_prop(g, w, "dateModified"@) {
            Some(t) => if text_before(after, t) && text_before(t, before) {
                minute_of(t)
            } else {
                None
            },
            None => None,
        }
    } else {
        None
    }
}

/// How many of the node ids below `i` are counted under minute `m`.
pub open spec fn minute_count(g: PropGraph, after: Seq<char>, before: Seq<char>, m: u32, i: int) -> nat
    decreases i,
{
    if i <= 0 {
        0
    } else {
        minute_count(g, after, before, m, i - 1) + if counted_minute(g, i - 1, after, before) == Some(m) {
            1nat
        } else {
            0nat
        }
    }
}

/// The `(minute, count)` rows of the minutes below `j` that count any work.
pub open spec fn minute_rows(g: PropGraph, after: Seq<char>, before: Seq<char>, j: int) -> Seq<(u32, usize)>
    decreases j,
{
    if j <= 0 {
        Seq::empty()
    } else {
        let c = minute_count(g, after, before, (j - 1) as u32, id_limit(g));
        if c > 0 {
            minute_rows(g, after, before, j - 1).push(((j - 1) as u32, c as usize))
        } else {
            minute_rows(g, after, before, j - 1)
        }
    }
}

/// The minute histogram, by count descending then minute, each minute as
/// its decimal text.
pub open spec fn minute_histogram(g: PropGraph, after: Seq<char>, before: Seq<char>) -> Seq<(Seq<char>, usize)> {
    minute_rows(g, after, before, 100).sort_by(rank_rel::<(u32, usize)>()).map_values(
        |r: (u32, usize)| (decimal(r.0 as nat), r.1),
    )
}

proof fn lemma_two_digits(b: Seq<u8>)
    requires
        b.len() == 2,
        spec_parse_u32(b) is Some,
    ensures
        spec_parse_u32(b).unwrap() < 100,
{
    let ds = if b[0] == 43u8 {
        b.drop_first()
    } else {
        b
    };
    assert(all_digits(ds, 10));
    lemma_digits_bound(ds);
}

fn minute(t: &str) -> (r: Option<u32>)
    ensures
        r == minute_of(t@),
        r matches Some(m) ==> m < 100,
{
    let b = t.as_bytes();
    if b.len() >= 16 && is_boundary(b, 14) && is_boundary(b, 16) {
        let r = parse_u32_radix(&b[14..16], 10);
        proof {
            if r is Some {
                lemma_two_digits(bytes_at(b@, 14, 16));
            }
        }
        r
    } else {
        None
    }
}

fn counted(g: &PropGraph, w: u32, after: &str, before: &str) -> (r: Option<u32>)
    ensures
        r == counted_minute(*g, w as int, after@, before@),
        r matches Some(m) ==> m < 100,
{
    if !has_label(g, w, "CreativeWork") {
        return None;
    }
    match text_prop_of(g, w, "dateModified") {
        Some(t) => if text_lt(after, t) && text_lt(t, before) {
            minute(t)
        } else {
            None
        },
        None => None,
    }
}

/// Creative works whose `dateModified` is strictly within `(after, before)`,
/// counted by the minute of the hour. Returned as `(minute, count)` with the
/// minute a plain decimal text (no leading zero), ordered by count descending
/// then minute.
pub fn run(g: &PropGraph, after: &str, before: &str) -> (r: Vec<(String, usize)>)
    ensures
        views(r@) == minute_histogram(*g, after@, before@),
{
    let lim = id_count(g);
    let mut counts: Vec<usize> = Vec::new();
    while counts.len() < 100
        invariant
            counts@.len() <= 100,
            forall|m: int| 0 <= m < counts@.len() ==> #[trigger] counts@[m] == 0,
        decreases 100 - counts.len(),
    {
        counts.push(0);
    }
    let mut i: usize = 0;
    while i < lim
        invariant
            lim == id_limit(*g),
            counts@.len() == 100,
            i <= lim,
            forall|m: int| 0 <= m < 100 ==> #[trigger] counts@[m] == minute_count(*g, after@, before@, m as u32, i as int),
            forall|m: int| 0 <= m < 100 ==> #[trigger] counts@[m] <= i,
        decreases lim - i,
    {
        let c = counted(g, i as u32, after, before);
        match c {
            Some(m) => {
                let mi = m as usize;
                counts.set(mi, counts[mi] + 1);
            },
            None => {},
        }
        proof {
            assert forall|m: int| 0 <= m < 100 implies #[trigger] counts@[m] == minute_count(
                *g,
                after@,
                before@,
                m as u32,
                i + 1,
            ) by {
                assert((m as u32) as int == m);
            }
        }
        i = i + 1;
    }
    let mut rows: Vec<(u32, usize)> = Vec::new();
    let mut m: usize = 0;
    while m < 100
        invariant
            counts@.len() == 100,
            m <= 100,
            forall|q: int| 0 <= q < 100 ==> #[trigger] counts@[q] == minute_count(*g, after@, before@, q as u32, id_limit(*g)),
            rows@ == minute_rows(*g, after@, before@, m as int),
        decreases 100 - m,
    {
        if counts[m] > 0 {
            rows.push((m as u32, counts[m]));
        }
        m = m + 1;
    }
    let ranked = sort_ranked(rows);
    let mut out: Vec<(String, usize)> = Vec::new();
    let mut k: usize = 0;
    while k < ranked.len()
        invariant
            k <= ranked@.len(),
            views(out@) == ranked@.take(k as int).map_values(|r: (u32, usize)| (decimal(r.0 as nat), r.1)),
        decreases ranked.len() - k,
    {
        let (mm, n) = ranked[k];
        let mut digits: Vec<char> = Vec::new();
        push_decimal(&mut digits, mm as u64);
        let text = string_of(digits.as_slice());
        let ghost before = views(out@);
        out.push((text, n));
        proof {
            assert(digits@ =~= decimal(mm as nat));
            assert(ranked@[k as int] == (mm, n));
            assert(views(out@) =~= before.push((decimal(mm as nat), n)));
            assert(views(out@) =~= ranked@.take(k + 1).map_values(|r: (u32, usize)| (decimal(r.0 as nat), r.1)));
        }
        k = k + 1;
    }
    proof {
        assert(ranked@.take(k as int) =~= ranked@);
    }
    out
}

} // verus!
