//! BI Q4, top message creators: the 100 recent forums with the most members
//! from one country, and their members ranked by the messages they created
//! in those forums' reply threads.
use vstd::prelude::*;
use vstd::relations::sorted_by;
use crate::bi::lookup::{lemma_sources_within, lemma_targets_bound, lemma_targets_within, rels_within};
use crate::rdfgraph::PropGraph;
use crate::ranking::{lemma_ranked_take, rank_and_take, rank_rel, sort_ranked, take_upto, RankOrder};
use crate::rdfload::same_text;
use crate::spb::access::{has_label, int_prop_of, int_value, labelled, sources, sources_of, sources_upto, targets, targets_of, targets_upto};

verus! {

/// Every message replies to at most one message.
pub open spec fn single_reply(g: PropGraph) -> bool {
    forall|n: int| 0 <= n < g.labels@.len() ==> #[trigger] targets(g, n, "replyOf"@).len() <= 1
}

/// Some relationship has type `ty`.
pub open spec fn has_rel_type(g: PropGraph, ty: Seq<char>) -> bool {
    exists|k: int| 0 <= k < g.rels@.len() && #[trigger] g.rels@[k].2@ == ty
}

/// The graph has relationships of every type the query follows.
pub open spec fn q4_types_present(g: PropGraph) -> bool {
    &&& has_rel_type(g, "hasMember"@)
    &&& has_rel_type(g, "isLocatedIn"@)
    &&& has_rel_type(g, "isPartOf"@)
    &&& has_rel_type(g, "containerOf"@)
    &&& has_rel_type(g, "hasCreator"@)
    &&& has_rel_type(g, "replyOf"@)
}

/// The target of the first relationship of type `ty` out of `n`.
pub open spec fn first_target(g: PropGraph, n: int, ty: Seq<char>) -> Option<u32> {
    let t = targets(g, n, ty);
    if t.len() > 0 {
        Some(t[0])
    } else {
        None
    }
}

/// The country of person `m`: what the first place of their first city is
/// part of.
pub open spec fn member_country(g: PropGraph, m: int) -> Option<u32> {
    match first_target(g, m, "isLocatedIn"@) {
        Some(city) => first_target(g, city as int, "isPartOf"@),
        None => None,
    }
}

/// Node `f` is a forum created after day `after`.
pub open spec fn recent_forum(g: PropGraph, f: int, after: i64) -> bool {
    labelled(g, f, "Forum"@) && int_value(g, f, "fday"@) > after
}

/// How many of the first `j` members of forum `f` live in country `c`.
pub open spec fn members_from(g: PropGraph, f: int, c: int, j: int) -> nat
    decreases j,
{
    if j <= 0 {
        0
    } else {
        members_from(g, f, c, j - 1) + if member_country(g, targets(g, f, "hasMember"@)[j - 1] as int) matches Some(x)
            && x as int == c {
            1nat
        } else {
            0nat
        }
    }
}

/// The members of forum `f` from country `c`, for a forum created after
/// `after` (0 for any other node).
pub open spec fn forum_country_members(g: PropGraph, after: i64, c: int, f: int) -> nat {
    if recent_forum(g, f, after) {
        members_from(g, f, c, targets(g, f, "hasMember"@).len() as int)
    } else {
        0
    }
}

/// The forum and country of a ranking row `(members, forum id, country id,
/// forum, country)`.
pub open spec fn pair_of(r: (i64, i64, i64, u32, u32)) -> (u32, u32) {
    (r.3, r.4)
}

/// `rows` ranks the (forum, country) pairs: one row `(members, forum LDBC
/// id, country LDBC id, forum, country)` per pair with a member, without
/// repeats, most members first, then by forum id, then by country id.
pub open spec fn ranked_pairs(g: PropGraph, after: i64, rows: Seq<(i64, i64, i64, u32, u32)>) -> bool {
    &&& rows.no_duplicates()
    &&& sorted_by(rows, rank_rel::<(i64, i64, i64, u32, u32)>())
    &&& forall|i: int|
        0 <= i < rows.len() ==> {
            let r = #[trigger] rows[i];
            &&& r.0 as int == forum_country_members(g, after, r.4 as int, r.3 as int)
            &&& r.0 > 0
            &&& r.1 == int_value(g, r.3 as int, "flid"@)
            &&& r.2 == int_value(g, r.4 as int, "lid"@)
        }
    &&& forall|f: u32, c: u32|
        #[trigger] forum_country_members(g, after, c as int, f as int) > 0 ==> exists|i: int|
            0 <= i < rows.len() && pair_of(#[trigger] rows[i]) == (f, c)
}

/// The distinct forums of the first `j` ranking rows, in order of first
/// appearance, at most `limit` of them.
pub open spec fn first_forums(rows: Seq<(i64, i64, i64, u32, u32)>, j: int, limit: int) -> Seq<u32>
    decreases j,
{
    if j <= 0 {
        Seq::empty()
    } else {
        let prev = first_forums(rows, j - 1, limit);
        if prev.len() < limit && !prev.contains(rows[j - 1].3) {
            prev.push(rows[j - 1].3)
        } else {
            prev
        }
    }
}

/// Person `p` is a member of one of the forums `top`.
pub open spec fn is_member(g: PropGraph, top: Seq<u32>, p: int) -> bool {
    exists|i: int| 0 <= i < top.len() && #[trigger] targets(g, top[i] as int, "hasMember"@).contains(p as u32)
}

/// Following the first `replyOf` relationship from `n` leads to `post`
/// within `fuel` steps (or `n` is `post`).
pub open spec fn on_thread(g: PropGraph, n: int, post: int, fuel: int) -> bool
    decreases fuel,
{
    if n == post {
        true
    } else if fuel <= 0 {
        false
    } else {
        match first_target(g, n, "replyOf"@) {
            Some(parent) => on_thread(g, parent as int, post, fuel - 1),
            None => false,
        }
    }
}

/// Message `n` is in the reply thread of `post` and was created by `p`.
pub open spec fn thread_message(g: PropGraph, p: int, post: int, n: int) -> bool {
    on_thread(g, n, post, g.labels@.len() as int) && creator_of_message(g, n) == Some(p as u32)
}

/// The creator of message `m`: the source of its first `hasCreator`
/// relationship.
pub open spec fn creator_of_message(g: PropGraph, m: int) -> Option<u32> {
    let s = sources(g, m, "hasCreator"@);
    if s.len() > 0 {
        Some(s[0])
    } else {
        None
    }
}

/// The messages by `p` among the first `k` nodes of the thread of `post`.
pub open spec fn thread_by(g: PropGraph, p: int, post: int, k: int) -> nat
    decreases k,
{
    if k <= 0 {
        0
    } else {
        thread_by(g, p, post, k - 1) + if thread_message(g, p, post, k - 1) {
            1nat
        } else {
            0nat
        }
    }
}

/// The messages by `p` in the threads of the first `j` posts of forum `f`.
pub open spec fn posts_by(g: PropGraph, p: int, f: int, j: int) -> nat
    decreases j,
{
    if j <= 0 {
        0
    } else {
        posts_by(g, p, f, j - 1) + thread_by(
            g,
            p,
            targets(g, f, "containerOf"@)[j - 1] as int,
            g.labels@.len() as int,
        )
    }
}

/// The messages by `p` in the threads of the posts of the first `i` forums
/// of `top`.
pub open spec fn forums_by(g: PropGraph, p: int, top: Seq<u32>, i: int) -> nat
    decreases i,
{
    if i <= 0 {
        0
    } else {
        forums_by(g, p, top, i - 1) + posts_by(
            g,
            p,
            top[i - 1] as int,
            targets(g, top[i - 1] as int, "containerOf"@).len() as int,
        )
    }
}

/// The rows `(messages, LDBC id, person)` of the members of `top` among the
/// first `k` nodes.
pub open spec fn member_rows(g: PropGraph, top: Seq<u32>, k: int) -> Seq<(i64, i64, u32)>
    decreases k,
{
    if k <= 0 {
        Seq::empty()
    } else if is_member(g, top, k - 1) {
        member_rows(g, top, k - 1).push(
            (forums_by(g, k - 1, top, top.len() as int) as i64, int_value(g, k - 1, "plid"@), (k - 1) as u32),
        )
    } else {
        member_rows(g, top, k - 1)
    }
}

/// The first answer of Q4 for the forums `top`: the members ranked by their
/// thread messages (most first, then LDBC id), the first 100, as
/// `(LDBC id, messages)`.
pub open spec fn top_creator_rows(g: PropGraph, top: Seq<u32>) -> Seq<(i64, i64)> {
    take_upto(member_rows(g, top, g.labels@.len() as int).sort_by(rank_rel::<(i64, i64, u32)>()), 100).map_values(
        |r: (i64, i64, u32)| (r.1, r.0),
    )
}

/// The second answer of Q4: the LDBC ids of the forums `top`, ascending.
pub open spec fn top_forum_ids(g: PropGraph, top: Seq<u32>) -> Seq<i64> {
    top.map_values(|f: u32| int_value(g, f as int, "flid"@)).sort_by(rank_rel::<i64>())
}

impl RankOrder for (i64, i64, i64, u32, u32) {
    /// A `(members, forum id, country id, forum, country)` row: most members
    /// first, then the ids, then the nodes, ascending.
    open spec fn ranks_le(self, other: Self) -> bool {
        if self.0 != other.0 {
            self.0 > other.0
        } else if self.1 != other.1 {
            self.1 < other.1
        } else if self.2 != other.2 {
            self.2 < other.2
        } else if self.3 != other.3 {
            self.3 < other.3
        } else {
            self.4 <= other.4
        }
    }

    proof fn lemma_rank_total() {
    }

    fn comes_no_later(&self, other: &Self) -> (r: bool) {
        if self.0 != other.0 {
            self.0 > other.0
        } else if self.1 != other.1 {
            self.1 < other.1
        } else if self.2 != other.2 {
            self.2 < other.2
        } else if self.3 != other.3 {
            self.3 < other.3
        } else {
            self.4 <= other.4
        }
    }
}

impl RankOrder for (i64, i64, u32) {
    /// A `(messages, LDBC id, person)` row: most messages first, then LDBC
    /// id, then node id.
    open spec fn ranks_le(self, other: Self) -> bool {
        if self.0 != other.0 {
            self.0 > other.0
        } else if self.1 != other.1 {
            self.1 < other.1
        } else {
            self.2 <= other.2
        }
    }

    proof fn lemma_rank_total() {
    }

    fn comes_no_later(&self, other: &Self) -> (r: bool) {
        if self.0 != other.0 {
            self.0 > other.0
        } else if self.1 != other.1 {
            self.1 < other.1
        } else {
            self.2 <= other.2
        }
    }
}

impl RankOrder for i64 {
    /// Integers in ascending order.
    open spec fn ranks_le(self, other: Self) -> bool {
        self <= other
    }

    proof fn lemma_rank_total() {
    }

    fn comes_no_later(&self, other: &Self) -> (r: bool) {
        *self <= *other
    }
}

/// Whether some relationship has type `ty`.
fn rel_type_present(g: &PropGraph, ty: &str) -> (r: bool)
    ensures
        r == has_rel_type(*g, ty@),
{
    let mut k: usize = 0;
    while k < g.rels.len()
        invariant
            k <= g.rels@.len(),
            forall|q: int| 0 <= q < k ==> #[trigger] g.rels@[q].2@ != ty@,
        decreases g.rels.len() - k,
    {
        if same_text(g.rels[k].2.as_str(), ty) {
            return true;
        }
        k = k + 1;
    }
    false
}

/// The target of the first relationship of type `ty` out of `n`.
pub(crate) fn first_target_of(g: &PropGraph, n: u32, ty: &str) -> (r: Option<u32>)
    ensures
        r == first_target(*g, n as int, ty@),
{
    let t = targets_of(g, n, ty);
    if t.len() > 0 {
        Some(t[0])
    } else {
        None
    }
}

/// The country of person `m`.
fn country_of(g: &PropGraph, m: u32) -> (r: Option<u32>)
    ensures
        r == member_country(*g, m as int),
{
    match first_target_of(g, m, "isLocatedIn") {
        Some(city) => first_target_of(g, city, "isPartOf"),
        None => None,
    }
}

/// The creator of message `m`.
pub(crate) fn message_creator(g: &PropGraph, m: u32) -> (r: Option<u32>)
    ensures
        r == creator_of_message(*g, m as int),
{
    let s = sources_of(g, m, "hasCreator");
    if s.len() > 0 {
        Some(s[0])
    } else {
        None
    }
}

/// Whether message `n` is in the reply thread of `post`, looking at most
/// `fuel` replies up.
fn in_thread(g: &PropGraph, n: u32, post: u32, fuel: usize) -> (r: bool)
    ensures
        r == on_thread(*g, n as int, post as int, fuel as int),
{
    let mut cur = n;
    let mut left = fuel;
    while cur != post && left > 0
        invariant
            on_thread(*g, n as int, post as int, fuel as int) == on_thread(*g, cur as int, post as int, left as int),
        decreases left,
    {
        match first_target_of(g, cur, "replyOf") {
            Some(parent) => {
                cur = parent;
                left = left - 1;
            },
            None => {
                return false;
            },
        }
    }
    cur == post
}

/// The members from country `c` of forum `fo` counted once the forums below
/// `f` and the first `j` members of forum `f` are scanned.
pub open spec fn scanned_members(g: PropGraph, after: i64, c: int, fo: int, f: int, j: int) -> nat {
    if fo < f {
        forum_country_members(g, after, c, fo)
    } else if fo == f && recent_forum(g, f, after) {
        members_from(g, f, c, j)
    } else {
        0
    }
}

/// `rows` count the (forum, country) pairs scanned so far.
pub open spec fn pairs_so_far(g: PropGraph, after: i64, rows: Seq<(i64, i64, i64, u32, u32)>, f: int, j: int) -> bool {
    &&& forall|a: int, b: int| 0 <= a < b < rows.len() ==> pair_of(#[trigger] rows[a]) != pair_of(#[trigger] rows[b])
    &&& forall|i: int|
        0 <= i < rows.len() ==> {
            let r = #[trigger] rows[i];
            &&& r.0 as int == scanned_members(g, after, r.4 as int, r.3 as int, f, j)
            &&& r.0 > 0
            &&& r.1 == int_value(g, r.3 as int, "flid"@)
            &&& r.2 == int_value(g, r.4 as int, "lid"@)
        }
    &&& forall|fo: u32, c: u32|
        #[trigger] scanned_members(g, after, c as int, fo as int, f, j) > 0 ==> exists|i: int|
            0 <= i < rows.len() && pair_of(#[trigger] rows[i]) == (fo, c)
}

proof fn lemma_members_from_bound(g: PropGraph, f: int, c: int, j: int)
    requires
        0 <= j,
    ensures
        members_from(g, f, c, j) <= j,
    decreases j,
{
    if j > 0 {
        lemma_members_from_bound(g, f, c, j - 1);
    }
}

/// The first row of `rows` for the pair `(f, c)`.
fn find_pair(rows: &Vec<(i64, i64, i64, u32, u32)>, f: u32, c: u32) -> (r: Option<usize>)
    ensures
        match r {
            Some(i) => i < rows@.len() && pair_of(rows@[i as int]) == (f, c),
            None => forall|i: int| 0 <= i < rows@.len() ==> pair_of(#[trigger] rows@[i]) != (f, c),
        },
{
    let mut i: usize = 0;
    while i < rows.len()
        invariant
            i <= rows@.len(),
            forall|q: int| 0 <= q < i ==> pair_of(#[trigger] rows@[q]) != (f, c),
        decreases rows.len() - i,
    {
        if rows[i].3 == f && rows[i].4 == c {
            return Some(i);
        }
        i = i + 1;
    }
    None
}

/// Count the members of each recent forum by country, one row per
/// (forum, country) pair.
fn count_pairs(g: &PropGraph, after: i64) -> (rows: Vec<(i64, i64, i64, u32, u32)>)
    requires
        g.labels@.len() <= u32::MAX,
        g.rels@.len() <= u32::MAX,
    ensures
        pairs_so_far(*g, after, rows@, g.labels@.len() as int, 0),
{
    let n = g.labels.len();
    let mut rows: Vec<(i64, i64, i64, u32, u32)> = Vec::new();
    let mut f: usize = 0;
    while f < n
        invariant
            n == g.labels@.len(),
            n <= u32::MAX,
            g.rels@.len() <= u32::MAX,
            f <= n,
            pairs_so_far(*g, after, rows@, f as int, 0),
        decreases n - f,
    {
        proof {
            reveal_strlit("Forum");
            reveal_strlit("fday");
        }
        if has_label(g, f as u32, "Forum") && int_prop_of(g, f as u32, "fday") > after {
            let ms = targets_of(g, f as u32, "hasMember");
            proof {
                lemma_targets_bound(*g, f as int, "hasMember"@, g.rels@.len() as int);
            }
            let mut j: usize = 0;
            while j < ms.len()
                invariant
                    n == g.labels@.len(),
                    n <= u32::MAX,
                    f < n,
                    ms@ == targets(*g, f as int, "hasMember"@),
                    ms@.len() <= u32::MAX,
                    recent_forum(*g, f as int, after),
                    j <= ms@.len(),
                    pairs_so_far(*g, after, rows@, f as int, j as int),
                decreases ms.len() - j,
            {
                let ghost before = rows@;
                match country_of(g, ms[j]) {
                    Some(c) => {
                        proof {
                            lemma_members_from_bound(*g, f as int, c as int, j + 1);
                            assert forall|c2: int| c2 != c implies members_from(*g, f as int, c2, j + 1)
                                == members_from(*g, f as int, c2, j as int) by {}
                        }
                        match find_pair(&rows, f as u32, c) {
                            Some(i) => {
                                proof {
                                    let r = rows@[i as int];
                                    assert(r.0 as int == scanned_members(*g, after, r.4 as int, r.3 as int, f as int, j as int));
                                    lemma_members_from_bound(*g, f as int, c as int, j as int);
                                }
                                let bumped = rows[i].0 + 1;
                                let old_row = rows[i];
                                rows.set(i, (bumped, old_row.1, old_row.2, old_row.3, old_row.4));
                                proof {
                                    lemma_pairs_bump(*g, after, before, rows@, f as int, j as int, i as int, c);
                                }
                            },
                            None => {
                                let flid = int_prop_of(g, f as u32, "flid");
                                let lid = int_prop_of(g, c, "lid");
                                rows.push((1, flid, lid, f as u32, c));
                                proof {
                                    lemma_pairs_new(*g, after, before, rows@, f as int, j as int, c);
                                }
                            },
                        }
                    },
                    None => {
                        proof {
                            assert forall|c2: int| members_from(*g, f as int, c2, j + 1) == members_from(
                                *g,
                                f as int,
                                c2,
                                j as int,
                            ) by {}
                            lemma_pairs_same(*g, after, rows@, f as int, j as int);
                        }
                    },
                }
                j = j + 1;
            }
            proof {
                lemma_pairs_next_forum(*g, after, rows@, f as int, ms@.len() as int);
            }
        } else {
            proof {
                lemma_pairs_next_forum(*g, after, rows@, f as int, 0);
            }
        }
        f = f + 1;
    }
    rows
}

/// Moving on from forum `f` once all its members are scanned.
proof fn lemma_pairs_next_forum(g: PropGraph, after: i64, rows: Seq<(i64, i64, i64, u32, u32)>, f: int, j: int)
    requires
        pairs_so_far(g, after, rows, f, j),
        recent_forum(g, f, after) ==> j == targets(g, f, "hasMember"@).len(),
    ensures
        pairs_so_far(g, after, rows, f + 1, 0),
{
    assert forall|c: int, fo: int| #[trigger] scanned_members(g, after, c, fo, f + 1, 0) == scanned_members(
        g,
        after,
        c,
        fo,
        f,
        j,
    ) by {}
    assert forall|i: int| 0 <= i < rows.len() implies {
        let r = #[trigger] rows[i];
        &&& r.0 as int == scanned_members(g, after, r.4 as int, r.3 as int, f + 1, 0)
        &&& r.0 > 0
        &&& r.1 == int_value(g, r.3 as int, "flid"@)
        &&& r.2 == int_value(g, r.4 as int, "lid"@)
    } by {
        assert(scanned_members(g, after, rows[i].4 as int, rows[i].3 as int, f + 1, 0) == scanned_members(
            g,
            after,
            rows[i].4 as int,
            rows[i].3 as int,
            f,
            j,
        ));
    }
    assert forall|fo: u32, c: u32| #[trigger] scanned_members(g, after, c as int, fo as int, f + 1, 0) > 0 implies exists|
        i: int,
    | 0 <= i < rows.len() && pair_of(#[trigger] rows[i]) == (fo, c) by {
        assert(scanned_members(g, after, c as int, fo as int, f, j) > 0);
    }
}

/// A member whose country is unknown changes no count.
proof fn lemma_pairs_same(g: PropGraph, after: i64, rows: Seq<(i64, i64, i64, u32, u32)>, f: int, j: int)
    requires
        pairs_so_far(g, after, rows, f, j),
        forall|c2: int| members_from(g, f, c2, j + 1) == members_from(g, f, c2, j),
    ensures
        pairs_so_far(g, after, rows, f, j + 1),
{
    assert forall|c: int, fo: int| #[trigger] scanned_members(g, after, c, fo, f, j + 1) == scanned_members(
        g,
        after,
        c,
        fo,
        f,
        j,
    ) by {
        assert(members_from(g, f, c, j + 1) == members_from(g, f, c, j));
    }
    assert forall|i: int| 0 <= i < rows.len() implies {
        let r = #[trigger] rows[i];
        &&& r.0 as int == scanned_members(g, after, r.4 as int, r.3 as int, f, j + 1)
        &&& r.0 > 0
        &&& r.1 == int_value(g, r.3 as int, "flid"@)
        &&& r.2 == int_value(g, r.4 as int, "lid"@)
    } by {
        assert(scanned_members(g, after, rows[i].4 as int, rows[i].3 as int, f, j + 1) == scanned_members(
            g,
            after,
            rows[i].4 as int,
            rows[i].3 as int,
            f,
            j,
        ));
    }
    assert forall|fo: u32, c: u32| #[trigger] scanned_members(g, after, c as int, fo as int, f, j + 1) > 0 implies exists|
        i: int,
    | 0 <= i < rows.len() && pair_of(#[trigger] rows[i]) == (fo, c) by {
        assert(scanned_members(g, after, c as int, fo as int, f, j) > 0);
    }
}

/// Counting member `j` of forum `f` into the existing row `i` of its country.
proof fn lemma_pairs_bump(
    g: PropGraph,
    after: i64,
    before: Seq<(i64, i64, i64, u32, u32)>,
    rows: Seq<(i64, i64, i64, u32, u32)>,
    f: int,
    j: int,
    i: int,
    c: u32,
)
    requires
        pairs_so_far(g, after, before, f, j),
        recent_forum(g, f, after),
        0 <= i < before.len(),
        pair_of(before[i]) == (f as u32, c),
        0 <= f <= u32::MAX,
        members_from(g, f, c as int, j + 1) == members_from(g, f, c as int, j) + 1,
        forall|c2: int| c2 != c ==> members_from(g, f, c2, j + 1) == members_from(g, f, c2, j),
        rows == before.update(i, ((before[i].0 + 1) as i64, before[i].1, before[i].2, before[i].3, before[i].4)),
        before[i].0 + 1 <= i64::MAX,
    ensures
        pairs_so_far(g, after, rows, f, j + 1),
{
    assert forall|a: int, b: int| 0 <= a < b < rows.len() implies pair_of(#[trigger] rows[a]) != pair_of(
        #[trigger] rows[b],
    ) by {
        assert(pair_of(before[a]) != pair_of(before[b]));
    }
    assert forall|q: int| 0 <= q < rows.len() implies {
        let r = #[trigger] rows[q];
        &&& r.0 as int == scanned_members(g, after, r.4 as int, r.3 as int, f, j + 1)
        &&& r.0 > 0
        &&& r.1 == int_value(g, r.3 as int, "flid"@)
        &&& r.2 == int_value(g, r.4 as int, "lid"@)
    } by {
        let r = before[q];
        if q != i {
            assert(pair_of(r) != pair_of(before[i]));
            if r.3 as int == f {
                assert(r.4 != c);
            }
        }
    }
    assert forall|fo: u32, c2: u32| #[trigger] scanned_members(g, after, c2 as int, fo as int, f, j + 1) > 0 implies exists|
        q: int,
    | 0 <= q < rows.len() && pair_of(#[trigger] rows[q]) == (fo, c2) by {
        if fo as int == f && c2 == c {
            assert(pair_of(rows[i]) == (fo, c2));
        } else {
            assert(scanned_members(g, after, c2 as int, fo as int, f, j) > 0);
            let q = choose|q: int| 0 <= q < before.len() && pair_of(#[trigger] before[q]) == (fo, c2);
            assert(pair_of(rows[q]) == (fo, c2));
        }
    }
}

/// Counting member `j` of forum `f` into a new row for its country.
proof fn lemma_pairs_new(
    g: PropGraph,
    after: i64,
    before: Seq<(i64, i64, i64, u32, u32)>,
    rows: Seq<(i64, i64, i64, u32, u32)>,
    f: int,
    j: int,
    c: u32,
)
    requires
        pairs_so_far(g, after, before, f, j),
        recent_forum(g, f, after),
        0 <= f <= u32::MAX,
        0 <= j,
        forall|q: int| 0 <= q < before.len() ==> pair_of(#[trigger] before[q]) != (f as u32, c),
        members_from(g, f, c as int, j + 1) == members_from(g, f, c as int, j) + 1,
        forall|c2: int| c2 != c ==> members_from(g, f, c2, j + 1) == members_from(g, f, c2, j),
        rows == before.push((1i64, int_value(g, f, "flid"@), int_value(g, c as int, "lid"@), f as u32, c)),
    ensures
        pairs_so_far(g, after, rows, f, j + 1),
{
    if members_from(g, f, c as int, j) > 0 {
        assert(scanned_members(g, after, c as int, f as u32 as int, f, j) > 0);
        let q = choose|q: int| 0 <= q < before.len() && pair_of(#[trigger] before[q]) == (f as u32, c);
        assert(false);
    }
    let last = before.len() as int;
    assert forall|a: int, b: int| 0 <= a < b < rows.len() implies pair_of(#[trigger] rows[a]) != pair_of(
        #[trigger] rows[b],
    ) by {
        if b < last {
            assert(pair_of(before[a]) != pair_of(before[b]));
        } else {
            assert(pair_of(before[a]) != (f as u32, c));
        }
    }
    assert forall|q: int| 0 <= q < rows.len() implies {
        let r = #[trigger] rows[q];
        &&& r.0 as int == scanned_members(g, after, r.4 as int, r.3 as int, f, j + 1)
        &&& r.0 > 0
        &&& r.1 == int_value(g, r.3 as int, "flid"@)
        &&& r.2 == int_value(g, r.4 as int, "lid"@)
    } by {
        if q < last {
            let r = before[q];
            assert(pair_of(r) != (f as u32, c));
            if r.3 as int == f {
                assert(r.4 != c);
            }
        }
    }
    assert forall|fo: u32, c2: u32| #[trigger] scanned_members(g, after, c2 as int, fo as int, f, j + 1) > 0 implies exists|
        q: int,
    | 0 <= q < rows.len() && pair_of(#[trigger] rows[q]) == (fo, c2) by {
        if fo as int == f && c2 == c {
            assert(pair_of(rows[last]) == (fo, c2));
        } else {
            assert(scanned_members(g, after, c2 as int, fo as int, f, j) > 0);
            let q = choose|q: int| 0 <= q < before.len() && pair_of(#[trigger] before[q]) == (fo, c2);
            assert(pair_of(rows[q]) == (fo, c2));
        }
    }
}

/// Sorting the counted pairs ranks them.
proof fn lemma_pairs_ranked(
    g: PropGraph,
    after: i64,
    pairs: Seq<(i64, i64, i64, u32, u32)>,
    rows: Seq<(i64, i64, i64, u32, u32)>,
)
    requires
        pairs_so_far(g, after, pairs, g.labels@.len() as int, 0),
        rows == pairs.sort_by(rank_rel::<(i64, i64, i64, u32, u32)>()),
    ensures
        ranked_pairs(g, after, rows),
{
    let n = g.labels@.len() as int;
    let rel = rank_rel::<(i64, i64, i64, u32, u32)>();
    <(i64, i64, i64, u32, u32) as RankOrder>::lemma_rank_total();
    assert(rel == |a: (i64, i64, i64, u32, u32), b: (i64, i64, i64, u32, u32)| a.ranks_le(b));
    pairs.lemma_sort_by_ensures(rel);
    broadcast use vstd::seq_lib::to_multiset_contains;
    assert forall|c: int, fo: int| #[trigger] scanned_members(g, after, c, fo, n, 0) == forum_country_members(
        g,
        after,
        c,
        fo,
    ) by {}
    assert(pairs.no_duplicates()) by {
        assert forall|i: int, j: int| 0 <= i < pairs.len() && 0 <= j < pairs.len() && i != j implies pairs[i]
            != pairs[j] by {
            if i < j {
                assert(pair_of(pairs[i]) != pair_of(pairs[j]));
            } else {
                assert(pair_of(pairs[j]) != pair_of(pairs[i]));
            }
        }
    }
    pairs.lemma_multiset_has_no_duplicates();
    rows.lemma_multiset_has_no_duplicates_conv();
    assert forall|i: int| 0 <= i < rows.len() implies {
        let r = #[trigger] rows[i];
        &&& r.0 as int == forum_country_members(g, after, r.4 as int, r.3 as int)
        &&& r.0 > 0
        &&& r.1 == int_value(g, r.3 as int, "flid"@)
        &&& r.2 == int_value(g, r.4 as int, "lid"@)
    } by {
        assert(rows.contains(rows[i]));
        assert(rows.to_multiset().count(rows[i]) > 0);
        assert(pairs.contains(rows[i]));
        let j = choose|j: int| 0 <= j < pairs.len() && pairs[j] == rows[i];
        assert(scanned_members(g, after, pairs[j].4 as int, pairs[j].3 as int, n, 0) == forum_country_members(
            g,
            after,
            pairs[j].4 as int,
            pairs[j].3 as int,
        ));
    }
    assert forall|f: u32, c: u32| #[trigger] forum_country_members(g, after, c as int, f as int) > 0 implies exists|
        i: int,
    | 0 <= i < rows.len() && pair_of(#[trigger] rows[i]) == (f, c) by {
        assert(scanned_members(g, after, c as int, f as int, n, 0) > 0);
        let j = choose|j: int| 0 <= j < pairs.len() && pair_of(#[trigger] pairs[j]) == (f, c);
        assert(pairs.contains(pairs[j]));
        assert(pairs.to_multiset().count(pairs[j]) > 0);
        assert(rows.contains(pairs[j]));
        let i = choose|i: int| 0 <= i < rows.len() && rows[i] == pairs[j];
        assert(pair_of(rows[i]) == (f, c));
    }
}

/// Whether `x` occurs in `v`.
fn holds_u32(v: &Vec<u32>, x: u32) -> (r: bool)
    ensures
        r == v@.contains(x),
{
    let mut i: usize = 0;
    while i < v.len()
        invariant
            i <= v@.len(),
            forall|q: int| 0 <= q < i ==> v@[q] != x,
        decreases v.len() - i,
    {
        if v[i] == x {
            proof {
                assert(v@[i as int] == x);
            }
            return true;
        }
        i = i + 1;
    }
    false
}

/// The distinct forums of the ranked rows, the first 100.
fn leading_forums(ranked: &Vec<(i64, i64, i64, u32, u32)>) -> (top: Vec<u32>)
    ensures
        top@ == first_forums(ranked@, ranked@.len() as int, 100),
        top@.len() <= 100,
{
    let mut top: Vec<u32> = Vec::new();
    let mut k: usize = 0;
    while k < ranked.len()
        invariant
            k <= ranked@.len(),
            top@ == first_forums(ranked@, k as int, 100),
            top@.len() <= 100,
        decreases ranked.len() - k,
    {
        let f = ranked[k].3;
        if top.len() < 100 && !holds_u32(&top, f) {
            top.push(f);
        }
        k = k + 1;
    }
    top
}

/// Person `p` is a member of one of the first `i` forums of `top`.
pub open spec fn member_upto(g: PropGraph, top: Seq<u32>, p: int, i: int) -> bool {
    exists|q: int| 0 <= q < i && #[trigger] targets(g, top[q] as int, "hasMember"@).contains(p as u32)
}

/// For every node id, whether it is a member of one of the forums `top`.
fn member_marks(g: &PropGraph, top: &Vec<u32>) -> (marks: Vec<bool>)
    requires
        g.labels@.len() <= u32::MAX,
        rels_within(*g),
    ensures
        marks@.len() == g.labels@.len(),
        forall|p: int| 0 <= p < marks@.len() ==> #[trigger] marks@[p] == is_member(*g, top@, p),
{
    let n = g.labels.len();
    let mut marks: Vec<bool> = Vec::new();
    while marks.len() < n
        invariant
            marks@.len() <= n,
            forall|p: int| 0 <= p < marks@.len() ==> !#[trigger] marks@[p],
        decreases n - marks.len(),
    {
        marks.push(false);
    }
    let mut i: usize = 0;
    while i < top.len()
        invariant
            n == g.labels@.len(),
            n <= u32::MAX,
            rels_within(*g),
            marks@.len() == n,
            i <= top@.len(),
            forall|p: int| 0 <= p < n ==> #[trigger] marks@[p] == member_upto(*g, top@, p, i as int),
        decreases top.len() - i,
    {
        let ms = targets_of(g, top[i], "hasMember");
        proof {
            lemma_targets_within(*g, top@[i as int] as int, "hasMember"@, g.rels@.len() as int);
        }
        let mut j: usize = 0;
        while j < ms.len()
            invariant
                n == g.labels@.len(),
                n <= u32::MAX,
                marks@.len() == n,
                i < top@.len(),
                ms@ == targets(*g, top@[i as int] as int, "hasMember"@),
                forall|q: int| 0 <= q < ms@.len() ==> (#[trigger] ms@[q] as int) < n,
                j <= ms@.len(),
                forall|p: int|
                    0 <= p < n ==> #[trigger] marks@[p] == (member_upto(*g, top@, p, i as int) || ms@.take(
                        j as int,
                    ).contains(p as u32)),
            decreases ms.len() - j,
        {
            let m = ms[j];
            marks.set(m as usize, true);
            proof {
                assert forall|p: int| 0 <= p < n implies #[trigger] marks@[p] == (member_upto(*g, top@, p, i as int)
                    || ms@.take(j + 1).contains(p as u32)) by {
                    assert(ms@.take(j + 1) =~= ms@.take(j as int).push(m));
                    if p == m as int {
                        assert(ms@.take(j + 1)[j as int] == m);
                    }
                }
            }
            j = j + 1;
        }
        proof {
            assert(ms@.take(j as int) =~= ms@);
            assert forall|p: int| 0 <= p < n implies #[trigger] marks@[p] == member_upto(*g, top@, p, i + 1) by {
                if ms@.contains(p as u32) {
                    assert(targets(*g, top@[i as int] as int, "hasMember"@).contains(p as u32));
                }
                if member_upto(*g, top@, p, i + 1) && !member_upto(*g, top@, p, i as int) {
                    let q = choose|q: int| 0 <= q < i + 1 && #[trigger] targets(*g, top@[q] as int, "hasMember"@).contains(p as u32);
                    assert(q == i);
                }
            }
        }
        i = i + 1;
    }
    proof {
        assert forall|p: int| 0 <= p < n implies #[trigger] marks@[p] == is_member(*g, top@, p) by {
            assert(member_upto(*g, top@, p, top@.len() as int) == is_member(*g, top@, p));
        }
    }
    marks
}

proof fn lemma_thread_by_mono(g: PropGraph, p: int, post: int, k: int, m: int)
    requires
        k <= m,
    ensures
        thread_by(g, p, post, k) <= thread_by(g, p, post, m),
    decreases m - k,
{
    if k < m {
        lemma_thread_by_mono(g, p, post, k, m - 1);
    }
}

proof fn lemma_posts_by_mono(g: PropGraph, p: int, f: int, j: int, m: int)
    requires
        j <= m,
    ensures
        posts_by(g, p, f, j) <= posts_by(g, p, f, m),
    decreases m - j,
{
    if j < m {
        lemma_posts_by_mono(g, p, f, j, m - 1);
    }
}

proof fn lemma_forums_by_mono(g: PropGraph, p: int, top: Seq<u32>, i: int, m: int)
    requires
        i <= m,
    ensures
        forums_by(g, p, top, i) <= forums_by(g, p, top, m),
    decreases m - i,
{
    if i < m {
        lemma_forums_by_mono(g, p, top, i, m - 1);
    }
}

/// A count part-way through the thread scan is at most the final count.
proof fn lemma_partial_count(g: PropGraph, p: int, top: Seq<u32>, i: int, j: int, m: int)
    requires
        0 <= i < top.len(),
        0 <= j < targets(g, top[i] as int, "containerOf"@).len(),
        0 <= m <= g.labels@.len(),
    ensures
        forums_by(g, p, top, i) + posts_by(g, p, top[i] as int, j) + thread_by(
            g,
            p,
            targets(g, top[i] as int, "containerOf"@)[j] as int,
            m,
        ) <= forums_by(g, p, top, top.len() as int),
{
    let f = top[i] as int;
    let posts = targets(g, f, "containerOf"@);
    lemma_thread_by_mono(g, p, posts[j] as int, m, g.labels@.len() as int);
    lemma_posts_by_mono(g, p, f, j + 1, posts.len() as int);
    lemma_forums_by_mono(g, p, top, i + 1, top.len() as int);
}

/// The thread messages of every person over the forums `top`, by node id.
fn thread_counts(g: &PropGraph, top: &Vec<u32>) -> (counts: Vec<u64>)
    requires
        g.labels@.len() <= u32::MAX,
        g.rels@.len() <= u32::MAX,
        rels_within(*g),
        top@.len() <= 100,
        forall|p: int| 0 <= p < g.labels@.len() ==> #[trigger] forums_by(*g, p, top@, top@.len() as int) <= i64::MAX,
    ensures
        counts@.len() == g.labels@.len(),
        forall|p: int| 0 <= p < counts@.len() ==> #[trigger] counts@[p] as int == forums_by(*g, p, top@, top@.len() as int),
        forall|p: int| 0 <= p < counts@.len() ==> #[trigger] counts@[p] <= i64::MAX,
{
    let n = g.labels.len();
    let ghost rr = g.rels@.len() as int;
    let mut counts: Vec<u64> = Vec::new();
    while counts.len() < n
        invariant
            counts@.len() <= n,
            forall|p: int| 0 <= p < counts@.len() ==> #[trigger] counts@[p] == 0,
        decreases n - counts.len(),
    {
        counts.push(0);
    }
    let mut i: usize = 0;
    while i < top.len()
        invariant
            n == g.labels@.len(),
            n <= u32::MAX,
            rr == g.rels@.len(),
            rr <= u32::MAX,
            rels_within(*g),
            top@.len() <= 100,
            forall|p: int| 0 <= p < n ==> #[trigger] forums_by(*g, p, top@, top@.len() as int) <= i64::MAX,
            counts@.len() == n,
            i <= top@.len(),
            forall|p: int| 0 <= p < n ==> #[trigger] counts@[p] as int == forums_by(*g, p, top@, i as int),
        decreases top.len() - i,
    {
        let f = top[i];
        let posts = targets_of(g, f, "containerOf");
        proof {
            lemma_targets_bound(*g, f as int, "containerOf"@, rr);
        }
        let mut j: usize = 0;
        while j < posts.len()
            invariant
                n == g.labels@.len(),
                n <= u32::MAX,
                rr == g.rels@.len(),
                rels_within(*g),
                top@.len() <= 100,
                forall|p: int| 0 <= p < n ==> #[trigger] forums_by(*g, p, top@, top@.len() as int) <= i64::MAX,
                counts@.len() == n,
                i < top@.len(),
                f == top@[i as int],
                posts@ == targets(*g, f as int, "containerOf"@),
                posts@.len() <= rr,
                j <= posts@.len(),
                forall|p: int|
                    0 <= p < n ==> #[trigger] counts@[p] as int == forums_by(*g, p, top@, i as int) + posts_by(
                        *g,
                        p,
                        f as int,
                        j as int,
                    ),
            decreases posts.len() - j,
        {
            let post = posts[j];
            let mut m: usize = 0;
            while m < n
                invariant
                    n == g.labels@.len(),
                    n <= u32::MAX,
                    rr == g.rels@.len(),
                    rels_within(*g),
                    top@.len() <= 100,
                    forall|p: int| 0 <= p < n ==> #[trigger] forums_by(*g, p, top@, top@.len() as int) <= i64::MAX,
                    counts@.len() == n,
                    i < top@.len(),
                    f == top@[i as int],
                    posts@ == targets(*g, f as int, "containerOf"@),
                    posts@.len() <= rr,
                    j < posts@.len(),
                    post == posts@[j as int],
                    m <= n,
                    forall|p: int|
                        0 <= p < n ==> #[trigger] counts@[p] as int == forums_by(*g, p, top@, i as int) + posts_by(
                            *g,
                            p,
                            f as int,
                            j as int,
                        ) + thread_by(*g, p, post as int, m as int),
                decreases n - m,
            {
                if in_thread(g, m as u32, post, n) {
                    match message_creator(g, m as u32) {
                        Some(c) => {
                            proof {
                                lemma_sources_within(*g, m as int, "hasCreator"@, rr);
                                assert((c as int) < n);
                                lemma_partial_count(*g, c as int, top@, i as int, j as int, m + 1);
                                assert(forums_by(*g, c as int, top@, top@.len() as int) <= i64::MAX);
                            }
                            let bumped = counts[c as usize] + 1;
                            counts.set(c as usize, bumped);
                        },
                        None => {},
                    }
                }
                m = m + 1;
            }
            j = j + 1;
        }
        i = i + 1;
    }
    proof {
        assert forall|p: int| 0 <= p < counts@.len() implies #[trigger] counts@[p] <= i64::MAX by {
            assert(forums_by(*g, p, top@, top@.len() as int) <= i64::MAX);
        }
    }
    counts
}

/// BI Q4: the top message creators. The (forum, country) pairs of forums
/// created after `after_day` are ranked by the forum's members from that
/// country (a member's country is the first place their first city is part
/// of), most first, then by forum LDBC id, then by country LDBC id; the first
/// 100 distinct forums of that ranking are kept. Their members are ranked by
/// the messages they created in the reply threads of those forums' posts,
/// most first, then by LDBC id. Returns the first 100 as `(LDBC id,
/// messages)`, and the kept forums' LDBC ids ascending. Nothing when the
/// graph has no relationship of one of the types the query follows.
pub fn q4_top_creators(g: &PropGraph, after_day: i64) -> (r: (Vec<(i64, i64)>, Vec<i64>))
    requires
        g.labels@.len() <= u32::MAX,
        g.rels@.len() <= u32::MAX,
        rels_within(*g),
        single_reply(*g),
        forall|ranked: Seq<(i64, i64, i64, u32, u32)>, p: int|
            #![trigger ranked_pairs(*g, after_day, ranked), forums_by(*g, p, first_forums(ranked, ranked.len() as int, 100), first_forums(ranked, ranked.len() as int, 100).len() as int)]
            ranked_pairs(*g, after_day, ranked) && 0 <= p < g.labels@.len() ==> forums_by(
                *g,
                p,
                first_forums(ranked, ranked.len() as int, 100),
                first_forums(ranked, ranked.len() as int, 100).len() as int,
            ) <= i64::MAX,
    ensures
        !q4_types_present(*g) ==> r.0@.len() == 0 && r.1@.len() == 0,
        q4_types_present(*g) ==> exists|ranked: Seq<(i64, i64, i64, u32, u32)>|
            #[trigger] ranked_pairs(*g, after_day, ranked) && r.0@ == top_creator_rows(
                *g,
                first_forums(ranked, ranked.len() as int, 100),
            ) && r.1@ == top_forum_ids(*g, first_forums(ranked, ranked.len() as int, 100)),
{
    if !(rel_type_present(g, "hasMember") && rel_type_present(g, "isLocatedIn") && rel_type_present(g, "isPartOf")
        && rel_type_present(g, "containerOf") && rel_type_present(g, "hasCreator") && rel_type_present(
        g,
        "replyOf",
    )) {
        return (Vec::new(), Vec::new());
    }
    let n = g.labels.len();
    let pairs = count_pairs(g, after_day);
    let ghost counted = pairs@;
    let ranked = sort_ranked(pairs);
    proof {
        lemma_pairs_ranked(*g, after_day, counted, ranked@);
    }
    let top = leading_forums(&ranked);
    let marks = member_marks(g, &top);
    let counts = thread_counts(g, &top);
    let mut rows: Vec<(i64, i64, u32)> = Vec::new();
    let mut p: usize = 0;
    while p < n
        invariant
            n == g.labels@.len(),
            n <= u32::MAX,
            marks@.len() == n,
            counts@.len() == n,
            forall|q: int| 0 <= q < n ==> #[trigger] marks@[q] == is_member(*g, top@, q),
            forall|q: int| 0 <= q < n ==> #[trigger] counts@[q] as int == forums_by(*g, q, top@, top@.len() as int),
            forall|q: int| 0 <= q < n ==> #[trigger] counts@[q] <= i64::MAX,
            p <= n,
            rows@ == member_rows(*g, top@, p as int),
        decreases n - p,
    {
        if marks[p] {
            let c = counts[p] as i64;
            let plid = int_prop_of(g, p as u32, "plid");
            rows.push((c, plid, p as u32));
        }
        p = p + 1;
    }
    let best = rank_and_take(rows, 100);
    let mut out: Vec<(i64, i64)> = Vec::new();
    let mut k: usize = 0;
    while k < best.len()
        invariant
            k <= best@.len(),
            out@ == best@.take(k as int).map_values(|r: (i64, i64, u32)| (r.1, r.0)),
        decreases best.len() - k,
    {
        out.push((best[k].1, best[k].0));
        proof {
            assert(best@.take(k + 1) =~= best@.take(k as int).push(best@[k as int]));
            assert(out@ =~= best@.take(k + 1).map_values(|r: (i64, i64, u32)| (r.1, r.0)));
        }
        k = k + 1;
    }
    let mut ids: Vec<i64> = Vec::new();
    let mut i: usize = 0;
    while i < top.len()
        invariant
            i <= top@.len(),
            ids@ == top@.take(i as int).map_values(|f: u32| int_value(*g, f as int, "flid"@)),
        decreases top.len() - i,
    {
        ids.push(int_prop_of(g, top[i], "flid"));
        proof {
            assert(top@.take(i + 1) =~= top@.take(i as int).push(top@[i as int]));
            assert(ids@ =~= top@.take(i + 1).map_values(|f: u32| int_value(*g, f as int, "flid"@)));
        }
        i = i + 1;
    }
    proof {
        assert(best@.take(k as int) =~= best@);
        assert(top@.take(i as int) =~= top@);
    }
    let sorted_ids = sort_ranked(ids);
    proof {
        assert(ranked_pairs(*g, after_day, ranked@));
    }
    (out, sorted_ids)
}

/// Q4 ranks the members of the chosen forums by their thread messages: the
/// count never grows down the answer, and a member left out has no more
/// messages than any member in it.
pub proof fn law_q4_most_messages_first(g: PropGraph, top: Seq<u32>)
    ensures
        forall|i: int, j: int|
            0 <= i < j < top_creator_rows(g, top).len() ==> (#[trigger] top_creator_rows(g, top)[i]).1 >= (
            #[trigger] top_creator_rows(g, top)[j]).1,
        forall|q: int, i: int|
            #![trigger member_rows(g, top, g.labels@.len() as int)[q], top_creator_rows(g, top)[i]]
            0 <= q < member_rows(g, top, g.labels@.len() as int).len() && !top_creator_rows(g, top).contains(
                (member_rows(g, top, g.labels@.len() as int)[q].1, member_rows(g, top, g.labels@.len() as int)[q].0),
            ) && 0 <= i < top_creator_rows(g, top).len() ==> member_rows(g, top, g.labels@.len() as int)[q].0
                <= top_creator_rows(g, top)[i].1,
{
    let keys = member_rows(g, top, g.labels@.len() as int);
    lemma_ranked_take(keys, 100);
    let k = take_upto(keys.sort_by(rank_rel::<(i64, i64, u32)>()), 100);
    let res = top_creator_rows(g, top);
    assert(res == k.map_values(|r: (i64, i64, u32)| (r.1, r.0)));
    assert forall|i: int, j: int| 0 <= i < j < res.len() implies (#[trigger] res[i]).1 >= (#[trigger] res[j]).1 by {
        assert(k[i].ranks_le(k[j]));
    }
    assert forall|q: int, i: int|
        #![trigger keys[q], res[i]]
        0 <= q < keys.len() && !res.contains((keys[q].1, keys[q].0)) && 0 <= i < res.len() implies keys[q].0 <= res[i].1 by {
        assert(keys.contains(keys[q]));
        if k.contains(keys[q]) {
            let p = choose|p: int| 0 <= p < k.len() && k[p] == keys[q];
            assert(res[p] == (keys[q].1, keys[q].0));
        }
        assert(k[i].ranks_le(keys[q]));
    }
}

/// Q4 (forum, country) rows: more members come first, and a row comes no later than another only with no fewer members.
pub proof fn law_pair_rows_most_members_first(a: (i64, i64, i64, u32, u32), b: (i64, i64, i64, u32, u32))
    ensures
        a.0 > b.0 ==> a.ranks_le(b),
        a.ranks_le(b) ==> a.0 >= b.0,
{
}

/// Q4 member rows: more messages come first, and a row comes no later than another only with no fewer messages.
pub proof fn law_member_rows_most_messages_first(a: (i64, i64, u32), b: (i64, i64, u32))
    ensures
        a.0 > b.0 ==> a.ranks_le(b),
        a.ranks_le(b) ==> a.0 >= b.0,
{
}

/// Forum ids rank in ascending order.
pub proof fn law_forum_ids_ascending(a: i64, b: i64)
    ensures
        a < b ==> a.ranks_le(b),
        a.ranks_le(b) ==> a <= b,
{
}

} // verus!
