//! The SNB Interactive reads: short reads of one person or message, and the
//! complex reads that reach out over the `knows` graph (friends within a few
//! hops, their recent messages, the hop distance between two persons).
//!
//! The graph holds persons with `fname`, `lname`, `pday` (creation day) and
//! `plid` (LDBC id), messages with `day` and `ms` (creation day and epoch
//! milliseconds), `knows` relationships between persons (one each way) and
//! `hasCreator` relationships from a person to each message it created.
use vstd::prelude::*;
use crate::bi::interaction::{interaction_map, interactions};
use crate::graphalytics::{bfs, shortest_depths, UNREACHED};
use crate::rdfgraph::{text_copy, PropGraph};
use crate::ranking::{rank_and_take, rank_rel, sort_ranked, take_upto, view_rel, views, ViewOrder, sort_and_take};
use crate::rdfload::same_text;
use crate::spb::access::{int_prop_of, int_value, out_lists, sources, sources_of, targets, targets_of, text_prop, text_prop_of};
use crate::topology::{kept_edges, out_list, Topology};

verus! {

/// The `knows` relationships among the first `k`, as `(from, to)` pairs.
pub open spec fn knows_upto(g: PropGraph, k: int) -> Seq<(u32, u32)>
    decreases k,
{
    if k <= 0 {
        Seq::empty()
    } else if g.rels@[k - 1].2@ == "knows"@ {
        knows_upto(g, k - 1).push((g.rels@[k - 1].0, g.rels@[k - 1].1))
    } else {
        knows_upto(g, k - 1)
    }
}

/// `t` is the `knows` graph of `g`: one node per node of `g`, each with the
/// targets of its `knows` relationships (in relationship order).
pub open spec fn knows_graph(g: PropGraph, t: Topology) -> bool {
    &&& t.node_count() == g.labels@.len()
    &&& forall|v: int|
        0 <= v < t.node_count() ==> #[trigger] t.outgoing(v) == out_list(
            kept_edges(knows_upto(g, g.rels@.len() as int), g.labels@.len() as int),
            v,
        )
}

/// `dist` holds the `knows` hop counts from person `s`: the breadth-first
/// depths over the knows graph, `UNREACHED` where no chain of `knows` leads.
pub open spec fn knows_depths(g: PropGraph, s: int, dist: Seq<i64>) -> bool {
    exists|t: Topology| knows_graph(g, t) && #[trigger] shortest_depths(t, true, s, dist)
}

fn knows_topology(g: &PropGraph) -> (t: Topology)
    requires
        g.labels@.len() <= u32::MAX,
    ensures
        knows_graph(*g, t),
{
    let mut edges: Vec<(u32, u32)> = Vec::new();
    let mut k: usize = 0;
    while k < g.rels.len()
        invariant
            k <= g.rels@.len(),
            edges@ == knows_upto(*g, k as int),
        decreases g.rels.len() - k,
    {
        proof {
            reveal_strlit("knows");
        }
        if same_text(g.rels[k].2.as_str(), "knows") {
            edges.push((g.rels[k].0, g.rels[k].1));
        }
        k = k + 1;
    }
    Topology::from_edges(g.labels.len() as u32, edges.as_slice())
}

/// The `knows` hop counts from person `s`, with the witness that they are
/// the breadth-first depths of the knows graph.
pub(crate) fn hops_from(g: &PropGraph, s: u32) -> (dist: Vec<i64>)
    requires
        g.labels@.len() <= u32::MAX,
        (s as int) < g.labels@.len(),
    ensures
        knows_depths(*g, s as int, dist@),
        dist@.len() == g.labels@.len(),
{
    let t = knows_topology(g);
    let dist = bfs(&t, s, true);
    proof {
        assert(shortest_depths(t, true, s as int, dist@));
    }
    dist
}

/// IC13: the number of `knows` hops on a shortest chain from `p1` to `p2`;
/// 0 for the same person, -1 when no chain leads there.
pub fn ic13_shortest_path(g: &PropGraph, p1: u32, p2: u32) -> (r: i64)
    requires
        g.labels@.len() <= u32::MAX,
    ensures
        p1 == p2 ==> r == 0,
        p1 != p2 && (p1 as int) < g.labels@.len() ==> exists|dist: Seq<i64>|
            #[trigger] knows_depths(*g, p1 as int, dist) && r == if (p2 as int) < dist.len() && dist[p2 as int] != UNREACHED {
                dist[p2 as int]
            } else {
                -1i64
            },
        p1 != p2 && (p1 as int) >= g.labels@.len() ==> r == -1,
{
    if p1 == p2 {
        return 0;
    }
    if (p1 as usize) >= g.labels.len() {
        return -1;
    }
    let dist = hops_from(g, p1);
    let r = if (p2 as usize) < dist.len() && dist[p2 as usize] != UNREACHED {
        dist[p2 as usize]
    } else {
        -1
    };
    proof {
        assert(knows_depths(*g, p1 as int, dist@));
    }
    r
}

/// The `(message, ms)` rows of the first `j` of the messages `ms` created
/// on or before day `max_day`.
pub open spec fn dated_msgs(g: PropGraph, ms: Seq<u32>, max_day: i64, j: int) -> Seq<(u32, i64)>
    decreases j,
{
    if j <= 0 {
        Seq::empty()
    } else if int_value(g, ms[j - 1] as int, "day"@) <= max_day {
        dated_msgs(g, ms, max_day, j - 1).push((ms[j - 1], int_value(g, ms[j - 1] as int, "ms"@)))
    } else {
        dated_msgs(g, ms, max_day, j - 1)
    }
}

/// The `(message, ms)` rows of the messages that person `p` created on or
/// before day `max_day`, in relationship order.
pub open spec fn messages_of(g: PropGraph, p: int, max_day: i64) -> Seq<(u32, i64)> {
    dated_msgs(g, targets(g, p, "hasCreator"@), max_day, targets(g, p, "hasCreator"@).len() as int)
}

/// The messages of the first `j` persons of `people`, one after another.
pub open spec fn messages_of_all(g: PropGraph, people: Seq<u32>, max_day: i64, j: int) -> Seq<(u32, i64)>
    decreases j,
{
    if j <= 0 {
        Seq::empty()
    } else {
        messages_of_all(g, people, max_day, j - 1) + messages_of(g, people[j - 1] as int, max_day)
    }
}

/// Append to `rows` the dated messages of the person whose created messages
/// are `ms`.
fn push_messages(g: &PropGraph, ms: &Vec<u32>, max_day: i64, rows: &mut Vec<(u32, i64)>)
    ensures
        final(rows)@ == old(rows)@ + dated_msgs(*g, ms@, max_day, ms@.len() as int),
{
    let ghost start = rows@;
    let mut j: usize = 0;
    while j < ms.len()
        invariant
            j <= ms@.len(),
            rows@ == start + dated_msgs(*g, ms@, max_day, j as int),
        decreases ms.len() - j,
    {
        let m = ms[j];
        if int_prop_of(g, m, "day") <= max_day {
            let ms_value = int_prop_of(g, m, "ms");
            rows.push((m, ms_value));
            proof {
                assert(start + dated_msgs(*g, ms@, max_day, j + 1) =~= (start + dated_msgs(*g, ms@, max_day, j as int)).push(
                    (m, ms_value),
                ));
            }
        }
        j = j + 1;
    }
}

/// IC2: the 20 most recent messages of the person's friends (one list per
/// `knows` relationship), created on or before `max_day`, newest first
/// (message id ascending on ties), as `(message, ms)`.
pub fn ic2_recent_messages(g: &PropGraph, person: u32, max_day: i64) -> (r: Vec<(u32, i64)>)
    ensures
        r@ == take_upto(
            messages_of_all(
                *g,
                targets(*g, person as int, "knows"@),
                max_day,
                targets(*g, person as int, "knows"@).len() as int,
            ).sort_by(rank_rel::<(u32, i64)>()),
            20,
        ),
{
    let friends = targets_of(g, person, "knows");
    let mut rows: Vec<(u32, i64)> = Vec::new();
    let mut j: usize = 0;
    while j < friends.len()
        invariant
            friends@ == targets(*g, person as int, "knows"@),
            j <= friends@.len(),
            rows@ == messages_of_all(*g, friends@, max_day, j as int),
        decreases friends.len() - j,
    {
        let made = targets_of(g, friends[j], "hasCreator");
        push_messages(g, &made, max_day, &mut rows);
        j = j + 1;
    }
    rank_and_take(rows, 20)
}

/// IS2: the person's own 10 most recent messages created on or before
/// `max_day`, newest first (message id ascending on ties), as
/// `(message, ms)`.
pub fn is2_recent_of_person(g: &PropGraph, person: u32, max_day: i64) -> (r: Vec<(u32, i64)>)
    ensures
        r@ == take_upto(messages_of(*g, person as int, max_day).sort_by(rank_rel::<(u32, i64)>()), 10),
{
    let made = targets_of(g, person, "hasCreator");
    let mut rows: Vec<(u32, i64)> = Vec::new();
    push_messages(g, &made, max_day, &mut rows);
    proof {
        assert(rows@ =~= messages_of(*g, person as int, max_day));
    }
    rank_and_take(rows, 10)
}

/// IS3: the targets of the person's `knows` relationships, sorted by id.
pub fn is3_friends(g: &PropGraph, person: u32) -> (r: Vec<u32>)
    ensures
        r@ == targets(*g, person as int, "knows"@).sort_by(rank_rel::<u32>()),
{
    sort_ranked(targets_of(g, person, "knows"))
}

/// IS5: the creator of a message: the source of its first `hasCreator`
/// relationship.
pub fn is5_message_creator(g: &PropGraph, message: u32) -> (r: Option<u32>)
    ensures
        r == if sources(*g, message as int, "hasCreator"@).len() > 0 {
            Some(sources(*g, message as int, "hasCreator"@)[0])
        } else {
            None
        },
{
    let s = sources_of(g, message, "hasCreator");
    if s.len() > 0 {
        Some(s[0])
    } else {
        None
    }
}

/// The profile of person `p`: first name, last name and creation day, when
/// both names are present.
pub open spec fn profile(g: PropGraph, p: int) -> Option<(Seq<char>, Seq<char>, i64)> {
    match (text_prop(g, p, "fname"@), text_prop(g, p, "lname"@)) {
        (Some(f), Some(l)) => Some((f, l, int_value(g, p, "pday"@))),
        _ => None,
    }
}

/// IS1: a person's profile, `(firstName, lastName, creation day)`; `None`
/// when a name is missing.
pub fn is1_profile(g: &PropGraph, person: u32) -> (r: Option<(String, String, i64)>)
    ensures
        match r {
            Some(t) => profile(*g, person as int) == Some((t.0@, t.1@, t.2)),
            None => profile(*g, person as int) is None,
        },
{
    let f = match text_prop_of(g, person, "fname") {
        Some(f) => f,
        None => return None,
    };
    let l = match text_prop_of(g, person, "lname") {
        Some(l) => l,
        None => return None,
    };
    Some((text_copy(f), text_copy(l), int_prop_of(g, person, "pday")))
}

/// The messages created on or before `max_day` by the persons below node
/// id `i` at one or two hops (`dist` holding the hop counts), person by person.
pub open spec fn near_messages(g: PropGraph, dist: Seq<i64>, max_day: i64, i: int) -> Seq<(u32, i64)>
    decreases i,
{
    if i <= 0 {
        Seq::empty()
    } else if 1 <= dist[i - 1] <= 2 {
        near_messages(g, dist, max_day, i - 1) + messages_of(g, i - 1, max_day)
    } else {
        near_messages(g, dist, max_day, i - 1)
    }
}

/// IC9: the 20 most recent messages created on or before `max_day` by the
/// persons one or two `knows` hops from `person` (not the person), newest
/// first (message id ascending on ties), as `(message, ms)`.
pub fn ic9_fof_messages(g: &PropGraph, person: u32, max_day: i64) -> (r: Vec<(u32, i64)>)
    requires
        g.labels@.len() <= u32::MAX,
    ensures
        (person as int) < g.labels@.len() ==> exists|dist: Seq<i64>|
            #[trigger] knows_depths(*g, person as int, dist) && dist.len() == g.labels@.len() && r@ == take_upto(
                near_messages(*g, dist, max_day, g.labels@.len() as int).sort_by(rank_rel::<(u32, i64)>()),
                20,
            ),
        (person as int) >= g.labels@.len() ==> r@ == Seq::<(u32, i64)>::empty(),
{
    if (person as usize) >= g.labels.len() {
        return Vec::new();
    }
    let dist = hops_from(g, person);
    let n = g.labels.len();
    let mut rows: Vec<(u32, i64)> = Vec::new();
    let mut p: usize = 0;
    while p < n
        invariant
            n == g.labels@.len(),
            n <= u32::MAX,
            dist@.len() == n,
            p <= n,
            rows@ == near_messages(*g, dist@, max_day, p as int),
        decreases n - p,
    {
        if 1 <= dist[p] && dist[p] <= 2 {
            let made = targets_of(g, p as u32, "hasCreator");
            push_messages(g, &made, max_day, &mut rows);
        }
        p = p + 1;
    }
    let r = rank_and_take(rows, 20);
    proof {
        assert(knows_depths(*g, person as int, dist@));
    }
    r
}

/// The `(hops, last name, LDBC id, node)` rows of the persons below node id
/// `i` at one to three hops (`dist` holding the hop counts) whose first name
/// is `first_name`; a missing last name reads as empty.
pub open spec fn named_friends(g: PropGraph, dist: Seq<i64>, first_name: Seq<char>, i: int) -> Seq<(u32, Seq<char>, i64, u32)>
    decreases i,
{
    if i <= 0 {
        Seq::empty()
    } else if 1 <= dist[i - 1] <= 3 && text_prop(g, i - 1, "fname"@) == Some(first_name) {
        named_friends(g, dist, first_name, i - 1).push(
            (
                dist[i - 1] as u32,
                match text_prop(g, i - 1, "lname"@) {
                    Some(l) => l,
                    None => Seq::empty(),
                },
                int_value(g, i - 1, "plid"@),
                (i - 1) as u32,
            ),
        )
    } else {
        named_friends(g, dist, first_name, i - 1)
    }
}

/// The first twenty friends in order, as `(node, hops, last name)`.
pub open spec fn friends_by_name(g: PropGraph, dist: Seq<i64>, first_name: Seq<char>) -> Seq<(u32, u32, Seq<char>)> {
    take_upto(
        named_friends(g, dist, first_name, dist.len() as int).sort_by(view_rel::<(u32, String, i64, u32)>()),
        20,
    ).map_values(|r: (u32, Seq<char>, i64, u32)| (r.3, r.0, r.1))
}

/// IC1: the persons within three `knows` hops of `person` (not the person)
/// whose first name is `first_name`, ordered by hops, then last name, then
/// LDBC id; the first twenty, as `(person, hops, last name)`.
pub fn ic1_friends_by_name(g: &PropGraph, person: u32, first_name: &str) -> (r: Vec<(u32, u32, String)>)
    requires
        g.labels@.len() <= u32::MAX,
    ensures
        (person as int) < g.labels@.len() ==> exists|dist: Seq<i64>|
            #[trigger] knows_depths(*g, person as int, dist) && dist.len() == g.labels@.len() && views(r@)
                == friends_by_name(*g, dist, first_name@),
        (person as int) >= g.labels@.len() ==> r@ == Seq::<(u32, u32, String)>::empty(),
{
    if (person as usize) >= g.labels.len() {
        return Vec::new();
    }
    let dist = hops_from(g, person);
    let n = g.labels.len();
    let mut rows: Vec<(u32, String, i64, u32)> = Vec::new();
    let mut p: usize = 0;
    while p < n
        invariant
            n == g.labels@.len(),
            n <= u32::MAX,
            dist@.len() == n,
            p <= n,
            views(rows@) == named_friends(*g, dist@, first_name@, p as int),
        decreases n - p,
    {
        if 1 <= dist[p] && dist[p] <= 3 {
            match text_prop_of(g, p as u32, "fname") {
                Some(f) => {
                    if same_text(f, first_name) {
                        let last = match text_prop_of(g, p as u32, "lname") {
                            Some(l) => text_copy(l),
                            None => String::new(),
                        };
                        let ghost before = views(rows@);
                        let plid = int_prop_of(g, p as u32, "plid");
                        rows.push((dist[p] as u32, last, plid, p as u32));
                        proof {
                            assert(views(rows@) =~= before.push(
                                (
                                    dist@[p as int] as u32,
                                    match text_prop(*g, p as int, "lname"@) {
                                        Some(l) => l,
                                        None => Seq::empty(),
                                    },
                                    plid,
                                    p as u32,
                                ),
                            ));
                        }
                    }
                },
                None => {},
            }
        }
        p = p + 1;
    }
    let top = sort_and_take(rows, 20);
    let mut out: Vec<(u32, u32, String)> = Vec::new();
    let mut k: usize = 0;
    while k < top.len()
        invariant
            k <= top@.len(),
            views(out@) == views(top@).take(k as int).map_values(|r: (u32, Seq<char>, i64, u32)| (r.3, r.0, r.1)),
        decreases top.len() - k,
    {
        let ghost before = views(out@);
        let last = text_copy(top[k].1.as_str());
        out.push((top[k].3, top[k].0, last));
        proof {
            let row = views(top@)[k as int];
            assert(row == (top@[k as int].0, top@[k as int].1@, top@[k as int].2, top@[k as int].3));
            assert(views(out@) =~= before.push((row.3, row.0, row.1)));
            assert(views(top@).take(k + 1) =~= views(top@).take(k as int).push(row));
            assert(views(out@) =~= views(top@).take(k + 1).map_values(|r: (u32, Seq<char>, i64, u32)| (r.3, r.0, r.1)));
        }
        k = k + 1;
    }
    proof {
        assert(views(top@).take(k as int) =~= views(top@));
        assert(knows_depths(*g, person as int, dist@));
    }
    out
}

/// Reproducible substitution parameters for the Interactive reads, derived
/// from the loaded graph.
pub struct IcSeeds {
    /// The best-connected person (most `knows` relationships).
    pub person: u32,
    /// The last creation day the "recent" reads look at.
    pub max_day: i64,
    /// A first name among the person's friends within three hops.
    pub first_name: String,
    /// A person that `person` reaches over `knows`, as far as any.
    pub person_b: u32,
}

/// The `knows` degree of node `p`, as the 32-bit count the seed picks by.
pub open spec fn knows_degree(g: PropGraph, p: int) -> u32 {
    targets(g, p, "knows"@).len() as u32
}

/// Over the persons below node id `i`, the `(degree, person)` of the first
/// one with the largest `knows` degree.
pub open spec fn best_connected(g: PropGraph, i: int) -> Option<(u32, u32)>
    decreases i,
{
    if i <= 0 {
        None
    } else {
        let before = best_connected(g, i - 1);
        if crate::spb::access::labelled(g, i - 1, "Person"@) {
            let deg = knows_degree(g, i - 1);
            match before {
                Some(b) => if b.0 > deg || (b.0 == deg && b.1 <= i - 1) {
                    before
                } else {
                    Some((deg, (i - 1) as u32))
                },
                None => Some((deg, (i - 1) as u32)),
            }
        } else {
            before
        }
    }
}

/// The first name of node `q` when it is a friend within three hops.
pub open spec fn near_name(g: PropGraph, dist: Seq<i64>, q: int) -> Option<Seq<char>> {
    if 1 <= dist[q] <= 3 {
        text_prop(g, q, "fname"@)
    } else {
        None
    }
}

/// How many of the nodes below id `i` are friends within three hops named `name`.
pub open spec fn name_count(g: PropGraph, dist: Seq<i64>, name: Seq<char>, i: int) -> nat
    decreases i,
{
    if i <= 0 {
        0
    } else {
        name_count(g, dist, name, i - 1) + if near_name(g, dist, i - 1) == Some(name) {
            1nat
        } else {
            0nat
        }
    }
}

/// `a` is a better seed name than `b`: more frequent, or as frequent and
/// first in text order.
pub open spec fn better_name(g: PropGraph, dist: Seq<i64>, a: Seq<char>, b: Seq<char>) -> bool {
    let ca = name_count(g, dist, a, dist.len() as int);
    let cb = name_count(g, dist, b, dist.len() as int);
    ca > cb || (ca == cb && crate::textorder::text_before(a, b))
}

/// The best of the names of the friends below node id `i` within three hops.
pub open spec fn best_name(g: PropGraph, dist: Seq<i64>, i: int) -> Option<Seq<char>>
    decreases i,
{
    if i <= 0 {
        None
    } else {
        let before = best_name(g, dist, i - 1);
        match near_name(g, dist, i - 1) {
            Some(c) => match before {
                Some(b) => if better_name(g, dist, c, b) {
                    Some(c)
                } else {
                    before
                },
                None => Some(c),
            },
            None => before,
        }
    }
}

/// Among the nodes below id `i` that the seed reaches (at one hop or more),
/// the first at the largest number of hops.
pub open spec fn farthest(dist: Seq<i64>, i: int) -> Option<u32>
    decreases i,
{
    if i <= 0 {
        None
    } else {
        let before = farthest(dist, i - 1);
        if 1 <= dist[i - 1] && dist[i - 1] != UNREACHED {
            match before {
                Some(b) => if dist[i - 1] > dist[b as int] {
                    Some((i - 1) as u32)
                } else {
                    before
                },
                None => Some((i - 1) as u32),
            }
        } else {
            before
        }
    }
}

/// The last day of 2012: days since the epoch of 2013-01-01.
pub open spec fn seed_max_day() -> int {
    crate::dates::civil_days(2013, 1, 1)
}

fn name_total(names: &Vec<(String, usize)>, name: &str) -> (r: usize)
    ensures
        r == match find_name(views(names@), name@, names@.len() as int) {
            Some(k) => names@[k].1,
            None => 0,
        },
{
    let mut k: usize = 0;
    while k < names.len()
        invariant
            k <= names@.len(),
            find_name(views(names@), name@, names@.len() as int) == find_name_from(views(names@), name@, k as int),
        decreases names.len() - k,
    {
        if same_text(names[k].0.as_str(), name) {
            return names[k].1;
        }
        k = k + 1;
    }
    0
}

/// The first index of `name` among the first names of `rows`, from `k` on.
pub open spec fn find_name_from(rows: Seq<(Seq<char>, usize)>, name: Seq<char>, k: int) -> Option<int>
    decreases rows.len() - k,
{
    if 0 <= k < rows.len() {
        if rows[k].0 == name {
            Some(k)
        } else {
            find_name_from(rows, name, k + 1)
        }
    } else {
        None
    }
}

/// The first index of `name` among the first names of `rows`.
pub open spec fn find_name(rows: Seq<(Seq<char>, usize)>, name: Seq<char>, len: int) -> Option<int> {
    find_name_from(rows, name, 0)
}

proof fn lemma_find_push(rows: Seq<(Seq<char>, usize)>, e: (Seq<char>, usize), x: Seq<char>, k: int)
    requires
        0 <= k <= rows.len(),
    ensures
        find_name_from(rows.push(e), x, k) == match find_name_from(rows, x, k) {
            Some(i) => Some(i),
            None => if e.0 == x {
                Some(rows.len() as int)
            } else {
                None
            },
        },
    decreases rows.len() - k,
{
    if k < rows.len() {
        assert(rows.push(e)[k] == rows[k]);
        lemma_find_push(rows, e, x, k + 1);
    } else {
        assert(rows.push(e)[k] == e);
        assert(find_name_from(rows.push(e), x, k + 1) == None::<int>);
    }
}

proof fn lemma_find_same_names(r1: Seq<(Seq<char>, usize)>, r2: Seq<(Seq<char>, usize)>, x: Seq<char>, k: int)
    requires
        r1.len() == r2.len(),
        forall|i: int| 0 <= i < r1.len() ==> (#[trigger] r1[i]).0 == r2[i].0,
    ensures
        find_name_from(r1, x, k) == find_name_from(r2, x, k),
    decreases r1.len() - k,
{
    if 0 <= k < r1.len() {
        lemma_find_same_names(r1, r2, x, k + 1);
    }
}

proof fn lemma_find_found(rows: Seq<(Seq<char>, usize)>, x: Seq<char>, k: int)
    ensures
        find_name_from(rows, x, k) matches Some(i) ==> 0 <= k <= i < rows.len() && rows[i].0 == x,
    decreases rows.len() - k,
{
    if 0 <= k < rows.len() {
        lemma_find_found(rows, x, k + 1);
    }
}

/// The table of the names of friends within three hops with their counts.
pub open spec fn counts_table(g: PropGraph, dist: Seq<i64>, rows: Seq<(Seq<char>, usize)>, i: int) -> bool {
    forall|x: Seq<char>|
        match #[trigger] find_name(rows, x, rows.len() as int) {
            Some(k) => rows[k].1 == name_count(g, dist, x, i),
            None => name_count(g, dist, x, i) == 0,
        }
}

fn name_index(names: &Vec<(String, usize)>, name: &str) -> (r: Option<usize>)
    ensures
        match r {
            Some(k) => find_name(views(names@), name@, names@.len() as int) == Some(k as int),
            None => find_name(views(names@), name@, names@.len() as int) is None,
        },
{
    let mut k: usize = 0;
    while k < names.len()
        invariant
            k <= names@.len(),
            find_name(views(names@), name@, names@.len() as int) == find_name_from(views(names@), name@, k as int),
        decreases names.len() - k,
    {
        if same_text(names[k].0.as_str(), name) {
            return Some(k);
        }
        k = k + 1;
    }
    None
}

fn count_names(g: &PropGraph, dist: &Vec<i64>) -> (names: Vec<(String, usize)>)
    requires
        dist@.len() == g.labels@.len(),
        g.labels@.len() <= u32::MAX,
    ensures
        counts_table(*g, dist@, views(names@), dist@.len() as int),
{
    let n = dist.len();
    let mut names: Vec<(String, usize)> = Vec::new();
    let mut q: usize = 0;
    while q < n
        invariant
            n == dist@.len(),
            n <= u32::MAX,
            q <= n,
            counts_table(*g, dist@, views(names@), q as int),
            forall|k: int| 0 <= k < names@.len() ==> (#[trigger] names@[k]).1 <= q,
        decreases n - q,
    {
        let ghost before = views(names@);
        let mut seen: Option<&str> = None;
        if 1 <= dist[q] && dist[q] <= 3 {
            seen = text_prop_of(g, q as u32, "fname");
        }
        proof {
            assert(match seen {
                Some(c) => near_name(*g, dist@, q as int) == Some(c@),
                None => near_name(*g, dist@, q as int) is None,
            });
        }
        match seen {
            Some(c) => {
                match name_index(&names, c) {
                    Some(k) => {
                        proof {
                            lemma_find_found(before, c@, 0);
                            assert(views(names@)[k as int].1 == names@[k as int].1);
                        }
                        let bumped = names[k].1 + 1;
                        let label = text_copy(names[k].0.as_str());
                        names.set(k, (label, bumped));
                        proof {
                            let after = views(names@);
                            assert forall|i: int| 0 <= i < before.len() implies (#[trigger] before[i]).0 == after[i].0 by {}
                            assert forall|x: Seq<char>| match #[trigger] find_name(after, x, after.len() as int) {
                                Some(j) => after[j].1 == name_count(*g, dist@, x, q + 1),
                                None => name_count(*g, dist@, x, q + 1) == 0,
                            } by {
                                lemma_find_same_names(before, after, x, 0);
                                lemma_find_found(before, x, 0);
                                assert(match find_name(before, x, before.len() as int) {
                                    Some(j) => before[j].1 == name_count(*g, dist@, x, q as int),
                                    None => name_count(*g, dist@, x, q as int) == 0,
                                });
                                if x == c@ {
                                    lemma_find_found(before, c@, 0);
                                }
                            }
                        }
                    },
                    None => {
                        names.push((text_copy(c), 1));
                        proof {
                            let after = views(names@);
                            assert(after =~= before.push((c@, 1usize)));
                            assert forall|x: Seq<char>| match #[trigger] find_name(after, x, after.len() as int) {
                                Some(j) => after[j].1 == name_count(*g, dist@, x, q + 1),
                                None => name_count(*g, dist@, x, q + 1) == 0,
                            } by {
                                lemma_find_push(before, (c@, 1usize), x, 0);
                                lemma_find_found(before, x, 0);
                                assert(match find_name(before, x, before.len() as int) {
                                    Some(j) => before[j].1 == name_count(*g, dist@, x, q as int),
                                    None => name_count(*g, dist@, x, q as int) == 0,
                                });
                            }
                        }
                    },
                }
            },
            None => {
                proof {
                    assert forall|x: Seq<char>| match #[trigger] find_name(before, x, before.len() as int) {
                        Some(j) => before[j].1 == name_count(*g, dist@, x, q + 1),
                        None => name_count(*g, dist@, x, q + 1) == 0,
                    } by {
                        assert(match find_name(before, x, before.len() as int) {
                            Some(j) => before[j].1 == name_count(*g, dist@, x, q as int),
                            None => name_count(*g, dist@, x, q as int) == 0,
                        });
                    }
                }
            },
        }
        q = q + 1;
    }
    names
}

/// The count a name has in the table, for a name the table holds.
proof fn lemma_table_count(g: PropGraph, dist: Seq<i64>, rows: Seq<(Seq<char>, usize)>, x: Seq<char>)
    requires
        counts_table(g, dist, rows, dist.len() as int),
    ensures
        match find_name(rows, x, rows.len() as int) {
            Some(k) => 0 <= k < rows.len() && rows[k].0 == x && rows[k].1 == name_count(g, dist, x, dist.len() as int),
            None => name_count(g, dist, x, dist.len() as int) == 0,
        },
{
    lemma_find_found(rows, x, 0);
    assert(match find_name(rows, x, rows.len() as int) {
        Some(k) => rows[k].1 == name_count(g, dist, x, dist.len() as int),
        None => name_count(g, dist, x, dist.len() as int) == 0,
    });
}

fn pick_name(g: &PropGraph, dist: &Vec<i64>) -> (r: Option<String>)
    requires
        dist@.len() == g.labels@.len(),
        g.labels@.len() <= u32::MAX,
    ensures
        match r {
            Some(s) => best_name(*g, dist@, dist@.len() as int) == Some(s@),
            None => best_name(*g, dist@, dist@.len() as int) is None,
        },
{
    let names = count_names(g, dist);
    let n = dist.len();
    let mut best: Option<String> = None;
    let mut best_total: usize = 0;
    let mut q: usize = 0;
    while q < n
        invariant
            n == dist@.len(),
            n <= u32::MAX,
            q <= n,
            counts_table(*g, dist@, views(names@), n as int),
            match best {
                Some(b) => best_name(*g, dist@, q as int) == Some(b@) && best_total == name_count(*g, dist@, b@, n as int),
                None => best_name(*g, dist@, q as int) is None,
            },
        decreases n - q,
    {
        let mut seen: Option<&str> = None;
        if 1 <= dist[q] && dist[q] <= 3 {
            seen = text_prop_of(g, q as u32, "fname");
        }
        proof {
            assert(match seen {
                Some(c) => near_name(*g, dist@, q as int) == Some(c@),
                None => near_name(*g, dist@, q as int) is None,
            });
        }
        match seen {
            Some(c) => {
                proof {
                    lemma_table_count(*g, dist@, views(names@), c@);
                    assert(name_count(*g, dist@, c@, n as int) >= 1) by {
                        lemma_name_seen(*g, dist@, c@, q as int, n as int);
                    }
                }
                let total = name_total(&names, c);
                let take = match &best {
                    Some(b) => total > best_total || (total == best_total && crate::textorder::text_lt(c, b.as_str())),
                    None => true,
                };
                if take {
                    best = Some(text_copy(c));
                    best_total = total;
                }
            },
            None => {},
        }
        q = q + 1;
    }
    best
}

proof fn lemma_name_seen(g: PropGraph, dist: Seq<i64>, x: Seq<char>, q: int, i: int)
    requires
        0 <= q < i,
        near_name(g, dist, q) == Some(x),
    ensures
        name_count(g, dist, x, i) >= 1,
    decreases i,
{
    if i - 1 > q {
        lemma_name_seen(g, dist, x, q, i - 1);
    }
}

fn pick_farthest(dist: &Vec<i64>) -> (r: Option<u32>)
    requires
        dist@.len() <= u32::MAX,
    ensures
        r == farthest(dist@, dist@.len() as int),
{
    let n = dist.len();
    let mut best: Option<u32> = None;
    let mut q: usize = 0;
    while q < n
        invariant
            n == dist@.len(),
            n <= u32::MAX,
            q <= n,
            best == farthest(dist@, q as int),
            best matches Some(b) ==> (b as int) < q,
        decreases n - q,
    {
        if 1 <= dist[q] && dist[q] != UNREACHED {
            match best {
                Some(b) => {
                    if dist[q] > dist[b as usize] {
                        best = Some(q as u32);
                    }
                },
                None => {
                    best = Some(q as u32);
                },
            }
        }
        q = q + 1;
    }
    best
}

fn pick_person(g: &PropGraph) -> (r: Option<(u32, u32)>)
    requires
        g.labels@.len() <= u32::MAX,
    ensures
        r == best_connected(*g, g.labels@.len() as int),
{
    let n = g.labels.len();
    let degrees = crate::spb::access::out_degrees(g, "knows");
    let mut best: Option<(u32, u32)> = None;
    let mut p: usize = 0;
    while p < n
        invariant
            n == g.labels@.len(),
            n <= u32::MAX,
            degrees@.len() == n,
            forall|w: int| 0 <= w < n ==> #[trigger] degrees@[w] == targets(*g, w, "knows"@).len(),
            p <= n,
            best == best_connected(*g, p as int),
        decreases n - p,
    {
        if crate::spb::access::has_label(g, p as u32, "Person") {
            let deg = degrees[p] as u32;
            let keep = match best {
                Some(b) => b.0 > deg || (b.0 == deg && b.1 <= p as u32),
                None => false,
            };
            if !keep {
                best = Some((deg, p as u32));
            }
        }
        p = p + 1;
    }
    best
}

/// Pick reproducible Interactive seeds from the graph: the person with the
/// most `knows` relationships (the smallest id among equals), the first day
/// of 2013 as the last creation day, the most frequent first name among that
/// person's friends within three hops (the first in text order among equals),
/// and the person it reaches over `knows` at the most hops (the smallest id
/// among equals). `None` when the graph has no person, or the person has no
/// named friend within three hops or reaches nobody.
pub fn pick_seeds(g: &PropGraph) -> (r: Option<IcSeeds>)
    requires
        g.labels@.len() <= u32::MAX,
    ensures
        best_connected(*g, g.labels@.len() as int) is None ==> r is None,
        best_connected(*g, g.labels@.len() as int) matches Some(b) ==> exists|dist: Seq<i64>|
            #[trigger] knows_depths(*g, b.1 as int, dist) && dist.len() == g.labels@.len() && match (
                best_name(*g, dist, dist.len() as int),
                farthest(dist, dist.len() as int),
            ) {
                (Some(name), Some(far)) => r matches Some(s) && s.person == b.1 && s.max_day == seed_max_day()
                    && s.first_name@ == name && s.person_b == far,
                _ => r is None,
            },
{
    let person = match pick_person(g) {
        Some(b) => b.1,
        None => return None,
    };
    proof {
        lemma_best_is_node(*g, g.labels@.len() as int);
    }
    let dist = hops_from(g, person);
    let first_name = match pick_name(g, &dist) {
        Some(f) => f,
        None => {
            proof {
                assert(knows_depths(*g, person as int, dist@));
            }
            return None;
        },
    };
    let person_b = match pick_farthest(&dist) {
        Some(p) => p,
        None => {
            proof {
                assert(knows_depths(*g, person as int, dist@));
            }
            return None;
        },
    };
    proof {
        assert(crate::dates::civil_fits(2013, 1, 1));
        assert(knows_depths(*g, person as int, dist@));
    }
    let max_day = crate::dates::days_from_civil(2013, 1, 1);
    Some(IcSeeds { person, max_day, first_name, person_b })
}

proof fn lemma_best_is_node(g: PropGraph, i: int)
    requires
        g.labels@.len() <= u32::MAX,
    ensures
        best_connected(g, i) matches Some(b) ==> (b.1 as int) < g.labels@.len() && (b.1 as int) < i,
    decreases i,
{
    if i > 0 {
        lemma_best_is_node(g, i - 1);
        if crate::spb::access::labelled(g, i - 1, "Person"@) {
            assert(((i - 1) as u32) as int == i - 1) by {
                assert(i - 1 < g.labels@.len());
            }
        }
    }
}

/// The reply interactions between persons, from which IC14 weighs the
/// `knows` relationships: one `(pair, count)` row per unordered pair of
/// persons with a comment by one replying to a message by the other, as
/// [`build_interaction_map`](crate::bi::interaction::build_interaction_map).
pub fn build_knows_interaction(g: &PropGraph) -> (r: Vec<((u32, u32), u32)>)
    requires
        g.labels@.len() <= u32::MAX,
        forall|key: (u32, u32)| #[trigger] interactions(*g, key) <= u32::MAX,
    ensures
        interaction_map(*g, r@),
{
    crate::bi::interaction::build_interaction_map(g)
}

} // verus!
