//! The SNB social graph, built from the tables of an `initial_snapshot`:
//! tag classes, tags, persons, places, forums, posts, comments and
//! organisations as nodes, with the properties the reads use, and the
//! relationships between them.
//!
//! A node row counts only when its id reads as an `i64`; a relationship row
//! only when both its ends read and name known nodes. Dates are LDBC
//! creation dates (see [`crate::dates`]).
use std::collections::HashMap;
use vstd::prelude::*;
use vstd::utf8::encode_utf8;
use crate::dates::{
    date_cuts, is_boundary, lemma_date_year, month_or_one, ms_cuts, parse_date, parse_ms, spec_month_or_one, spec_parse_date, spec_parse_ms, date_cuts_ok,
    ms_cuts_ok, on_boundary, bytes_at,
};
use crate::numtext::{dec_text, int_text, parse_i64, spec_parse_i64, text_i64};
use crate::text::chars_of;
use crate::rdfgraph::{opt_texts, prop_rows, rel_rows, text_copy, text_lists, texts, PropGraph};
use crate::bi::lookup::rels_within;
use crate::tables::{empty_graph, empty_view, field_of, field_or_empty, graph_view, int_or_zero, int_or_zero_of, rel_prop_rows, GraphView};

verus! {

broadcast use vstd::std_specs::hash::group_hash_axioms;

/// The XSD `long` datatype IRI, under which integer properties are stored.
pub open spec fn xsd_long() -> Seq<char> {
    "http://www.w3.org/2001/XMLSchema#long"@
}

/// The XSD `boolean` datatype IRI.
pub open spec fn xsd_boolean() -> Seq<char> {
    "http://www.w3.org/2001/XMLSchema#boolean"@
}

/// An integer property value: its decimal text, typed `long`.
pub open spec fn int_value(v: int) -> (Seq<char>, Option<Seq<char>>) {
    (dec_text(v), Some(xsd_long()))
}

/// Where a node property comes from in its row.
#[derive(Clone, Copy)]
pub enum PropFrom {
    /// The field, as text.
    Text(usize),
    /// The first field, or the second when the first is empty, as text.
    TextOr(usize, usize),
    /// The row's id.
    Id,
    /// The field read as an integer, 0 when it does not read.
    IntOr0(usize),
    /// The day number of the date in the field, when it reads.
    Day(usize),
    /// The year of the date in the field, when it reads.
    Year(usize),
    /// `year * 12 + month` of the date in the field, when it reads (the
    /// month 1 when its bytes do not read).
    YearMonth(usize),
    /// The epoch milliseconds of the date in the field (0 when it does not read).
    Ms(usize),
    /// 1 when the field is not empty, else 0.
    Present(usize),
    /// When the field has at least ten bytes: its two bytes from the given
    /// position read as an integer, 0 when they do not read.
    TwoBytes(usize, usize),
    /// Whether the field is not empty, as a boolean.
    Filled(usize),
}

/// The property that `from` gives for `row` with id `lid`, if any.
pub open spec fn prop_value(from: PropFrom, row: Seq<Seq<char>>, lid: i64) -> Option<(Seq<char>, Option<Seq<char>>)> {
    match from {
        PropFrom::Text(c) => Some((field_or_empty(row, c as int), None)),
        PropFrom::TextOr(a, b) => Some(
            (
                if field_or_empty(row, a as int).len() == 0 {
                    field_or_empty(row, b as int)
                } else {
                    field_or_empty(row, a as int)
                },
                None,
            ),
        ),
        PropFrom::Id => Some(int_value(lid as int)),
        PropFrom::IntOr0(c) => Some(int_value(int_or_zero(field_or_empty(row, c as int)) as int)),
        PropFrom::Day(c) => match spec_parse_date(encode_utf8(field_or_empty(row, c as int))) {
            Some((_, d)) => Some(int_value(d as int)),
            None => None,
        },
        PropFrom::Year(c) => match spec_parse_date(encode_utf8(field_or_empty(row, c as int))) {
            Some((y, _)) => Some(int_value(y as int)),
            None => None,
        },
        PropFrom::YearMonth(c) => match spec_parse_date(encode_utf8(field_or_empty(row, c as int))) {
            Some((y, _)) => Some(int_value(y * 12 + spec_month_or_one(encode_utf8(field_or_empty(row, c as int))))),
            None => None,
        },
        PropFrom::Ms(c) => Some(int_value(spec_parse_ms(encode_utf8(field_or_empty(row, c as int))))),
        PropFrom::Present(c) => Some(int_value(if field_or_empty(row, c as int).len() > 0 { 1 } else { 0 })),
        PropFrom::Filled(c) => Some(
            (
                if field_or_empty(row, c as int).len() > 0 {
                    "true"@
                } else {
                    "false"@
                },
                Some(xsd_boolean()),
            ),
        ),
        PropFrom::TwoBytes(c, lo) => {
            let b = encode_utf8(field_or_empty(row, c as int));
            if b.len() >= 10 {
                Some(
                    int_value(
                        match spec_parse_i64(bytes_at(b, lo as int, lo + 2)) {
                            Some(v) => v as int,
                            None => 0,
                        },
                    ),
                )
            } else {
                None
            }
        },
    }
}

/// Reading `from` on `row` does not slice a character apart (which would
/// panic).
pub open spec fn prop_cuts_ok(from: PropFrom, row: Seq<Seq<char>>) -> bool {
    match from {
        PropFrom::Day(c) => date_cuts_ok(encode_utf8(field_or_empty(row, c as int))),
        PropFrom::Year(c) => date_cuts_ok(encode_utf8(field_or_empty(row, c as int))),
        PropFrom::YearMonth(c) => date_cuts_ok(encode_utf8(field_or_empty(row, c as int))),
        PropFrom::Ms(c) => ms_cuts_ok(encode_utf8(field_or_empty(row, c as int))),
        PropFrom::TwoBytes(c, lo) => {
            let b = encode_utf8(field_or_empty(row, c as int));
            b.len() >= 10 ==> lo + 2 <= 10 && on_boundary(b, lo as int) && on_boundary(b, lo + 2)
        },
        _ => true,
    }
}

fn typed_int(v: i64) -> (r: (String, Option<String>))
    ensures
        r.0@ == int_value(v as int).0,
        r.1 matches Some(d) && d@ == xsd_long(),
{
    (int_text(v), Some(text_copy("http://www.w3.org/2001/XMLSchema#long")))
}

/// The property that `from` gives for `row` with id `lid`.
fn read_prop(from: PropFrom, row: &Vec<String>, lid: i64) -> (r: Option<(String, Option<String>)>)
    requires
        prop_cuts_ok(from, texts(row@)),
    ensures
        match prop_value(from, texts(row@), lid) {
            Some(p) => r matches Some(q) && q.0@ == p.0 && match (q.1, p.1) {
                (Some(x), Some(y)) => x@ == y,
                (None, None) => true,
                _ => false,
            },
            None => r is None,
        },
{
    match from {
        PropFrom::Text(c) => Some((text_copy(field_of(row, c)), None)),
        PropFrom::TextOr(a, b) => {
            let x = field_of(row, a);
            if chars_of(x).len() == 0 {
                Some((text_copy(field_of(row, b)), None))
            } else {
                Some((text_copy(x), None))
            }
        },
        PropFrom::Id => Some(typed_int(lid)),
        PropFrom::IntOr0(c) => Some(typed_int(int_or_zero_of(field_of(row, c)))),
        PropFrom::Day(c) => match parse_date(field_of(row, c)) {
            Some((_, d)) => Some(typed_int(d)),
            None => None,
        },
        PropFrom::Year(c) => match parse_date(field_of(row, c)) {
            Some((y, _)) => Some(typed_int(y)),
            None => None,
        },
        PropFrom::YearMonth(c) => {
            let f = field_of(row, c);
            match parse_date(f) {
                Some((y, _)) => {
                    proof {
                        lemma_date_year(encode_utf8(f@));
                    }
                    let m = month_or_one(f);
                    Some(typed_int(y * 12 + m))
                },
                None => None,
            }
        },
        PropFrom::Ms(c) => Some(typed_int(parse_ms(field_of(row, c)))),
        PropFrom::Present(c) => {
            let x = field_of(row, c);
            Some(typed_int(if chars_of(x).len() > 0 { 1 } else { 0 }))
        },
        PropFrom::Filled(c) => {
            let x = field_of(row, c);
            let v = if chars_of(x).len() > 0 {
                text_copy("true")
            } else {
                text_copy("false")
            };
            Some((v, Some(text_copy("http://www.w3.org/2001/XMLSchema#boolean"))))
        },
        PropFrom::TwoBytes(c, lo) => {
            let b = field_of(row, c).as_bytes();
            if b.len() >= 10 {
                let v = match parse_i64(&b[lo..lo + 2]) {
                    Some(v) => v,
                    None => 0,
                };
                Some(typed_int(v))
            } else {
                None
            }
        },
    }
}

/// The node that the field `t` names in `m`: its id when it reads and is a key.
pub open spec fn known(m: Map<i64, u32>, t: Seq<char>) -> Option<u32> {
    match text_i64(t) {
        Some(k) => if m.contains_key(k) {
            Some(m[k])
        } else {
            None
        },
        None => None,
    }
}

fn lookup(m: &HashMap<i64, u32>, t: &str) -> (r: Option<u32>)
    ensures
        r == known(m@, t@),
{
    let cs = chars_of(t);
    match crate::numtext::parse_i64_text(cs.as_slice()) {
        Some(k) => match m.get(&k) {
            Some(x) => Some(*x),
            None => None,
        },
        None => None,
    }
}

/// Where a node's label comes from: a fixed name or a field of its row.
#[derive(Clone, Copy)]
pub enum LabelFrom {
    Fixed(&'static str),
    Field(usize),
}

/// The label of a node made from `row`.
pub open spec fn label_of(l: LabelFrom, row: Seq<Seq<char>>) -> Seq<char> {
    match l {
        LabelFrom::Fixed(s) => s@,
        LabelFrom::Field(c) => field_or_empty(row, c as int),
    }
}

/// Property rules as plain values: (name, source).
pub open spec fn rule_view(rules: Seq<(&'static str, PropFrom)>) -> Seq<(Seq<char>, PropFrom)> {
    rules.map_values(|r: (&'static str, PropFrom)| (r.0@, r.1))
}

/// The properties that `rules` give node `nid` made from `row` with id `lid`,
/// in rule order, leaving out those that give nothing.
pub open spec fn row_props(rules: Seq<(Seq<char>, PropFrom)>, row: Seq<Seq<char>>, lid: i64, nid: u32) -> Seq<
    (u32, Seq<char>, Seq<char>, Option<Seq<char>>),
>
    decreases rules.len(),
{
    if rules.len() == 0 {
        Seq::empty()
    } else {
        let before = row_props(rules.drop_last(), row, lid, nid);
        match prop_value(rules.last().1, row, lid) {
            Some(p) => before.push((nid, rules.last().0, p.0, p.1)),
            None => before,
        }
    }
}

/// A relationship made with each new node: (field, id map, type, whether it
/// points into the new node rather than out of it).
pub type NodeLinkView = Option<(usize, Map<i64, u32>, Seq<char>, bool)>;

/// The graph and id map after one row of a node table: when the row's id
/// field reads, a node with its label and properties, the relationship of
/// `link` where its field names a known node, and the id mapped to the node.
pub open spec fn node_row(
    s: (GraphView, Map<i64, u32>),
    row: Seq<Seq<char>>,
    id_col: usize,
    label: LabelFrom,
    rules: Seq<(Seq<char>, PropFrom)>,
    link: NodeLinkView,
) -> (GraphView, Map<i64, u32>) {
    let v = s.0;
    match text_i64(field_or_empty(row, id_col as int)) {
        None => s,
        Some(lid) => {
            let nid = v.labels.len() as u32;
            let rels = match link {
                Some((c, lm, typ, into_new)) => match known(lm, field_or_empty(row, c as int)) {
                    Some(o) => v.rels.push(
                        if into_new {
                            (o, nid, typ)
                        } else {
                            (nid, o, typ)
                        },
                    ),
                    None => v.rels,
                },
                None => v.rels,
            };
            (
                GraphView {
                    labels: v.labels.push(seq![label_of(label, row)]),
                    uris: v.uris.push(None),
                    rels: rels,
                    props: v.props + row_props(rules, row, lid, nid),
                    rel_props: v.rel_props,
                },
                s.1.insert(lid, nid),
            )
        },
    }
}

/// [`node_row`] over the rows of a node table in order.
pub open spec fn id_nodes(
    s: (GraphView, Map<i64, u32>),
    rows: Seq<Seq<Seq<char>>>,
    id_col: usize,
    label: LabelFrom,
    rules: Seq<(Seq<char>, PropFrom)>,
    link: NodeLinkView,
) -> (GraphView, Map<i64, u32>)
    decreases rows.len(),
{
    if rows.len() == 0 {
        s
    } else {
        node_row(id_nodes(s, rows.drop_last(), id_col, label, rules, link), rows.last(), id_col, label, rules, link)
    }
}

/// No rule slices a character apart on any row.
pub open spec fn rules_cuts_ok(rules: Seq<(Seq<char>, PropFrom)>, rows: Seq<Seq<Seq<char>>>) -> bool {
    forall|k: int, j: int| 0 <= k < rows.len() && 0 <= j < rules.len() ==> prop_cuts_ok(#[trigger] rules[j].1, #[trigger] rows[k])
}

proof fn lemma_id_nodes_len(
    s: (GraphView, Map<i64, u32>),
    rows: Seq<Seq<Seq<char>>>,
    id_col: usize,
    label: LabelFrom,
    rules: Seq<(Seq<char>, PropFrom)>,
    link: NodeLinkView,
)
    ensures
        s.0.labels.len() <= id_nodes(s, rows, id_col, label, rules, link).0.labels.len() <= s.0.labels.len() + rows.len(),
        s.0.rels.len() <= id_nodes(s, rows, id_col, label, rules, link).0.rels.len() <= s.0.rels.len() + rows.len(),
    decreases rows.len(),
{
    if rows.len() > 0 {
        lemma_id_nodes_len(s, rows.drop_last(), id_col, label, rules, link);
    }
}

/// Append the properties that `rules` give node `nid` made from `row`.
fn push_row_props(
    props: &mut Vec<(u32, String, String, Option<String>)>,
    rules: &Vec<(&'static str, PropFrom)>,
    row: &Vec<String>,
    lid: i64,
    nid: u32,
)
    requires
        forall|q: int| 0 <= q < rules@.len() ==> prop_cuts_ok(#[trigger] rule_view(rules@)[q].1, texts(row@)),
    ensures
        prop_rows(final(props)@) == prop_rows(old(props)@) + row_props(rule_view(rules@), texts(row@), lid, nid),
{
    let ghost rv = rule_view(rules@);
    let ghost r = texts(row@);
    let ghost prop0 = props@;
    let mut j: usize = 0;
    proof {
        assert(rv.take(0) =~= Seq::<(Seq<char>, PropFrom)>::empty());
        assert(prop_rows(props@) =~= prop_rows(prop0) + row_props(rv.take(0), r, lid, nid));
    }
    while j < rules.len()
        invariant
            j <= rules@.len(),
            rv == rule_view(rules@),
            r == texts(row@),
            forall|q: int| 0 <= q < rv.len() ==> prop_cuts_ok(#[trigger] rv[q].1, r),
            prop_rows(props@) == prop_rows(prop0) + row_props(rv.take(j as int), r, lid, nid),
        decreases rules.len() - j,
    {
        let (name, from) = rules[j];
        proof {
            assert(rv[j as int] == (name@, from));
            assert(prop_cuts_ok(rv[j as int].1, r));
            assert(rv.take(j + 1).drop_last() =~= rv.take(j as int));
            assert(rv.take(j + 1).last() == rv[j as int]);
        }
        let ghost before = props@;
        match read_prop(from, row, lid) {
            Some((val, dt)) => {
                props.push((nid, text_copy(name), val, dt));
                proof {
                    assert(prop_rows(props@) =~= prop_rows(before).push(
                        (nid, name@, prop_value(from, r, lid).unwrap().0, prop_value(from, r, lid).unwrap().1),
                    ));
                }
            },
            None => {},
        }
        j = j + 1;
    }
    proof {
        assert(rv.take(j as int) =~= rv);
    }
}

/// Add the nodes of a node table: for each row whose id field reads, a node
/// labelled as `label` says, with the properties of `rules` and the
/// relationship of `link`, its id mapped to it in `ids`.
fn add_id_nodes(
    g: &mut PropGraph,
    rows: &Vec<Vec<String>>,
    id_col: usize,
    label: LabelFrom,
    rules: &Vec<(&'static str, PropFrom)>,
    link: Option<(usize, &HashMap<i64, u32>, &'static str, bool)>,
    ids: &mut HashMap<i64, u32>,
)
    requires
        old(g).labels@.len() + rows@.len() <= u32::MAX,
        old(g).rels@.len() + rows@.len() <= usize::MAX,
        rules_cuts_ok(rule_view(rules@), text_lists(rows@)),
    ensures
        (graph_view(*final(g)), final(ids)@) == id_nodes(
            (graph_view(*old(g)), old(ids)@),
            text_lists(rows@),
            id_col,
            label,
            rule_view(rules@),
            match link {
                Some((c, m, t, i)) => Some((c, m@, t@, i)),
                None => None,
            },
        ),
        final(g).labels@.len() == graph_view(*final(g)).labels.len(),
        final(g).rels@.len() == graph_view(*final(g)).rels.len(),
        final(g).labels@.len() <= old(g).labels@.len() + rows@.len(),
        final(g).rels@.len() <= old(g).rels@.len() + rows@.len(),
{
    let ghost s0 = (graph_view(*g), ids@);
    let ghost rs = text_lists(rows@);
    let ghost rv = rule_view(rules@);
    let ghost lv: NodeLinkView = match link {
        Some((c, m, t, i)) => Some((c, m@, t@, i)),
        None => None,
    };
    let mut k: usize = 0;
    proof {
        assert(rs.take(0) =~= Seq::<Seq<Seq<char>>>::empty());
    }
    while k < rows.len()
        invariant
            k <= rows@.len(),
            rs == text_lists(rows@),
            rv == rule_view(rules@),
            lv == (match link {
                Some((c, m, t, i)) => Some((c, m@, t@, i)),
                None => None::<(usize, Map<i64, u32>, Seq<char>, bool)>,
            }),
            s0.0.labels.len() + rows@.len() <= u32::MAX,
            s0.0.rels.len() + rows@.len() <= usize::MAX,
            rules_cuts_ok(rv, rs),
            (graph_view(*g), ids@) == id_nodes(s0, rs.take(k as int), id_col, label, rv, lv),
            g.labels@.len() == graph_view(*g).labels.len(),
            g.rels@.len() == graph_view(*g).rels.len(),
        decreases rows.len() - k,
    {
        proof {
            lemma_id_nodes_len(s0, rs.take(k as int), id_col, label, rv, lv);
            assert(rs.take(k + 1).drop_last() =~= rs.take(k as int));
            assert(rs.take(k + 1).last() == rs[k as int]);
        }
        let row = &rows[k];
        let ghost r = texts(row@);
        proof {
            assert(rs[k as int] == r);
        }
        let idc = chars_of(field_of(row, id_col));
        match crate::numtext::parse_i64_text(idc.as_slice()) {
            None => {},
            Some(lid) => {
                let ghost v = graph_view(*g);
                let nid = g.labels.len() as u32;
                let ghost lab0 = g.labels@;
                let ghost uri0 = g.uris@;
                let ghost rel0 = g.rels@;
                let lt = match label {
                    LabelFrom::Fixed(t) => text_copy(t),
                    LabelFrom::Field(c) => text_copy(field_of(row, c)),
                };
                let mut lvec: Vec<String> = Vec::new();
                lvec.push(lt);
                g.labels.push(lvec);
                g.uris.push(None);
                let ghost prop0 = g.props@;
                proof {
                    assert forall|q: int| 0 <= q < rv.len() implies prop_cuts_ok(#[trigger] rv[q].1, r) by {
                        assert(prop_cuts_ok(rv[q].1, rs[k as int]));
                    }
                }
                push_row_props(&mut g.props, rules, row, lid, nid);
                match link {
                    Some((c, m, t, into_new)) => {
                        match lookup(m, field_of(row, c)) {
                            Some(o) => {
                                if into_new {
                                    g.rels.push((o, nid, text_copy(t)));
                                } else {
                                    g.rels.push((nid, o, text_copy(t)));
                                }
                            },
                            None => {},
                        }
                    },
                    None => {},
                }
                ids.insert(lid, nid);
                proof {
                    let after = node_row(id_nodes(s0, rs.take(k as int), id_col, label, rv, lv), r, id_col, label, rv, lv);
                    assert(texts(lvec@) =~= seq![label_of(label, r)]);
                    assert(text_lists(g.labels@) =~= text_lists(lab0).push(texts(lvec@)));
                    assert(graph_view(*g).labels =~= after.0.labels);
                    assert(opt_texts(g.uris@) =~= opt_texts(uri0).push(None));
                    assert(graph_view(*g).uris =~= after.0.uris);
                    assert(graph_view(*g).props =~= after.0.props);
                    assert(graph_view(*g).rels =~= after.0.rels);
                    assert(graph_view(*g).rel_props =~= after.0.rel_props);
                    assert(ids@ =~= after.1);
                }
            },
        }
        k = k + 1;
    }
    proof {
        assert(rs.take(k as int) =~= rs);
        lemma_id_nodes_len(s0, rs, id_col, label, rv, lv);
    }
}

/// Where an integer relationship property comes from in its row.
#[derive(Clone, Copy)]
pub enum RelFrom {
    /// The day number of the date in the field, 0 when it does not read.
    DayOr0(usize),
    /// The epoch milliseconds of the date in the field.
    Ms(usize),
    /// The field read as an integer, 0 when it does not read.
    IntOr0(usize),
}

/// The value that `from` gives for `row`.
pub open spec fn rel_value(from: RelFrom, row: Seq<Seq<char>>) -> i64 {
    match from {
        RelFrom::DayOr0(c) => match spec_parse_date(encode_utf8(field_or_empty(row, c as int))) {
            Some((_, d)) => d,
            None => 0,
        },
        RelFrom::Ms(c) => spec_parse_ms(encode_utf8(field_or_empty(row, c as int))) as i64,
        RelFrom::IntOr0(c) => int_or_zero(field_or_empty(row, c as int)),
    }
}

/// Reading `from` on `row` does not slice a character apart.
pub open spec fn rel_cuts_ok(from: RelFrom, row: Seq<Seq<char>>) -> bool {
    match from {
        RelFrom::DayOr0(c) => date_cuts_ok(encode_utf8(field_or_empty(row, c as int))),
        RelFrom::Ms(c) => ms_cuts_ok(encode_utf8(field_or_empty(row, c as int))),
        RelFrom::IntOr0(_) => true,
    }
}

fn read_rel(from: RelFrom, row: &Vec<String>) -> (r: i64)
    requires
        rel_cuts_ok(from, texts(row@)),
    ensures
        r == rel_value(from, texts(row@)),
{
    match from {
        RelFrom::DayOr0(c) => match parse_date(field_of(row, c)) {
            Some((_, d)) => d,
            None => 0,
        },
        RelFrom::Ms(c) => parse_ms(field_of(row, c)),
        RelFrom::IntOr0(c) => int_or_zero_of(field_of(row, c)),
    }
}

/// The graph after one row of a relationship table: when field `a` names a
/// node of `from` and field `b` one of `to`, a relationship `typ` between
/// them, with the property of `prop` when there is one.
pub open spec fn link_row(
    v: GraphView,
    row: Seq<Seq<char>>,
    a: usize,
    from: Map<i64, u32>,
    b: usize,
    to: Map<i64, u32>,
    typ: Seq<char>,
    prop: Option<(Seq<char>, RelFrom)>,
) -> GraphView {
    match (known(from, field_or_empty(row, a as int)), known(to, field_or_empty(row, b as int))) {
        (Some(x), Some(y)) => GraphView {
            labels: v.labels,
            uris: v.uris,
            rels: v.rels.push((x, y, typ)),
            props: v.props,
            rel_props: match prop {
                Some((name, f)) => v.rel_props.push((v.rels.len() as int, name, rel_value(f, row))),
                None => v.rel_props,
            },
        },
        _ => v,
    }
}

/// [`link_row`] over the rows of a relationship table in order.
pub open spec fn ref_links(
    v: GraphView,
    rows: Seq<Seq<Seq<char>>>,
    a: usize,
    from: Map<i64, u32>,
    b: usize,
    to: Map<i64, u32>,
    typ: Seq<char>,
    prop: Option<(Seq<char>, RelFrom)>,
) -> GraphView
    decreases rows.len(),
{
    if rows.len() == 0 {
        v
    } else {
        link_row(ref_links(v, rows.drop_last(), a, from, b, to, typ, prop), rows.last(), a, from, b, to, typ, prop)
    }
}

proof fn lemma_ref_links_len(
    v: GraphView,
    rows: Seq<Seq<Seq<char>>>,
    a: usize,
    from: Map<i64, u32>,
    b: usize,
    to: Map<i64, u32>,
    typ: Seq<char>,
    prop: Option<(Seq<char>, RelFrom)>,
)
    ensures
        v.rels.len() <= ref_links(v, rows, a, from, b, to, typ, prop).rels.len() <= v.rels.len() + rows.len(),
        ref_links(v, rows, a, from, b, to, typ, prop).labels == v.labels,
    decreases rows.len(),
{
    if rows.len() > 0 {
        lemma_ref_links_len(v, rows.drop_last(), a, from, b, to, typ, prop);
    }
}

/// Add a relationship `typ` for each row whose field `a` names a node of
/// `from` and field `b` one of `to`, with the property of `prop`.
fn add_ref_links(
    g: &mut PropGraph,
    rows: &Vec<Vec<String>>,
    a: usize,
    from: &HashMap<i64, u32>,
    b: usize,
    to: &HashMap<i64, u32>,
    typ: &str,
    prop: Option<(&'static str, RelFrom)>,
)
    requires
        old(g).rels@.len() + rows@.len() <= usize::MAX,
        prop matches Some((_, f)) ==> forall|k: int| 0 <= k < rows@.len() ==> rel_cuts_ok(f, #[trigger] text_lists(rows@)[k]),
    ensures
        graph_view(*final(g)) == ref_links(
            graph_view(*old(g)),
            text_lists(rows@),
            a,
            from@,
            b,
            to@,
            typ@,
            match prop {
                Some((n, f)) => Some((n@, f)),
                None => None,
            },
        ),
        final(g).labels@.len() == graph_view(*final(g)).labels.len(),
        final(g).rels@.len() == graph_view(*final(g)).rels.len(),
        final(g).labels@.len() == old(g).labels@.len(),
        final(g).rels@.len() <= old(g).rels@.len() + rows@.len(),
{
    let ghost v0 = graph_view(*g);
    let ghost rs = text_lists(rows@);
    let ghost pv: Option<(Seq<char>, RelFrom)> = match prop {
        Some((n, f)) => Some((n@, f)),
        None => None,
    };
    let mut k: usize = 0;
    proof {
        assert(rs.take(0) =~= Seq::<Seq<Seq<char>>>::empty());
        assert(g.labels@.len() == graph_view(*g).labels.len());
        assert(g.rels@.len() == graph_view(*g).rels.len());
    }
    while k < rows.len()
        invariant
            k <= rows@.len(),
            rs == text_lists(rows@),
            pv == (match prop {
                Some((n, f)) => Some((n@, f)),
                None => None::<(Seq<char>, RelFrom)>,
            }),
            v0.rels.len() + rows@.len() <= usize::MAX,
            prop matches Some((_, f)) ==> forall|q: int| 0 <= q < rows@.len() ==> rel_cuts_ok(f, #[trigger] rs[q]),
            graph_view(*g) == ref_links(v0, rs.take(k as int), a, from@, b, to@, typ@, pv),
            g.labels@.len() == graph_view(*g).labels.len(),
            g.rels@.len() == graph_view(*g).rels.len(),
        decreases rows.len() - k,
    {
        proof {
            lemma_ref_links_len(v0, rs.take(k as int), a, from@, b, to@, typ@, pv);
            assert(rs.take(k + 1).drop_last() =~= rs.take(k as int));
            assert(rs.take(k + 1).last() == rs[k as int]);
        }
        let row = &rows[k];
        let ghost r = texts(row@);
        proof {
            assert(rs[k as int] == r);
        }
        match (lookup(from, field_of(row, a)), lookup(to, field_of(row, b))) {
            (Some(x), Some(y)) => {
                let ghost rel0 = g.rels@;
                let ghost rp0 = g.rel_props@;
                let idx = g.rels.len();
                g.rels.push((x, y, text_copy(typ)));
                match prop {
                    Some((name, f)) => {
                        let val = read_rel(f, row);
                        g.rel_props.push((idx, text_copy(name), val));
                    },
                    None => {},
                }
                proof {
                    let after = link_row(ref_links(v0, rs.take(k as int), a, from@, b, to@, typ@, pv), r, a, from@, b, to@, typ@, pv);
                    assert(rel_rows(g.rels@) =~= rel_rows(rel0).push((x, y, typ@)));
                    assert(graph_view(*g).rels =~= after.rels);
                    match prop {
                        Some((name, f)) => {
                            assert(rel_prop_rows(g.rel_props@) =~= rel_prop_rows(rp0).push((idx as int, name@, rel_value(f, r))));
                        },
                        None => {},
                    }
                    assert(graph_view(*g).rel_props =~= after.rel_props);
                }
            },
            _ => {},
        }
        k = k + 1;
    }
    proof {
        assert(rs.take(k as int) =~= rs);
        lemma_ref_links_len(v0, rs, a, from@, b, to@, typ@, pv);
    }
}

/// The graph after one `knows` row (date, person, person): when both persons
/// are known, a `knows` each way, each with the date's day number (0 when it
/// does not read) as `kd`.
pub open spec fn knows_row(v: GraphView, row: Seq<Seq<char>>, persons: Map<i64, u32>) -> GraphView {
    match (known(persons, field_or_empty(row, 1)), known(persons, field_or_empty(row, 2))) {
        (Some(x), Some(y)) => {
            let kd = rel_value(RelFrom::DayOr0(0), row);
            GraphView {
                labels: v.labels,
                uris: v.uris,
                rels: v.rels.push((x, y, "knows"@)).push((y, x, "knows"@)),
                props: v.props,
                rel_props: v.rel_props.push((v.rels.len() as int, "kd"@, kd)).push(((v.rels.len() + 1) as int, "kd"@, kd)),
            }
        },
        _ => v,
    }
}

/// [`knows_row`] over the rows in order.
pub open spec fn knows_links(v: GraphView, rows: Seq<Seq<Seq<char>>>, persons: Map<i64, u32>) -> GraphView
    decreases rows.len(),
{
    if rows.len() == 0 {
        v
    } else {
        knows_row(knows_links(v, rows.drop_last(), persons), rows.last(), persons)
    }
}

proof fn lemma_knows_len(v: GraphView, rows: Seq<Seq<Seq<char>>>, persons: Map<i64, u32>)
    ensures
        v.rels.len() <= knows_links(v, rows, persons).rels.len() <= v.rels.len() + 2 * rows.len(),
        knows_links(v, rows, persons).labels == v.labels,
    decreases rows.len(),
{
    if rows.len() > 0 {
        lemma_knows_len(v, rows.drop_last(), persons);
    }
}

/// Add the `knows` relationships of the rows, both ways.
fn add_knows(g: &mut PropGraph, rows: &Vec<Vec<String>>, persons: &HashMap<i64, u32>)
    requires
        old(g).rels@.len() + 2 * rows@.len() <= usize::MAX,
        forall|k: int| 0 <= k < rows@.len() ==> rel_cuts_ok(RelFrom::DayOr0(0), #[trigger] text_lists(rows@)[k]),
    ensures
        graph_view(*final(g)) == knows_links(graph_view(*old(g)), text_lists(rows@), persons@),
        final(g).labels@.len() == graph_view(*final(g)).labels.len(),
        final(g).rels@.len() == graph_view(*final(g)).rels.len(),
        final(g).labels@.len() == old(g).labels@.len(),
        final(g).rels@.len() <= old(g).rels@.len() + 2 * rows@.len(),
{
    let ghost v0 = graph_view(*g);
    let ghost rs = text_lists(rows@);
    let mut k: usize = 0;
    proof {
        assert(rs.take(0) =~= Seq::<Seq<Seq<char>>>::empty());
    }
    while k < rows.len()
        invariant
            k <= rows@.len(),
            rs == text_lists(rows@),
            v0.rels.len() + 2 * rows@.len() <= usize::MAX,
            forall|q: int| 0 <= q < rows@.len() ==> rel_cuts_ok(RelFrom::DayOr0(0), #[trigger] rs[q]),
            graph_view(*g) == knows_links(v0, rs.take(k as int), persons@),
            g.labels@.len() == graph_view(*g).labels.len(),
            g.rels@.len() == graph_view(*g).rels.len(),
        decreases rows.len() - k,
    {
        proof {
            lemma_knows_len(v0, rs.take(k as int), persons@);
            assert(rs.take(k + 1).drop_last() =~= rs.take(k as int));
            assert(rs.take(k + 1).last() == rs[k as int]);
        }
        let row = &rows[k];
        let ghost r = texts(row@);
        proof {
            assert(rs[k as int] == r);
        }
        match (lookup(persons, field_of(row, 1)), lookup(persons, field_of(row, 2))) {
            (Some(x), Some(y)) => {
                let ghost rel0 = g.rels@;
                let ghost rp0 = g.rel_props@;
                let kd = read_rel(RelFrom::DayOr0(0), row);
                let i1 = g.rels.len();
                g.rels.push((x, y, text_copy("knows")));
                g.rel_props.push((i1, text_copy("kd"), kd));
                let i2 = g.rels.len();
                g.rels.push((y, x, text_copy("knows")));
                g.rel_props.push((i2, text_copy("kd"), kd));
                proof {
                    let after = knows_row(knows_links(v0, rs.take(k as int), persons@), r, persons@);
                    assert(rel_rows(g.rels@) =~= rel_rows(rel0).push((x, y, "knows"@)).push((y, x, "knows"@)));
                    assert(graph_view(*g).rels =~= after.rels);
                    assert(rel_prop_rows(g.rel_props@) =~= rel_prop_rows(rp0).push((i1 as int, "kd"@, kd)).push((i2 as int, "kd"@, kd)));
                    assert(graph_view(*g).rel_props =~= after.rel_props);
                }
            },
            _ => {},
        }
        k = k + 1;
    }
    proof {
        assert(rs.take(k as int) =~= rs);
        lemma_knows_len(v0, rs, persons@);
    }
}

/// The graph after one reply row (comment, parent post, parent comment): the
/// parent is the post when its field is not empty, else the comment; when
/// the comment and its parent are known, a `replyOf` from one to the other.
pub open spec fn reply_row(v: GraphView, row: Seq<Seq<char>>, posts: Map<i64, u32>, comments: Map<i64, u32>) -> GraphView {
    let parent = if field_or_empty(row, 1).len() != 0 {
        known(posts, field_or_empty(row, 1))
    } else {
        known(comments, field_or_empty(row, 2))
    };
    match (known(comments, field_or_empty(row, 0)), parent) {
        (Some(c), Some(p)) => GraphView {
            labels: v.labels,
            uris: v.uris,
            rels: v.rels.push((c, p, "replyOf"@)),
            props: v.props,
            rel_props: v.rel_props,
        },
        _ => v,
    }
}

/// [`reply_row`] over the rows in order.
pub open spec fn reply_links(v: GraphView, rows: Seq<Seq<Seq<char>>>, posts: Map<i64, u32>, comments: Map<i64, u32>) -> GraphView
    decreases rows.len(),
{
    if rows.len() == 0 {
        v
    } else {
        reply_row(reply_links(v, rows.drop_last(), posts, comments), rows.last(), posts, comments)
    }
}

proof fn lemma_reply_len(v: GraphView, rows: Seq<Seq<Seq<char>>>, posts: Map<i64, u32>, comments: Map<i64, u32>)
    ensures
        v.rels.len() <= reply_links(v, rows, posts, comments).rels.len() <= v.rels.len() + rows.len(),
        reply_links(v, rows, posts, comments).labels == v.labels,
    decreases rows.len(),
{
    if rows.len() > 0 {
        lemma_reply_len(v, rows.drop_last(), posts, comments);
    }
}

/// Add the `replyOf` relationships of the rows.
fn add_replies(g: &mut PropGraph, rows: &Vec<Vec<String>>, posts: &HashMap<i64, u32>, comments: &HashMap<i64, u32>)
    requires
        old(g).rels@.len() + rows@.len() <= usize::MAX,
    ensures
        graph_view(*final(g)) == reply_links(graph_view(*old(g)), text_lists(rows@), posts@, comments@),
        final(g).labels@.len() == graph_view(*final(g)).labels.len(),
        final(g).rels@.len() == graph_view(*final(g)).rels.len(),
        final(g).labels@.len() == old(g).labels@.len(),
        final(g).rels@.len() <= old(g).rels@.len() + rows@.len(),
{
    let ghost v0 = graph_view(*g);
    let ghost rs = text_lists(rows@);
    let mut k: usize = 0;
    proof {
        assert(rs.take(0) =~= Seq::<Seq<Seq<char>>>::empty());
    }
    while k < rows.len()
        invariant
            k <= rows@.len(),
            rs == text_lists(rows@),
            v0.rels.len() + rows@.len() <= usize::MAX,
            graph_view(*g) == reply_links(v0, rs.take(k as int), posts@, comments@),
            g.labels@.len() == graph_view(*g).labels.len(),
            g.rels@.len() == graph_view(*g).rels.len(),
        decreases rows.len() - k,
    {
        proof {
            lemma_reply_len(v0, rs.take(k as int), posts@, comments@);
            assert(rs.take(k + 1).drop_last() =~= rs.take(k as int));
            assert(rs.take(k + 1).last() == rs[k as int]);
        }
        let row = &rows[k];
        let ghost r = texts(row@);
        proof {
            assert(rs[k as int] == r);
        }
        let pf = field_of(row, 1);
        let parent = if chars_of(pf).len() != 0 {
            lookup(posts, pf)
        } else {
            lookup(comments, field_of(row, 2))
        };
        match (lookup(comments, field_of(row, 0)), parent) {
            (Some(c), Some(p)) => {
                let ghost rel0 = g.rels@;
                g.rels.push((c, p, text_copy("replyOf")));
                proof {
                    let after = reply_row(reply_links(v0, rs.take(k as int), posts@, comments@), r, posts@, comments@);
                    assert(rel_rows(g.rels@) =~= rel_rows(rel0).push((c, p, "replyOf"@)));
                    assert(graph_view(*g).rels =~= after.rels);
                }
            },
            _ => {},
        }
        k = k + 1;
    }
    proof {
        assert(rs.take(k as int) =~= rs);
        lemma_reply_len(v0, rs, posts@, comments@);
    }
}

/// The SNB tables, each as the rows of its files in order, holding the
/// columns that the graph reads (see [`snb_read`]); some files are read
/// twice, for different columns.
pub struct SnbTables {
    pub tag_class: Vec<Vec<String>>,
    pub tag_class_parent: Vec<Vec<String>>,
    pub tag: Vec<Vec<String>>,
    pub person: Vec<Vec<String>>,
    pub place: Vec<Vec<String>>,
    pub place_parent: Vec<Vec<String>>,
    pub person_city: Vec<Vec<String>>,
    pub forum: Vec<Vec<String>>,
    pub forum_member: Vec<Vec<String>>,
    pub post: Vec<Vec<String>>,
    pub post_forum: Vec<Vec<String>>,
    pub comment: Vec<Vec<String>>,
    pub post_tag: Vec<Vec<String>>,
    pub comment_tag: Vec<Vec<String>>,
    pub person_interest: Vec<Vec<String>>,
    pub comment_reply: Vec<Vec<String>>,
    pub post_country: Vec<Vec<String>>,
    pub comment_country: Vec<Vec<String>>,
    pub likes_post: Vec<Vec<String>>,
    pub likes_comment: Vec<Vec<String>>,
    pub knows: Vec<Vec<String>>,
    pub organisation: Vec<Vec<String>>,
    pub work_at: Vec<Vec<String>>,
    pub study_at: Vec<Vec<String>>,
}

/// Counts from a load: the distinct ids of persons, posts, comments, tags
/// and tag classes, and the relationships.
pub struct Stats {
    pub persons: u64,
    pub posts: u64,
    pub comments: u64,
    pub tags: u64,
    pub tag_classes: u64,
    pub rels: u64,
}

/// The id maps of the node tables, by type.
pub struct SnbIds {
    pub tag_class: Map<i64, u32>,
    pub tag: Map<i64, u32>,
    pub person: Map<i64, u32>,
    pub place: Map<i64, u32>,
    pub forum: Map<i64, u32>,
    pub post: Map<i64, u32>,
    pub comment: Map<i64, u32>,
    pub organisation: Map<i64, u32>,
}

/// Tag classes (id, name): `name`.
pub open spec fn tag_class_rules() -> Seq<(Seq<char>, PropFrom)> {
    seq![("name"@, PropFrom::Text(1))]
}

/// Tags (id, name, class): `name`.
pub open spec fn tag_rules() -> Seq<(Seq<char>, PropFrom)> {
    seq![("name"@, PropFrom::Text(1))]
}

/// Persons (creationDate, id, firstName, lastName, gender, birthday): the
/// LDBC id `plid`, `fname`, `lname`, `gender`, birthday month `bmon` and day
/// `bdom`, creation day `pday` and `pym` (year * 12 + month).
pub open spec fn person_rules() -> Seq<(Seq<char>, PropFrom)> {
    seq![
        ("plid"@, PropFrom::Id),
        ("fname"@, PropFrom::Text(2)),
        ("lname"@, PropFrom::Text(3)),
        ("gender"@, PropFrom::Text(4)),
        ("bmon"@, PropFrom::TwoBytes(5, 5)),
        ("bdom"@, PropFrom::TwoBytes(5, 8)),
        ("pday"@, PropFrom::Day(0)),
        ("pym"@, PropFrom::YearMonth(0)),
    ]
}

/// Places (id, name, type): `name` and the LDBC id `lid`.
pub open spec fn place_rules() -> Seq<(Seq<char>, PropFrom)> {
    seq![("name"@, PropFrom::Text(1)), ("lid"@, PropFrom::Id)]
}

/// Forums (id, title, creationDate, moderator): the LDBC id `flid`, `title`
/// and creation day `fday`.
pub open spec fn forum_rules() -> Seq<(Seq<char>, PropFrom)> {
    seq![("flid"@, PropFrom::Id), ("title"@, PropFrom::Text(1)), ("fday"@, PropFrom::Day(2))]
}

/// The message properties from the creation date in field 2, the content in
/// `content` and the length in `length`: `year`, `day`, `ms`, `len` and
/// `content` (1 when the content is not empty).
pub open spec fn message_rules(content: usize, length: usize) -> Seq<(Seq<char>, PropFrom)> {
    seq![
        ("year"@, PropFrom::Year(2)),
        ("day"@, PropFrom::Day(2)),
        ("ms"@, PropFrom::Ms(2)),
        ("len"@, PropFrom::IntOr0(length)),
        ("content"@, PropFrom::Present(content)),
    ]
}

/// Posts (id, creator, creationDate, content, length, language, imageFile):
/// the message properties and `lang`; with `load_content` also the text
/// `ctext` (the image file when the content is empty).
pub open spec fn post_rules(load_content: bool) -> Seq<(Seq<char>, PropFrom)> {
    let base = message_rules(3, 4).push(("lang"@, PropFrom::Text(5)));
    if load_content {
        base.push(("ctext"@, PropFrom::TextOr(3, 6)))
    } else {
        base
    }
}

/// Comments (id, creator, creationDate, content, length): the message
/// properties; with `load_content` also the content as `ctext`.
pub open spec fn comment_rules(load_content: bool) -> Seq<(Seq<char>, PropFrom)> {
    if load_content {
        message_rules(3, 4).push(("ctext"@, PropFrom::Text(3)))
    } else {
        message_rules(3, 4)
    }
}

/// Organisations (id, type, name, place): `name`.
pub open spec fn org_rules() -> Seq<(Seq<char>, PropFrom)> {
    seq![("name"@, PropFrom::Text(2))]
}

/// The nodes of the first tables: tag classes and their hierarchy, tags,
/// persons, places and their hierarchy, where persons live; with the id maps.
pub open spec fn snb_people(t: SnbTables) -> (GraphView, SnbIds) {
    let (v1, tc) = id_nodes((empty_view(), Map::empty()), text_lists(t.tag_class@), 0, LabelFrom::Fixed("TagClass"), tag_class_rules(), None);
    let v2 = ref_links(v1, text_lists(t.tag_class_parent@), 0, tc, 1, tc, "isSubclassOf"@, None);
    let (v3, tg) = id_nodes((v2, Map::empty()), text_lists(t.tag@), 0, LabelFrom::Fixed("Tag"), tag_rules(), Some((2, tc, "hasType"@, false)));
    let (v4, pe) = id_nodes((v3, Map::empty()), text_lists(t.person@), 1, LabelFrom::Fixed("Person"), person_rules(), None);
    let (v5, pl) = id_nodes((v4, Map::empty()), text_lists(t.place@), 0, LabelFrom::Field(2), place_rules(), None);
    let v6 = ref_links(v5, text_lists(t.place_parent@), 0, pl, 1, pl, "isPartOf"@, None);
    let v7 = ref_links(v6, text_lists(t.person_city@), 0, pe, 1, pl, "isLocatedIn"@, None);
    (
        v7,
        SnbIds {
            tag_class: tc,
            tag: tg,
            person: pe,
            place: pl,
            forum: Map::empty(),
            post: Map::empty(),
            comment: Map::empty(),
            organisation: Map::empty(),
        },
    )
}

/// Then forums and their members, posts, the forums that contain them, and
/// comments.
pub open spec fn snb_messages(t: SnbTables, load_content: bool) -> (GraphView, SnbIds) {
    let (v7, ids) = snb_people(t);
    let pe = ids.person;
    let (v8, fo) = id_nodes((v7, Map::empty()), text_lists(t.forum@), 0, LabelFrom::Fixed("Forum"), forum_rules(), Some((3, pe, "hasModerator"@, false)));
    let v9 = ref_links(v8, text_lists(t.forum_member@), 1, fo, 2, pe, "hasMember"@, Some(("hd"@, RelFrom::DayOr0(0))));
    let (v10, po) = id_nodes((v9, Map::empty()), text_lists(t.post@), 0, LabelFrom::Fixed("Post"), post_rules(load_content), Some((1, pe, "hasCreator"@, true)));
    let v11 = ref_links(v10, text_lists(t.post_forum@), 1, fo, 0, po, "containerOf"@, None);
    let (v12, co) = id_nodes((v11, Map::empty()), text_lists(t.comment@), 0, LabelFrom::Fixed("Comment"), comment_rules(load_content), Some((1, pe, "hasCreator"@, true)));
    (v12, SnbIds { forum: fo, post: po, comment: co, ..ids })
}

/// Then tags of messages and interests of persons, replies, message
/// countries, likes and `knows`.
pub open spec fn snb_activity(t: SnbTables, load_content: bool) -> (GraphView, SnbIds) {
    let (v12, ids) = snb_messages(t, load_content);
    let v13 = ref_links(v12, text_lists(t.post_tag@), 0, ids.post, 1, ids.tag, "hasTag"@, None);
    let v14 = ref_links(v13, text_lists(t.comment_tag@), 0, ids.comment, 1, ids.tag, "hasTag"@, None);
    let v15 = ref_links(v14, text_lists(t.person_interest@), 0, ids.person, 1, ids.tag, "hasInterest"@, None);
    let v16 = reply_links(v15, text_lists(t.comment_reply@), ids.post, ids.comment);
    let v17 = ref_links(v16, text_lists(t.post_country@), 0, ids.post, 1, ids.place, "msgCountry"@, None);
    let v18 = ref_links(v17, text_lists(t.comment_country@), 0, ids.comment, 1, ids.place, "msgCountry"@, None);
    let v19 = ref_links(v18, text_lists(t.likes_post@), 1, ids.person, 2, ids.post, "likes"@, Some(("ld"@, RelFrom::Ms(0))));
    let v20 = ref_links(v19, text_lists(t.likes_comment@), 1, ids.person, 2, ids.comment, "likes"@, Some(("ld"@, RelFrom::Ms(0))));
    (knows_links(v20, text_lists(t.knows@), ids.person), ids)
}

/// The social graph of the tables: [`snb_activity`], then organisations with
/// where they are, and where persons work and study.
pub open spec fn snb_graph(t: SnbTables, load_content: bool) -> (GraphView, SnbIds) {
    let (v21, ids) = snb_activity(t, load_content);
    let (v22, og) = id_nodes((v21, Map::empty()), text_lists(t.organisation@), 0, LabelFrom::Field(1), org_rules(), Some((3, ids.place, "orgPlace"@, false)));
    let v23 = ref_links(v22, text_lists(t.work_at@), 0, ids.person, 1, og, "workAt"@, Some(("wf"@, RelFrom::IntOr0(2))));
    let v24 = ref_links(v23, text_lists(t.study_at@), 0, ids.person, 1, og, "studyAt"@, Some(("cy"@, RelFrom::IntOr0(2))));
    (v24, SnbIds { organisation: og, ..ids })
}

/// Every relationship property's date is read without slicing a character
/// apart.
pub open spec fn rel_dates_ok(rows: Seq<Seq<Seq<char>>>, from: RelFrom) -> bool {
    forall|k: int| 0 <= k < rows.len() ==> rel_cuts_ok(from, #[trigger] rows[k])
}

/// No date or birthday of the tables is sliced through a character (where
/// the loader would panic).
pub open spec fn snb_cuts_ok(t: SnbTables, load_content: bool) -> bool {
    &&& rules_cuts_ok(person_rules(), text_lists(t.person@))
    &&& rules_cuts_ok(forum_rules(), text_lists(t.forum@))
    &&& rules_cuts_ok(post_rules(load_content), text_lists(t.post@))
    &&& rules_cuts_ok(comment_rules(load_content), text_lists(t.comment@))
    &&& rel_dates_ok(text_lists(t.forum_member@), RelFrom::DayOr0(0))
    &&& rel_dates_ok(text_lists(t.likes_post@), RelFrom::Ms(0))
    &&& rel_dates_ok(text_lists(t.likes_comment@), RelFrom::Ms(0))
    &&& rel_dates_ok(text_lists(t.knows@), RelFrom::DayOr0(0))
}

/// The number of rows of the tables.
pub open spec fn snb_rows(t: SnbTables) -> nat {
    t.tag_class@.len() + t.tag_class_parent@.len() + t.tag@.len() + t.person@.len() + t.place@.len()
        + t.place_parent@.len() + t.person_city@.len() + t.forum@.len() + t.forum_member@.len() + t.post@.len()
        + t.post_forum@.len() + t.comment@.len() + t.post_tag@.len() + t.comment_tag@.len()
        + t.person_interest@.len() + t.comment_reply@.len() + t.post_country@.len() + t.comment_country@.len()
        + t.likes_post@.len() + t.likes_comment@.len() + 2 * t.knows@.len() + t.organisation@.len()
        + t.work_at@.len() + t.study_at@.len()
}

fn rules_of(items: &[(&'static str, PropFrom)]) -> (r: Vec<(&'static str, PropFrom)>)
    ensures
        r@ == items@,
{
    let mut r: Vec<(&'static str, PropFrom)> = Vec::new();
    let mut k: usize = 0;
    while k < items.len()
        invariant
            k <= items@.len(),
            r@ == items@.take(k as int),
        decreases items.len() - k,
    {
        r.push(items[k]);
        proof {
            assert(items@.take(k + 1) =~= items@.take(k as int).push(items@[k as int]));
        }
        k = k + 1;
    }
    proof {
        assert(items@.take(k as int) =~= items@);
    }
    r
}

fn person_rule_vec() -> (r: Vec<(&'static str, PropFrom)>)
    ensures
        rule_view(r@) == person_rules(),
{
    let r = rules_of(
        &[
            ("plid", PropFrom::Id),
            ("fname", PropFrom::Text(2)),
            ("lname", PropFrom::Text(3)),
            ("gender", PropFrom::Text(4)),
            ("bmon", PropFrom::TwoBytes(5, 5)),
            ("bdom", PropFrom::TwoBytes(5, 8)),
            ("pday", PropFrom::Day(0)),
            ("pym", PropFrom::YearMonth(0)),
        ],
    );
    proof {
        assert(rule_view(r@) =~= person_rules());
    }
    r
}

fn message_rule_vec(post: bool, load_content: bool) -> (r: Vec<(&'static str, PropFrom)>)
    ensures
        post ==> rule_view(r@) == post_rules(load_content),
        !post ==> rule_view(r@) == comment_rules(load_content),
{
    let mut r = rules_of(
        &[
            ("year", PropFrom::Year(2)),
            ("day", PropFrom::Day(2)),
            ("ms", PropFrom::Ms(2)),
            ("len", PropFrom::IntOr0(4)),
            ("content", PropFrom::Present(3)),
        ],
    );
    proof {
        assert(rule_view(r@) =~= message_rules(3, 4));
    }
    if post {
        r.push(("lang", PropFrom::Text(5)));
        if load_content {
            r.push(("ctext", PropFrom::TextOr(3, 6)));
        }
    } else if load_content {
        r.push(("ctext", PropFrom::Text(3)));
    }
    proof {
        if post {
            assert(rule_view(r@) =~= post_rules(load_content));
        } else {
            assert(rule_view(r@) =~= comment_rules(load_content));
        }
    }
    r
}

#[verifier::rlimit(40)]
fn build_people(t: &SnbTables, g: &mut PropGraph) -> (r: (HashMap<i64, u32>, HashMap<i64, u32>, HashMap<i64, u32>, HashMap<i64, u32>))
    requires
        graph_view(*old(g)) == empty_view(),
        old(g).labels@.len() == 0,
        old(g).rels@.len() == 0,
        t.tag_class@.len() + t.tag@.len() + t.person@.len() + t.place@.len() <= u32::MAX,
        snb_rows(*t) <= usize::MAX,
        rules_cuts_ok(person_rules(), text_lists(t.person@)),
    ensures
        graph_view(*final(g)) == snb_people(*t).0,
        r.0@ == snb_people(*t).1.tag_class,
        r.1@ == snb_people(*t).1.tag,
        r.2@ == snb_people(*t).1.person,
        r.3@ == snb_people(*t).1.place,
        final(g).labels@.len() == graph_view(*final(g)).labels.len(),
        final(g).rels@.len() == graph_view(*final(g)).rels.len(),
        final(g).labels@.len() <= t.tag_class@.len() + t.tag@.len() + t.person@.len() + t.place@.len(),
        final(g).rels@.len() <= t.tag_class@.len() + t.tag_class_parent@.len() + t.tag@.len() + t.person@.len() + t.place@.len()
            + t.place_parent@.len() + t.person_city@.len(),
{
    let mut tc: HashMap<i64, u32> = HashMap::new();
    let mut tg: HashMap<i64, u32> = HashMap::new();
    let mut pe: HashMap<i64, u32> = HashMap::new();
    let mut pl: HashMap<i64, u32> = HashMap::new();
    let name1 = rules_of(&[("name", PropFrom::Text(1))]);
    proof {
        assert(rule_view(name1@) =~= tag_class_rules());
        assert(rules_cuts_ok(tag_class_rules(), text_lists(t.tag_class@)));
        assert(rules_cuts_ok(tag_rules(), text_lists(t.tag@)));
    }
    add_id_nodes(g, &t.tag_class, 0, LabelFrom::Fixed("TagClass"), &name1, None, &mut tc);
    add_ref_links(g, &t.tag_class_parent, 0, &tc, 1, &tc, "isSubclassOf", None);
    add_id_nodes(g, &t.tag, 0, LabelFrom::Fixed("Tag"), &name1, Some((2, &tc, "hasType", false)), &mut tg);
    let prules = person_rule_vec();
    add_id_nodes(g, &t.person, 1, LabelFrom::Fixed("Person"), &prules, None, &mut pe);
    let plrules = rules_of(&[("name", PropFrom::Text(1)), ("lid", PropFrom::Id)]);
    proof {
        assert(rule_view(plrules@) =~= place_rules());
        assert(rules_cuts_ok(place_rules(), text_lists(t.place@)));
    }
    add_id_nodes(g, &t.place, 0, LabelFrom::Field(2), &plrules, None, &mut pl);
    add_ref_links(g, &t.place_parent, 0, &pl, 1, &pl, "isPartOf", None);
    add_ref_links(g, &t.person_city, 0, &pe, 1, &pl, "isLocatedIn", None);
    (tc, tg, pe, pl)
}

#[verifier::rlimit(40)]
fn build_messages(t: &SnbTables, load_content: bool, g: &mut PropGraph, pe: &HashMap<i64, u32>) -> (r: (
    HashMap<i64, u32>,
    HashMap<i64, u32>,
    HashMap<i64, u32>,
))
    requires
        graph_view(*old(g)) == snb_people(*t).0,
        pe@ == snb_people(*t).1.person,
        old(g).labels@.len() == graph_view(*old(g)).labels.len(),
        old(g).rels@.len() == graph_view(*old(g)).rels.len(),
        old(g).labels@.len() + t.forum@.len() + t.post@.len() + t.comment@.len() <= u32::MAX,
        old(g).rels@.len() + t.forum@.len() + t.forum_member@.len() + t.post@.len() + t.post_forum@.len() + t.comment@.len()
            <= usize::MAX,
        snb_cuts_ok(*t, load_content),
    ensures
        graph_view(*final(g)) == snb_messages(*t, load_content).0,
        r.0@ == snb_messages(*t, load_content).1.forum,
        r.1@ == snb_messages(*t, load_content).1.post,
        r.2@ == snb_messages(*t, load_content).1.comment,
        final(g).labels@.len() == graph_view(*final(g)).labels.len(),
        final(g).rels@.len() == graph_view(*final(g)).rels.len(),
        final(g).labels@.len() <= old(g).labels@.len() + t.forum@.len() + t.post@.len() + t.comment@.len(),
        final(g).rels@.len() <= old(g).rels@.len() + t.forum@.len() + t.forum_member@.len() + t.post@.len()
            + t.post_forum@.len() + t.comment@.len(),
{
    let mut fo: HashMap<i64, u32> = HashMap::new();
    let mut po: HashMap<i64, u32> = HashMap::new();
    let mut co: HashMap<i64, u32> = HashMap::new();
    let frules = rules_of(&[("flid", PropFrom::Id), ("title", PropFrom::Text(1)), ("fday", PropFrom::Day(2))]);
    proof {
        assert(rule_view(frules@) =~= forum_rules());
    }
    add_id_nodes(g, &t.forum, 0, LabelFrom::Fixed("Forum"), &frules, Some((3, pe, "hasModerator", false)), &mut fo);
    add_ref_links(g, &t.forum_member, 1, &fo, 2, pe, "hasMember", Some(("hd", RelFrom::DayOr0(0))));
    let porules = message_rule_vec(true, load_content);
    add_id_nodes(g, &t.post, 0, LabelFrom::Fixed("Post"), &porules, Some((1, pe, "hasCreator", true)), &mut po);
    add_ref_links(g, &t.post_forum, 1, &fo, 0, &po, "containerOf", None);
    let corules = message_rule_vec(false, load_content);
    add_id_nodes(g, &t.comment, 0, LabelFrom::Fixed("Comment"), &corules, Some((1, pe, "hasCreator", true)), &mut co);
    (fo, po, co)
}

fn build_activity(
    t: &SnbTables,
    load_content: bool,
    g: &mut PropGraph,
    tg: &HashMap<i64, u32>,
    pe: &HashMap<i64, u32>,
    pl: &HashMap<i64, u32>,
    po: &HashMap<i64, u32>,
    co: &HashMap<i64, u32>,
)
    requires
        graph_view(*old(g)) == snb_messages(*t, load_content).0,
        tg@ == snb_messages(*t, load_content).1.tag,
        pe@ == snb_messages(*t, load_content).1.person,
        pl@ == snb_messages(*t, load_content).1.place,
        po@ == snb_messages(*t, load_content).1.post,
        co@ == snb_messages(*t, load_content).1.comment,
        old(g).labels@.len() == graph_view(*old(g)).labels.len(),
        old(g).rels@.len() == graph_view(*old(g)).rels.len(),
        old(g).rels@.len() + t.post_tag@.len() + t.comment_tag@.len() + t.person_interest@.len() + t.comment_reply@.len()
            + t.post_country@.len() + t.comment_country@.len() + t.likes_post@.len() + t.likes_comment@.len() + 2
            * t.knows@.len() <= usize::MAX,
        snb_cuts_ok(*t, load_content),
    ensures
        graph_view(*final(g)) == snb_activity(*t, load_content).0,
        final(g).labels@.len() == graph_view(*final(g)).labels.len(),
        final(g).rels@.len() == graph_view(*final(g)).rels.len(),
        final(g).labels@.len() == old(g).labels@.len(),
        final(g).rels@.len() <= old(g).rels@.len() + t.post_tag@.len() + t.comment_tag@.len() + t.person_interest@.len()
            + t.comment_reply@.len() + t.post_country@.len() + t.comment_country@.len() + t.likes_post@.len()
            + t.likes_comment@.len() + 2 * t.knows@.len(),
{
    add_ref_links(g, &t.post_tag, 0, po, 1, tg, "hasTag", None);
    add_ref_links(g, &t.comment_tag, 0, co, 1, tg, "hasTag", None);
    add_ref_links(g, &t.person_interest, 0, pe, 1, tg, "hasInterest", None);
    add_replies(g, &t.comment_reply, po, co);
    add_ref_links(g, &t.post_country, 0, po, 1, pl, "msgCountry", None);
    add_ref_links(g, &t.comment_country, 0, co, 1, pl, "msgCountry", None);
    add_ref_links(g, &t.likes_post, 1, pe, 2, po, "likes", Some(("ld", RelFrom::Ms(0))));
    add_ref_links(g, &t.likes_comment, 1, pe, 2, co, "likes", Some(("ld", RelFrom::Ms(0))));
    add_knows(g, &t.knows, pe);
}

/// Build the social graph of the tables `t`, in the order of [`snb_graph`];
/// with `load_content`, messages also keep their text as `ctext`. The counts
/// are the distinct ids of persons, posts, comments, tags and tag classes,
/// and the relationships made.
pub fn social_graph_from_tables(t: &SnbTables, load_content: bool) -> (r: (PropGraph, Stats))
    requires
        snb_node_rows(*t) <= u32::MAX,
        snb_rows(*t) <= usize::MAX,
        snb_cuts_ok(*t, load_content),
    ensures
        graph_view(r.0) == snb_graph(*t, load_content).0,
        rels_within(r.0),
        r.1.persons == snb_graph(*t, load_content).1.person.len(),
        r.1.posts == snb_graph(*t, load_content).1.post.len(),
        r.1.comments == snb_graph(*t, load_content).1.comment.len(),
        r.1.tags == snb_graph(*t, load_content).1.tag.len(),
        r.1.tag_classes == snb_graph(*t, load_content).1.tag_class.len(),
        r.1.rels == snb_graph(*t, load_content).0.rels.len(),
{
    let mut g = empty_graph();
    let (tc, tg, pe, pl) = build_people(t, &mut g);
    let (fo, po, co) = build_messages(t, load_content, &mut g, &pe);
    build_activity(t, load_content, &mut g, &tg, &pe, &pl, &po, &co);
    let mut og: HashMap<i64, u32> = HashMap::new();
    let orules = rules_of(&[("name", PropFrom::Text(2))]);
    proof {
        assert(rule_view(orules@) =~= org_rules());
        assert(rules_cuts_ok(org_rules(), text_lists(t.organisation@)));
    }
    add_id_nodes(&mut g, &t.organisation, 0, LabelFrom::Field(1), &orules, Some((3, &pl, "orgPlace", false)), &mut og);
    add_ref_links(&mut g, &t.work_at, 0, &pe, 1, &og, "workAt", Some(("wf", RelFrom::IntOr0(2))));
    add_ref_links(&mut g, &t.study_at, 0, &pe, 1, &og, "studyAt", Some(("cy", RelFrom::IntOr0(2))));
    let stats = Stats {
        persons: pe.len() as u64,
        posts: po.len() as u64,
        comments: co.len() as u64,
        tags: tg.len() as u64,
        tag_classes: tc.len() as u64,
        rels: g.rels.len() as u64,
    };
    proof {
        law_social_rels_join_nodes(*t, load_content);
        assert forall|k: int| 0 <= k < g.rels@.len() implies (#[trigger] g.rels@[k]).0 < g.labels@.len() && g.rels@[k].1
            < g.labels@.len() by {
            assert(graph_view(g).rels[k].0 == g.rels@[k].0);
            assert(graph_view(g).rels[k].1 == g.rels@[k].1);
        }
    }
    (g, stats)
}

/// The reads that make up [`SnbTables`], one per field, in field order.
#[derive(Clone, Copy, Debug, PartialEq, Eq)]
pub enum SnbRead {
    TagClass,
    TagClassParent,
    Tag,
    Person,
    Place,
    PlaceParent,
    PersonCity,
    Forum,
    ForumMember,
    Post,
    PostForum,
    Comment,
    PostTag,
    CommentTag,
    PersonInterest,
    CommentReply,
    PostCountry,
    CommentCountry,
    LikesPost,
    LikesComment,
    Knows,
    Organisation,
    WorkAt,
    StudyAt,
}

/// The directory of a read, under the snapshot (its `.csv.gz` files).
pub open spec fn snb_dir(r: SnbRead) -> Seq<char> {
    match r {
        SnbRead::TagClass => "static/TagClass"@,
        SnbRead::TagClassParent => "static/TagClass"@,
        SnbRead::Tag => "static/Tag"@,
        SnbRead::Person => "dynamic/Person"@,
        SnbRead::Place => "static/Place"@,
        SnbRead::PlaceParent => "static/Place"@,
        SnbRead::PersonCity => "dynamic/Person"@,
        SnbRead::Forum => "dynamic/Forum"@,
        SnbRead::ForumMember => "dynamic/Forum_hasMember_Person"@,
        SnbRead::Post => "dynamic/Post"@,
        SnbRead::PostForum => "dynamic/Post"@,
        SnbRead::Comment => "dynamic/Comment"@,
        SnbRead::PostTag => "dynamic/Post_hasTag_Tag"@,
        SnbRead::CommentTag => "dynamic/Comment_hasTag_Tag"@,
        SnbRead::PersonInterest => "dynamic/Person_hasInterest_Tag"@,
        SnbRead::CommentReply => "dynamic/Comment"@,
        SnbRead::PostCountry => "dynamic/Post"@,
        SnbRead::CommentCountry => "dynamic/Comment"@,
        SnbRead::LikesPost => "dynamic/Person_likes_Post"@,
        SnbRead::LikesComment => "dynamic/Person_likes_Comment"@,
        SnbRead::Knows => "dynamic/Person_knows_Person"@,
        SnbRead::Organisation => "static/Organisation"@,
        SnbRead::WorkAt => "dynamic/Person_workAt_Company"@,
        SnbRead::StudyAt => "dynamic/Person_studyAt_University"@,
    }
}

/// The columns of a read, in the order the graph reads them.
pub open spec fn snb_cols(r: SnbRead) -> Seq<Seq<char>> {
    match r {
        SnbRead::TagClass => seq!["id"@, "name"@],
        SnbRead::TagClassParent => seq!["id"@, "SubclassOfTagClassId"@],
        SnbRead::Tag => seq!["id"@, "name"@, "TypeTagClassId"@],
        SnbRead::Person => seq!["creationDate"@, "id"@, "firstName"@, "lastName"@, "gender"@, "birthday"@],
        SnbRead::Place => seq!["id"@, "name"@, "type"@],
        SnbRead::PlaceParent => seq!["id"@, "PartOfPlaceId"@],
        SnbRead::PersonCity => seq!["id"@, "LocationCityId"@],
        SnbRead::Forum => seq!["id"@, "title"@, "creationDate"@, "ModeratorPersonId"@],
        SnbRead::ForumMember => seq!["creationDate"@, "ForumId"@, "PersonId"@],
        SnbRead::Post => seq!["id"@, "CreatorPersonId"@, "creationDate"@, "content"@, "length"@, "language"@, "imageFile"@],
        SnbRead::PostForum => seq!["id"@, "ContainerForumId"@],
        SnbRead::Comment => seq!["id"@, "CreatorPersonId"@, "creationDate"@, "content"@, "length"@],
        SnbRead::PostTag => seq!["PostId"@, "TagId"@],
        SnbRead::CommentTag => seq!["CommentId"@, "TagId"@],
        SnbRead::PersonInterest => seq!["personId"@, "interestId"@],
        SnbRead::CommentReply => seq!["id"@, "ParentPostId"@, "ParentCommentId"@],
        SnbRead::PostCountry => seq!["id"@, "LocationCountryId"@],
        SnbRead::CommentCountry => seq!["id"@, "LocationCountryId"@],
        SnbRead::LikesPost => seq!["creationDate"@, "PersonId"@, "PostId"@],
        SnbRead::LikesComment => seq!["creationDate"@, "PersonId"@, "CommentId"@],
        SnbRead::Knows => seq!["creationDate"@, "Person1Id"@, "Person2Id"@],
        SnbRead::Organisation => seq!["id"@, "type"@, "name"@, "LocationPlaceId"@],
        SnbRead::WorkAt => seq!["PersonId"@, "CompanyId"@, "workFrom"@],
        SnbRead::StudyAt => seq!["PersonId"@, "UniversityId"@, "classYear"@],
    }
}

/// Where a read's files are, and which of their columns to read.
pub fn snb_read(r: SnbRead) -> (out: (&'static str, Vec<&'static str>))
    ensures
        out.0@ == snb_dir(r),
        out.1@.map_values(|c: &str| c@) == snb_cols(r),
{
    let (d, cols): (&'static str, Vec<&'static str>) = match r {
        SnbRead::TagClass => ("static/TagClass", vec!["id", "name"]),
        SnbRead::TagClassParent => ("static/TagClass", vec!["id", "SubclassOfTagClassId"]),
        SnbRead::Tag => ("static/Tag", vec!["id", "name", "TypeTagClassId"]),
        SnbRead::Person => ("dynamic/Person", vec!["creationDate", "id", "firstName", "lastName", "gender", "birthday"]),
        SnbRead::Place => ("static/Place", vec!["id", "name", "type"]),
        SnbRead::PlaceParent => ("static/Place", vec!["id", "PartOfPlaceId"]),
        SnbRead::PersonCity => ("dynamic/Person", vec!["id", "LocationCityId"]),
        SnbRead::Forum => ("dynamic/Forum", vec!["id", "title", "creationDate", "ModeratorPersonId"]),
        SnbRead::ForumMember => ("dynamic/Forum_hasMember_Person", vec!["creationDate", "ForumId", "PersonId"]),
        SnbRead::Post => ("dynamic/Post", vec!["id", "CreatorPersonId", "creationDate", "content", "length", "language", "imageFile"]),
        SnbRead::PostForum => ("dynamic/Post", vec!["id", "ContainerForumId"]),
        SnbRead::Comment => ("dynamic/Comment", vec!["id", "CreatorPersonId", "creationDate", "content", "length"]),
        SnbRead::PostTag => ("dynamic/Post_hasTag_Tag", vec!["PostId", "TagId"]),
        SnbRead::CommentTag => ("dynamic/Comment_hasTag_Tag", vec!["CommentId", "TagId"]),
        SnbRead::PersonInterest => ("dynamic/Person_hasInterest_Tag", vec!["personId", "interestId"]),
        SnbRead::CommentReply => ("dynamic/Comment", vec!["id", "ParentPostId", "ParentCommentId"]),
        SnbRead::PostCountry => ("dynamic/Post", vec!["id", "LocationCountryId"]),
        SnbRead::CommentCountry => ("dynamic/Comment", vec!["id", "LocationCountryId"]),
        SnbRead::LikesPost => ("dynamic/Person_likes_Post", vec!["creationDate", "PersonId", "PostId"]),
        SnbRead::LikesComment => ("dynamic/Person_likes_Comment", vec!["creationDate", "PersonId", "CommentId"]),
        SnbRead::Knows => ("dynamic/Person_knows_Person", vec!["creationDate", "Person1Id", "Person2Id"]),
        SnbRead::Organisation => ("static/Organisation", vec!["id", "type", "name", "LocationPlaceId"]),
        SnbRead::WorkAt => ("dynamic/Person_workAt_Company", vec!["PersonId", "CompanyId", "workFrom"]),
        SnbRead::StudyAt => ("dynamic/Person_studyAt_University", vec!["PersonId", "UniversityId", "classYear"]),
    };
    proof {
        reveal_strlit("CommentId");
        reveal_strlit("CompanyId");
        reveal_strlit("ContainerForumId");
        reveal_strlit("CreatorPersonId");
        reveal_strlit("ForumId");
        reveal_strlit("LocationCityId");
        reveal_strlit("LocationCountryId");
        reveal_strlit("LocationPlaceId");
        reveal_strlit("ModeratorPersonId");
        reveal_strlit("ParentCommentId");
        reveal_strlit("ParentPostId");
        reveal_strlit("PartOfPlaceId");
        reveal_strlit("Person1Id");
        reveal_strlit("Person2Id");
        reveal_strlit("PersonId");
        reveal_strlit("PostId");
        reveal_strlit("SubclassOfTagClassId");
        reveal_strlit("TagId");
        reveal_strlit("TypeTagClassId");
        reveal_strlit("UniversityId");
        reveal_strlit("birthday");
        reveal_strlit("classYear");
        reveal_strlit("content");
        reveal_strlit("creationDate");
        reveal_strlit("dynamic/Comment");
        reveal_strlit("dynamic/Comment_hasTag_Tag");
        reveal_strlit("dynamic/Forum");
        reveal_strlit("dynamic/Forum_hasMember_Person");
        reveal_strlit("dynamic/Person");
        reveal_strlit("dynamic/Person_hasInterest_Tag");
        reveal_strlit("dynamic/Person_knows_Person");
        reveal_strlit("dynamic/Person_likes_Comment");
        reveal_strlit("dynamic/Person_likes_Post");
        reveal_strlit("dynamic/Person_studyAt_University");
        reveal_strlit("dynamic/Person_workAt_Company");
        reveal_strlit("dynamic/Post");
        reveal_strlit("dynamic/Post_hasTag_Tag");
        reveal_strlit("firstName");
        reveal_strlit("gender");
        reveal_strlit("id");
        reveal_strlit("imageFile");
        reveal_strlit("interestId");
        reveal_strlit("language");
        reveal_strlit("lastName");
        reveal_strlit("length");
        reveal_strlit("name");
        reveal_strlit("personId");
        reveal_strlit("static/Organisation");
        reveal_strlit("static/Place");
        reveal_strlit("static/Tag");
        reveal_strlit("static/TagClass");
        reveal_strlit("title");
        reveal_strlit("type");
        reveal_strlit("workFrom");
        assert(cols@.map_values(|c: &str| c@) =~= snb_cols(r));
    }
    (d, cols)
}

fn prop_cuts(from: PropFrom, row: &Vec<String>) -> (r: bool)
    ensures
        r == prop_cuts_ok(from, texts(row@)),
{
    match from {
        PropFrom::Day(c) => date_cuts(field_of(row, c)),
        PropFrom::Year(c) => date_cuts(field_of(row, c)),
        PropFrom::YearMonth(c) => date_cuts(field_of(row, c)),
        PropFrom::Ms(c) => ms_cuts(field_of(row, c)),
        PropFrom::TwoBytes(c, lo) => {
            let b = field_of(row, c).as_bytes();
            if b.len() >= 10 {
                lo <= 8 && is_boundary(b, lo) && is_boundary(b, lo + 2)
            } else {
                true
            }
        },
        _ => true,
    }
}

fn rules_cuts(rules: &Vec<(&'static str, PropFrom)>, rows: &Vec<Vec<String>>) -> (r: bool)
    ensures
        r == rules_cuts_ok(rule_view(rules@), text_lists(rows@)),
{
    let ghost rv = rule_view(rules@);
    let ghost rs = text_lists(rows@);
    let mut k: usize = 0;
    while k < rows.len()
        invariant
            k <= rows@.len(),
            rv == rule_view(rules@),
            rs == text_lists(rows@),
            forall|x: int, j: int| 0 <= x < k && 0 <= j < rv.len() ==> prop_cuts_ok(#[trigger] rv[j].1, #[trigger] rs[x]),
        decreases rows.len() - k,
    {
        let mut j: usize = 0;
        while j < rules.len()
            invariant
                k < rows@.len(),
                j <= rules@.len(),
                rv == rule_view(rules@),
                rs == text_lists(rows@),
                forall|x: int, q: int| 0 <= x < k && 0 <= q < rv.len() ==> prop_cuts_ok(#[trigger] rv[q].1, #[trigger] rs[x]),
                forall|q: int| 0 <= q < j ==> prop_cuts_ok(#[trigger] rv[q].1, rs[k as int]),
            decreases rules.len() - j,
        {
            proof {
                assert(rv[j as int].1 == rules@[j as int].1);
                assert(rs[k as int] == texts(rows@[k as int]@));
            }
            if !prop_cuts(rules[j].1, &rows[k]) {
                return false;
            }
            j = j + 1;
        }
        k = k + 1;
    }
    true
}

fn rel_cuts_all(rows: &Vec<Vec<String>>, from: RelFrom) -> (r: bool)
    ensures
        r == rel_dates_ok(text_lists(rows@), from),
{
    let ghost rs = text_lists(rows@);
    let mut k: usize = 0;
    while k < rows.len()
        invariant
            k <= rows@.len(),
            rs == text_lists(rows@),
            forall|x: int| 0 <= x < k ==> rel_cuts_ok(from, #[trigger] rs[x]),
        decreases rows.len() - k,
    {
        proof {
            assert(rs[k as int] == texts(rows@[k as int]@));
        }
        let row = &rows[k];
        let ok = match from {
            RelFrom::DayOr0(c) => date_cuts(field_of(row, c)),
            RelFrom::Ms(c) => ms_cuts(field_of(row, c)),
            RelFrom::IntOr0(_) => true,
        };
        if !ok {
            return false;
        }
        k = k + 1;
    }
    true
}

/// Whether the dates and birthdays of `t` can all be read without slicing a
/// character apart, as [`social_graph_from_tables`] requires.
pub fn snb_cuts_hold(t: &SnbTables, load_content: bool) -> (r: bool)
    ensures
        r == snb_cuts_ok(*t, load_content),
{
    let prules = person_rule_vec();
    let frules = rules_of(&[("flid", PropFrom::Id), ("title", PropFrom::Text(1)), ("fday", PropFrom::Day(2))]);
    proof {
        assert(rule_view(frules@) =~= forum_rules());
    }
    let porules = message_rule_vec(true, load_content);
    let corules = message_rule_vec(false, load_content);
    rules_cuts(&prules, &t.person) && rules_cuts(&frules, &t.forum) && rules_cuts(&porules, &t.post) && rules_cuts(
        &corules,
        &t.comment,
    ) && rel_cuts_all(&t.forum_member, RelFrom::DayOr0(0)) && rel_cuts_all(&t.likes_post, RelFrom::Ms(0))
        && rel_cuts_all(&t.likes_comment, RelFrom::Ms(0)) && rel_cuts_all(&t.knows, RelFrom::DayOr0(0))
}

/// Every relationship of `v` joins two of its nodes.
pub open spec fn joins_nodes(v: GraphView) -> bool {
    forall|k: int| 0 <= k < v.rels.len() ==> (#[trigger] v.rels[k]).0 < v.labels.len() && v.rels[k].1 < v.labels.len()
}

/// Every value of `m` is a node below `n`.
pub open spec fn ids_below(m: Map<i64, u32>, n: int) -> bool {
    forall|key: i64| #[trigger] m.contains_key(key) ==> m[key] < n
}

proof fn lemma_known_below(m: Map<i64, u32>, t: Seq<char>, n: int)
    requires
        ids_below(m, n),
    ensures
        known(m, t) matches Some(x) ==> x < n,
{
}

proof fn lemma_id_nodes_within(
    s: (GraphView, Map<i64, u32>),
    rows: Seq<Seq<Seq<char>>>,
    id_col: usize,
    label: LabelFrom,
    rules: Seq<(Seq<char>, PropFrom)>,
    link: NodeLinkView,
)
    requires
        joins_nodes(s.0),
        ids_below(s.1, s.0.labels.len() as int),
        s.0.labels.len() + rows.len() <= u32::MAX,
        link matches Some((_, lm, _, _)) ==> ids_below(lm, s.0.labels.len() as int),
    ensures
        joins_nodes(id_nodes(s, rows, id_col, label, rules, link).0),
        ids_below(id_nodes(s, rows, id_col, label, rules, link).1, id_nodes(s, rows, id_col, label, rules, link).0.labels.len() as int),
        id_nodes(s, rows, id_col, label, rules, link).0.labels.len() >= s.0.labels.len(),
    decreases rows.len(),
{
    if rows.len() > 0 {
        lemma_id_nodes_within(s, rows.drop_last(), id_col, label, rules, link);
        lemma_id_nodes_len(s, rows.drop_last(), id_col, label, rules, link);
        let p = id_nodes(s, rows.drop_last(), id_col, label, rules, link);
        let row = rows.last();
        let r = node_row(p, row, id_col, label, rules, link);
        match link {
            Some((c, lm, typ, i)) => {
                lemma_known_below(lm, field_or_empty(row, c as int), p.0.labels.len() as int);
            },
            None => {},
        }
        assert forall|k: int| 0 <= k < r.0.rels.len() implies (#[trigger] r.0.rels[k]).0 < r.0.labels.len() && r.0.rels[k].1 < r.0.labels.len() by {
            if k < p.0.rels.len() {
                assert(r.0.rels[k] == p.0.rels[k]);
            }
        }
    }
}

proof fn lemma_ref_links_within(
    v: GraphView,
    rows: Seq<Seq<Seq<char>>>,
    a: usize,
    from: Map<i64, u32>,
    b: usize,
    to: Map<i64, u32>,
    typ: Seq<char>,
    prop: Option<(Seq<char>, RelFrom)>,
)
    requires
        joins_nodes(v),
        ids_below(from, v.labels.len() as int),
        ids_below(to, v.labels.len() as int),
    ensures
        joins_nodes(ref_links(v, rows, a, from, b, to, typ, prop)),
        ref_links(v, rows, a, from, b, to, typ, prop).labels == v.labels,
    decreases rows.len(),
{
    if rows.len() > 0 {
        lemma_ref_links_within(v, rows.drop_last(), a, from, b, to, typ, prop);
        let p = ref_links(v, rows.drop_last(), a, from, b, to, typ, prop);
        let row = rows.last();
        lemma_known_below(from, field_or_empty(row, a as int), v.labels.len() as int);
        lemma_known_below(to, field_or_empty(row, b as int), v.labels.len() as int);
        let r = link_row(p, row, a, from, b, to, typ, prop);
        assert forall|k: int| 0 <= k < r.rels.len() implies (#[trigger] r.rels[k]).0 < r.labels.len() && r.rels[k].1 < r.labels.len() by {
            if k < p.rels.len() {
                assert(r.rels[k] == p.rels[k]);
            }
        }
    }
}

proof fn lemma_knows_within(v: GraphView, rows: Seq<Seq<Seq<char>>>, persons: Map<i64, u32>)
    requires
        joins_nodes(v),
        ids_below(persons, v.labels.len() as int),
    ensures
        joins_nodes(knows_links(v, rows, persons)),
        knows_links(v, rows, persons).labels == v.labels,
    decreases rows.len(),
{
    if rows.len() > 0 {
        lemma_knows_within(v, rows.drop_last(), persons);
        let p = knows_links(v, rows.drop_last(), persons);
        let row = rows.last();
        lemma_known_below(persons, field_or_empty(row, 1), v.labels.len() as int);
        lemma_known_below(persons, field_or_empty(row, 2), v.labels.len() as int);
        let r = knows_row(p, row, persons);
        assert forall|k: int| 0 <= k < r.rels.len() implies (#[trigger] r.rels[k]).0 < r.labels.len() && r.rels[k].1 < r.labels.len() by {
            if k < p.rels.len() {
                assert(r.rels[k] == p.rels[k]);
            }
        }
    }
}

proof fn lemma_reply_within(v: GraphView, rows: Seq<Seq<Seq<char>>>, posts: Map<i64, u32>, comments: Map<i64, u32>)
    requires
        joins_nodes(v),
        ids_below(posts, v.labels.len() as int),
        ids_below(comments, v.labels.len() as int),
    ensures
        joins_nodes(reply_links(v, rows, posts, comments)),
        reply_links(v, rows, posts, comments).labels == v.labels,
    decreases rows.len(),
{
    if rows.len() > 0 {
        lemma_reply_within(v, rows.drop_last(), posts, comments);
        let p = reply_links(v, rows.drop_last(), posts, comments);
        let row = rows.last();
        lemma_known_below(comments, field_or_empty(row, 0), v.labels.len() as int);
        lemma_known_below(posts, field_or_empty(row, 1), v.labels.len() as int);
        lemma_known_below(comments, field_or_empty(row, 2), v.labels.len() as int);
        let r = reply_row(p, row, posts, comments);
        assert forall|k: int| 0 <= k < r.rels.len() implies (#[trigger] r.rels[k]).0 < r.labels.len() && r.rels[k].1 < r.labels.len() by {
            if k < p.rels.len() {
                assert(r.rels[k] == p.rels[k]);
            }
        }
    }
}

/// The node rows of the tables.
pub open spec fn snb_node_rows(t: SnbTables) -> nat {
    t.tag_class@.len() + t.tag@.len() + t.person@.len() + t.place@.len() + t.forum@.len() + t.post@.len()
        + t.comment@.len() + t.organisation@.len()
}

proof fn lemma_people_within(t: SnbTables)
    requires
        snb_node_rows(t) <= u32::MAX,
    ensures
        joins_nodes(snb_people(t).0),
        ids_below(snb_people(t).1.tag, snb_people(t).0.labels.len() as int),
        ids_below(snb_people(t).1.person, snb_people(t).0.labels.len() as int),
        ids_below(snb_people(t).1.place, snb_people(t).0.labels.len() as int),
        snb_people(t).0.labels.len() <= t.tag_class@.len() + t.tag@.len() + t.person@.len() + t.place@.len(),
{
    let e = (empty_view(), Map::<i64, u32>::empty());
    lemma_id_nodes_within(e, text_lists(t.tag_class@), 0, LabelFrom::Fixed("TagClass"), tag_class_rules(), None);
    lemma_id_nodes_len(e, text_lists(t.tag_class@), 0, LabelFrom::Fixed("TagClass"), tag_class_rules(), None);
    let (v1, tc) = id_nodes(e, text_lists(t.tag_class@), 0, LabelFrom::Fixed("TagClass"), tag_class_rules(), None);
    lemma_ref_links_within(v1, text_lists(t.tag_class_parent@), 0, tc, 1, tc, "isSubclassOf"@, None);
    let v2 = ref_links(v1, text_lists(t.tag_class_parent@), 0, tc, 1, tc, "isSubclassOf"@, None);
    let l3: NodeLinkView = Some((2, tc, "hasType"@, false));
    lemma_id_nodes_within((v2, Map::empty()), text_lists(t.tag@), 0, LabelFrom::Fixed("Tag"), tag_rules(), l3);
    lemma_id_nodes_len((v2, Map::empty()), text_lists(t.tag@), 0, LabelFrom::Fixed("Tag"), tag_rules(), l3);
    let (v3, tg) = id_nodes((v2, Map::empty()), text_lists(t.tag@), 0, LabelFrom::Fixed("Tag"), tag_rules(), l3);
    lemma_id_nodes_within((v3, Map::empty()), text_lists(t.person@), 1, LabelFrom::Fixed("Person"), person_rules(), None);
    lemma_id_nodes_len((v3, Map::empty()), text_lists(t.person@), 1, LabelFrom::Fixed("Person"), person_rules(), None);
    let (v4, pe) = id_nodes((v3, Map::empty()), text_lists(t.person@), 1, LabelFrom::Fixed("Person"), person_rules(), None);
    lemma_id_nodes_within((v4, Map::empty()), text_lists(t.place@), 0, LabelFrom::Field(2), place_rules(), None);
    lemma_id_nodes_len((v4, Map::empty()), text_lists(t.place@), 0, LabelFrom::Field(2), place_rules(), None);
    let (v5, pl) = id_nodes((v4, Map::empty()), text_lists(t.place@), 0, LabelFrom::Field(2), place_rules(), None);
    lemma_ref_links_within(v5, text_lists(t.place_parent@), 0, pl, 1, pl, "isPartOf"@, None);
    let v6 = ref_links(v5, text_lists(t.place_parent@), 0, pl, 1, pl, "isPartOf"@, None);
    lemma_ref_links_within(v6, text_lists(t.person_city@), 0, pe, 1, pl, "isLocatedIn"@, None);
}

proof fn lemma_messages_within(t: SnbTables, load_content: bool)
    requires
        snb_node_rows(t) <= u32::MAX,
    ensures
        joins_nodes(snb_messages(t, load_content).0),
        ids_below(snb_messages(t, load_content).1.tag, snb_messages(t, load_content).0.labels.len() as int),
        ids_below(snb_messages(t, load_content).1.person, snb_messages(t, load_content).0.labels.len() as int),
        ids_below(snb_messages(t, load_content).1.place, snb_messages(t, load_content).0.labels.len() as int),
        ids_below(snb_messages(t, load_content).1.post, snb_messages(t, load_content).0.labels.len() as int),
        ids_below(snb_messages(t, load_content).1.comment, snb_messages(t, load_content).0.labels.len() as int),
        snb_messages(t, load_content).0.labels.len() <= t.tag_class@.len() + t.tag@.len() + t.person@.len() + t.place@.len()
            + t.forum@.len() + t.post@.len() + t.comment@.len(),
{
    lemma_people_within(t);
    let (v7, ids) = snb_people(t);
    let pe = ids.person;
    let l8: NodeLinkView = Some((3, pe, "hasModerator"@, false));
    lemma_id_nodes_within((v7, Map::empty()), text_lists(t.forum@), 0, LabelFrom::Fixed("Forum"), forum_rules(), l8);
    lemma_id_nodes_len((v7, Map::empty()), text_lists(t.forum@), 0, LabelFrom::Fixed("Forum"), forum_rules(), l8);
    let (v8, fo) = id_nodes((v7, Map::empty()), text_lists(t.forum@), 0, LabelFrom::Fixed("Forum"), forum_rules(), l8);
    let hd: Option<(Seq<char>, RelFrom)> = Some(("hd"@, RelFrom::DayOr0(0)));
    lemma_ref_links_within(v8, text_lists(t.forum_member@), 1, fo, 2, pe, "hasMember"@, hd);
    let v9 = ref_links(v8, text_lists(t.forum_member@), 1, fo, 2, pe, "hasMember"@, hd);
    let l10: NodeLinkView = Some((1, pe, "hasCreator"@, true));
    lemma_id_nodes_within((v9, Map::empty()), text_lists(t.post@), 0, LabelFrom::Fixed("Post"), post_rules(load_content), l10);
    lemma_id_nodes_len((v9, Map::empty()), text_lists(t.post@), 0, LabelFrom::Fixed("Post"), post_rules(load_content), l10);
    let (v10, po) = id_nodes((v9, Map::empty()), text_lists(t.post@), 0, LabelFrom::Fixed("Post"), post_rules(load_content), l10);
    lemma_ref_links_within(v10, text_lists(t.post_forum@), 1, fo, 0, po, "containerOf"@, None);
    let v11 = ref_links(v10, text_lists(t.post_forum@), 1, fo, 0, po, "containerOf"@, None);
    lemma_id_nodes_within((v11, Map::empty()), text_lists(t.comment@), 0, LabelFrom::Fixed("Comment"), comment_rules(load_content), l10);
    lemma_id_nodes_len((v11, Map::empty()), text_lists(t.comment@), 0, LabelFrom::Fixed("Comment"), comment_rules(load_content), l10);
}

/// Every relationship of the social graph joins two of its nodes, whatever
/// the tables hold: the reads, which take this of the graph they are given,
/// can run on what the loader builds.
pub proof fn law_social_rels_join_nodes(t: SnbTables, load_content: bool)
    requires
        snb_node_rows(t) <= u32::MAX,
    ensures
        joins_nodes(snb_graph(t, load_content).0),
{
    lemma_messages_within(t, load_content);
    let (v12, ids) = snb_messages(t, load_content);
    lemma_ref_links_within(v12, text_lists(t.post_tag@), 0, ids.post, 1, ids.tag, "hasTag"@, None);
    let v13 = ref_links(v12, text_lists(t.post_tag@), 0, ids.post, 1, ids.tag, "hasTag"@, None);
    lemma_ref_links_within(v13, text_lists(t.comment_tag@), 0, ids.comment, 1, ids.tag, "hasTag"@, None);
    let v14 = ref_links(v13, text_lists(t.comment_tag@), 0, ids.comment, 1, ids.tag, "hasTag"@, None);
    lemma_ref_links_within(v14, text_lists(t.person_interest@), 0, ids.person, 1, ids.tag, "hasInterest"@, None);
    let v15 = ref_links(v14, text_lists(t.person_interest@), 0, ids.person, 1, ids.tag, "hasInterest"@, None);
    lemma_reply_within(v15, text_lists(t.comment_reply@), ids.post, ids.comment);
    let v16 = reply_links(v15, text_lists(t.comment_reply@), ids.post, ids.comment);
    lemma_ref_links_within(v16, text_lists(t.post_country@), 0, ids.post, 1, ids.place, "msgCountry"@, None);
    let v17 = ref_links(v16, text_lists(t.post_country@), 0, ids.post, 1, ids.place, "msgCountry"@, None);
    lemma_ref_links_within(v17, text_lists(t.comment_country@), 0, ids.comment, 1, ids.place, "msgCountry"@, None);
    let v18 = ref_links(v17, text_lists(t.comment_country@), 0, ids.comment, 1, ids.place, "msgCountry"@, None);
    let ld: Option<(Seq<char>, RelFrom)> = Some(("ld"@, RelFrom::Ms(0)));
    lemma_ref_links_within(v18, text_lists(t.likes_post@), 1, ids.person, 2, ids.post, "likes"@, ld);
    let v19 = ref_links(v18, text_lists(t.likes_post@), 1, ids.person, 2, ids.post, "likes"@, ld);
    lemma_ref_links_within(v19, text_lists(t.likes_comment@), 1, ids.person, 2, ids.comment, "likes"@, ld);
    let v20 = ref_links(v19, text_lists(t.likes_comment@), 1, ids.person, 2, ids.comment, "likes"@, ld);
    lemma_knows_within(v20, text_lists(t.knows@), ids.person);
    let v21 = knows_links(v20, text_lists(t.knows@), ids.person);
    assert(snb_activity(t, load_content).0 == v21);
    let l22: NodeLinkView = Some((3, ids.place, "orgPlace"@, false));
    lemma_id_nodes_within((v21, Map::empty()), text_lists(t.organisation@), 0, LabelFrom::Field(1), org_rules(), l22);
    let (v22, og) = id_nodes((v21, Map::empty()), text_lists(t.organisation@), 0, LabelFrom::Field(1), org_rules(), l22);
    let wf: Option<(Seq<char>, RelFrom)> = Some(("wf"@, RelFrom::IntOr0(2)));
    lemma_ref_links_within(v22, text_lists(t.work_at@), 0, ids.person, 1, og, "workAt"@, wf);
    let v23 = ref_links(v22, text_lists(t.work_at@), 0, ids.person, 1, og, "workAt"@, wf);
    let cy: Option<(Seq<char>, RelFrom)> = Some(("cy"@, RelFrom::IntOr0(2)));
    lemma_ref_links_within(v23, text_lists(t.study_at@), 0, ids.person, 1, og, "studyAt"@, cy);
}

/// The persons of the benchmark program's graph (creationDate, id): the
/// LDBC id `plid`, creation day `pday` and `pym` (year * 12 + month).
pub open spec fn bench_person_rules() -> Seq<(Seq<char>, PropFrom)> {
    seq![("plid"@, PropFrom::Id), ("pday"@, PropFrom::Day(0)), ("pym"@, PropFrom::YearMonth(0))]
}

/// The messages of the benchmark program's graph: `year`, `day`, `len` and
/// `content` (whether the content is there, as a boolean); posts also `lang`.
pub open spec fn bench_message_rules(post: bool) -> Seq<(Seq<char>, PropFrom)> {
    let base = seq![
        ("year"@, PropFrom::Year(2)),
        ("day"@, PropFrom::Day(2)),
        ("len"@, PropFrom::IntOr0(4)),
        ("content"@, PropFrom::Filled(3)),
    ];
    if post {
        base.push(("lang"@, PropFrom::Text(5)))
    } else {
        base
    }
}

/// The benchmark program's graph, first part: tag classes, tags, persons,
/// places and their hierarchy, where persons live.
pub open spec fn bench_people(t: SnbTables) -> (GraphView, SnbIds) {
    let e = (empty_view(), Map::<i64, u32>::empty());
    let (v1, tc) = id_nodes(e, text_lists(t.tag_class@), 0, LabelFrom::Fixed("TagClass"), tag_class_rules(), None);
    let (v2, tg) = id_nodes((v1, Map::empty()), text_lists(t.tag@), 0, LabelFrom::Fixed("Tag"), tag_rules(), Some((2, tc, "hasType"@, false)));
    let (v3, pe) = id_nodes((v2, Map::empty()), text_lists(t.person@), 1, LabelFrom::Fixed("Person"), bench_person_rules(), None);
    let (v4, pl) = id_nodes((v3, Map::empty()), text_lists(t.place@), 0, LabelFrom::Field(2), place_rules(), None);
    let v5 = ref_links(v4, text_lists(t.place_parent@), 0, pl, 1, pl, "isPartOf"@, None);
    let v6 = ref_links(v5, text_lists(t.person_city@), 0, pe, 1, pl, "isLocatedIn"@, None);
    (
        v6,
        SnbIds {
            tag_class: tc,
            tag: tg,
            person: pe,
            place: pl,
            forum: Map::empty(),
            post: Map::empty(),
            comment: Map::empty(),
            organisation: Map::empty(),
        },
    )
}

/// Then forums and their members, posts and the forums that contain them,
/// and comments.
pub open spec fn bench_messages(t: SnbTables) -> (GraphView, SnbIds) {
    let (v6, ids) = bench_people(t);
    let pe = ids.person;
    let (v7, fo) = id_nodes((v6, Map::empty()), text_lists(t.forum@), 0, LabelFrom::Fixed("Forum"), forum_rules(), Some((3, pe, "hasModerator"@, false)));
    let v8 = ref_links(v7, text_lists(t.forum_member@), 1, fo, 2, pe, "hasMember"@, None);
    let (v9, po) = id_nodes((v8, Map::empty()), text_lists(t.post@), 0, LabelFrom::Fixed("Post"), bench_message_rules(true), Some((1, pe, "hasCreator"@, true)));
    let v10 = ref_links(v9, text_lists(t.post_forum@), 1, fo, 0, po, "containerOf"@, None);
    let (v11, co) = id_nodes((v10, Map::empty()), text_lists(t.comment@), 0, LabelFrom::Fixed("Comment"), bench_message_rules(false), Some((1, pe, "hasCreator"@, true)));
    (v11, SnbIds { forum: fo, post: po, comment: co, ..ids })
}

/// The benchmark program's graph: [`bench_messages`], then tags of messages,
/// interests, replies, likes, `knows`, organisations, and where persons work
/// and study.
pub open spec fn bench_graph(t: SnbTables) -> (GraphView, SnbIds) {
    let (v11, ids) = bench_messages(t);
    let v12 = ref_links(v11, text_lists(t.post_tag@), 0, ids.post, 1, ids.tag, "hasTag"@, None);
    let v13 = ref_links(v12, text_lists(t.comment_tag@), 0, ids.comment, 1, ids.tag, "hasTag"@, None);
    let v14 = ref_links(v13, text_lists(t.person_interest@), 0, ids.person, 1, ids.tag, "hasInterest"@, None);
    let v15 = reply_links(v14, text_lists(t.comment_reply@), ids.post, ids.comment);
    let v16 = ref_links(v15, text_lists(t.likes_post@), 1, ids.person, 2, ids.post, "likes"@, None);
    let v17 = ref_links(v16, text_lists(t.likes_comment@), 1, ids.person, 2, ids.comment, "likes"@, None);
    let v18 = knows_links(v17, text_lists(t.knows@), ids.person);
    let (v19, og) = id_nodes((v18, Map::empty()), text_lists(t.organisation@), 0, LabelFrom::Field(1), org_rules(), None);
    let v20 = ref_links(v19, text_lists(t.work_at@), 0, ids.person, 1, og, "workAt"@, None);
    let v21 = ref_links(v20, text_lists(t.study_at@), 0, ids.person, 1, og, "studyAt"@, Some(("cy"@, RelFrom::IntOr0(2))));
    (v21, SnbIds { organisation: og, ..ids })
}

/// No date of the tables that the benchmark program's graph reads is sliced
/// through a character.
pub open spec fn bench_cuts_ok(t: SnbTables) -> bool {
    &&& rules_cuts_ok(bench_person_rules(), text_lists(t.person@))
    &&& rules_cuts_ok(forum_rules(), text_lists(t.forum@))
    &&& rules_cuts_ok(bench_message_rules(true), text_lists(t.post@))
    &&& rules_cuts_ok(bench_message_rules(false), text_lists(t.comment@))
    &&& rel_dates_ok(text_lists(t.knows@), RelFrom::DayOr0(0))
}

fn bench_message_vec(post: bool) -> (r: Vec<(&'static str, PropFrom)>)
    ensures
        rule_view(r@) == bench_message_rules(post),
{
    let mut r = rules_of(
        &[("year", PropFrom::Year(2)), ("day", PropFrom::Day(2)), ("len", PropFrom::IntOr0(4)), ("content", PropFrom::Filled(3))],
    );
    if post {
        r.push(("lang", PropFrom::Text(5)));
    }
    proof {
        assert(rule_view(r@) =~= bench_message_rules(post));
    }
    r
}

fn bench_person_vec() -> (r: Vec<(&'static str, PropFrom)>)
    ensures
        rule_view(r@) == bench_person_rules(),
{
    let r = rules_of(&[("plid", PropFrom::Id), ("pday", PropFrom::Day(0)), ("pym", PropFrom::YearMonth(0))]);
    proof {
        assert(rule_view(r@) =~= bench_person_rules());
    }
    r
}

#[verifier::rlimit(40)]
fn bench_people_of(t: &SnbTables, g: &mut PropGraph) -> (r: (HashMap<i64, u32>, HashMap<i64, u32>, HashMap<i64, u32>, HashMap<i64, u32>))
    requires
        graph_view(*old(g)) == empty_view(),
        old(g).labels@.len() == 0,
        old(g).rels@.len() == 0,
        snb_node_rows(*t) <= u32::MAX,
        snb_rows(*t) <= usize::MAX,
        rules_cuts_ok(bench_person_rules(), text_lists(t.person@)),
    ensures
        graph_view(*final(g)) == bench_people(*t).0,
        r.0@ == bench_people(*t).1.tag_class,
        r.1@ == bench_people(*t).1.tag,
        r.2@ == bench_people(*t).1.person,
        r.3@ == bench_people(*t).1.place,
        final(g).labels@.len() == graph_view(*final(g)).labels.len(),
        final(g).rels@.len() == graph_view(*final(g)).rels.len(),
        final(g).labels@.len() <= t.tag_class@.len() + t.tag@.len() + t.person@.len() + t.place@.len(),
        final(g).rels@.len() <= t.tag_class@.len() + t.tag@.len() + t.person@.len() + t.place@.len() + t.place_parent@.len()
            + t.person_city@.len(),
{
    let mut tc: HashMap<i64, u32> = HashMap::new();
    let mut tg: HashMap<i64, u32> = HashMap::new();
    let mut pe: HashMap<i64, u32> = HashMap::new();
    let mut pl: HashMap<i64, u32> = HashMap::new();
    let name1 = rules_of(&[("name", PropFrom::Text(1))]);
    proof {
        assert(rule_view(name1@) =~= tag_class_rules());
        assert(rules_cuts_ok(tag_class_rules(), text_lists(t.tag_class@)));
        assert(rules_cuts_ok(tag_rules(), text_lists(t.tag@)));
    }
    add_id_nodes(g, &t.tag_class, 0, LabelFrom::Fixed("TagClass"), &name1, None, &mut tc);
    add_id_nodes(g, &t.tag, 0, LabelFrom::Fixed("Tag"), &name1, Some((2, &tc, "hasType", false)), &mut tg);
    let prules = bench_person_vec();
    add_id_nodes(g, &t.person, 1, LabelFrom::Fixed("Person"), &prules, None, &mut pe);
    let plrules = rules_of(&[("name", PropFrom::Text(1)), ("lid", PropFrom::Id)]);
    proof {
        assert(rule_view(plrules@) =~= place_rules());
        assert(rules_cuts_ok(place_rules(), text_lists(t.place@)));
    }
    add_id_nodes(g, &t.place, 0, LabelFrom::Field(2), &plrules, None, &mut pl);
    add_ref_links(g, &t.place_parent, 0, &pl, 1, &pl, "isPartOf", None);
    add_ref_links(g, &t.person_city, 0, &pe, 1, &pl, "isLocatedIn", None);
    (tc, tg, pe, pl)
}

#[verifier::rlimit(40)]
fn bench_messages_of(t: &SnbTables, g: &mut PropGraph, pe: &HashMap<i64, u32>) -> (r: (
    HashMap<i64, u32>,
    HashMap<i64, u32>,
    HashMap<i64, u32>,
))
    requires
        graph_view(*old(g)) == bench_people(*t).0,
        pe@ == bench_people(*t).1.person,
        old(g).labels@.len() == graph_view(*old(g)).labels.len(),
        old(g).rels@.len() == graph_view(*old(g)).rels.len(),
        old(g).labels@.len() + t.forum@.len() + t.post@.len() + t.comment@.len() <= u32::MAX,
        old(g).rels@.len() + t.forum@.len() + t.forum_member@.len() + t.post@.len() + t.post_forum@.len() + t.comment@.len()
            <= usize::MAX,
        rules_cuts_ok(forum_rules(), text_lists(t.forum@)),
        rules_cuts_ok(bench_message_rules(true), text_lists(t.post@)),
        rules_cuts_ok(bench_message_rules(false), text_lists(t.comment@)),
    ensures
        graph_view(*final(g)) == bench_messages(*t).0,
        r.0@ == bench_messages(*t).1.forum,
        r.1@ == bench_messages(*t).1.post,
        r.2@ == bench_messages(*t).1.comment,
        final(g).labels@.len() == graph_view(*final(g)).labels.len(),
        final(g).rels@.len() == graph_view(*final(g)).rels.len(),
        final(g).labels@.len() <= old(g).labels@.len() + t.forum@.len() + t.post@.len() + t.comment@.len(),
        final(g).rels@.len() <= old(g).rels@.len() + t.forum@.len() + t.forum_member@.len() + t.post@.len()
            + t.post_forum@.len() + t.comment@.len(),
{
    let mut fo: HashMap<i64, u32> = HashMap::new();
    let mut po: HashMap<i64, u32> = HashMap::new();
    let mut co: HashMap<i64, u32> = HashMap::new();
    let frules = rules_of(&[("flid", PropFrom::Id), ("title", PropFrom::Text(1)), ("fday", PropFrom::Day(2))]);
    let porules = bench_message_vec(true);
    let corules = bench_message_vec(false);
    proof {
        assert(rule_view(frules@) =~= forum_rules());
    }
    add_id_nodes(g, &t.forum, 0, LabelFrom::Fixed("Forum"), &frules, Some((3, pe, "hasModerator", false)), &mut fo);
    add_ref_links(g, &t.forum_member, 1, &fo, 2, pe, "hasMember", None);
    add_id_nodes(g, &t.post, 0, LabelFrom::Fixed("Post"), &porules, Some((1, pe, "hasCreator", true)), &mut po);
    add_ref_links(g, &t.post_forum, 1, &fo, 0, &po, "containerOf", None);
    add_id_nodes(g, &t.comment, 0, LabelFrom::Fixed("Comment"), &corules, Some((1, pe, "hasCreator", true)), &mut co);
    (fo, po, co)
}

/// Build the graph that the benchmark program loads from the tables `t`
/// (see [`bench_graph`]; it reads fewer properties than
/// [`social_graph_from_tables`], stores message content as a boolean and
/// keeps no dates on relationships but `knows`). The counts are the distinct
/// ids of persons, posts, comments, tags and tag classes, and the
/// relationships made.
#[verifier::rlimit(60)]
pub fn bench_graph_from_tables(t: &SnbTables) -> (r: (PropGraph, Stats))
    requires
        snb_node_rows(*t) <= u32::MAX,
        snb_rows(*t) <= usize::MAX,
        bench_cuts_ok(*t),
    ensures
        graph_view(r.0) == bench_graph(*t).0,
        r.1.persons == bench_graph(*t).1.person.len(),
        r.1.posts == bench_graph(*t).1.post.len(),
        r.1.comments == bench_graph(*t).1.comment.len(),
        r.1.tags == bench_graph(*t).1.tag.len(),
        r.1.tag_classes == bench_graph(*t).1.tag_class.len(),
        r.1.rels == bench_graph(*t).0.rels.len(),
        rels_within(r.0),
{
    let mut g = empty_graph();
    let (tc, tg, pe, pl) = bench_people_of(t, &mut g);
    let (fo, po, co) = bench_messages_of(t, &mut g, &pe);
    add_ref_links(&mut g, &t.post_tag, 0, &po, 1, &tg, "hasTag", None);
    add_ref_links(&mut g, &t.comment_tag, 0, &co, 1, &tg, "hasTag", None);
    add_ref_links(&mut g, &t.person_interest, 0, &pe, 1, &tg, "hasInterest", None);
    add_replies(&mut g, &t.comment_reply, &po, &co);
    add_ref_links(&mut g, &t.likes_post, 1, &pe, 2, &po, "likes", None);
    add_ref_links(&mut g, &t.likes_comment, 1, &pe, 2, &co, "likes", None);
    add_knows(&mut g, &t.knows, &pe);
    let mut og: HashMap<i64, u32> = HashMap::new();
    let orules = rules_of(&[("name", PropFrom::Text(2))]);
    proof {
        assert(rule_view(orules@) =~= org_rules());
        assert(rules_cuts_ok(org_rules(), text_lists(t.organisation@)));
    }
    add_id_nodes(&mut g, &t.organisation, 0, LabelFrom::Field(1), &orules, None, &mut og);
    add_ref_links(&mut g, &t.work_at, 0, &pe, 1, &og, "workAt", None);
    add_ref_links(&mut g, &t.study_at, 0, &pe, 1, &og, "studyAt", Some(("cy", RelFrom::IntOr0(2))));
    let stats = Stats {
        persons: pe.len() as u64,
        posts: po.len() as u64,
        comments: co.len() as u64,
        tags: tg.len() as u64,
        tag_classes: tc.len() as u64,
        rels: g.rels.len() as u64,
    };
    proof {
        law_bench_rels_join_nodes(*t);
        assert forall|k: int| 0 <= k < g.rels@.len() implies (#[trigger] g.rels@[k]).0 < g.labels@.len() && g.rels@[k].1
            < g.labels@.len() by {
            assert(graph_view(g).rels[k].0 == g.rels@[k].0);
            assert(graph_view(g).rels[k].1 == g.rels@[k].1);
        }
    }
    (g, stats)
}

/// Whether the dates that [`bench_graph_from_tables`] reads can all be read
/// without slicing a character apart, as it requires.
pub fn bench_cuts_hold(t: &SnbTables) -> (r: bool)
    ensures
        r == bench_cuts_ok(*t),
{
    let prules = bench_person_vec();
    let frules = rules_of(&[("flid", PropFrom::Id), ("title", PropFrom::Text(1)), ("fday", PropFrom::Day(2))]);
    proof {
        assert(rule_view(frules@) =~= forum_rules());
    }
    let porules = bench_message_vec(true);
    let corules = bench_message_vec(false);
    rules_cuts(&prules, &t.person) && rules_cuts(&frules, &t.forum) && rules_cuts(&porules, &t.post) && rules_cuts(
        &corules,
        &t.comment,
    ) && rel_cuts_all(&t.knows, RelFrom::DayOr0(0))
}

proof fn lemma_bench_people_within(t: SnbTables)
    requires
        snb_node_rows(t) <= u32::MAX,
    ensures
        joins_nodes(bench_people(t).0),
        ids_below(bench_people(t).1.tag, bench_people(t).0.labels.len() as int),
        ids_below(bench_people(t).1.person, bench_people(t).0.labels.len() as int),
        bench_people(t).0.labels.len() <= t.tag_class@.len() + t.tag@.len() + t.person@.len() + t.place@.len(),
{
    let e = (empty_view(), Map::<i64, u32>::empty());
    lemma_id_nodes_within(e, text_lists(t.tag_class@), 0, LabelFrom::Fixed("TagClass"), tag_class_rules(), None);
    lemma_id_nodes_len(e, text_lists(t.tag_class@), 0, LabelFrom::Fixed("TagClass"), tag_class_rules(), None);
    let (v1, tc) = id_nodes(e, text_lists(t.tag_class@), 0, LabelFrom::Fixed("TagClass"), tag_class_rules(), None);
    let l2: NodeLinkView = Some((2, tc, "hasType"@, false));
    lemma_id_nodes_within((v1, Map::empty()), text_lists(t.tag@), 0, LabelFrom::Fixed("Tag"), tag_rules(), l2);
    lemma_id_nodes_len((v1, Map::empty()), text_lists(t.tag@), 0, LabelFrom::Fixed("Tag"), tag_rules(), l2);
    let (v2, tg) = id_nodes((v1, Map::empty()), text_lists(t.tag@), 0, LabelFrom::Fixed("Tag"), tag_rules(), l2);
    lemma_id_nodes_within((v2, Map::empty()), text_lists(t.person@), 1, LabelFrom::Fixed("Person"), bench_person_rules(), None);
    lemma_id_nodes_len((v2, Map::empty()), text_lists(t.person@), 1, LabelFrom::Fixed("Person"), bench_person_rules(), None);
    let (v3, pe) = id_nodes((v2, Map::empty()), text_lists(t.person@), 1, LabelFrom::Fixed("Person"), bench_person_rules(), None);
    lemma_id_nodes_within((v3, Map::empty()), text_lists(t.place@), 0, LabelFrom::Field(2), place_rules(), None);
    lemma_id_nodes_len((v3, Map::empty()), text_lists(t.place@), 0, LabelFrom::Field(2), place_rules(), None);
    let (v4, pl) = id_nodes((v3, Map::empty()), text_lists(t.place@), 0, LabelFrom::Field(2), place_rules(), None);
    lemma_ref_links_within(v4, text_lists(t.place_parent@), 0, pl, 1, pl, "isPartOf"@, None);
    let v5 = ref_links(v4, text_lists(t.place_parent@), 0, pl, 1, pl, "isPartOf"@, None);
    lemma_ref_links_within(v5, text_lists(t.person_city@), 0, pe, 1, pl, "isLocatedIn"@, None);
}

proof fn lemma_bench_messages_within(t: SnbTables)
    requires
        snb_node_rows(t) <= u32::MAX,
    ensures
        joins_nodes(bench_messages(t).0),
        ids_below(bench_messages(t).1.tag, bench_messages(t).0.labels.len() as int),
        ids_below(bench_messages(t).1.person, bench_messages(t).0.labels.len() as int),
        ids_below(bench_messages(t).1.post, bench_messages(t).0.labels.len() as int),
        ids_below(bench_messages(t).1.comment, bench_messages(t).0.labels.len() as int),
        bench_messages(t).0.labels.len() <= t.tag_class@.len() + t.tag@.len() + t.person@.len() + t.place@.len()
            + t.forum@.len() + t.post@.len() + t.comment@.len(),
{
    lemma_bench_people_within(t);
    let (v6, ids) = bench_people(t);
    let pe = ids.person;
    let l7: NodeLinkView = Some((3, pe, "hasModerator"@, false));
    lemma_id_nodes_within((v6, Map::empty()), text_lists(t.forum@), 0, LabelFrom::Fixed("Forum"), forum_rules(), l7);
    lemma_id_nodes_len((v6, Map::empty()), text_lists(t.forum@), 0, LabelFrom::Fixed("Forum"), forum_rules(), l7);
    let (v7, fo) = id_nodes((v6, Map::empty()), text_lists(t.forum@), 0, LabelFrom::Fixed("Forum"), forum_rules(), l7);
    lemma_ref_links_within(v7, text_lists(t.forum_member@), 1, fo, 2, pe, "hasMember"@, None);
    let v8 = ref_links(v7, text_lists(t.forum_member@), 1, fo, 2, pe, "hasMember"@, None);
    let l9: NodeLinkView = Some((1, pe, "hasCreator"@, true));
    lemma_id_nodes_within((v8, Map::empty()), text_lists(t.post@), 0, LabelFrom::Fixed("Post"), bench_message_rules(true), l9);
    lemma_id_nodes_len((v8, Map::empty()), text_lists(t.post@), 0, LabelFrom::Fixed("Post"), bench_message_rules(true), l9);
    let (v9, po) = id_nodes((v8, Map::empty()), text_lists(t.post@), 0, LabelFrom::Fixed("Post"), bench_message_rules(true), l9);
    lemma_ref_links_within(v9, text_lists(t.post_forum@), 1, fo, 0, po, "containerOf"@, None);
    let v10 = ref_links(v9, text_lists(t.post_forum@), 1, fo, 0, po, "containerOf"@, None);
    lemma_id_nodes_within((v10, Map::empty()), text_lists(t.comment@), 0, LabelFrom::Fixed("Comment"), bench_message_rules(false), l9);
    lemma_id_nodes_len((v10, Map::empty()), text_lists(t.comment@), 0, LabelFrom::Fixed("Comment"), bench_message_rules(false), l9);
}

/// Every relationship of the benchmark program's graph joins two of its
/// nodes, whatever the tables hold.
pub proof fn law_bench_rels_join_nodes(t: SnbTables)
    requires
        snb_node_rows(t) <= u32::MAX,
    ensures
        joins_nodes(bench_graph(t).0),
{
    lemma_bench_messages_within(t);
    let (v11, ids) = bench_messages(t);
    lemma_ref_links_within(v11, text_lists(t.post_tag@), 0, ids.post, 1, ids.tag, "hasTag"@, None);
    let v12 = ref_links(v11, text_lists(t.post_tag@), 0, ids.post, 1, ids.tag, "hasTag"@, None);
    lemma_ref_links_within(v12, text_lists(t.comment_tag@), 0, ids.comment, 1, ids.tag, "hasTag"@, None);
    let v13 = ref_links(v12, text_lists(t.comment_tag@), 0, ids.comment, 1, ids.tag, "hasTag"@, None);
    lemma_ref_links_within(v13, text_lists(t.person_interest@), 0, ids.person, 1, ids.tag, "hasInterest"@, None);
    let v14 = ref_links(v13, text_lists(t.person_interest@), 0, ids.person, 1, ids.tag, "hasInterest"@, None);
    lemma_reply_within(v14, text_lists(t.comment_reply@), ids.post, ids.comment);
    let v15 = reply_links(v14, text_lists(t.comment_reply@), ids.post, ids.comment);
    lemma_ref_links_within(v15, text_lists(t.likes_post@), 1, ids.person, 2, ids.post, "likes"@, None);
    let v16 = ref_links(v15, text_lists(t.likes_post@), 1, ids.person, 2, ids.post, "likes"@, None);
    lemma_ref_links_within(v16, text_lists(t.likes_comment@), 1, ids.person, 2, ids.comment, "likes"@, None);
    let v17 = ref_links(v16, text_lists(t.likes_comment@), 1, ids.person, 2, ids.comment, "likes"@, None);
    lemma_knows_within(v17, text_lists(t.knows@), ids.person);
    let v18 = knows_links(v17, text_lists(t.knows@), ids.person);
    lemma_id_nodes_within((v18, Map::empty()), text_lists(t.organisation@), 0, LabelFrom::Field(1), org_rules(), None);
    let (v19, og) = id_nodes((v18, Map::empty()), text_lists(t.organisation@), 0, LabelFrom::Field(1), org_rules(), None);
    lemma_ref_links_within(v19, text_lists(t.work_at@), 0, ids.person, 1, og, "workAt"@, None);
    let v20 = ref_links(v19, text_lists(t.work_at@), 0, ids.person, 1, og, "workAt"@, None);
    let cy: Option<(Seq<char>, RelFrom)> = Some(("cy"@, RelFrom::IntOr0(2)));
    lemma_ref_links_within(v20, text_lists(t.study_at@), 0, ids.person, 1, og, "studyAt"@, cy);
}

} // verus!
