//! The FinBench graph: accounts, persons, companies, media and loans, joined
//! by time-stamped edges (`transfer`, `withdraw`, `deposit`, `repay`,
//! `apply`, `guarantee`, `own`, `invest`, `signIn`), built from the
//! benchmark's tables.
//!
//! FinBench ids are unique only within a node type, so each type keeps its
//! own map from id to node; an edge resolves its ends through the maps of its
//! two types and is left out when either end is unknown. Ids and timestamps
//! read as `i64`, 0 where a field does not read. Also the CR10 read over the
//! built graph: who else invested in the companies a person invested in.
use std::collections::HashMap;
use vstd::prelude::*;
use crate::rdfgraph::{opt_texts, prop_rows, rel_rows, text_copy, text_lists, texts, PropGraph};
use crate::rdfload::same_text;
use crate::bi::lookup::rels_within;
use crate::ranking::{rank_rel, sort_ranked};
use crate::tables::{
    empty_graph, empty_view, field_of, field_or_empty, graph_view, int_or_zero, int_or_zero_of, rel_prop_rows, GraphView,
};

verus! {

broadcast use vstd::std_specs::hash::group_hash_axioms;

/// The text of a boolean.
pub open spec fn bool_text(b: bool) -> Seq<char> {
    if b {
        "true"@
    } else {
        "false"@
    }
}

/// The XSD boolean datatype IRI.
pub open spec fn xsd_boolean() -> Seq<char> {
    "http://www.w3.org/2001/XMLSchema#boolean"@
}

/// `v` with one node labelled `label` per row of a node table, numbered on
/// from the nodes already there; with `blocked`, each node also gets the
/// boolean `blocked`, true exactly when the row's second field is `true`.
pub open spec fn with_nodes(v: GraphView, rows: Seq<Seq<Seq<char>>>, label: Seq<char>, blocked: bool) -> GraphView {
    let base = v.labels.len();
    GraphView {
        labels: v.labels + Seq::new(rows.len(), |k: int| seq![label]),
        uris: v.uris + Seq::new(rows.len(), |k: int| None::<Seq<char>>),
        rels: v.rels,
        props: if blocked {
            v.props + Seq::new(
                rows.len(),
                |k: int|
                    (
                        (base + k) as u32,
                        "blocked"@,
                        bool_text(field_or_empty(rows[k], 1) == "true"@),
                        Some(xsd_boolean()),
                    ),
            )
        } else {
            v.props
        },
        rel_props: v.rel_props,
    }
}

/// The id map after the first `j` rows of a node table: row `k` maps the id
/// in its first field to node `base + k`, a later row replacing an earlier
/// one with the same id.
pub open spec fn keyed_ids(m: Map<i64, u32>, rows: Seq<Seq<Seq<char>>>, base: int, j: int) -> Map<i64, u32>
    decreases j,
{
    if j <= 0 {
        m
    } else {
        keyed_ids(m, rows, base, j - 1).insert(int_or_zero(field_or_empty(rows[j - 1], 0)), (base + j - 1) as u32)
    }
}

/// The (source, target, timestamp) of each row of an edge table, in order,
/// whose first field is a key of `from` and second a key of `to`.
pub open spec fn links(rows: Seq<Seq<Seq<char>>>, from: Map<i64, u32>, to: Map<i64, u32>) -> Seq<(u32, u32, i64)>
    decreases rows.len(),
{
    if rows.len() == 0 {
        Seq::empty()
    } else {
        let before = links(rows.drop_last(), from, to);
        let r = rows.last();
        let a = int_or_zero(field_or_empty(r, 0));
        let b = int_or_zero(field_or_empty(r, 1));
        if from.contains_key(a) && to.contains_key(b) {
            before.push((from[a], to[b], int_or_zero(field_or_empty(r, 2))))
        } else {
            before
        }
    }
}

proof fn lemma_links_len(rows: Seq<Seq<Seq<char>>>, from: Map<i64, u32>, to: Map<i64, u32>)
    ensures
        links(rows, from, to).len() <= rows.len(),
    decreases rows.len(),
{
    if rows.len() > 0 {
        lemma_links_len(rows.drop_last(), from, to);
    }
}

/// `v` with a relationship of type `typ` for each of the [`links`] of an edge
/// table, each with its timestamp as the integer `ts`.
pub open spec fn with_links(v: GraphView, rows: Seq<Seq<Seq<char>>>, from: Map<i64, u32>, to: Map<i64, u32>, typ: Seq<char>) -> GraphView {
    let ls = links(rows, from, to);
    let base = v.rels.len();
    GraphView {
        labels: v.labels,
        uris: v.uris,
        rels: v.rels + ls.map_values(|x: (u32, u32, i64)| (x.0, x.1, typ)),
        props: v.props,
        rel_props: v.rel_props + Seq::new(ls.len(), |k: int| (base + k, "ts"@, ls[k].2)),
    }
}

/// Add the nodes of a node table, recording each id's node in `ids`.
fn add_nodes(g: &mut PropGraph, rows: &Vec<Vec<String>>, label: &str, blocked: bool, ids: &mut HashMap<i64, u32>)
    requires
        old(g).labels@.len() + rows@.len() <= u32::MAX,
    ensures
        graph_view(*final(g)) == with_nodes(graph_view(*old(g)), text_lists(rows@), label@, blocked),
        final(ids)@ == keyed_ids(old(ids)@, text_lists(rows@), old(g).labels@.len() as int, rows@.len() as int),
        final(g).labels@.len() == old(g).labels@.len() + rows@.len(),
        final(g).rels@.len() == old(g).rels@.len(),
{
    let ghost v0 = graph_view(*g);
    let ghost m0 = ids@;
    let ghost rs = text_lists(rows@);
    let base = g.labels.len();
    let mut k: usize = 0;
    proof {
        assert(rs.take(0) =~= Seq::<Seq<Seq<char>>>::empty());
        assert(graph_view(*g).labels =~= with_nodes(v0, rs.take(0), label@, blocked).labels);
        assert(graph_view(*g).uris =~= with_nodes(v0, rs.take(0), label@, blocked).uris);
        assert(graph_view(*g).props =~= with_nodes(v0, rs.take(0), label@, blocked).props);
    }
    while k < rows.len()
        invariant
            k <= rows@.len(),
            base == v0.labels.len(),
            base == g.labels@.len() - k,
            g.rels@.len() == v0.rels.len(),
            v0.labels.len() == text_lists(old(g).labels@).len(),
            v0.rels.len() == rel_rows(old(g).rels@).len(),
            v0.labels.len() + rows@.len() <= u32::MAX,
            rs == text_lists(rows@),
            graph_view(*g) == with_nodes(v0, rs.take(k as int), label@, blocked),
            ids@ == keyed_ids(m0, rs, base as int, k as int),
        decreases rows.len() - k,
    {
        let row = &rows[k];
        let nid = (base + k) as u32;
        let key = int_or_zero_of(field_of(row, 0));
        ids.insert(key, nid);
        let ghost before = graph_view(*g);
        let ghost lab0 = g.labels@;
        let ghost uri0 = g.uris@;
        let ghost prop0 = g.props@;
        let mut lv: Vec<String> = Vec::new();
        lv.push(text_copy(label));
        g.labels.push(lv);
        g.uris.push(None);
        if blocked {
            let b = same_text(field_of(row, 1), "true");
            let val = if b {
                text_copy("true")
            } else {
                text_copy("false")
            };
            g.props.push((nid, text_copy("blocked"), val, Some(text_copy("http://www.w3.org/2001/XMLSchema#boolean"))));
        }
        proof {
            let after = with_nodes(v0, rs.take(k + 1), label@, blocked);
            assert(rs[k as int] == texts(row@));
            assert(rs.take(k + 1)[k as int] == rs[k as int]);
            assert(texts(lv@) =~= seq![label@]);
            assert(text_lists(g.labels@) =~= text_lists(lab0).push(texts(lv@)));
            assert(Seq::new((k + 1) as nat, |q: int| seq![label@]) =~= Seq::new(k as nat, |q: int| seq![label@]).push(seq![label@]));
            assert(graph_view(*g).labels =~= after.labels);
            assert(opt_texts(g.uris@) =~= opt_texts(uri0).push(None));
            assert(Seq::new((k + 1) as nat, |q: int| None::<Seq<char>>) =~= Seq::new(k as nat, |q: int| None::<Seq<char>>).push(None));
            assert(graph_view(*g).uris =~= after.uris);
            assert(graph_view(*g).rels =~= after.rels);
            assert(graph_view(*g).rel_props =~= after.rel_props);
            if blocked {
                let nt = (nid, "blocked"@, bool_text(field_or_empty(rs[k as int], 1) == "true"@), Some(xsd_boolean()));
                assert(prop_rows(g.props@) =~= prop_rows(prop0).push(nt));
                let f1 = |q: int| ((base + q) as u32, "blocked"@, bool_text(field_or_empty(rs.take(k + 1)[q], 1) == "true"@), Some(xsd_boolean()));
                let f0 = |q: int| ((base + q) as u32, "blocked"@, bool_text(field_or_empty(rs.take(k as int)[q], 1) == "true"@), Some(xsd_boolean()));
                assert(Seq::new((k + 1) as nat, f1) =~= Seq::new(k as nat, f0).push(nt));
                assert(graph_view(*g).props =~= after.props);
            } else {
                assert(graph_view(*g).props =~= after.props);
            }
        }
        k = k + 1;
    }
    proof {
        assert(rs.take(k as int) =~= rs);
    }
}

/// Add a relationship of type `typ` for each row of an edge table whose two
/// ends resolve through `from` and `to`, with its timestamp as `ts`; the
/// number added.
fn add_links(g: &mut PropGraph, rows: &Vec<Vec<String>>, from: &HashMap<i64, u32>, to: &HashMap<i64, u32>, typ: &str) -> (n: u64)
    requires
        old(g).rels@.len() + rows@.len() <= usize::MAX,
    ensures
        graph_view(*final(g)) == with_links(graph_view(*old(g)), text_lists(rows@), from@, to@, typ@),
        n == links(text_lists(rows@), from@, to@).len(),
        n <= rows@.len(),
        final(g).rels@.len() == old(g).rels@.len() + n,
        final(g).labels@.len() == old(g).labels@.len(),
{
    let ghost v0 = graph_view(*g);
    let ghost rs = text_lists(rows@);
    let mut n: u64 = 0;
    let mut k: usize = 0;
    proof {
        assert(rs.take(0) =~= Seq::<Seq<Seq<char>>>::empty());
        assert(graph_view(*g).rels =~= with_links(v0, rs.take(0), from@, to@, typ@).rels);
        assert(graph_view(*g).rel_props =~= with_links(v0, rs.take(0), from@, to@, typ@).rel_props);
    }
    while k < rows.len()
        invariant
            k <= rows@.len(),
            v0.rels.len() + rows@.len() <= usize::MAX,
            rs == text_lists(rows@),
            graph_view(*g) == with_links(v0, rs.take(k as int), from@, to@, typ@),
            n == links(rs.take(k as int), from@, to@).len(),
            n <= k,
            g.rels@.len() == old(g).rels@.len() + n,
            g.labels@.len() == old(g).labels@.len(),
        decreases rows.len() - k,
    {
        let row = &rows[k];
        let a = int_or_zero_of(field_of(row, 0));
        let b = int_or_zero_of(field_of(row, 1));
        let ghost before = graph_view(*g);
        proof {
            assert(rs[k as int] == texts(row@));
            assert(rs.take(k + 1).drop_last() =~= rs.take(k as int));
            assert(rs.take(k + 1).last() == rs[k as int]);
            lemma_links_len(rs.take(k as int), from@, to@);
        }
        match (from.get(&a), to.get(&b)) {
            (Some(u), Some(w)) => {
                let ts = int_or_zero_of(field_of(row, 2));
                let idx = g.rels.len();
                let ghost rel0 = g.rels@;
                let ghost rp0 = g.rel_props@;
                g.rels.push((*u, *w, text_copy(typ)));
                g.rel_props.push((idx, text_copy("ts"), ts));
                n = n + 1;
                proof {
                    let after = with_links(v0, rs.take(k + 1), from@, to@, typ@);
                    let ls = links(rs.take(k + 1), from@, to@);
                    let prev = links(rs.take(k as int), from@, to@);
                    assert(ls == prev.push((*u, *w, ts)));
                    assert(rel_rows(g.rels@) =~= rel_rows(rel0).push((*u, *w, typ@)));
                    assert(ls.map_values(|x: (u32, u32, i64)| (x.0, x.1, typ@)) =~= prev.map_values(
                        |x: (u32, u32, i64)| (x.0, x.1, typ@),
                    ).push((*u, *w, typ@)));
                    assert(graph_view(*g).rels =~= after.rels);
                    assert(rel_prop_rows(g.rel_props@) =~= rel_prop_rows(rp0).push((idx as int, "ts"@, ts)));
                    assert(idx == v0.rels.len() + prev.len());
                    assert(Seq::new(ls.len(), |q: int| (v0.rels.len() + q, "ts"@, ls[q].2)) =~= Seq::new(
                        prev.len(),
                        |q: int| (v0.rels.len() + q, "ts"@, prev[q].2),
                    ).push((idx as int, "ts"@, ts)));
                    assert(graph_view(*g).rel_props =~= after.rel_props);
                    assert(graph_view(*g).labels =~= after.labels);
                    assert(graph_view(*g).uris =~= after.uris);
                    assert(graph_view(*g).props =~= after.props);
                }
            },
            _ => {
                proof {
                    let after = with_links(v0, rs.take(k + 1), from@, to@, typ@);
                    assert(links(rs.take(k + 1), from@, to@) == links(rs.take(k as int), from@, to@));
                    assert(graph_view(*g).rels =~= after.rels);
                    assert(graph_view(*g).rel_props =~= after.rel_props);
                }
            },
        }
        k = k + 1;
    }
    proof {
        assert(rs.take(k as int) =~= rs);
    }
    n
}

/// The FinBench tables, each as the rows of its files in order, holding the
/// columns that the graph reads: `account` and `medium` (id, isBlocked);
/// `person`, `company` and `loan` (id); every edge table (its two ends,
/// createTime): `transfer` and `withdraw` (fromId, toId), `deposit` (loanId,
/// accountId), `repay` (accountId, loanId), `person_apply_loan` (personId,
/// loanId), `company_apply_loan` (companyId, loanId), `person_guarantee` and
/// `company_guarantee` (fromId, toId), `person_own_account` (personId,
/// accountId), `company_own_account` (companyId, accountId),
/// `person_invest` and `company_invest` (investorId, companyId), `sign_in`
/// (mediumId, accountId).
pub struct FinTables {
    pub account: Vec<Vec<String>>,
    pub person: Vec<Vec<String>>,
    pub company: Vec<Vec<String>>,
    pub medium: Vec<Vec<String>>,
    pub loan: Vec<Vec<String>>,
    pub transfer: Vec<Vec<String>>,
    pub withdraw: Vec<Vec<String>>,
    pub deposit: Vec<Vec<String>>,
    pub repay: Vec<Vec<String>>,
    pub person_apply_loan: Vec<Vec<String>>,
    pub company_apply_loan: Vec<Vec<String>>,
    pub person_guarantee: Vec<Vec<String>>,
    pub company_guarantee: Vec<Vec<String>>,
    pub person_own_account: Vec<Vec<String>>,
    pub company_own_account: Vec<Vec<String>>,
    pub person_invest: Vec<Vec<String>>,
    pub company_invest: Vec<Vec<String>>,
    pub sign_in: Vec<Vec<String>>,
}

/// The FinBench tables, each read from the directory of its name.
#[derive(Clone, Copy, Debug, PartialEq, Eq)]
pub enum FinTable {
    Account,
    Person,
    Company,
    Medium,
    Loan,
    Transfer,
    Withdraw,
    Deposit,
    Repay,
    PersonApplyLoan,
    CompanyApplyLoan,
    PersonGuarantee,
    CompanyGuarantee,
    PersonOwnAccount,
    CompanyOwnAccount,
    PersonInvest,
    CompanyInvest,
    SignIn,
}

/// The directory that holds a table's files.
pub open spec fn fin_dir(t: FinTable) -> Seq<char> {
    match t {
        FinTable::Account => "account"@,
        FinTable::Person => "person"@,
        FinTable::Company => "company"@,
        FinTable::Medium => "medium"@,
        FinTable::Loan => "loan"@,
        FinTable::Transfer => "transfer"@,
        FinTable::Withdraw => "withdraw"@,
        FinTable::Deposit => "deposit"@,
        FinTable::Repay => "repay"@,
        FinTable::PersonApplyLoan => "personApplyLoan"@,
        FinTable::CompanyApplyLoan => "companyApplyLoan"@,
        FinTable::PersonGuarantee => "personGuarantee"@,
        FinTable::CompanyGuarantee => "companyGuarantee"@,
        FinTable::PersonOwnAccount => "personOwnAccount"@,
        FinTable::CompanyOwnAccount => "companyOwnAccount"@,
        FinTable::PersonInvest => "personInvest"@,
        FinTable::CompanyInvest => "companyInvest"@,
        FinTable::SignIn => "signIn"@,
    }
}

/// The columns that the graph reads from a table, in the order that
/// [`FinTables`] holds them.
pub open spec fn fin_cols(t: FinTable) -> Seq<Seq<char>> {
    match t {
        FinTable::Account => seq!["id"@, "isBlocked"@],
        FinTable::Person => seq!["id"@],
        FinTable::Company => seq!["id"@],
        FinTable::Medium => seq!["id"@, "isBlocked"@],
        FinTable::Loan => seq!["id"@],
        FinTable::Transfer => seq!["fromId"@, "toId"@, "createTime"@],
        FinTable::Withdraw => seq!["fromId"@, "toId"@, "createTime"@],
        FinTable::Deposit => seq!["loanId"@, "accountId"@, "createTime"@],
        FinTable::Repay => seq!["accountId"@, "loanId"@, "createTime"@],
        FinTable::PersonApplyLoan => seq!["personId"@, "loanId"@, "createTime"@],
        FinTable::CompanyApplyLoan => seq!["companyId"@, "loanId"@, "createTime"@],
        FinTable::PersonGuarantee => seq!["fromId"@, "toId"@, "createTime"@],
        FinTable::CompanyGuarantee => seq!["fromId"@, "toId"@, "createTime"@],
        FinTable::PersonOwnAccount => seq!["personId"@, "accountId"@, "createTime"@],
        FinTable::CompanyOwnAccount => seq!["companyId"@, "accountId"@, "createTime"@],
        FinTable::PersonInvest => seq!["investorId"@, "companyId"@, "createTime"@],
        FinTable::CompanyInvest => seq!["investorId"@, "companyId"@, "createTime"@],
        FinTable::SignIn => seq!["mediumId"@, "accountId"@, "createTime"@],
    }
}

/// Where a table's files are, and which of their columns to read.
pub fn fin_table(t: FinTable) -> (r: (&'static str, Vec<&'static str>))
    ensures
        r.0@ == fin_dir(t),
        r.1@.map_values(|c: &str| c@) == fin_cols(t),
{
    let (d, cols): (&'static str, Vec<&'static str>) = match t {
        FinTable::Account => ("account", vec!["id", "isBlocked"]),
        FinTable::Person => ("person", vec!["id"]),
        FinTable::Company => ("company", vec!["id"]),
        FinTable::Medium => ("medium", vec!["id", "isBlocked"]),
        FinTable::Loan => ("loan", vec!["id"]),
        FinTable::Transfer => ("transfer", vec!["fromId", "toId", "createTime"]),
        FinTable::Withdraw => ("withdraw", vec!["fromId", "toId", "createTime"]),
        FinTable::Deposit => ("deposit", vec!["loanId", "accountId", "createTime"]),
        FinTable::Repay => ("repay", vec!["accountId", "loanId", "createTime"]),
        FinTable::PersonApplyLoan => ("personApplyLoan", vec!["personId", "loanId", "createTime"]),
        FinTable::CompanyApplyLoan => ("companyApplyLoan", vec!["companyId", "loanId", "createTime"]),
        FinTable::PersonGuarantee => ("personGuarantee", vec!["fromId", "toId", "createTime"]),
        FinTable::CompanyGuarantee => ("companyGuarantee", vec!["fromId", "toId", "createTime"]),
        FinTable::PersonOwnAccount => ("personOwnAccount", vec!["personId", "accountId", "createTime"]),
        FinTable::CompanyOwnAccount => ("companyOwnAccount", vec!["companyId", "accountId", "createTime"]),
        FinTable::PersonInvest => ("personInvest", vec!["investorId", "companyId", "createTime"]),
        FinTable::CompanyInvest => ("companyInvest", vec!["investorId", "companyId", "createTime"]),
        FinTable::SignIn => ("signIn", vec!["mediumId", "accountId", "createTime"]),
    };
    proof {
        reveal_strlit("account");
        reveal_strlit("accountId");
        reveal_strlit("company");
        reveal_strlit("companyApplyLoan");
        reveal_strlit("companyGuarantee");
        reveal_strlit("companyId");
        reveal_strlit("companyInvest");
        reveal_strlit("companyOwnAccount");
        reveal_strlit("createTime");
        reveal_strlit("deposit");
        reveal_strlit("fromId");
        reveal_strlit("id");
        reveal_strlit("investorId");
        reveal_strlit("isBlocked");
        reveal_strlit("loan");
        reveal_strlit("loanId");
        reveal_strlit("medium");
        reveal_strlit("mediumId");
        reveal_strlit("person");
        reveal_strlit("personApplyLoan");
        reveal_strlit("personGuarantee");
        reveal_strlit("personId");
        reveal_strlit("personInvest");
        reveal_strlit("personOwnAccount");
        reveal_strlit("repay");
        reveal_strlit("signIn");
        reveal_strlit("toId");
        reveal_strlit("transfer");
        reveal_strlit("withdraw");
        assert(cols@.map_values(|c: &str| c@) =~= fin_cols(t));
    }
    (d, cols)
}

/// Counts from a FinBench load.
pub struct Stats {
    pub nodes: u64,
    pub edges: u64,
}

/// The number of node rows of `t`.
pub open spec fn node_rows(t: FinTables) -> nat {
    t.account@.len() + t.person@.len() + t.company@.len() + t.medium@.len() + t.loan@.len()
}

/// The number of edge rows of `t`.
pub open spec fn edge_rows(t: FinTables) -> nat {
    t.transfer@.len() + t.withdraw@.len() + t.deposit@.len() + t.repay@.len() + t.person_apply_loan@.len()
        + t.company_apply_loan@.len() + t.person_guarantee@.len() + t.company_guarantee@.len()
        + t.person_own_account@.len() + t.company_own_account@.len() + t.person_invest@.len()
        + t.company_invest@.len() + t.sign_in@.len()
}

/// The id maps of the node types (account, person, company, medium, loan):
/// nodes are numbered in that order of types, then by row.
pub open spec fn fin_ids(t: FinTables) -> (Map<i64, u32>, Map<i64, u32>, Map<i64, u32>, Map<i64, u32>, Map<i64, u32>) {
    let a = t.account@.len() as int;
    let p = a + t.person@.len();
    let c = p + t.company@.len();
    let m = c + t.medium@.len();
    (
        keyed_ids(Map::empty(), text_lists(t.account@), 0, a),
        keyed_ids(Map::empty(), text_lists(t.person@), a, t.person@.len() as int),
        keyed_ids(Map::empty(), text_lists(t.company@), p, t.company@.len() as int),
        keyed_ids(Map::empty(), text_lists(t.medium@), c, t.medium@.len() as int),
        keyed_ids(Map::empty(), text_lists(t.loan@), m, t.loan@.len() as int),
    )
}

/// The nodes of the FinBench graph: accounts (with `blocked`), persons,
/// companies, media (with `blocked`) and loans, in that order.
pub open spec fn fin_nodes(t: FinTables) -> GraphView {
    let v1 = with_nodes(empty_view(), text_lists(t.account@), "Account"@, true);
    let v2 = with_nodes(v1, text_lists(t.person@), "Person"@, false);
    let v3 = with_nodes(v2, text_lists(t.company@), "Company"@, false);
    let v4 = with_nodes(v3, text_lists(t.medium@), "Medium"@, true);
    with_nodes(v4, text_lists(t.loan@), "Loan"@, false)
}

/// The money-moving edges on top of [`fin_nodes`]: `transfer`, `withdraw`,
/// `deposit`, `repay` and `apply`.
pub open spec fn fin_money(t: FinTables) -> GraphView {
    let (acct, pers, comp, _med, loan) = fin_ids(t);
    let e1 = with_links(fin_nodes(t), text_lists(t.transfer@), acct, acct, "transfer"@);
    let e2 = with_links(e1, text_lists(t.withdraw@), acct, acct, "withdraw"@);
    let e3 = with_links(e2, text_lists(t.deposit@), loan, acct, "deposit"@);
    let e4 = with_links(e3, text_lists(t.repay@), acct, loan, "repay"@);
    let e5 = with_links(e4, text_lists(t.person_apply_loan@), pers, loan, "apply"@);
    with_links(e5, text_lists(t.company_apply_loan@), comp, loan, "apply"@)
}

/// The FinBench graph: [`fin_money`] and then the `guarantee`, `own`,
/// `invest` and `signIn` edges.
pub open spec fn fin_graph(t: FinTables) -> GraphView {
    let (acct, pers, comp, med, _loan) = fin_ids(t);
    let e6 = with_links(fin_money(t), text_lists(t.person_guarantee@), pers, pers, "guarantee"@);
    let e7 = with_links(e6, text_lists(t.company_guarantee@), comp, comp, "guarantee"@);
    let e8 = with_links(e7, text_lists(t.person_own_account@), pers, acct, "own"@);
    let e9 = with_links(e8, text_lists(t.company_own_account@), comp, acct, "own"@);
    let e10 = with_links(e9, text_lists(t.person_invest@), pers, comp, "invest"@);
    let e11 = with_links(e10, text_lists(t.company_invest@), comp, comp, "invest"@);
    with_links(e11, text_lists(t.sign_in@), med, acct, "signIn"@)
}

/// Build the FinBench graph of the tables `t`: the nodes of each type in the
/// order Account, Person, Company, Medium, Loan, then each edge table in
/// turn; the counts are the nodes and the edges added (those whose two ends
/// resolved).
pub fn finbench_graph_from_tables(t: &FinTables) -> (r: (PropGraph, Stats))
    requires
        node_rows(*t) <= u32::MAX,
        edge_rows(*t) <= usize::MAX,
    ensures
        graph_view(r.0) == fin_graph(*t),
        rels_within(r.0),
        r.1.nodes == node_rows(*t),
        r.1.edges == fin_graph(*t).rels.len(),
{
    let mut g = empty_graph();
    let mut acct: HashMap<i64, u32> = HashMap::new();
    let mut pers: HashMap<i64, u32> = HashMap::new();
    let mut comp: HashMap<i64, u32> = HashMap::new();
    let mut med: HashMap<i64, u32> = HashMap::new();
    let mut loan: HashMap<i64, u32> = HashMap::new();
    add_nodes(&mut g, &t.account, "Account", true, &mut acct);
    add_nodes(&mut g, &t.person, "Person", false, &mut pers);
    add_nodes(&mut g, &t.company, "Company", false, &mut comp);
    add_nodes(&mut g, &t.medium, "Medium", true, &mut med);
    add_nodes(&mut g, &t.loan, "Loan", false, &mut loan);
    let nodes = g.labels.len() as u64;
    proof {
        assert(graph_view(g) == fin_nodes(*t));
        assert(acct@ == fin_ids(*t).0);
        assert(pers@ == fin_ids(*t).1);
        assert(comp@ == fin_ids(*t).2);
        assert(med@ == fin_ids(*t).3);
        assert(loan@ == fin_ids(*t).4);
        assert(g.rels@.len() == 0);
    }
    let mut edges: u64 = 0;
    edges = edges + add_links(&mut g, &t.transfer, &acct, &acct, "transfer");
    edges = edges + add_links(&mut g, &t.withdraw, &acct, &acct, "withdraw");
    edges = edges + add_links(&mut g, &t.deposit, &loan, &acct, "deposit");
    edges = edges + add_links(&mut g, &t.repay, &acct, &loan, "repay");
    edges = edges + add_links(&mut g, &t.person_apply_loan, &pers, &loan, "apply");
    edges = edges + add_links(&mut g, &t.company_apply_loan, &comp, &loan, "apply");
    proof {
        assert(graph_view(g) == fin_money(*t));
    }
    edges = edges + add_links(&mut g, &t.person_guarantee, &pers, &pers, "guarantee");
    edges = edges + add_links(&mut g, &t.company_guarantee, &comp, &comp, "guarantee");
    edges = edges + add_links(&mut g, &t.person_own_account, &pers, &acct, "own");
    edges = edges + add_links(&mut g, &t.company_own_account, &comp, &acct, "own");
    edges = edges + add_links(&mut g, &t.person_invest, &pers, &comp, "invest");
    edges = edges + add_links(&mut g, &t.company_invest, &comp, &comp, "invest");
    edges = edges + add_links(&mut g, &t.sign_in, &med, &acct, "signIn");
    proof {
        law_fin_edges_join_nodes(*t);
        assert forall|k: int| 0 <= k < g.rels@.len() implies (#[trigger] g.rels@[k]).0 < g.labels@.len() && g.rels@[k].1
            < g.labels@.len() by {
            assert(graph_view(g).rels[k].0 == g.rels@[k].0);
            assert(graph_view(g).rels[k].1 == g.rels@[k].1);
        }
    }
    (g, Stats { nodes, edges })
}

/// The relationships of `v` join nodes of `v`, and its relationship
/// properties are the timestamps `ts`, one for each relationship in order.
pub open spec fn edges_well_formed(v: GraphView) -> bool {
    &&& forall|k: int| 0 <= k < v.rels.len() ==> (#[trigger] v.rels[k]).0 < v.labels.len() && v.rels[k].1 < v.labels.len()
    &&& v.rel_props.len() == v.rels.len()
    &&& forall|k: int| 0 <= k < v.rel_props.len() ==> (#[trigger] v.rel_props[k]).0 == k && v.rel_props[k].1 == "ts"@
}

/// Every value of `m` is a node below `n`.
pub open spec fn nodes_below(m: Map<i64, u32>, n: int) -> bool {
    forall|key: i64| #[trigger] m.contains_key(key) ==> m[key] < n
}

proof fn lemma_keyed_ids_below(rows: Seq<Seq<Seq<char>>>, base: int, j: int, n: int)
    requires
        0 <= base,
        j <= rows.len(),
        base + j <= n,
    ensures
        nodes_below(keyed_ids(Map::empty(), rows, base, j), n),
    decreases j,
{
    if j > 0 {
        lemma_keyed_ids_below(rows, base, j - 1, n);
    }
}

proof fn lemma_links_below(rows: Seq<Seq<Seq<char>>>, from: Map<i64, u32>, to: Map<i64, u32>, n: int)
    requires
        nodes_below(from, n),
        nodes_below(to, n),
    ensures
        forall|k: int| 0 <= k < links(rows, from, to).len() ==> (#[trigger] links(rows, from, to)[k]).0 < n && links(rows, from, to)[k].1 < n,
    decreases rows.len(),
{
    if rows.len() > 0 {
        lemma_links_below(rows.drop_last(), from, to, n);
        let before = links(rows.drop_last(), from, to);
        let ls = links(rows, from, to);
        assert forall|k: int| 0 <= k < ls.len() implies (#[trigger] ls[k]).0 < n && ls[k].1 < n by {
            if k < before.len() {
                assert(ls[k] == before[k]);
            } else {
                let r = rows.last();
                let a = int_or_zero(field_or_empty(r, 0));
                let b = int_or_zero(field_or_empty(r, 1));
                assert(from.contains_key(a) && to.contains_key(b));
            }
        }
    }
}

proof fn lemma_with_links_well_formed(v: GraphView, rows: Seq<Seq<Seq<char>>>, from: Map<i64, u32>, to: Map<i64, u32>, typ: Seq<char>)
    requires
        edges_well_formed(v),
        nodes_below(from, v.labels.len() as int),
        nodes_below(to, v.labels.len() as int),
    ensures
        edges_well_formed(with_links(v, rows, from, to, typ)),
        with_links(v, rows, from, to, typ).labels == v.labels,
{
    lemma_links_below(rows, from, to, v.labels.len() as int);
    let w = with_links(v, rows, from, to, typ);
    let ls = links(rows, from, to);
    assert forall|k: int| 0 <= k < w.rels.len() implies (#[trigger] w.rels[k]).0 < w.labels.len() && w.rels[k].1 < w.labels.len() by {
        if k >= v.rels.len() {
            assert(w.rels[k] == (ls[k - v.rels.len()].0, ls[k - v.rels.len()].1, typ));
        }
    }
    assert forall|k: int| 0 <= k < w.rel_props.len() implies (#[trigger] w.rel_props[k]).0 == k && w.rel_props[k].1 == "ts"@ by {
        if k >= v.rel_props.len() {
            assert(w.rel_props[k] == (v.rels.len() + (k - v.rels.len()), "ts"@, ls[k - v.rels.len()].2));
        }
    }
}

/// Every edge of the FinBench graph joins two of its nodes, whatever the
/// tables hold, and the edges' properties are their timestamps, one per edge.
pub proof fn law_fin_edges_join_nodes(t: FinTables)
    ensures
        edges_well_formed(fin_graph(t)),
        fin_graph(t).labels.len() == node_rows(t),
{
    let n = node_rows(t) as int;
    let a = t.account@.len() as int;
    let p = a + t.person@.len();
    let c = p + t.company@.len();
    let m = c + t.medium@.len();
    lemma_keyed_ids_below(text_lists(t.account@), 0, a, n);
    lemma_keyed_ids_below(text_lists(t.person@), a, t.person@.len() as int, n);
    lemma_keyed_ids_below(text_lists(t.company@), p, t.company@.len() as int, n);
    lemma_keyed_ids_below(text_lists(t.medium@), c, t.medium@.len() as int, n);
    lemma_keyed_ids_below(text_lists(t.loan@), m, t.loan@.len() as int, n);
    let (acct, pers, comp, med, loan) = fin_ids(t);
    let v0 = fin_nodes(t);
    assert(v0.labels.len() == n);
    assert(v0.rels.len() == 0);
    assert(v0.rel_props.len() == 0);
    lemma_with_links_well_formed(v0, text_lists(t.transfer@), acct, acct, "transfer"@);
    let e1 = with_links(v0, text_lists(t.transfer@), acct, acct, "transfer"@);
    lemma_with_links_well_formed(e1, text_lists(t.withdraw@), acct, acct, "withdraw"@);
    let e2 = with_links(e1, text_lists(t.withdraw@), acct, acct, "withdraw"@);
    lemma_with_links_well_formed(e2, text_lists(t.deposit@), loan, acct, "deposit"@);
    let e3 = with_links(e2, text_lists(t.deposit@), loan, acct, "deposit"@);
    lemma_with_links_well_formed(e3, text_lists(t.repay@), acct, loan, "repay"@);
    let e4 = with_links(e3, text_lists(t.repay@), acct, loan, "repay"@);
    lemma_with_links_well_formed(e4, text_lists(t.person_apply_loan@), pers, loan, "apply"@);
    let e5 = with_links(e4, text_lists(t.person_apply_loan@), pers, loan, "apply"@);
    lemma_with_links_well_formed(e5, text_lists(t.company_apply_loan@), comp, loan, "apply"@);
    let e6 = fin_money(t);
    lemma_with_links_well_formed(e6, text_lists(t.person_guarantee@), pers, pers, "guarantee"@);
    let e7 = with_links(e6, text_lists(t.person_guarantee@), pers, pers, "guarantee"@);
    lemma_with_links_well_formed(e7, text_lists(t.company_guarantee@), comp, comp, "guarantee"@);
    let e8 = with_links(e7, text_lists(t.company_guarantee@), comp, comp, "guarantee"@);
    lemma_with_links_well_formed(e8, text_lists(t.person_own_account@), pers, acct, "own"@);
    let e9 = with_links(e8, text_lists(t.person_own_account@), pers, acct, "own"@);
    lemma_with_links_well_formed(e9, text_lists(t.company_own_account@), comp, acct, "own"@);
    let e10 = with_links(e9, text_lists(t.company_own_account@), comp, acct, "own"@);
    lemma_with_links_well_formed(e10, text_lists(t.person_invest@), pers, comp, "invest"@);
    let e11 = with_links(e10, text_lists(t.person_invest@), pers, comp, "invest"@);
    lemma_with_links_well_formed(e11, text_lists(t.company_invest@), comp, comp, "invest"@);
    let e12 = with_links(e11, text_lists(t.company_invest@), comp, comp, "invest"@);
    lemma_with_links_well_formed(e12, text_lists(t.sign_in@), med, acct, "signIn"@);
}

/// The `ts` of relationship `k` among the first `j` relationship properties:
/// the first one recorded for it.
pub open spec fn first_ts(g: PropGraph, k: int, j: int) -> Option<i64>
    decreases j,
{
    if j <= 0 {
        None
    } else {
        match first_ts(g, k, j - 1) {
            Some(v) => Some(v),
            None => if g.rel_props@[j - 1].0 == k && g.rel_props@[j - 1].1@ == "ts"@ {
                Some(g.rel_props@[j - 1].2)
            } else {
                None
            },
        }
    }
}

/// The timestamp of relationship `k`: its `ts`, `i64::MIN` when it has none.
pub open spec fn rel_ts(g: PropGraph, k: int) -> i64 {
    match first_ts(g, k, g.rel_props@.len() as int) {
        Some(v) => v,
        None => i64::MIN,
    }
}

/// Relationship `k` is an `invest` from `person` inside `[lo, hi]`.
pub open spec fn invests_in_window(g: PropGraph, person: u32, lo: i64, hi: i64, k: int) -> bool {
    g.rels@[k].0 == person && g.rels@[k].2@ == "invest"@ && lo <= rel_ts(g, k) <= hi
}

/// Among the first `k` relationships, one is an `invest` from `person` to
/// `c` inside `[lo, hi]`.
pub open spec fn invested_upto(g: PropGraph, person: u32, lo: i64, hi: i64, c: int, k: int) -> bool
    decreases k,
{
    if k <= 0 {
        false
    } else {
        invested_upto(g, person, lo, hi, c, k - 1) || (invests_in_window(g, person, lo, hi, k - 1) && g.rels@[k - 1].1 == c)
    }
}

/// `person` invested in company `c` inside `[lo, hi]`.
pub open spec fn invested(g: PropGraph, person: u32, lo: i64, hi: i64, c: int) -> bool {
    invested_upto(g, person, lo, hi, c, g.rels@.len() as int)
}

/// Among the first `k` relationships, the `invest`s from `n` (not `person`)
/// into a company that `person` invested in inside `[lo, hi]`.
pub open spec fn shared_upto(g: PropGraph, person: u32, lo: i64, hi: i64, n: int, k: int) -> nat
    decreases k,
{
    if k <= 0 {
        0
    } else {
        shared_upto(g, person, lo, hi, n, k - 1) + if g.rels@[k - 1].0 == n && n != person && g.rels@[k - 1].2@ == "invest"@
            && invested(g, person, lo, hi, g.rels@[k - 1].1 as int) {
            1nat
        } else {
            0nat
        }
    }
}

/// The investors sharing a company with `person`: every node (by id) with
/// at least one `invest` into a company that `person` invested in inside
/// `[lo, hi]`, with the number of such `invest`s.
pub open spec fn shared_rows(g: PropGraph, person: u32, lo: i64, hi: i64, m: int) -> Seq<(u32, usize)>
    decreases m,
{
    if m <= 0 {
        Seq::empty()
    } else {
        let before = shared_rows(g, person, lo, hi, m - 1);
        let c = shared_upto(g, person, lo, hi, m - 1, g.rels@.len() as int);
        if c > 0 {
            before.push(((m - 1) as u32, c as usize))
        } else {
            before
        }
    }
}

/// The `ts` of every relationship, `i64::MIN` where it has none.
fn rel_timestamps(g: &PropGraph) -> (ts: Vec<i64>)
    ensures
        ts@.len() == g.rels@.len(),
        forall|k: int| 0 <= k < g.rels@.len() ==> #[trigger] ts@[k] == rel_ts(*g, k),
{
    let n = g.rels.len();
    let mut ts: Vec<i64> = Vec::new();
    let mut set: Vec<bool> = Vec::new();
    while ts.len() < n
        invariant
            ts@.len() == set@.len(),
            ts@.len() <= n,
            forall|k: int| 0 <= k < ts@.len() ==> #[trigger] ts@[k] == i64::MIN,
            forall|k: int| 0 <= k < set@.len() ==> !#[trigger] set@[k],
        decreases n - ts.len(),
    {
        ts.push(i64::MIN);
        set.push(false);
    }
    let mut j: usize = 0;
    while j < g.rel_props.len()
        invariant
            n == g.rels@.len(),
            ts@.len() == n,
            set@.len() == n,
            j <= g.rel_props@.len(),
            forall|k: int| 0 <= k < n ==> (#[trigger] set@[k] <==> first_ts(*g, k, j as int) is Some),
            forall|k: int| 0 <= k < n ==> (#[trigger] first_ts(*g, k, j as int) matches Some(v) ==> ts@[k] == v),
            forall|k: int| 0 <= k < n ==> (first_ts(*g, k, j as int) is None ==> #[trigger] ts@[k] == i64::MIN),
        decreases g.rel_props.len() - j,
    {
        let (k, name, v) = (g.rel_props[j].0, &g.rel_props[j].1, g.rel_props[j].2);
        if k < n && same_text(name.as_str(), "ts") && !set[k] {
            ts.set(k, v);
            set.set(k, true);
        }
        proof {
            assert forall|q: int| 0 <= q < n implies (#[trigger] set@[q] <==> first_ts(*g, q, j + 1) is Some) && (first_ts(
                *g,
                q,
                j + 1,
            ) matches Some(w) ==> ts@[q] == w) && (first_ts(*g, q, j + 1) is None ==> ts@[q] == i64::MIN) by {
                reveal_strlit("ts");
            }
        }
        j = j + 1;
    }
    ts
}

/// FinBench CR10: the persons (and companies) sharing investments with
/// `person`: for each company that `person` invested in inside
/// `[start_ms, end_ms]` (each counted once), every other investor's `invest`s
/// into it; rows `(investor, count)`, most first, then by node id.
pub fn cr10(g: &PropGraph, person: u32, start_ms: i64, end_ms: i64) -> (r: Vec<(u32, usize)>)
    requires
        rels_within(*g),
        g.labels@.len() <= u32::MAX,
    ensures
        r@ == shared_rows(*g, person, start_ms, end_ms, g.labels@.len() as int).sort_by(rank_rel::<(u32, usize)>()),
{
    let n = g.labels.len();
    let nr = g.rels.len();
    let ts = rel_timestamps(g);
    let mut marked: Vec<bool> = Vec::new();
    while marked.len() < n
        invariant
            marked@.len() <= n,
            forall|c: int| 0 <= c < marked@.len() ==> !(#[trigger] marked@[c]),
        decreases n - marked.len(),
    {
        marked.push(false);
    }
    let mut k: usize = 0;
    while k < nr
        invariant
            n == g.labels@.len(),
            nr == g.rels@.len(),
            rels_within(*g),
            ts@.len() == nr,
            forall|q: int| 0 <= q < nr ==> #[trigger] ts@[q] == rel_ts(*g, q),
            marked@.len() == n,
            k <= nr,
            forall|c: int| 0 <= c < n ==> #[trigger] marked@[c] == invested_upto(*g, person, start_ms, end_ms, c, k as int),
        decreases nr - k,
    {
        let (a, b) = (g.rels[k].0, g.rels[k].1);
        if a == person && same_text(g.rels[k].2.as_str(), "invest") && start_ms <= ts[k] && ts[k] <= end_ms {
            proof {
                assert(g.rels@[k as int].1 < n);
            }
            marked.set(b as usize, true);
        }
        proof {
            reveal_strlit("invest");
        }
        k = k + 1;
    }
    let mut counts: Vec<usize> = Vec::new();
    while counts.len() < n
        invariant
            counts@.len() <= n,
            forall|c: int| 0 <= c < counts@.len() ==> #[trigger] counts@[c] == 0,
        decreases n - counts.len(),
    {
        counts.push(0);
    }
    let mut k: usize = 0;
    while k < nr
        invariant
            n == g.labels@.len(),
            nr == g.rels@.len(),
            rels_within(*g),
            marked@.len() == n,
            forall|c: int| 0 <= c < n ==> #[trigger] marked@[c] == invested(*g, person, start_ms, end_ms, c),
            counts@.len() == n,
            k <= nr,
            forall|m: int| 0 <= m < n ==> #[trigger] counts@[m] == shared_upto(*g, person, start_ms, end_ms, m, k as int),
            forall|m: int| 0 <= m < n ==> #[trigger] counts@[m] <= k,
        decreases nr - k,
    {
        let (a, b) = (g.rels[k].0, g.rels[k].1);
        proof {
            assert(g.rels@[k as int].0 < n && g.rels@[k as int].1 < n);
        }
        if a != person && same_text(g.rels[k].2.as_str(), "invest") && marked[b as usize] {
            let c = counts[a as usize] + 1;
            counts.set(a as usize, c);
        }
        proof {
            reveal_strlit("invest");
        }
        k = k + 1;
    }
    let mut rows: Vec<(u32, usize)> = Vec::new();
    let mut m: usize = 0;
    while m < n
        invariant
            n == g.labels@.len(),
            n <= u32::MAX,
            nr == g.rels@.len(),
            counts@.len() == n,
            forall|q: int| 0 <= q < n ==> #[trigger] counts@[q] == shared_upto(*g, person, start_ms, end_ms, q, nr as int),
            m <= n,
            rows@ == shared_rows(*g, person, start_ms, end_ms, m as int),
        decreases n - m,
    {
        if counts[m] > 0 {
            rows.push((m as u32, counts[m]));
        }
        m = m + 1;
    }
    sort_ranked(rows)
}

} // verus!
