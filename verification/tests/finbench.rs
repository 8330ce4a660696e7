use rustychickpeas_ldbc::finbench::{cr10, fin_table, finbench_graph_from_tables, FinTable, FinTables};

fn rows(v: &[&[&str]]) -> Vec<Vec<String>> {
    v.iter().map(|r| r.iter().map(|s| s.to_string()).collect()).collect()
}

fn empty() -> FinTables {
    FinTables {
        account: vec![],
        person: vec![],
        company: vec![],
        medium: vec![],
        loan: vec![],
        transfer: vec![],
        withdraw: vec![],
        deposit: vec![],
        repay: vec![],
        person_apply_loan: vec![],
        company_apply_loan: vec![],
        person_guarantee: vec![],
        company_guarantee: vec![],
        person_own_account: vec![],
        company_own_account: vec![],
        person_invest: vec![],
        company_invest: vec![],
        sign_in: vec![],
    }
}

#[test]
fn nodes_come_in_type_order_with_blocked_flags() {
    let mut t = empty();
    t.account = rows(&[&["10", "true"], &["11", "false"]]);
    t.person = rows(&[&["10"]]);
    t.medium = rows(&[&["5", "TRUE"]]);
    t.loan = rows(&[&["1"]]);
    let (g, stats) = finbench_graph_from_tables(&t);
    assert_eq!(stats.nodes, 5);
    assert_eq!(stats.edges, 0);
    let labels: Vec<&str> = g.labels.iter().map(|l| l[0].as_str()).collect();
    assert_eq!(labels, vec!["Account", "Account", "Person", "Medium", "Loan"]);
    let xsd = Some("http://www.w3.org/2001/XMLSchema#boolean".to_string());
    assert_eq!(
        g.props,
        vec![
            (0, "blocked".to_string(), "true".to_string(), xsd.clone()),
            (1, "blocked".to_string(), "false".to_string(), xsd.clone()),
            (3, "blocked".to_string(), "false".to_string(), xsd),
        ]
    );
    assert!(g.uris.iter().all(|u| u.is_none()));
}

#[test]
fn edges_resolve_per_type_and_keep_timestamps() {
    let mut t = empty();
    t.account = rows(&[&["10", "false"], &["11", "false"]]);
    t.person = rows(&[&["10"]]);
    // Account 10 -> 11, then one whose target is unknown.
    t.transfer = rows(&[&["10", "11", "1000"], &["10", "99", "2000"]]);
    // Person 10 owns account 11: ids are per type, so 10 is the person here.
    t.person_own_account = rows(&[&["10", "11", "x"]]);
    let (g, stats) = finbench_graph_from_tables(&t);
    assert_eq!(stats.edges, 2);
    assert_eq!(g.rels, vec![(0, 1, "transfer".to_string()), (2, 1, "own".to_string())]);
    // The unreadable timestamp reads as 0.
    assert_eq!(g.rel_props, vec![(0, "ts".to_string(), 1000), (1, "ts".to_string(), 0)]);
}

#[test]
fn a_repeated_id_maps_to_its_last_node() {
    let mut t = empty();
    t.company = rows(&[&["7"], &["7"]]);
    t.company_invest = rows(&[&["7", "7", "5"]]);
    let (g, _) = finbench_graph_from_tables(&t);
    assert_eq!(g.rels, vec![(1, 1, "invest".to_string())]);
}

#[test]
fn unreadable_ids_read_as_zero() {
    let mut t = empty();
    t.account = rows(&[&["abc", "false"], &["0", "false"]]);
    t.withdraw = rows(&[&["", "0", "3"]]);
    let (g, _) = finbench_graph_from_tables(&t);
    assert_eq!(g.rels, vec![(1, 1, "withdraw".to_string())]);
}

#[test]
fn table_directories_and_columns() {
    assert_eq!(fin_table(FinTable::Account), ("account", vec!["id", "isBlocked"]));
    assert_eq!(fin_table(FinTable::Deposit), ("deposit", vec!["loanId", "accountId", "createTime"]));
    assert_eq!(fin_table(FinTable::SignIn), ("signIn", vec!["mediumId", "accountId", "createTime"]));
}

#[test]
fn edges_join_nodes_and_carry_one_timestamp_each() {
    let mut t = empty();
    t.account = rows(&[&["1", "false"], &["2", "true"]]);
    t.medium = rows(&[&["1", "false"]]);
    t.loan = rows(&[&["1"]]);
    t.transfer = rows(&[&["1", "2", "10"], &["2", "1", "20"], &["3", "1", "30"]]);
    t.sign_in = rows(&[&["1", "2", "40"]]);
    t.deposit = rows(&[&["1", "1", "50"]]);
    let (g, stats) = finbench_graph_from_tables(&t);
    let n = g.labels.len() as u32;
    assert!(g.rels.iter().all(|r| r.0 < n && r.1 < n));
    assert_eq!(g.rel_props.len(), g.rels.len());
    assert!(g.rel_props.iter().enumerate().all(|(k, p)| p.0 == k && p.1 == "ts"));
    assert_eq!(stats.edges, 4);
    assert_eq!(
        g.rels,
        vec![
            (0, 1, "transfer".to_string()),
            (1, 0, "transfer".to_string()),
            (3, 0, "deposit".to_string()),
            (2, 1, "signIn".to_string()),
        ]
    );
}

#[test]
fn cr10_counts_co_investors_of_window_companies() {
    let mut t = empty();
    t.person = rows(&[&["1"], &["2"], &["3"]]);
    t.company = rows(&[&["10"], &["11"]]);
    t.person_invest = rows(&[
        &["1", "10", "100"],
        &["1", "11", "500"],
        &["2", "10", "50"],
        &["2", "10", "60"],
        &["3", "11", "70"],
    ]);
    t.company_invest = rows(&[&["11", "10", "80"]]);
    let (g, _) = finbench_graph_from_tables(&t);
    // Person 1 (node 0) invested in company 10 (node 3) inside the window;
    // company 11 only outside it. Person 2 invested twice in company 10,
    // company 11 (node 4) once; person 1 itself does not count.
    assert_eq!(cr10(&g, 0, 0, 200), vec![(1, 2), (4, 1)]);
    // A window that holds both of person 1's investments adds company 11's
    // other investor, person 3.
    assert_eq!(cr10(&g, 0, 0, 1000), vec![(1, 2), (2, 1), (4, 1)]);
    assert_eq!(cr10(&g, 0, 101, 400), vec![]);
}
