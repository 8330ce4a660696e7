use rustychickpeas_ldbc::dataset::load_str;
use rustychickpeas_ldbc::validate::{check_exact_i64, check_relabel, parse_ref, parse_reference};

const V: &str = "10\n20\n30\n";
const E: &str = "10 20 2.5\n20 30 4.0\n10 30\n";
const PROPS: &str = "\
graph.x.directed = false
graph.x.bfs.source-vertex = 20
graph.x.pr.damping-factor = 0.85
graph.x.pr.num-iterations = 7
graph.x.cdlp.max-iterations = 9
graph.x.sssp.source-vertex = 10
";

#[test]
fn maps_vertices_to_dense_nodes_in_order() {
    let ds = load_str(V, E, "");
    assert_eq!(ds.vertex_of_node, vec![10, 20, 30]);
    assert_eq!(ds.node(10), Some(0));
    assert_eq!(ds.node(30), Some(2));
    assert_eq!(ds.node(99), None);
    assert_eq!(ds.len(), 3);
}

#[test]
fn edges_carry_weights_with_unit_default() {
    let ds = load_str(V, E, "");
    // node 0 (v10) -> node 1 (v20) and node 0 -> node 2 (v30, default weight).
    let outs: Vec<u32> = ds.graph.outgoing_of(0).to_vec();
    assert_eq!(outs.len(), 2);
    assert!(outs.contains(&1) && outs.contains(&2));
    assert_eq!(
        ds.weight_texts,
        vec![Some("2.5".to_string()), Some("4.0".to_string()), None]
    );
}

#[test]
fn parses_algorithm_params() {
    let p = load_str(V, E, PROPS).params;
    assert!(!p.directed);
    assert_eq!(p.bfs_source, Some(20));
    assert_eq!(p.sssp_source, Some(10));
    let damping: Option<f64> = p.pr_damping_values.iter().rev().find_map(|t| t.parse().ok());
    assert_eq!(damping, Some(0.85));
    assert_eq!(p.pr_iterations, 7);
    assert_eq!(p.cdlp_iterations, 9);
}

#[test]
fn missing_properties_uses_defaults() {
    let p = load_str(V, E, "").params;
    assert!(p.directed);
    assert_eq!(p.pr_iterations, 10);
    assert_eq!(p.cdlp_iterations, 10);
    assert_eq!(p.bfs_source, None);
}

#[test]
fn exact_passes_on_match_fails_on_diff() {
    let ds = load_str("1\n2\n3\n", "", "");
    let r = parse_reference("1 0\n2 1\n3 2\n");
    assert!(check_exact_i64(&ds, &[0, 1, 2], &r).is_ok());
    assert!(check_exact_i64(&ds, &[0, 9, 2], &r).is_err());
}

#[test]
fn duplicate_and_malformed_vertex_lines_are_skipped() {
    let ds = load_str("5 extra\n\nx\n5\n  7\r\n", "5 7\n7 8\n5\n", "");
    assert_eq!(ds.vertex_of_node, vec![5, 7]);
    assert_eq!(ds.edges, vec![(0, 1)]);
    assert_eq!(ds.weight_texts, vec![None]);
    assert!(!ds.is_empty());
}

#[test]
fn properties_ignore_comments_bad_numbers_and_unknown_keys() {
    let p = load_str(
        "",
        "",
        "# graph.x.directed = false\ngraph.x.directed = TRUE\ngraph.x.pr.num-iterations = many\nother = 3\nno equals sign\n",
    )
    .params;
    assert!(p.directed);
    assert_eq!(p.pr_iterations, 10);
    let p = load_str("", "", "g.directed=False\ng.bfs.source-vertex = -1\n").params;
    assert!(!p.directed);
    assert_eq!(p.bfs_source, None);
}

#[test]
fn reference_keeps_the_last_value_per_vertex() {
    let r = parse_reference("1 a\n1 b\nx 3\n2\n4 c d\n");
    assert_eq!(r.len(), 2);
    assert_eq!(r.get(&1).map(String::as_str), Some("b"));
    assert_eq!(r.get(&4).map(String::as_str), Some("c"));
}

#[test]
fn exact_check_reports_the_first_problem() {
    let ds = load_str("1\n2\n3\n", "", "");
    let r = parse_reference("1 0\n2 x\n3 -4\n");
    assert_eq!(
        check_exact_i64(&ds, &[0, 1, 2], &r),
        Err("vertex 2: unparseable reference value \"x\"".to_string())
    );
    let r = parse_reference("1 0\n3 -4\n");
    assert_eq!(
        check_exact_i64(&ds, &[0, 1, 2], &r),
        Err("vertex 2 missing from reference".to_string())
    );
    let r = parse_reference("1 0\n2 1\n3 -4\n");
    assert_eq!(
        check_exact_i64(&ds, &[0, 1, 2], &r),
        Err("vertex 3: got 2, want -4".to_string())
    );
    assert_eq!(check_exact_i64(&ds, &[0, 1], &r), Ok(()));
}

#[test]
fn parse_ref_reads_integers() {
    let r = parse_reference("7 9223372036854775807\n8 +3\n");
    assert_eq!(parse_ref(&r, 7), Ok(i64::MAX));
    assert_eq!(parse_ref(&r, 8), Ok(3));
}

#[test]
fn unparseable_value_message_names_the_vertex() {
    assert_eq!(
        rustychickpeas_ldbc::validate::unparseable_value(12, "\"a b\""),
        "vertex 12: unparseable reference value \"a b\""
    );
}

#[test]
fn relabel_accepts_renamed_partition_rejects_reshaped() {
    let ds = load_str("1\n2\n3\n", "", "");
    // {1,2} together, {3} apart — labels 100/200 differ from ours but partition matches.
    let same = parse_reference("1 100\n2 100\n3 200\n");
    assert!(check_relabel(&ds, &[5, 5, 7], &same).is_ok());
    // Different partition: 2 and 3 grouped instead.
    let reshaped = parse_reference("1 100\n2 200\n3 200\n");
    assert!(check_relabel(&ds, &[5, 5, 7], &reshaped).is_err());
}

#[test]
fn relabel_reports_which_pairing_breaks() {
    let ds = load_str("1\n2\n3\n", "", "");
    let r = parse_reference("1 a\n2 b\n3 b\n");
    assert_eq!(
        check_relabel(&ds, &[5, 5, 7], &r),
        Err("vertex 2: our label 5 maps to both a and b".to_string())
    );
    let r = parse_reference("1 a\n2 a\n3 b\n");
    assert_eq!(
        check_relabel(&ds, &[5, 6, 7], &r),
        Err("vertex 2: ref label a maps to both 5 and 6".to_string())
    );
    let r = parse_reference("1 a\n3 b\n");
    assert_eq!(
        check_relabel(&ds, &[5, 6, 7], &r),
        Err("vertex 2 missing from reference".to_string())
    );
    assert_eq!(check_relabel(&ds, &[], &r), Ok(()));
}
