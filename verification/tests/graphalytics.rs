use rustychickpeas_ldbc::clustering::{gallop, lcc_counts};
use rustychickpeas_ldbc::components::wcc;
use rustychickpeas_ldbc::graphalytics::bfs;
use rustychickpeas_ldbc::propagation::{cdlp, cdlp_seeded};
use rustychickpeas_ldbc::topology::Topology;

/// A graph of `n` nodes wired by the given relationships.
fn build(n: u32, rels: &[(u32, u32)]) -> Topology {
    Topology::from_edges(n, rels)
}

/// Local clustering coefficients from the counts.
fn lcc(g: &Topology, directed: bool) -> Vec<f64> {
    lcc_counts(g, directed)
        .into_iter()
        .map(|(rels, k)| {
            if k >= 2 {
                rels as f64 / (k as f64 * (k as f64 - 1.0))
            } else {
                0.0
            }
        })
        .collect()
}

#[test]
fn bfs_depths_and_unreachable() {
    // 0->1->2 reachable at depths 0,1,2; node 3 is isolated -> i64::MAX.
    let g = build(4, &[(0, 1), (1, 2)]);
    assert_eq!(bfs(&g, 0, true), vec![0, 1, 2, i64::MAX]);
}

#[test]
fn wcc_two_components_label_min_id() {
    // {0,1,2} via 0->1->2 and {3,4} via 3->4; weak connectivity ignores direction.
    let g = build(5, &[(0, 1), (1, 2), (3, 4)]);
    assert_eq!(wcc(&g), vec![0, 0, 0, 3, 3]);
}

#[test]
fn cdlp_triangle_converges_to_min_label() {
    // Undirected triangle: every node collapses to the smallest label (0).
    let g = build(3, &[(0, 1), (1, 2), (2, 0)]);
    assert_eq!(cdlp(&g, false, 2), vec![0, 0, 0]);
}

#[test]
fn cdlp_seeded_runs_in_seed_label_space() {
    // Seeded with vertex-id-like labels, the triangle collapses to the
    // smallest seed (10).
    let g = build(3, &[(0, 1), (1, 2), (2, 0)]);
    assert_eq!(cdlp_seeded(&g, false, 2, &[10, 20, 30]), vec![10, 10, 10]);
}

#[test]
fn lcc_triangle_with_pendant() {
    // Triangle 0-1-2 plus pendant 0-3: v0 over {1,2,3}=2/6, v1=v2=1, v3=0.
    let g = build(4, &[(0, 1), (1, 2), (2, 0), (0, 3)]);
    let coeffs = lcc(&g, false);
    assert!((coeffs[0] - 1.0 / 3.0).abs() < 1e-9, "{}", coeffs[0]);
    assert!((coeffs[1] - 1.0).abs() < 1e-9, "{}", coeffs[1]);
    assert!((coeffs[2] - 1.0).abs() < 1e-9, "{}", coeffs[2]);
    assert_eq!(coeffs[3], 0.0);
}

#[test]
fn lcc_gallop_branch_on_high_degree_neighbour() {
    // N(0) = {1,2} (k=2); node 1 has out-degree 3 (> k), so counting rels among
    // N(0) takes the gallop branch. The single inside-rel is 1->2, giving
    // LCC(0) = 1 / (2*1) = 0.5.
    let g = build(5, &[(0, 1), (0, 2), (1, 2), (1, 3), (1, 4)]);
    let coeffs = lcc(&g, true);
    assert!((coeffs[0] - 0.5).abs() < 1e-9, "{}", coeffs[0]);
}

#[test]
fn bfs_undirected_follows_incoming_relationships() {
    let g = build(3, &[(1, 0), (2, 1)]);
    assert_eq!(bfs(&g, 0, false), vec![0, 1, 2]);
    assert_eq!(bfs(&g, 0, true), vec![0, i64::MAX, i64::MAX]);
}

#[test]
fn bfs_source_out_of_range_reaches_nothing() {
    let g = build(2, &[(0, 1)]);
    assert_eq!(bfs(&g, 7, true), vec![i64::MAX, i64::MAX]);
}

#[test]
fn wcc_singletons_keep_their_own_id() {
    let g = build(4, &[(3, 1)]);
    assert_eq!(wcc(&g), vec![0, 1, 2, 1]);
}

#[test]
fn from_edges_skips_relationships_outside_the_node_range() {
    let g = build(2, &[(0, 1), (0, 5), (9, 1)]);
    assert_eq!(g.len(), 2);
    assert_eq!(g.outgoing_of(0), &[1]);
    assert_eq!(g.incoming_of(1), &[0]);
}

#[test]
fn cdlp_isolated_node_keeps_its_label() {
    let g = build(3, &[(0, 1)]);
    assert_eq!(cdlp_seeded(&g, true, 3, &[5, 7, 9]), vec![7, 5, 9]);
}

#[test]
fn cdlp_tie_goes_to_the_smallest_label() {
    // Node 0 hears labels 30 (node 1) and 20 (node 2) once each.
    let g = build(3, &[(0, 1), (0, 2)]);
    assert_eq!(cdlp_seeded(&g, true, 1, &[10, 30, 20]), vec![20, 10, 10]);
}

#[test]
fn cdlp_mutual_relationship_counts_twice() {
    // Node 0: neighbour 1 (label 9) via 0->1 and 1->0, neighbour 2 (label 3) once.
    let g = build(3, &[(0, 1), (1, 0), (0, 2)]);
    assert_eq!(cdlp_seeded(&g, true, 1, &[0, 9, 3])[0], 9);
}

#[test]
fn cdlp_zero_iterations_returns_the_seed() {
    let g = build(2, &[(0, 1)]);
    assert_eq!(cdlp_seeded(&g, false, 0, &[4, 2]), vec![4, 2]);
}

#[test]
fn lcc_counts_report_neighbourhood_size() {
    let g = build(4, &[(0, 1), (1, 2), (2, 0), (0, 3)]);
    let counts = lcc_counts(&g, false);
    assert_eq!(counts, vec![(2, 3), (2, 2), (2, 2), (0, 1)]);
}

#[test]
fn lcc_counts_directed_counts_forward_relationships_only() {
    // N(0) = {1, 2}; only 1->2 runs inside it.
    let g = build(3, &[(0, 1), (0, 2), (1, 2)]);
    assert_eq!(lcc_counts(&g, true)[0], (1, 2));
    assert_eq!(lcc_counts(&g, false)[0], (2, 2));
}

#[test]
fn gallop_finds_present_and_insertion_points() {
    let uo = [1u32, 3, 5, 7, 9, 11, 13];
    assert_eq!(gallop(&uo, 0, 7), (true, 3));
    assert_eq!(gallop(&uo, 0, 8), (false, 4));
    assert_eq!(gallop(&uo, 4, 13), (true, 6));
    assert_eq!(gallop(&uo, 2, 0), (false, 2));
    assert_eq!(gallop(&uo, 0, 20), (false, 7));
    assert_eq!(gallop(&uo, 9, 1), (false, 7));
}

#[test]
fn cdlp_seeds_relabel_by_an_increasing_map() {
    // Seeding with an increasing image of the node ids gives the image of the
    // node-id result.
    let g = build(6, &[(0, 1), (1, 2), (2, 0), (3, 4), (4, 5), (5, 3), (2, 3)]);
    let plain = cdlp(&g, true, 3);
    let seeds: Vec<u32> = (0..6).map(|v| 100 + 7 * v).collect();
    let seeded = cdlp_seeded(&g, true, 3, &seeds);
    let image: Vec<u32> = plain.iter().map(|&l| 100 + 7 * l).collect();
    assert_eq!(seeded, image);
}

#[test]
fn wcc_labels_match_exactly_on_connected_pairs() {
    let g = build(6, &[(5, 2), (2, 4), (1, 0)]);
    let comp = wcc(&g);
    assert_eq!(comp, vec![0, 0, 2, 3, 2, 2]);
}

#[test]
fn cdlp_uniform_labels_stay_uniform() {
    let g = build(4, &[(0, 1), (1, 2), (3, 0), (2, 3)]);
    assert_eq!(cdlp_seeded(&g, false, 5, &[8, 8, 8, 8]), vec![8, 8, 8, 8]);
}

#[test]
fn lcc_counts_parallel_relationships_when_scanning() {
    // N(0) = {1, 2}; node 1 has two parallel relationships to 2 and no more
    // forward neighbours than |N(0)|, so its scan counts both.
    let g = build(3, &[(0, 1), (0, 2), (1, 2), (1, 2)]);
    assert_eq!(lcc_counts(&g, true)[0], (2, 2));
}
