use rustychickpeas_ldbc::bench::{effective_runs, median_sample, selects, BenchCfg};

#[test]
fn default_config_selects_everything() {
    let c = BenchCfg::default();
    assert!(selects(&c, "IC5 new groups"));
    assert!(selects(&c, ""));
    assert_eq!(effective_runs(&c, 7), 7);
    assert!(!c.alloc);
}

#[test]
fn only_matches_the_lowercased_first_word() {
    let c = BenchCfg { only: Some("ic5".to_string()), runs: 3, alloc: false };
    assert!(selects(&c, "IC5 new groups"));
    assert!(selects(&c, "  ic5"));
    assert!(!selects(&c, "IC50 other"));
    assert!(!selects(&c, "new IC5"));
    assert!(!selects(&c, ""));
    assert_eq!(effective_runs(&c, 7), 3);
}

#[test]
fn median_sample_is_the_upper_middle() {
    assert_eq!(median_sample(vec![5]), 5);
    assert_eq!(median_sample(vec![9, 1, 5]), 5);
    assert_eq!(median_sample(vec![4, 1, 3, 2]), 3);
}

#[test]
fn selects_id_compares_with_only() {
    let c = BenchCfg { only: Some("q3".to_string()), runs: 0, alloc: true };
    assert!(rustychickpeas_ldbc::bench::selects_id(&c, &['q', '3']));
    assert!(!rustychickpeas_ldbc::bench::selects_id(&c, &['Q', '3']));
    assert!(rustychickpeas_ldbc::bench::selects_id(&BenchCfg::default(), &[]));
    assert!(selects(&c, "Q3 popular topics"));
}
