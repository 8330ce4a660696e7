use rustychickpeas_ldbc::interactive::{
    ic13_shortest_path, ic1_friends_by_name, ic2_recent_messages, ic9_fof_messages, is1_profile, is2_recent_of_person,
    is3_friends, is5_message_creator, pick_seeds,
};
use rustychickpeas_ldbc::rdfgraph::PropGraph;

const LONG: &str = "http://www.w3.org/2001/XMLSchema#long";

fn int_prop(n: u32, k: &str, v: i64) -> (u32, String, String, Option<String>) {
    (n, k.to_string(), v.to_string(), Some(LONG.to_string()))
}

fn text_prop(n: u32, k: &str, v: &str) -> (u32, String, String, Option<String>) {
    (n, k.to_string(), v.to_string(), None)
}

/// Persons 0..=3 in a `knows` chain (both ways), person 4 alone; messages
/// 5..=8 created by persons 1, 1, 2 and 3.
fn fixture() -> PropGraph {
    let mut labels: Vec<Vec<String>> = Vec::new();
    for _ in 0..5 {
        labels.push(vec!["Person".to_string()]);
    }
    labels.push(vec!["Post".to_string()]);
    labels.push(vec!["Post".to_string()]);
    labels.push(vec!["Comment".to_string()]);
    labels.push(vec!["Comment".to_string()]);
    let mut rels: Vec<(u32, u32, String)> = Vec::new();
    for (a, b) in [(0u32, 1u32), (1, 2), (2, 3)] {
        rels.push((a, b, "knows".to_string()));
        rels.push((b, a, "knows".to_string()));
    }
    for (p, m) in [(1u32, 5u32), (1, 6), (2, 7), (3, 8)] {
        rels.push((p, m, "hasCreator".to_string()));
    }
    let props = vec![
        text_prop(0, "fname", "Ann"),
        text_prop(0, "lname", "Lee"),
        int_prop(0, "pday", 100),
        int_prop(0, "plid", 10),
        text_prop(1, "fname", "Bob"),
        text_prop(1, "lname", "Ray"),
        int_prop(1, "plid", 11),
        text_prop(2, "fname", "Ann"),
        text_prop(2, "lname", "Abe"),
        int_prop(2, "plid", 12),
        text_prop(3, "fname", "Ann"),
        text_prop(3, "lname", "Zed"),
        int_prop(3, "plid", 13),
        text_prop(4, "fname", "Eve"),
        int_prop(5, "day", 10),
        int_prop(5, "ms", 1000),
        int_prop(6, "day", 20),
        int_prop(6, "ms", 2000),
        int_prop(7, "day", 30),
        int_prop(7, "ms", 2000),
        int_prop(8, "day", 50),
        int_prop(8, "ms", 5000),
    ];
    PropGraph { labels, uris: vec![None; 9], rels, props, rel_props: vec![] }
}

#[test]
fn ic13_counts_knows_hops() {
    let g = fixture();
    assert_eq!(ic13_shortest_path(&g, 0, 3), 3);
    assert_eq!(ic13_shortest_path(&g, 3, 1), 2);
    assert_eq!(ic13_shortest_path(&g, 2, 2), 0);
}

#[test]
fn ic13_unreachable_is_minus_one() {
    let g = fixture();
    assert_eq!(ic13_shortest_path(&g, 0, 4), -1);
    assert_eq!(ic13_shortest_path(&g, 99, 0), -1);
}

#[test]
fn is3_friends_sorted_by_id() {
    let g = fixture();
    assert_eq!(is3_friends(&g, 1), vec![0, 2]);
    assert_eq!(is3_friends(&g, 4), Vec::<u32>::new());
}

#[test]
fn is5_creator_of_message() {
    let g = fixture();
    assert_eq!(is5_message_creator(&g, 7), Some(2));
    assert_eq!(is5_message_creator(&g, 0), None);
}

#[test]
fn is1_profile_needs_both_names() {
    let g = fixture();
    assert_eq!(is1_profile(&g, 0), Some(("Ann".to_string(), "Lee".to_string(), 100)));
    // Person 1 has no creation day: it reads as 0.
    assert_eq!(is1_profile(&g, 1), Some(("Bob".to_string(), "Ray".to_string(), 0)));
    assert_eq!(is1_profile(&g, 4), None);
}

#[test]
fn is2_newest_first_within_day() {
    let g = fixture();
    assert_eq!(is2_recent_of_person(&g, 1, 100), vec![(6, 2000), (5, 1000)]);
    assert_eq!(is2_recent_of_person(&g, 1, 15), vec![(5, 1000)]);
    assert_eq!(is2_recent_of_person(&g, 0, 100), Vec::<(u32, i64)>::new());
}

#[test]
fn ic2_messages_of_friends() {
    let g = fixture();
    assert_eq!(ic2_recent_messages(&g, 0, 100), vec![(6, 2000), (5, 1000)]);
    assert_eq!(ic2_recent_messages(&g, 2, 100), vec![(8, 5000), (6, 2000), (5, 1000)]);
    assert_eq!(ic2_recent_messages(&g, 2, 40), vec![(6, 2000), (5, 1000)]);
}

#[test]
fn ic9_friends_of_friends_ties_by_id() {
    let g = fixture();
    // Persons 1 and 2 are within two hops of 0; messages 6 and 7 share a time.
    assert_eq!(ic9_fof_messages(&g, 0, 100), vec![(6, 2000), (7, 2000), (5, 1000)]);
    assert_eq!(ic9_fof_messages(&g, 42, 100), Vec::<(u32, i64)>::new());
}

#[test]
fn ic1_named_friends_by_hops() {
    let g = fixture();
    assert_eq!(
        ic1_friends_by_name(&g, 0, "Ann"),
        vec![(2, 2, "Abe".to_string()), (3, 3, "Zed".to_string())]
    );
    assert_eq!(ic1_friends_by_name(&g, 0, "Eve"), Vec::<(u32, u32, String)>::new());
}

#[test]
fn pick_seeds_from_best_connected_person() {
    let g = fixture();
    let s = pick_seeds(&g).expect("seeds");
    // Persons 1 and 2 both have two knows relationships: the smaller id wins.
    assert_eq!(s.person, 1);
    assert_eq!(s.max_day, 15706);
    assert_eq!(s.first_name, "Ann");
    assert_eq!(s.person_b, 3);
}

#[test]
fn pick_seeds_without_persons() {
    let g = PropGraph { labels: vec![vec!["Post".to_string()]], uris: vec![None], rels: vec![], props: vec![], rel_props: vec![] };
    assert!(pick_seeds(&g).is_none());
}
