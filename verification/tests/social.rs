use rustychickpeas_ldbc::rdfgraph::PropGraph;
use rustychickpeas_ldbc::social::{
    bench_cuts_hold, bench_graph_from_tables, snb_cuts_hold, snb_read, social_graph_from_tables, SnbRead, SnbTables,
};

fn rows(v: &[&[&str]]) -> Vec<Vec<String>> {
    v.iter().map(|r| r.iter().map(|s| s.to_string()).collect()).collect()
}

fn empty() -> SnbTables {
    SnbTables {
        tag_class: vec![],
        tag_class_parent: vec![],
        tag: vec![],
        person: vec![],
        place: vec![],
        place_parent: vec![],
        person_city: vec![],
        forum: vec![],
        forum_member: vec![],
        post: vec![],
        post_forum: vec![],
        comment: vec![],
        post_tag: vec![],
        comment_tag: vec![],
        person_interest: vec![],
        comment_reply: vec![],
        post_country: vec![],
        comment_country: vec![],
        likes_post: vec![],
        likes_comment: vec![],
        knows: vec![],
        organisation: vec![],
        work_at: vec![],
        study_at: vec![],
    }
}

const LONG: &str = "http://www.w3.org/2001/XMLSchema#long";

/// The properties of node `n` as (name, value, typed as an integer).
fn props_of(g: &PropGraph, n: u32) -> Vec<(String, String, bool)> {
    g.props
        .iter()
        .filter(|p| p.0 == n)
        .map(|p| (p.1.clone(), p.2.clone(), p.3.as_deref() == Some(LONG)))
        .collect()
}

fn p(name: &str, v: &str, int: bool) -> (String, String, bool) {
    (name.to_string(), v.to_string(), int)
}

#[test]
fn unreadable_ids_make_no_node_and_tags_get_their_class() {
    let mut t = empty();
    t.tag_class = rows(&[&["1", "Thing"], &["x", "Bad"], &["2", "Sport"]]);
    t.tag_class_parent = rows(&[&["2", "1"], &["1", ""]]);
    t.tag = rows(&[&["10", "Football", "2"], &["11", "Nowhere", "9"]]);
    let (g, stats) = social_graph_from_tables(&t, false);
    let labels: Vec<&str> = g.labels.iter().map(|l| l[0].as_str()).collect();
    assert_eq!(labels, vec!["TagClass", "TagClass", "Tag", "Tag"]);
    assert_eq!(g.rels, vec![(1, 0, "isSubclassOf".to_string()), (2, 1, "hasType".to_string())]);
    assert_eq!(props_of(&g, 2), vec![p("name", "Football", false)]);
    assert_eq!((stats.tag_classes, stats.tags, stats.rels), (2, 2, 2));
}

#[test]
fn person_properties() {
    let mut t = empty();
    t.person = rows(&[
        &["2010-02-24T08:06:02.996+00:00", "100", "Ann", "Lee", "female", "1990-05-17"],
        &["late", "-7", "Bo", "Ek", "male", "short"],
    ]);
    let (g, stats) = social_graph_from_tables(&t, false);
    assert_eq!(stats.persons, 2);
    assert_eq!(
        props_of(&g, 0),
        vec![
            p("plid", "100", true),
            p("fname", "Ann", false),
            p("lname", "Lee", false),
            p("gender", "female", false),
            p("bmon", "5", true),
            p("bdom", "17", true),
            p("pday", "14664", true),
            p("pym", "24122", true),
        ]
    );
    // No birthday or creation date that reads: only the names and the id.
    assert_eq!(
        props_of(&g, 1),
        vec![p("plid", "-7", true), p("fname", "Bo", false), p("lname", "Ek", false), p("gender", "male", false)]
    );
}

#[test]
fn knows_goes_both_ways_with_its_day() {
    let mut t = empty();
    t.person = rows(&[&["", "1", "", "", "", ""], &["", "2", "", "", "", ""]]);
    t.knows = rows(&[&["1970-01-03T00:00:00.000+00:00", "1", "2"], &["bad", "2", "1"], &["1970-01-01", "1", "3"]]);
    let (g, stats) = social_graph_from_tables(&t, false);
    assert_eq!(
        g.rels,
        vec![
            (0, 1, "knows".to_string()),
            (1, 0, "knows".to_string()),
            (1, 0, "knows".to_string()),
            (0, 1, "knows".to_string()),
        ]
    );
    assert_eq!(
        g.rel_props,
        vec![
            (0, "kd".to_string(), 2),
            (1, "kd".to_string(), 2),
            (2, "kd".to_string(), 0),
            (3, "kd".to_string(), 0),
        ]
    );
    assert_eq!(stats.rels, 4);
}

fn message_tables() -> SnbTables {
    let mut t = empty();
    t.person = rows(&[&["", "100", "Ann", "Lee", "f", ""]]);
    t.place = rows(&[&["5", "Berlin", "City"], &["6", "Germany", "Country"]]);
    t.place_parent = rows(&[&["5", "6"]]);
    t.person_city = rows(&[&["100", "5"]]);
    t.forum = rows(&[&["200", "Wall", "2010-03-01T00:00:00.000+00:00", "100"]]);
    t.forum_member = rows(&[&["2010-03-02T00:00:00.000+00:00", "200", "100"]]);
    t.post = rows(&[&["300", "100", "2010-03-05T01:02:03.004+00:00", "", "5", "en", "pic.jpg"]]);
    t.post_forum = rows(&[&["300", "200"]]);
    t.comment = rows(&[&["400", "100", "2010-03-06T00:00:00.000+00:00", "hi", "2"]]);
    t.comment_reply = rows(&[&["400", "300", ""], &["401", "300", ""]]);
    t.likes_post = rows(&[&["2010-03-07T00:00:00.000+00:00", "100", "300"]]);
    t
}

#[test]
fn messages_forums_and_places() {
    let (g, stats) = social_graph_from_tables(&message_tables(), false);
    let labels: Vec<&str> = g.labels.iter().map(|l| l[0].as_str()).collect();
    assert_eq!(labels, vec!["Person", "City", "Country", "Forum", "Post", "Comment"]);
    assert_eq!(
        g.rels,
        vec![
            (1, 2, "isPartOf".to_string()),
            (0, 1, "isLocatedIn".to_string()),
            (3, 0, "hasModerator".to_string()),
            (3, 0, "hasMember".to_string()),
            (0, 4, "hasCreator".to_string()),
            (3, 4, "containerOf".to_string()),
            (0, 5, "hasCreator".to_string()),
            (5, 4, "replyOf".to_string()),
            (0, 4, "likes".to_string()),
        ]
    );
    assert_eq!(g.rel_props, vec![(3, "hd".to_string(), 14670), (8, "ld".to_string(), 14675 * 86_400_000)]);
    assert_eq!(props_of(&g, 3), vec![p("flid", "200", true), p("title", "Wall", false), p("fday", "14669", true)]);
    assert_eq!(
        props_of(&g, 4),
        vec![
            p("year", "2010", true),
            p("day", "14673", true),
            p("ms", "1267750923004", true),
            p("len", "5", true),
            p("content", "0", true),
            p("lang", "en", false),
        ]
    );
    assert_eq!(props_of(&g, 1), vec![p("name", "Berlin", false), p("lid", "5", true)]);
    assert_eq!((stats.persons, stats.posts, stats.comments, stats.rels), (1, 1, 1, 9));
}

#[test]
fn content_text_only_when_asked() {
    let (g, _) = social_graph_from_tables(&message_tables(), true);
    let post = props_of(&g, 4);
    // The post has no content: its text is the image file.
    assert_eq!(post.last(), Some(&p("ctext", "pic.jpg", false)));
    let comment = props_of(&g, 5);
    assert_eq!(comment.last(), Some(&p("ctext", "hi", false)));
    assert!(comment.contains(&p("content", "1", true)));
    let (g, _) = social_graph_from_tables(&message_tables(), false);
    assert!(g.props.iter().all(|p| p.1 != "ctext"));
}

#[test]
fn cut_dates_are_refused_beforehand() {
    let mut t = empty();
    assert!(snb_cuts_hold(&t, false));
    // A birthday whose month ends inside a character cannot be sliced.
    t.person = rows(&[&["", "1", "", "", "", "1990-0\u{e9}-17"]]);
    assert!(!snb_cuts_hold(&t, false));
    let mut t = empty();
    t.knows = rows(&[&["201\u{e9}-01-01", "1", "2"]]);
    assert!(!snb_cuts_hold(&t, false));
}

#[test]
fn read_directories_and_columns() {
    assert_eq!(snb_read(SnbRead::TagClass), ("static/TagClass", vec!["id", "name"]));
    assert_eq!(snb_read(SnbRead::Knows), ("dynamic/Person_knows_Person", vec!["creationDate", "Person1Id", "Person2Id"]));
    assert_eq!(snb_read(SnbRead::CommentReply), ("dynamic/Comment", vec!["id", "ParentPostId", "ParentCommentId"]));
}

#[test]
fn every_relationship_joins_two_nodes() {
    let mut t = message_tables();
    // Rows naming unknown ids add nothing, so nothing can point outside.
    t.post_tag = rows(&[&["300", "9"], &["9", "9"]]);
    t.work_at = rows(&[&["100", "77", "2001"]]);
    t.organisation = rows(&[&["77", "Company", "Acme", "6"]]);
    let (g, _) = social_graph_from_tables(&t, false);
    let n = g.labels.len() as u32;
    assert!(g.rels.iter().all(|r| r.0 < n && r.1 < n));
    assert!(g.rels.contains(&(6, 2, "orgPlace".to_string())));
    assert!(g.rel_props.contains(&(g.rels.len() - 1, "wf".to_string(), 2001)));
}

#[test]
fn benchmark_graph_keeps_fewer_properties() {
    let mut t = message_tables();
    t.tag_class_parent = rows(&[&["1", "1"]]);
    t.post_country = rows(&[&["300", "6"]]);
    let (g, stats) = bench_graph_from_tables(&t);
    let labels: Vec<&str> = g.labels.iter().map(|l| l[0].as_str()).collect();
    assert_eq!(labels, vec!["Person", "City", "Country", "Forum", "Post", "Comment"]);
    // The person keeps only its id (its date does not read); no names.
    assert_eq!(props_of(&g, 0), vec![p("plid", "100", true)]);
    let post: Vec<(String, String, Option<String>)> =
        g.props.iter().filter(|q| q.0 == 4).map(|q| (q.1.clone(), q.2.clone(), q.3.clone())).collect();
    let xsd_bool = Some("http://www.w3.org/2001/XMLSchema#boolean".to_string());
    let long = Some(LONG.to_string());
    assert_eq!(
        post,
        vec![
            ("year".to_string(), "2010".to_string(), long.clone()),
            ("day".to_string(), "14673".to_string(), long.clone()),
            ("len".to_string(), "5".to_string(), long),
            ("content".to_string(), "false".to_string(), xsd_bool),
            ("lang".to_string(), "en".to_string(), None),
        ]
    );
    // No class hierarchy, message countries, membership or like dates.
    assert_eq!(
        g.rels,
        vec![
            (1, 2, "isPartOf".to_string()),
            (0, 1, "isLocatedIn".to_string()),
            (3, 0, "hasModerator".to_string()),
            (3, 0, "hasMember".to_string()),
            (0, 4, "hasCreator".to_string()),
            (3, 4, "containerOf".to_string()),
            (0, 5, "hasCreator".to_string()),
            (5, 4, "replyOf".to_string()),
            (0, 4, "likes".to_string()),
        ]
    );
    assert!(g.rel_props.is_empty());
    assert_eq!((stats.persons, stats.posts, stats.comments, stats.rels), (1, 1, 1, 9));
    assert!(bench_cuts_hold(&t));
}
