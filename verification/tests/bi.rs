use rustychickpeas_ldbc::bi::interaction::build_interaction_map;
use rustychickpeas_ldbc::bi::lookup::{person_by_plid, place_by_lid};
use rustychickpeas_ldbc::bi::patterns::{bi1_tag_evolution, bi3_popular_topics, top_creators};
use rustychickpeas_ldbc::bi::q1::q1_posting_summary;
use rustychickpeas_ldbc::bi::q10::q10_experts;
use rustychickpeas_ldbc::bi::q12::q12_message_counts;
use rustychickpeas_ldbc::bi::q14::q14_international_dialog;
use rustychickpeas_ldbc::bi::q16::{q16_fake_news, q16_param_result};
use rustychickpeas_ldbc::bi::q18::q18_friend_recommendation;
use rustychickpeas_ldbc::bi::q2::q2_tag_evolution;
use rustychickpeas_ldbc::bi::q3::q3_popular_topics;
use rustychickpeas_ldbc::bi::q4::q4_top_creators;
use rustychickpeas_ldbc::bi::q5::q5_active_posters;
use rustychickpeas_ldbc::bi::q6::q6_authoritative;
use rustychickpeas_ldbc::bi::q7::q7_related_topics;
use rustychickpeas_ldbc::bi::q8::q8_central_person;
use rustychickpeas_ldbc::bi::q9::q9_thread_initiators;
use rustychickpeas_ldbc::rdfgraph::PropGraph;

const LONG: &str = "http://www.w3.org/2001/XMLSchema#long";
const BOOLEAN: &str = "http://www.w3.org/2001/XMLSchema#boolean";

type Prop = (u32, String, String, Option<String>);

fn int_prop(n: u32, k: &str, v: i64) -> Prop {
    (n, k.to_string(), v.to_string(), Some(LONG.to_string()))
}

fn bool_prop(n: u32, k: &str, v: bool) -> Prop {
    (n, k.to_string(), v.to_string(), Some(BOOLEAN.to_string()))
}

fn name(n: u32, v: &str) -> Prop {
    (n, "name".to_string(), v.to_string(), None)
}

fn message(props: &mut Vec<Prop>, n: u32, day: i64, year: i64, len: i64, content: bool) {
    props.push(int_prop(n, "day", day));
    props.push(int_prop(n, "year", year));
    props.push(int_prop(n, "len", len));
    props.push(bool_prop(n, "content", content));
}

/// Two tag classes with three tags, two countries with a city each, three
/// persons, one forum with a post, a reply and a reply to the reply, and a
/// post outside the forum.
fn fixture() -> PropGraph {
    let label_of = [
        "TagClass", "TagClass", "Tag", "Tag", "Tag", "Country", "Country", "City", "City", "Person", "Person", "Person",
        "Forum", "Post", "Comment", "Comment", "Post",
    ];
    let labels: Vec<Vec<String>> = label_of.iter().map(|l| vec![l.to_string()]).collect();
    let mut rels: Vec<(u32, u32, String)> = Vec::new();
    let mut add = |pairs: &[(u32, u32)], ty: &str| {
        for &(a, b) in pairs {
            rels.push((a, b, ty.to_string()));
        }
    };
    add(&[(2, 0), (3, 0), (4, 1)], "hasType");
    add(&[(7, 5), (8, 6)], "isPartOf");
    add(&[(9, 7), (10, 8), (11, 7)], "isLocatedIn");
    add(&[(12, 9), (12, 10), (12, 11)], "hasMember");
    add(&[(12, 13)], "containerOf");
    add(&[(9, 13), (10, 14), (9, 15), (11, 16)], "hasCreator");
    add(&[(14, 13), (15, 14)], "replyOf");
    add(&[(13, 2), (14, 2), (14, 3), (15, 3)], "hasTag");
    add(&[(9, 10), (10, 9), (11, 10), (10, 11)], "knows");
    add(&[(10, 13)], "likes");
    let mut props = vec![
        name(0, "Sport"),
        name(1, "Music"),
        name(2, "Football"),
        name(3, "Tennis"),
        name(4, "Jazz"),
        name(5, "Alpha"),
        int_prop(5, "lid", 100),
        name(6, "Beta"),
        int_prop(6, "lid", 200),
        name(7, "A1"),
        name(8, "B1"),
        int_prop(9, "plid", 1001),
        int_prop(10, "plid", 1002),
        int_prop(11, "plid", 1003),
        int_prop(12, "flid", 501),
        int_prop(12, "fday", 100),
    ];
    message(&mut props, 13, 150, 2012, 30, true);
    message(&mut props, 14, 160, 2012, 90, true);
    message(&mut props, 15, 260, 2013, 200, true);
    message(&mut props, 16, 50, 2011, 0, false);
    PropGraph { labels, uris: vec![None; 17], rels, props, rel_props: vec![] }
}

#[test]
fn q1_groups_by_year_kind_and_length() {
    let g = fixture();
    let (rows, total) = q1_posting_summary(&g, 1000);
    assert_eq!(total, 4);
    assert_eq!(rows, vec![(2013, true, 3, 1, 200), (2012, false, 0, 1, 30), (2012, true, 2, 1, 90)]);
}

#[test]
fn q1_cutoff_counts_messages_without_content() {
    let g = fixture();
    let (rows, total) = q1_posting_summary(&g, 155);
    // Posts 13 and 16 precede the cutoff; only 13 has content.
    assert_eq!(total, 2);
    assert_eq!(rows, vec![(2012, false, 0, 1, 30)]);
}

#[test]
fn q1_length_class_boundaries() {
    let mut g = fixture();
    // Message 13 at exactly 40 characters moves to the second class.
    for p in g.props.iter_mut() {
        if p.0 == 13 && p.1 == "len" {
            p.2 = "40".to_string();
        }
    }
    let (rows, _) = q1_posting_summary(&g, 155);
    assert_eq!(rows, vec![(2012, false, 1, 1, 40)]);
}

#[test]
fn q2_two_windows_by_difference() {
    let g = fixture();
    let rows = q2_tag_evolution(&g, 100, "Sport");
    assert_eq!(rows, vec![("Football".to_string(), 2, 0, 2), ("Tennis".to_string(), 1, 1, 0)]);
}

#[test]
fn q2_unused_tag_and_missing_class() {
    let g = fixture();
    assert_eq!(q2_tag_evolution(&g, 100, "Music"), vec![("Jazz".to_string(), 0, 0, 0)]);
    assert!(q2_tag_evolution(&g, 100, "Cooking").is_empty());
}

#[test]
fn q14_best_pair_per_city() {
    let g = fixture();
    // 9 replied to 10 (4), 10 replied to 9 (1), 10 likes a post of 9 (1).
    assert_eq!(q14_international_dialog(&g, "Alpha", "Beta"), vec![(9, 10, "A1".to_string(), 6)]);
    // From the other side the like counts 10 and the replies swap weights.
    assert_eq!(q14_international_dialog(&g, "Beta", "Alpha"), vec![(10, 9, "B1".to_string(), 15)]);
}

#[test]
fn q14_missing_country() {
    let g = fixture();
    assert!(q14_international_dialog(&g, "Alpha", "Gamma").is_empty());
}

#[test]
fn q4_members_ranked_by_thread_messages() {
    let g = fixture();
    let (rows, forums) = q4_top_creators(&g, 50);
    assert_eq!(rows, vec![(1001, 2), (1002, 1), (1003, 0)]);
    assert_eq!(forums, vec![501]);
}

#[test]
fn q4_only_forums_after_the_day() {
    let g = fixture();
    let (rows, forums) = q4_top_creators(&g, 100);
    assert!(rows.is_empty());
    assert!(forums.is_empty());
}

#[test]
fn q4_without_likes_still_answers() {
    let mut g = fixture();
    // Q4 does not follow `likes`; drop the last relationship, which is one.
    g.rels.pop();
    assert_eq!(q4_top_creators(&g, 50).0, vec![(1001, 2), (1002, 1), (1003, 0)]);
}

#[test]
fn q7_comments_without_the_tag() {
    let g = fixture();
    // Comment 14 carries Football itself; comment 15 answers it with Tennis.
    assert_eq!(q7_related_topics(&g, "Football"), vec![("Tennis".to_string(), 1)]);
    assert!(q7_related_topics(&g, "Tennis").is_empty());
    assert!(q7_related_topics(&g, "Curling").is_empty());
}

#[test]
fn q5_scores_messages_replies_likes() {
    let g = fixture();
    assert_eq!(q5_active_posters(&g, "Football"), vec![(9, 1, 1, 1, 13), (10, 1, 1, 0, 3)]);
    assert_eq!(q5_active_posters(&g, "Tennis"), vec![(10, 1, 1, 0, 3), (9, 1, 0, 0, 1)]);
    assert!(q5_active_posters(&g, "Jazz").is_empty());
}

#[test]
fn q6_popularity_of_likers() {
    let g = fixture();
    // Person 10 likes post 13 of person 9, but 10's own comment has no like.
    assert_eq!(q6_authoritative(&g, "Football"), vec![(9, 0)]);
    let mut g = fixture();
    g.rels.push((9, 14, "likes".to_string()));
    // Now each likes the other's message and each has one like received.
    assert_eq!(q6_authoritative(&g, "Football"), vec![(9, 1), (10, 1)]);
    assert!(q6_authoritative(&g, "Jazz").is_empty());
}

#[test]
fn interaction_map_counts_replies_both_ways() {
    let g = fixture();
    // Comment 14 (by 10) answers post 13 (by 9); comment 15 (by 9) answers 14.
    assert_eq!(build_interaction_map(&g), vec![((9, 10), 2)]);
}

#[test]
fn interaction_map_skips_self_replies() {
    let mut g = fixture();
    // Person 10 now also created post 13 first: 14 answers 10's own post.
    g.rels.insert(0, (10, 13, "hasCreator".to_string()));
    assert_eq!(build_interaction_map(&g), vec![((9, 10), 1)]);
}

/// The fixture with persons 9 and 11 interested in Football.
fn with_interests() -> PropGraph {
    let mut g = fixture();
    g.rels.push((9, 2, "hasInterest".to_string()));
    g.rels.push((11, 2, "hasInterest".to_string()));
    g
}

#[test]
fn q8_scores_with_friends() {
    let g = with_interests();
    // Base scores: 9 = 100 + 1, 10 = 1, 11 = 100; 10 knows both others.
    assert_eq!(q8_central_person(&g, "Football", 100, 200), vec![(10, 1, 201), (9, 101, 1), (11, 100, 1)]);
    // The window is open at both ends: day 150 and 160 fall outside (150, 160).
    // Person 10 then has no score and no row, though both others know 10.
    assert_eq!(q8_central_person(&g, "Football", 150, 160), vec![(9, 100, 0), (11, 100, 0)]);
}

#[test]
fn q18_recommends_unknown_pairs() {
    let g = with_interests();
    // 9 and 11 do not know each other; both know 10.
    assert_eq!(q18_friend_recommendation(&g, "Football"), vec![(9, 11, 1), (11, 9, 1)]);
    assert!(q18_friend_recommendation(&g, "Tennis").is_empty());
}

#[test]
fn q16_param_limits_posting_friends() {
    let g = fixture();
    assert_eq!(q16_param_result(&g, "Football", 150, 0), vec![(9, 1)]);
    assert_eq!(q16_param_result(&g, "Football", 160, 0), vec![(10, 1)]);
    let mut g = fixture();
    // Comment 14 now also on day 150: 9 and 10 know each other and both posted.
    for p in g.props.iter_mut() {
        if p.0 == 14 && p.1 == "day" {
            p.2 = "150".to_string();
        }
    }
    assert!(q16_param_result(&g, "Football", 150, 0).is_empty());
    assert_eq!(q16_param_result(&g, "Football", 150, 1), vec![(9, 1), (10, 1)]);
}

#[test]
fn q16_joins_both_parameters() {
    let g = fixture();
    let ra = q16_param_result(&g, "Football", 160, 0);
    let rb = q16_param_result(&g, "Tennis", 160, 0);
    assert_eq!(q16_fake_news(&g, &ra, &rb), vec![(10, 1, 1)]);
    let other = q16_param_result(&g, "Football", 150, 0);
    assert!(q16_fake_news(&g, &other, &rb).is_empty());
}

#[test]
fn q9_threads_and_their_messages() {
    let g = fixture();
    assert_eq!(q9_thread_initiators(&g, 100, 300), vec![(9, 1, 3)]);
    // Comment 15 (day 260) falls after the window.
    assert_eq!(q9_thread_initiators(&g, 100, 200), vec![(9, 1, 2)]);
    // Post 13 (day 150) starts before the window: no thread.
    assert!(q9_thread_initiators(&g, 155, 300).is_empty());
}

#[test]
fn q9_prunes_below_late_messages() {
    let g = fixture();
    // Comment 14 (day 160) is past the end, so 15 below it is not reached;
    // post 16 (day 50) starts a thread of its own.
    assert_eq!(q9_thread_initiators(&g, 0, 155), vec![(9, 1, 1), (11, 1, 1)]);
}

#[test]
fn patterns_count_distinct_items() {
    let g = fixture();
    assert_eq!(bi3_popular_topics(&g), 2);
    assert_eq!(bi1_tag_evolution(&g), 1);
    // Into posts: creators 9 and 11 and the liker 10; into comments: 9 and 10.
    assert_eq!(top_creators(&g, "Post"), 3);
    assert_eq!(top_creators(&g, "Comment"), 2);
    assert_eq!(top_creators(&g, "Forum"), 0);
}

#[test]
fn q3_forums_of_country_moderators() {
    let mut g = fixture();
    g.rels.push((12, 9, "hasModerator".to_string()));
    g.props.push((12, "title".to_string(), "Chat".to_string(), None));
    // Person 9 of Alpha moderates forum 12, whose thread holds 13, 14, 15,
    // all tagged with a Sport tag.
    assert_eq!(q3_popular_topics(&g, "Alpha", "Sport"), vec![(501, "Chat".to_string(), 100, 1001, 3)]);
    assert!(q3_popular_topics(&g, "Beta", "Sport").is_empty());
    assert!(q3_popular_topics(&g, "Alpha", "Music").is_empty());
    assert!(q3_popular_topics(&g, "Gamma", "Sport").is_empty());
}

#[test]
fn q10_experts_by_distance_and_country() {
    let g = fixture();
    // From person 9: 10 at one hop (Beta), 11 at two (Alpha, no tagged post).
    assert!(q10_experts(&g, 1001, "Alpha", "Sport", 1, 2).is_empty());
    assert_eq!(
        q10_experts(&g, 1001, "Alpha", "Sport", 0, 2),
        vec![(9, "Football".to_string(), 1), (9, "Tennis".to_string(), 1)]
    );
    assert_eq!(q10_experts(&g, 1001, "Beta", "Sport", 1, 1), vec![(10, "Football".to_string(), 1), (10, "Tennis".to_string(), 1)]);
    assert!(q10_experts(&g, 999, "Alpha", "Sport", 0, 2).is_empty());
    assert!(q10_experts(&g, 1001, "Gamma", "Sport", 0, 2).is_empty());
}

#[test]
fn lookups_by_ldbc_id() {
    let g = fixture();
    assert_eq!(person_by_plid(&g, 1002), Some(10));
    assert_eq!(person_by_plid(&g, 77), None);
    assert_eq!(place_by_lid(&g, 200), Some(6));
}

#[test]
fn q12_histogram_of_message_counts() {
    let mut g = fixture();
    g.props.push((13, "lang".to_string(), "en".to_string(), None));
    g.props.push((16, "lang".to_string(), "de".to_string(), None));
    // Messages 13, 14, 15 all hang below post 13 (English): 9 made two, 10 one.
    assert_eq!(q12_message_counts(&g, 0, 1000, &["en"]), vec![(2, 1), (1, 1), (0, 1)]);
    // Comment 15 is too long under a threshold of 100.
    assert_eq!(q12_message_counts(&g, 0, 100, &["en"]), vec![(1, 2), (0, 1)]);
    assert_eq!(q12_message_counts(&g, 0, 1000, &["de"]), vec![(0, 3)]);
}
