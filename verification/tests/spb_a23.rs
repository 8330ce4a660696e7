use rustychickpeas_ldbc::rdfgraph::{load_str, PropGraph};
#[allow(unused_imports)]
use rustychickpeas_ldbc::spb::access::{has_label, name_of, text_prop_of, uri_of};
use rustychickpeas_ldbc::spb::a23;

/// The creative works whose `title` holds `word` as a whole word, ignoring
/// case: the answer the store's full-text index gives for these fixtures.
fn title_hits(g: &PropGraph, word: &str) -> Vec<u32> {
    let word = word.to_lowercase();
    (0..g.labels.len() as u32)
        .filter(|&n| has_label(g, n, "CreativeWork"))
        .filter(|&n| {
            text_prop_of(g, n, "title")
                .is_some_and(|t| t.to_lowercase().split(|c: char| !c.is_alphanumeric()).any(|tok| tok == word))
        })
        .collect()
}

const SPORT: &str = "http://www.bbc.co.uk/category/sport";
const POLITICS: &str = "http://www.bbc.co.uk/category/politics";
const TEAM_X: &str = "http://dbpedia.org/resource/TeamX";
const TEAM_Y: &str = "http://dbpedia.org/resource/TeamY";
const TEAM_A: &str = "http://dbpedia.org/resource/TeamA";
const TEAM_Z: &str = "http://dbpedia.org/resource/TeamZ";

// Eight creative works. Most match "football" in the title and are
// category-linked to "sport"; the topic each is `about` and its dateCreated
// vary so per-topic distinct-day counts, DISTINCT dedup, the count-desc /
// uri-asc ordering, and the BGP/category/FTS exclusions can each be checked.
//   cw1: about TeamX, sport, 2024-01-01
//   cw2: about TeamX, sport, 2024-01-02
//   cw3: about TeamX, sport, 2024-01-02  (same day as cw2 -> DISTINCT keeps TeamX at 2)
//   cw4: about TeamY, sport, 2024-03-05
//   cw5: about TeamZ, POLITICS, 2024-04-04  (excluded when category=sport)
//   cw6: about TeamY, sport, TENNIS title   (excluded by the football FTS)
//   cw7: about TeamW, sport, 2024-06-06, NO primaryFormat (excluded by the BGP)
//   cw8: about TeamA, sport, 2024-05-05     (ties TeamY's count of 1 -> uri-asc tie-break)
const FIXTURE: &str = r#"
<http://ex/cw1> <http://www.w3.org/1999/02/22-rdf-syntax-ns#type> <http://www.bbc.co.uk/ontologies/creativework/CreativeWork> .
<http://ex/cw1> <http://www.bbc.co.uk/ontologies/creativework/title> "London football derby" .
<http://ex/cw1> <http://www.bbc.co.uk/ontologies/creativework/description> "a match report" .
<http://ex/cw1> <http://www.bbc.co.uk/ontologies/creativework/category> <http://www.bbc.co.uk/category/sport> .
<http://ex/cw1> <http://www.bbc.co.uk/ontologies/creativework/about> <http://dbpedia.org/resource/TeamX> .
<http://ex/cw1> <http://www.bbc.co.uk/ontologies/creativework/audience> <http://www.bbc.co.uk/audience/national> .
<http://ex/cw1> <http://www.bbc.co.uk/ontologies/creativework/liveCoverage> "true"^^<http://www.w3.org/2001/XMLSchema#boolean> .
<http://ex/cw1> <http://www.bbc.co.uk/ontologies/creativework/primaryFormat> <http://www.bbc.co.uk/format/textual> .
<http://ex/cw1> <http://www.bbc.co.uk/ontologies/creativework/dateCreated> "2024-01-01T12:00:00.000+00:00"^^<http://www.w3.org/2001/XMLSchema#dateTime> .

<http://ex/cw2> <http://www.w3.org/1999/02/22-rdf-syntax-ns#type> <http://www.bbc.co.uk/ontologies/creativework/CreativeWork> .
<http://ex/cw2> <http://www.bbc.co.uk/ontologies/creativework/title> "Paris football club" .
<http://ex/cw2> <http://www.bbc.co.uk/ontologies/creativework/description> "a transfer story" .
<http://ex/cw2> <http://www.bbc.co.uk/ontologies/creativework/category> <http://www.bbc.co.uk/category/sport> .
<http://ex/cw2> <http://www.bbc.co.uk/ontologies/creativework/about> <http://dbpedia.org/resource/TeamX> .
<http://ex/cw2> <http://www.bbc.co.uk/ontologies/creativework/audience> <http://www.bbc.co.uk/audience/national> .
<http://ex/cw2> <http://www.bbc.co.uk/ontologies/creativework/liveCoverage> "false"^^<http://www.w3.org/2001/XMLSchema#boolean> .
<http://ex/cw2> <http://www.bbc.co.uk/ontologies/creativework/primaryFormat> <http://www.bbc.co.uk/format/video> .
<http://ex/cw2> <http://www.bbc.co.uk/ontologies/creativework/dateCreated> "2024-01-02T08:00:00.000+00:00"^^<http://www.w3.org/2001/XMLSchema#dateTime> .

<http://ex/cw3> <http://www.w3.org/1999/02/22-rdf-syntax-ns#type> <http://www.bbc.co.uk/ontologies/creativework/CreativeWork> .
<http://ex/cw3> <http://www.bbc.co.uk/ontologies/creativework/title> "Berlin football match" .
<http://ex/cw3> <http://www.bbc.co.uk/ontologies/creativework/description> "a fixture note" .
<http://ex/cw3> <http://www.bbc.co.uk/ontologies/creativework/category> <http://www.bbc.co.uk/category/sport> .
<http://ex/cw3> <http://www.bbc.co.uk/ontologies/creativework/about> <http://dbpedia.org/resource/TeamX> .
<http://ex/cw3> <http://www.bbc.co.uk/ontologies/creativework/audience> <http://www.bbc.co.uk/audience/national> .
<http://ex/cw3> <http://www.bbc.co.uk/ontologies/creativework/liveCoverage> "true"^^<http://www.w3.org/2001/XMLSchema#boolean> .
<http://ex/cw3> <http://www.bbc.co.uk/ontologies/creativework/primaryFormat> <http://www.bbc.co.uk/format/textual> .
<http://ex/cw3> <http://www.bbc.co.uk/ontologies/creativework/dateCreated> "2024-01-02T19:30:00.000+00:00"^^<http://www.w3.org/2001/XMLSchema#dateTime> .

<http://ex/cw4> <http://www.w3.org/1999/02/22-rdf-syntax-ns#type> <http://www.bbc.co.uk/ontologies/creativework/CreativeWork> .
<http://ex/cw4> <http://www.bbc.co.uk/ontologies/creativework/title> "Rome football news" .
<http://ex/cw4> <http://www.bbc.co.uk/ontologies/creativework/description> "a news brief" .
<http://ex/cw4> <http://www.bbc.co.uk/ontologies/creativework/category> <http://www.bbc.co.uk/category/sport> .
<http://ex/cw4> <http://www.bbc.co.uk/ontologies/creativework/about> <http://dbpedia.org/resource/TeamY> .
<http://ex/cw4> <http://www.bbc.co.uk/ontologies/creativework/audience> <http://www.bbc.co.uk/audience/national> .
<http://ex/cw4> <http://www.bbc.co.uk/ontologies/creativework/liveCoverage> "false"^^<http://www.w3.org/2001/XMLSchema#boolean> .
<http://ex/cw4> <http://www.bbc.co.uk/ontologies/creativework/primaryFormat> <http://www.bbc.co.uk/format/textual> .
<http://ex/cw4> <http://www.bbc.co.uk/ontologies/creativework/dateCreated> "2024-03-05T10:00:00.000+00:00"^^<http://www.w3.org/2001/XMLSchema#dateTime> .

<http://ex/cw5> <http://www.w3.org/1999/02/22-rdf-syntax-ns#type> <http://www.bbc.co.uk/ontologies/creativework/CreativeWork> .
<http://ex/cw5> <http://www.bbc.co.uk/ontologies/creativework/title> "Madrid football report" .
<http://ex/cw5> <http://www.bbc.co.uk/ontologies/creativework/description> "a derby preview" .
<http://ex/cw5> <http://www.bbc.co.uk/ontologies/creativework/category> <http://www.bbc.co.uk/category/politics> .
<http://ex/cw5> <http://www.bbc.co.uk/ontologies/creativework/about> <http://dbpedia.org/resource/TeamZ> .
<http://ex/cw5> <http://www.bbc.co.uk/ontologies/creativework/audience> <http://www.bbc.co.uk/audience/national> .
<http://ex/cw5> <http://www.bbc.co.uk/ontologies/creativework/liveCoverage> "false"^^<http://www.w3.org/2001/XMLSchema#boolean> .
<http://ex/cw5> <http://www.bbc.co.uk/ontologies/creativework/primaryFormat> <http://www.bbc.co.uk/format/textual> .
<http://ex/cw5> <http://www.bbc.co.uk/ontologies/creativework/dateCreated> "2024-04-04T11:00:00.000+00:00"^^<http://www.w3.org/2001/XMLSchema#dateTime> .

<http://ex/cw6> <http://www.w3.org/1999/02/22-rdf-syntax-ns#type> <http://www.bbc.co.uk/ontologies/creativework/CreativeWork> .
<http://ex/cw6> <http://www.bbc.co.uk/ontologies/creativework/title> "Wimbledon tennis final" .
<http://ex/cw6> <http://www.bbc.co.uk/ontologies/creativework/description> "a championship preview" .
<http://ex/cw6> <http://www.bbc.co.uk/ontologies/creativework/category> <http://www.bbc.co.uk/category/sport> .
<http://ex/cw6> <http://www.bbc.co.uk/ontologies/creativework/about> <http://dbpedia.org/resource/TeamY> .
<http://ex/cw6> <http://www.bbc.co.uk/ontologies/creativework/audience> <http://www.bbc.co.uk/audience/national> .
<http://ex/cw6> <http://www.bbc.co.uk/ontologies/creativework/liveCoverage> "true"^^<http://www.w3.org/2001/XMLSchema#boolean> .
<http://ex/cw6> <http://www.bbc.co.uk/ontologies/creativework/primaryFormat> <http://www.bbc.co.uk/format/textual> .
<http://ex/cw6> <http://www.bbc.co.uk/ontologies/creativework/dateCreated> "2024-02-02T08:00:00.000+00:00"^^<http://www.w3.org/2001/XMLSchema#dateTime> .

<http://ex/cw7> <http://www.w3.org/1999/02/22-rdf-syntax-ns#type> <http://www.bbc.co.uk/ontologies/creativework/CreativeWork> .
<http://ex/cw7> <http://www.bbc.co.uk/ontologies/creativework/title> "Lyon football digest" .
<http://ex/cw7> <http://www.bbc.co.uk/ontologies/creativework/description> "a weekly digest" .
<http://ex/cw7> <http://www.bbc.co.uk/ontologies/creativework/category> <http://www.bbc.co.uk/category/sport> .
<http://ex/cw7> <http://www.bbc.co.uk/ontologies/creativework/about> <http://dbpedia.org/resource/TeamW> .
<http://ex/cw7> <http://www.bbc.co.uk/ontologies/creativework/audience> <http://www.bbc.co.uk/audience/national> .
<http://ex/cw7> <http://www.bbc.co.uk/ontologies/creativework/liveCoverage> "false"^^<http://www.w3.org/2001/XMLSchema#boolean> .
<http://ex/cw7> <http://www.bbc.co.uk/ontologies/creativework/dateCreated> "2024-06-06T07:00:00.000+00:00"^^<http://www.w3.org/2001/XMLSchema#dateTime> .

<http://ex/cw8> <http://www.w3.org/1999/02/22-rdf-syntax-ns#type> <http://www.bbc.co.uk/ontologies/creativework/CreativeWork> .
<http://ex/cw8> <http://www.bbc.co.uk/ontologies/creativework/title> "Turin football extra" .
<http://ex/cw8> <http://www.bbc.co.uk/ontologies/creativework/description> "extra coverage" .
<http://ex/cw8> <http://www.bbc.co.uk/ontologies/creativework/category> <http://www.bbc.co.uk/category/sport> .
<http://ex/cw8> <http://www.bbc.co.uk/ontologies/creativework/about> <http://dbpedia.org/resource/TeamA> .
<http://ex/cw8> <http://www.bbc.co.uk/ontologies/creativework/audience> <http://www.bbc.co.uk/audience/national> .
<http://ex/cw8> <http://www.bbc.co.uk/ontologies/creativework/liveCoverage> "true"^^<http://www.w3.org/2001/XMLSchema#boolean> .
<http://ex/cw8> <http://www.bbc.co.uk/ontologies/creativework/primaryFormat> <http://www.bbc.co.uk/format/textual> .
<http://ex/cw8> <http://www.bbc.co.uk/ontologies/creativework/dateCreated> "2024-05-05T09:00:00.000+00:00"^^<http://www.w3.org/2001/XMLSchema#dateTime> .
"#;

fn g() -> PropGraph {
    load_str(FIXTURE).0
}

#[test]
fn per_topic_distinct_day_counts_ordered() {
    let g = g();
    // football + category=sport: TeamX has two distinct days (cw1 01-01, and
    // cw2/cw3 sharing 01-02 -> DISTINCT keeps it at 2); TeamY and TeamA have
    // one day each. cw5 (politics), cw6 (tennis) and cw7 (no primaryFormat)
    // are excluded. Order: count desc, then uri asc (TeamA before TeamY).
    let rows = a23::run(&g, &title_hits(&g, "football"), SPORT, 500);
    assert_eq!(
        rows,
        vec![(TEAM_X.to_string(), 2), (TEAM_A.to_string(), 1), (TEAM_Y.to_string(), 1)]
    );
}

#[test]
fn a23_limit_truncates_after_ordering() {
    let g = g();
    // The highest-count topic survives a LIMIT 1.
    assert_eq!(a23::run(&g, &title_hits(&g, "football"), SPORT, 1), vec![(TEAM_X.to_string(), 2)]);
}

#[test]
fn category_pin_selects_its_own_works() {
    let g = g();
    // Pinning category=politics leaves only cw5 -> TeamZ with its single day.
    assert_eq!(a23::run(&g, &title_hits(&g, "football"), POLITICS, 500), vec![(TEAM_Z.to_string(), 1)]);
}

#[test]
fn fts_miss_yields_empty() {
    let g = g();
    assert!(a23::run(&g, &title_hits(&g, "cricket"), SPORT, 500).is_empty());
}
