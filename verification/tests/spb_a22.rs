use rustychickpeas_ldbc::rdfgraph::{load_str, PropGraph};
#[allow(unused_imports)]
use rustychickpeas_ldbc::spb::access::{has_label, name_of, text_prop_of, uri_of};
use rustychickpeas_ldbc::spb::a22;

/// The creative works whose `title` holds `word` as a whole word, ignoring
/// case: the answer the store's full-text index gives for these fixtures.
fn title_hits(g: &PropGraph, word: &str) -> Vec<u32> {
    full_text(g, &["title"], word)
}

fn full_text(g: &PropGraph, props: &[&str], word: &str) -> Vec<u32> {
    let word = word.to_lowercase();
    (0..g.labels.len() as u32)
        .filter(|&n| has_label(g, n, "CreativeWork"))
        .filter(|&n| {
            props.iter().any(|p| {
                text_prop_of(g, n, p).is_some_and(|t| {
                    t.to_lowercase().split(|c: char| !c.is_alphanumeric()).any(|tok| tok == word)
                })
            })
        })
        .collect()
}

// Creative works whose titles all contain "football" except cw3 (tennis).
// cw4 deliberately lacks a `primaryFormat` edge, so the BGP must exclude it.
const FIXTURE: &str = r#"
<http://ex/cw1> <http://www.w3.org/1999/02/22-rdf-syntax-ns#type> <http://www.bbc.co.uk/ontologies/creativework/CreativeWork> .
<http://ex/cw1> <http://www.bbc.co.uk/ontologies/creativework/title> "London football derby" .
<http://ex/cw1> <http://www.bbc.co.uk/ontologies/creativework/description> "a match report" .
<http://ex/cw1> <http://www.bbc.co.uk/ontologies/creativework/category> <http://www.bbc.co.uk/category/sport> .
<http://ex/cw1> <http://www.bbc.co.uk/ontologies/creativework/about> <http://www.bbc.co.uk/things/teamX> .
<http://ex/cw1> <http://www.bbc.co.uk/ontologies/creativework/audience> <http://www.bbc.co.uk/audience/national> .
<http://ex/cw1> <http://www.bbc.co.uk/ontologies/creativework/liveCoverage> "true"^^<http://www.w3.org/2001/XMLSchema#boolean> .
<http://ex/cw1> <http://www.bbc.co.uk/ontologies/creativework/primaryFormat> <http://www.bbc.co.uk/format/textual> .
<http://ex/cw1> <http://www.bbc.co.uk/ontologies/creativework/dateCreated> "2012-03-10T09:00:00.000+00:00"^^<http://www.w3.org/2001/XMLSchema#dateTime> .

<http://ex/cw2> <http://www.w3.org/1999/02/22-rdf-syntax-ns#type> <http://www.bbc.co.uk/ontologies/creativework/CreativeWork> .
<http://ex/cw2> <http://www.bbc.co.uk/ontologies/creativework/title> "Paris football club" .
<http://ex/cw2> <http://www.bbc.co.uk/ontologies/creativework/description> "a transfer story" .
<http://ex/cw2> <http://www.bbc.co.uk/ontologies/creativework/category> <http://www.bbc.co.uk/category/sport> .
<http://ex/cw2> <http://www.bbc.co.uk/ontologies/creativework/about> <http://www.bbc.co.uk/things/teamY> .
<http://ex/cw2> <http://www.bbc.co.uk/ontologies/creativework/audience> <http://www.bbc.co.uk/audience/international> .
<http://ex/cw2> <http://www.bbc.co.uk/ontologies/creativework/liveCoverage> "false"^^<http://www.w3.org/2001/XMLSchema#boolean> .
<http://ex/cw2> <http://www.bbc.co.uk/ontologies/creativework/primaryFormat> <http://www.bbc.co.uk/format/video> .
<http://ex/cw2> <http://www.bbc.co.uk/ontologies/creativework/dateCreated> "2013-07-20T14:30:00.000+00:00"^^<http://www.w3.org/2001/XMLSchema#dateTime> .

<http://ex/cw3> <http://www.w3.org/1999/02/22-rdf-syntax-ns#type> <http://www.bbc.co.uk/ontologies/creativework/CreativeWork> .
<http://ex/cw3> <http://www.bbc.co.uk/ontologies/creativework/title> "Wimbledon tennis final" .
<http://ex/cw3> <http://www.bbc.co.uk/ontologies/creativework/description> "a championship preview" .
<http://ex/cw3> <http://www.bbc.co.uk/ontologies/creativework/category> <http://www.bbc.co.uk/category/sport> .
<http://ex/cw3> <http://www.bbc.co.uk/ontologies/creativework/about> <http://www.bbc.co.uk/things/teamX> .
<http://ex/cw3> <http://www.bbc.co.uk/ontologies/creativework/audience> <http://www.bbc.co.uk/audience/national> .
<http://ex/cw3> <http://www.bbc.co.uk/ontologies/creativework/liveCoverage> "true"^^<http://www.w3.org/2001/XMLSchema#boolean> .
<http://ex/cw3> <http://www.bbc.co.uk/ontologies/creativework/primaryFormat> <http://www.bbc.co.uk/format/textual> .
<http://ex/cw3> <http://www.bbc.co.uk/ontologies/creativework/dateCreated> "2012-06-15T08:00:00.000+00:00"^^<http://www.w3.org/2001/XMLSchema#dateTime> .

<http://ex/cw4> <http://www.w3.org/1999/02/22-rdf-syntax-ns#type> <http://www.bbc.co.uk/ontologies/creativework/CreativeWork> .
<http://ex/cw4> <http://www.bbc.co.uk/ontologies/creativework/title> "London football news" .
<http://ex/cw4> <http://www.bbc.co.uk/ontologies/creativework/description> "a news brief" .
<http://ex/cw4> <http://www.bbc.co.uk/ontologies/creativework/category> <http://www.bbc.co.uk/category/sport> .
<http://ex/cw4> <http://www.bbc.co.uk/ontologies/creativework/about> <http://www.bbc.co.uk/things/teamX> .
<http://ex/cw4> <http://www.bbc.co.uk/ontologies/creativework/audience> <http://www.bbc.co.uk/audience/national> .
<http://ex/cw4> <http://www.bbc.co.uk/ontologies/creativework/liveCoverage> "false"^^<http://www.w3.org/2001/XMLSchema#boolean> .
<http://ex/cw4> <http://www.bbc.co.uk/ontologies/creativework/dateCreated> "2012-09-01T12:00:00.000+00:00"^^<http://www.w3.org/2001/XMLSchema#dateTime> .

<http://ex/cw5> <http://www.w3.org/1999/02/22-rdf-syntax-ns#type> <http://www.bbc.co.uk/ontologies/creativework/CreativeWork> .
<http://ex/cw5> <http://www.bbc.co.uk/ontologies/creativework/title> "Berlin football match" .
<http://ex/cw5> <http://www.bbc.co.uk/ontologies/creativework/description> "a fixture note" .
<http://ex/cw5> <http://www.bbc.co.uk/ontologies/creativework/category> <http://www.bbc.co.uk/category/politics> .
<http://ex/cw5> <http://www.bbc.co.uk/ontologies/creativework/about> <http://www.bbc.co.uk/things/teamZ> .
<http://ex/cw5> <http://www.bbc.co.uk/ontologies/creativework/audience> <http://www.bbc.co.uk/audience/national> .
<http://ex/cw5> <http://www.bbc.co.uk/ontologies/creativework/liveCoverage> "false"^^<http://www.w3.org/2001/XMLSchema#boolean> .
<http://ex/cw5> <http://www.bbc.co.uk/ontologies/creativework/primaryFormat> <http://www.bbc.co.uk/format/textual> .
<http://ex/cw5> <http://www.bbc.co.uk/ontologies/creativework/dateCreated> "2011-01-01T07:00:00.000+00:00"^^<http://www.w3.org/2001/XMLSchema#dateTime> .
"#;

const SPORT: &str = "http://www.bbc.co.uk/category/sport";
const NATIONAL: &str = "http://www.bbc.co.uk/audience/national";
const TEAM_X: &str = "http://www.bbc.co.uk/things/teamX";

fn titles(g: &PropGraph, works: &[u32]) -> Vec<String> {
    let mut t: Vec<String> = works.iter().map(|&w| text_prop_of(g, w, "title").unwrap_or("?").to_string()).collect();
    t.sort();
    t
}

#[test]
fn fts_only_excludes_incomplete_bgp() {
    let g = load_str(FIXTURE).0;
    // "football" hits cw1/cw2/cw4/cw5; cw4 lacks primaryFormat -> dropped.
    let hits = a22::run(&g, &title_hits(&g, "football"), None, None, None, None, None, None, 500);
    assert_eq!(titles(&g, &hits), ["Berlin football match", "London football derby", "Paris football club"]);
}

#[test]
fn a22_category_facet() {
    let g = load_str(FIXTURE).0;
    // football + category=sport: cw5 is politics -> only cw1, cw2.
    let hits = a22::run(&g, &title_hits(&g, "football"), Some(SPORT), None, None, None, None, None, 500);
    assert_eq!(titles(&g, &hits), ["London football derby", "Paris football club"]);
}

#[test]
fn audience_and_tag_facets() {
    let g = load_str(FIXTURE).0;
    // football + audience=national: cw1, cw5 (cw2 is international).
    let aud = a22::run(&g, &title_hits(&g, "football"), None, Some(NATIONAL), None, None, None, None, 500);
    assert_eq!(titles(&g, &aud), ["Berlin football match", "London football derby"]);
    // football + tag=teamX: cw1 only (cw2 teamY, cw5 teamZ; cw3 teamX but not football).
    let tag = a22::run(&g, &title_hits(&g, "football"), None, None, Some(TEAM_X), None, None, None, 500);
    assert_eq!(titles(&g, &tag), ["London football derby"]);
}

#[test]
fn date_range_and_live_coverage_facets() {
    let g = load_str(FIXTURE).0;
    // football + dateCreated in 2012: cw1 (cw2 2013, cw5 2011).
    let dated = a22::run(&g, &title_hits(&g, "football"), None, None, None, Some("2012-01-01"), Some("2012-12-31"), None, 500);
    assert_eq!(titles(&g, &dated), ["London football derby"]);
    // football + liveCoverage=true: cw1 only (cw2, cw5 are false).
    let live = a22::run(&g, &title_hits(&g, "football"), None, None, None, None, None, Some(true), 500);
    assert_eq!(titles(&g, &live), ["London football derby"]);
}

#[test]
fn limit_truncates() {
    let g = load_str(FIXTURE).0;
    assert_eq!(a22::run(&g, &title_hits(&g, "football"), None, None, None, None, None, None, 500).len(), 3);
    // LIMIT 1 over the id-ordered set keeps cw1 (interned first).
    let one = a22::run(&g, &title_hits(&g, "football"), None, None, None, None, None, None, 1);
    assert_eq!(titles(&g, &one), ["London football derby"]);
}

#[test]
fn miss_returns_empty() {
    let g = load_str(FIXTURE).0;
    assert!(a22::run(&g, &title_hits(&g, "cricket"), None, None, None, None, None, None, 500).is_empty());
}
