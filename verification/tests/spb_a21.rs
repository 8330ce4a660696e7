use rustychickpeas_ldbc::rdfgraph::{load_str, PropGraph};
#[allow(unused_imports)]
use rustychickpeas_ldbc::spb::access::{has_label, name_of, text_prop_of, uri_of};
use rustychickpeas_ldbc::spb::a21;

/// The creative works whose `title` holds `word` as a whole word, ignoring
/// case: the answer the store's full-text index gives for these fixtures.
fn title_hits(g: &PropGraph, word: &str) -> Vec<u32> {
    full_text(g, &["title"], word)
}

fn full_text(g: &PropGraph, props: &[&str], word: &str) -> Vec<u32> {
    let word = word.to_lowercase();
    (0..g.labels.len() as u32)
        .filter(|&n| has_label(g, n, "CreativeWork"))
        .filter(|&n| {
            props.iter().any(|p| {
                text_prop_of(g, n, p).is_some_and(|t| {
                    t.to_lowercase().split(|c: char| !c.is_alphanumeric()).any(|tok| tok == word)
                })
            })
        })
        .collect()
}

const SPORT: &str = "http://www.bbc.co.uk/category/Sport";
const NATIONAL: &str = "http://www.bbc.co.uk/audience/National";
const LONDON: &str = "http://sws.geonames.org/london";

// Four works; two have "football" in the title (cw-derby, cw-psg). They vary
// in audience, mentioned tag, liveCoverage and dateCreated so each facet can
// be exercised independently.
const FIXTURE: &str = r#"
<http://ex/cw-derby> <http://www.w3.org/1999/02/22-rdf-syntax-ns#type> <http://www.bbc.co.uk/ontologies/creativework/CreativeWork> .
<http://ex/cw-derby> <http://www.bbc.co.uk/ontologies/creativework/title> "London football derby" .
<http://ex/cw-derby> <http://www.bbc.co.uk/ontologies/creativework/category> <http://www.bbc.co.uk/category/Sport> .
<http://ex/cw-derby> <http://www.bbc.co.uk/ontologies/creativework/audience> <http://www.bbc.co.uk/audience/National> .
<http://ex/cw-derby> <http://www.bbc.co.uk/ontologies/creativework/mentions> <http://sws.geonames.org/london> .
<http://ex/cw-derby> <http://www.bbc.co.uk/ontologies/creativework/liveCoverage> "true"^^<http://www.w3.org/2001/XMLSchema#boolean> .
<http://ex/cw-derby> <http://www.bbc.co.uk/ontologies/creativework/dateCreated> "2024-03-05T09:30:00.000Z"^^<http://www.w3.org/2001/XMLSchema#dateTime> .

<http://ex/cw-psg> <http://www.w3.org/1999/02/22-rdf-syntax-ns#type> <http://www.bbc.co.uk/ontologies/creativework/CreativeWork> .
<http://ex/cw-psg> <http://www.bbc.co.uk/ontologies/creativework/title> "Paris football match" .
<http://ex/cw-psg> <http://www.bbc.co.uk/ontologies/creativework/category> <http://www.bbc.co.uk/category/Sport> .
<http://ex/cw-psg> <http://www.bbc.co.uk/ontologies/creativework/audience> <http://www.bbc.co.uk/audience/International> .
<http://ex/cw-psg> <http://www.bbc.co.uk/ontologies/creativework/mentions> <http://sws.geonames.org/paris> .
<http://ex/cw-psg> <http://www.bbc.co.uk/ontologies/creativework/liveCoverage> "false"^^<http://www.w3.org/2001/XMLSchema#boolean> .
<http://ex/cw-psg> <http://www.bbc.co.uk/ontologies/creativework/dateCreated> "2024-01-10T08:00:00.000Z"^^<http://www.w3.org/2001/XMLSchema#dateTime> .

<http://ex/cw-tennis> <http://www.w3.org/1999/02/22-rdf-syntax-ns#type> <http://www.bbc.co.uk/ontologies/creativework/CreativeWork> .
<http://ex/cw-tennis> <http://www.bbc.co.uk/ontologies/creativework/title> "London tennis open" .
<http://ex/cw-tennis> <http://www.bbc.co.uk/ontologies/creativework/category> <http://www.bbc.co.uk/category/Sport> .
<http://ex/cw-tennis> <http://www.bbc.co.uk/ontologies/creativework/audience> <http://www.bbc.co.uk/audience/National> .
<http://ex/cw-tennis> <http://www.bbc.co.uk/ontologies/creativework/mentions> <http://sws.geonames.org/london> .
<http://ex/cw-tennis> <http://www.bbc.co.uk/ontologies/creativework/liveCoverage> "true"^^<http://www.w3.org/2001/XMLSchema#boolean> .
<http://ex/cw-tennis> <http://www.bbc.co.uk/ontologies/creativework/dateCreated> "2024-06-20T18:00:00.000Z"^^<http://www.w3.org/2001/XMLSchema#dateTime> .

<http://ex/cw-cook> <http://www.w3.org/1999/02/22-rdf-syntax-ns#type> <http://www.bbc.co.uk/ontologies/creativework/CreativeWork> .
<http://ex/cw-cook> <http://www.bbc.co.uk/ontologies/creativework/title> "Cooking show" .
<http://ex/cw-cook> <http://www.bbc.co.uk/ontologies/creativework/category> <http://www.bbc.co.uk/category/Lifestyle> .
<http://ex/cw-cook> <http://www.bbc.co.uk/ontologies/creativework/audience> <http://www.bbc.co.uk/audience/National> .
<http://ex/cw-cook> <http://www.bbc.co.uk/ontologies/creativework/about> <http://dbpedia.org/resource/Cooking> .
<http://ex/cw-cook> <http://www.bbc.co.uk/ontologies/creativework/liveCoverage> "false"^^<http://www.w3.org/2001/XMLSchema#boolean> .
<http://ex/cw-cook> <http://www.bbc.co.uk/ontologies/creativework/dateCreated> "2024-02-02T10:00:00.000Z"^^<http://www.w3.org/2001/XMLSchema#dateTime> .
"#;

fn titles(g: &PropGraph, works: &[u32]) -> Vec<String> {
    let mut t: Vec<String> = works.iter().map(|&w| name_of(g, w).to_string()).collect();
    t.sort();
    t
}

fn g() -> PropGraph {
    load_str(FIXTURE).0
}

#[test]
fn fts_only_matches_titles() {
    let g = g();
    // 'football' in title -> the two football works, not tennis/cooking.
    let out = a21::run(&g, &title_hits(&g, "football"), None, None, None, None, None, None, 100);
    assert_eq!(titles(&g, &out), ["London football derby", "Paris football match"]);
}

#[test]
fn audience_facet_narrows() {
    let g = g();
    // football + audience=National -> only the derby (PSG is International).
    let out = a21::run(&g, &title_hits(&g, "football"), Some(SPORT), Some(NATIONAL), None, None, None, None, 100);
    assert_eq!(titles(&g, &out), ["London football derby"]);
}

#[test]
fn live_coverage_and_tag_facets() {
    let g = g();
    // football + liveCoverage=true -> derby (PSG is false).
    let live = a21::run(&g, &title_hits(&g, "football"), None, None, None, Some(true), None, None, 100);
    assert_eq!(titles(&g, &live), ["London football derby"]);
    // football + tag mentions London -> derby (PSG mentions Paris).
    let tagged = a21::run(&g, &title_hits(&g, "football"), None, None, Some(LONDON), None, None, None, 100);
    assert_eq!(titles(&g, &tagged), ["London football derby"]);
}

#[test]
fn date_range_facet() {
    let g = g();
    // football created on/after 2024-02-01 -> derby (Mar); PSG (Jan) excluded.
    let out = a21::run(&g, &title_hits(&g, "football"), None, None, None, None, Some("2024-02-01"), None, 100);
    assert_eq!(titles(&g, &out), ["London football derby"]);
}

#[test]
fn a21_limit_truncates_after_id_sort() {
    let g = g();
    let out = a21::run(&g, &title_hits(&g, "football"), None, None, None, None, None, None, 1);
    assert_eq!(out.len(), 1);
    // Lowest id wins the truncation; cw-derby is declared before cw-psg.
    assert_eq!(titles(&g, &out), ["London football derby"]);
}

#[test]
fn unmatched_facet_yields_empty() {
    let g = g();
    // football but require a category nobody has -> empty.
    let out = a21::run(&g, &title_hits(&g, "football"), Some("http://www.bbc.co.uk/category/Weather"), None, None, None, None, None, 100);
    assert!(out.is_empty());
}
