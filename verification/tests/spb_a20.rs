use rustychickpeas_ldbc::rdfgraph::{load_str, PropGraph};
#[allow(unused_imports)]
use rustychickpeas_ldbc::spb::access::{has_label, name_of, text_prop_of, uri_of};
use rustychickpeas_ldbc::spb::a20;

/// The creative works whose `title` or `description` holds `word` as a
/// whole word, ignoring case: the answer the store's full-text index gives
/// for these fixtures.
fn text_hits(g: &PropGraph, word: &str) -> Vec<u32> {
    full_text(g, &["description", "title"], word)
}

fn full_text(g: &PropGraph, props: &[&str], word: &str) -> Vec<u32> {
    let word = word.to_lowercase();
    (0..g.labels.len() as u32)
        .filter(|&n| has_label(g, n, "CreativeWork"))
        .filter(|&n| {
            props.iter().any(|p| {
                text_prop_of(g, n, p).is_some_and(|t| {
                    t.to_lowercase().split(|c: char| !c.is_alphanumeric()).any(|tok| tok == word)
                })
            })
        })
        .collect()
}

// Creative works matching "football" in title or description with assorted
// `dateModified`, one "tennis"-only work, and one "football" work with no
// `dateModified` (excluded by the required sort key).
const FIXTURE: &str = r#"
<http://ex/cw1> <http://www.w3.org/1999/02/22-rdf-syntax-ns#type> <http://www.bbc.co.uk/ontologies/creativework/CreativeWork> .
<http://ex/cw1> <http://www.bbc.co.uk/ontologies/creativework/title> "London derby" .
<http://ex/cw1> <http://www.bbc.co.uk/ontologies/creativework/description> "a football match in london" .
<http://ex/cw1> <http://www.bbc.co.uk/ontologies/creativework/dateModified> "2024-06-01T12:00:00.000+00:00"^^<http://www.w3.org/2001/XMLSchema#dateTime> .

<http://ex/cw2> <http://www.w3.org/1999/02/22-rdf-syntax-ns#type> <http://www.bbc.co.uk/ontologies/creativework/CreativeWork> .
<http://ex/cw2> <http://www.bbc.co.uk/ontologies/creativework/title> "Football weekly review" .
<http://ex/cw2> <http://www.bbc.co.uk/ontologies/creativework/description> "sports roundup" .
<http://ex/cw2> <http://www.bbc.co.uk/ontologies/creativework/dateModified> "2024-09-01T12:00:00.000+00:00"^^<http://www.w3.org/2001/XMLSchema#dateTime> .

<http://ex/cw3> <http://www.w3.org/1999/02/22-rdf-syntax-ns#type> <http://www.bbc.co.uk/ontologies/creativework/CreativeWork> .
<http://ex/cw3> <http://www.bbc.co.uk/ontologies/creativework/title> "Football classics" .
<http://ex/cw3> <http://www.bbc.co.uk/ontologies/creativework/description> "archive games" .
<http://ex/cw3> <http://www.bbc.co.uk/ontologies/creativework/dateModified> "2024-01-01T12:00:00.000+00:00"^^<http://www.w3.org/2001/XMLSchema#dateTime> .

<http://ex/cw4> <http://www.w3.org/1999/02/22-rdf-syntax-ns#type> <http://www.bbc.co.uk/ontologies/creativework/CreativeWork> .
<http://ex/cw4> <http://www.bbc.co.uk/ontologies/creativework/title> "Wimbledon final" .
<http://ex/cw4> <http://www.bbc.co.uk/ontologies/creativework/description> "tennis championship in london" .
<http://ex/cw4> <http://www.bbc.co.uk/ontologies/creativework/dateModified> "2025-01-01T12:00:00.000+00:00"^^<http://www.w3.org/2001/XMLSchema#dateTime> .

<http://ex/cw5> <http://www.w3.org/1999/02/22-rdf-syntax-ns#type> <http://www.bbc.co.uk/ontologies/creativework/CreativeWork> .
<http://ex/cw5> <http://www.bbc.co.uk/ontologies/creativework/title> "Football extra" .
<http://ex/cw5> <http://www.bbc.co.uk/ontologies/creativework/description> "more coverage" .
"#;

fn titles(g: &PropGraph, works: &[u32]) -> Vec<String> {
    works
        .iter()
        .map(|&w| text_prop_of(g, w, "title").unwrap_or("?").to_string())
        .collect()
}

#[test]
fn full_text_ranked_by_date_modified_desc() {
    let g = load_str(FIXTURE).0;
    let works = a20::run(&g, &text_hits(&g, "football"), 10);
    // newest `dateModified` first; the tennis-only work and the
    // `dateModified`-less "Football extra" are excluded.
    assert_eq!(
        titles(&g, &works),
        [
            "Football weekly review",
            "London derby",
            "Football classics"
        ]
    );
}

#[test]
fn a20_limit_truncates_after_ordering() {
    let g = load_str(FIXTURE).0;
    assert_eq!(
        titles(&g, &a20::run(&g, &text_hits(&g, "football"), 2)),
        ["Football weekly review", "London derby"]
    );
}

#[test]
fn matches_description_as_well_as_title() {
    let g = load_str(FIXTURE).0;
    // "tennis" appears only in cw4's description.
    assert_eq!(titles(&g, &a20::run(&g, &text_hits(&g, "tennis"), 10)), ["Wimbledon final"]);
}
