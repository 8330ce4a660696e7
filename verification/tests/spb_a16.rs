use rustychickpeas_ldbc::rdfgraph::{load_str, PropGraph};
#[allow(unused_imports)]
use rustychickpeas_ldbc::spb::access::{has_label, name_of, text_prop_of, uri_of};
use rustychickpeas_ldbc::spb::a16;

/// The creative works whose `title` holds `word` as a whole word, ignoring
/// case: the answer the store's full-text index gives for these fixtures.
fn title_hits(g: &PropGraph, word: &str) -> Vec<u32> {
    full_text(g, &["title"], word)
}

fn full_text(g: &PropGraph, props: &[&str], word: &str) -> Vec<u32> {
    let word = word.to_lowercase();
    (0..g.labels.len() as u32)
        .filter(|&n| has_label(g, n, "CreativeWork"))
        .filter(|&n| {
            props.iter().any(|p| {
                text_prop_of(g, n, p).is_some_and(|t| {
                    t.to_lowercase().split(|c: char| !c.is_alphanumeric()).any(|tok| tok == word)
                })
            })
        })
        .collect()
}

// TBox (BlogPost subClassOf CreativeWork; about/mentions subPropertyOf tag)
// plus three BlogPosts: a "policy"-titled work with two tags (about + mentions)
// and a category -> two rows; a non-"policy" work -> never matched; a
// "policy"-titled work lacking a category -> excluded by the required pattern.
const FIXTURE: &str = r#"
<http://www.bbc.co.uk/ontologies/creativework/BlogPost> <http://www.w3.org/2000/01/rdf-schema#subClassOf> <http://www.bbc.co.uk/ontologies/creativework/CreativeWork> .
<http://www.bbc.co.uk/ontologies/creativework/about> <http://www.w3.org/2000/01/rdf-schema#subPropertyOf> <http://www.bbc.co.uk/ontologies/creativework/tag> .
<http://www.bbc.co.uk/ontologies/creativework/mentions> <http://www.w3.org/2000/01/rdf-schema#subPropertyOf> <http://www.bbc.co.uk/ontologies/creativework/tag> .

<http://ex/cw-policy> <http://www.w3.org/1999/02/22-rdf-syntax-ns#type> <http://www.bbc.co.uk/ontologies/creativework/BlogPost> .
<http://ex/cw-policy> <http://www.bbc.co.uk/ontologies/creativework/title> "New policy on data sharing" .
<http://ex/cw-policy> <http://www.bbc.co.uk/ontologies/creativework/category> <http://www.bbc.co.uk/category/Politics> .
<http://ex/cw-policy> <http://www.bbc.co.uk/ontologies/creativework/about> <http://dbpedia.org/resource/Data_protection> .
<http://ex/cw-policy> <http://www.bbc.co.uk/ontologies/creativework/mentions> <http://sws.geonames.org/london> .

<http://ex/cw-sport> <http://www.w3.org/1999/02/22-rdf-syntax-ns#type> <http://www.bbc.co.uk/ontologies/creativework/BlogPost> .
<http://ex/cw-sport> <http://www.bbc.co.uk/ontologies/creativework/title> "Football match report" .
<http://ex/cw-sport> <http://www.bbc.co.uk/ontologies/creativework/category> <http://www.bbc.co.uk/category/Sport> .
<http://ex/cw-sport> <http://www.bbc.co.uk/ontologies/creativework/about> <http://dbpedia.org/resource/Football> .

<http://ex/cw-nocat> <http://www.w3.org/1999/02/22-rdf-syntax-ns#type> <http://www.bbc.co.uk/ontologies/creativework/BlogPost> .
<http://ex/cw-nocat> <http://www.bbc.co.uk/ontologies/creativework/title> "Policy without a category" .
<http://ex/cw-nocat> <http://www.bbc.co.uk/ontologies/creativework/about> <http://dbpedia.org/resource/Governance> .
"#;

#[test]
fn policy_titled_work_emits_a_row_per_tag() {
    let g = load_str(FIXTURE).0;
    // cw-policy is about Data_protection and mentions london -> two tag rows,
    // ordered by tag uri. cw-sport (no "policy") and cw-nocat (no category) are
    // excluded, so they never appear.
    let rows = a16::run(&g, &title_hits(&g, "policy"), 100);
    assert_eq!(
        rows,
        vec![
            ("http://ex/cw-policy".to_string(), "http://dbpedia.org/resource/Data_protection".to_string()),
            ("http://ex/cw-policy".to_string(), "http://sws.geonames.org/london".to_string()),
        ]
    );
}

#[test]
fn limit_truncates_after_tag_order() {
    let g = load_str(FIXTURE).0;
    // LIMIT 1 keeps the first row in tag order (Data_protection < geonames).
    assert_eq!(
        a16::run(&g, &title_hits(&g, "policy"), 1),
        vec![("http://ex/cw-policy".to_string(), "http://dbpedia.org/resource/Data_protection".to_string())]
    );
}
