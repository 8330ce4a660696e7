use rustychickpeas_ldbc::rdfgraph::{load_str, PropGraph};
#[allow(unused_imports)]
use rustychickpeas_ldbc::spb::access::{has_label, name_of, text_prop_of, uri_of};
use rustychickpeas_ldbc::spb::a15;

/// The creative works whose `title` holds `word` as a whole word, ignoring
/// case: the answer the store's full-text index gives for these fixtures.
fn title_hits(g: &PropGraph, word: &str) -> Vec<u32> {
    full_text(g, &["title"], word)
}

fn full_text(g: &PropGraph, props: &[&str], word: &str) -> Vec<u32> {
    let word = word.to_lowercase();
    (0..g.labels.len() as u32)
        .filter(|&n| has_label(g, n, "CreativeWork"))
        .filter(|&n| {
            props.iter().any(|p| {
                text_prop_of(g, n, p).is_some_and(|t| {
                    t.to_lowercase().split(|c: char| !c.is_alphanumeric()).any(|tok| tok == word)
                })
            })
        })
        .collect()
}

// TBox: a work subtype reaches `CreativeWork`; the about-target `Company` and
// the mentions-target `Feature` each reach `coreconcepts:Thing` (the shared
// `?entityType`); about/mentions are sub-properties of `tag`.
// Instances (word "policy"):
//   cw1 — about a Company + mentions a Feature (both Thing), category, "policy"
//         title                                                    -> included
//   cw2 — only an about (no mentions)                              -> excluded
//   cw3 — about+mentions+category but title lacks "policy"         -> excluded
//   cw4 — policy + about+mentions Things but no category           -> excluded
//   cw5 — like cw1, a second qualifying work                       -> included
const FIXTURE: &str = r#"
<http://bbc/BlogPost> <http://www.w3.org/2000/01/rdf-schema#subClassOf> <http://bbc/CreativeWork> .
<http://dbo/Company> <http://www.w3.org/2000/01/rdf-schema#subClassOf> <http://cc/Thing> .
<http://geo/Feature> <http://www.w3.org/2000/01/rdf-schema#subClassOf> <http://cc/Thing> .
<http://bbc/about> <http://www.w3.org/2000/01/rdf-schema#subPropertyOf> <http://bbc/tag> .
<http://bbc/mentions> <http://www.w3.org/2000/01/rdf-schema#subPropertyOf> <http://bbc/tag> .

<http://ex/Acme> <http://www.w3.org/1999/02/22-rdf-syntax-ns#type> <http://dbo/Company> .
<http://ex/Globex> <http://www.w3.org/1999/02/22-rdf-syntax-ns#type> <http://dbo/Company> .
<http://ex/London> <http://www.w3.org/1999/02/22-rdf-syntax-ns#type> <http://geo/Feature> .

<http://ex/cw1> <http://www.w3.org/1999/02/22-rdf-syntax-ns#type> <http://bbc/BlogPost> .
<http://ex/cw1> <http://bbc/title> "the new policy debate" .
<http://ex/cw1> <http://bbc/category> <http://cat/Politics> .
<http://ex/cw1> <http://bbc/about> <http://ex/Acme> .
<http://ex/cw1> <http://bbc/mentions> <http://ex/London> .

<http://ex/cw2> <http://www.w3.org/1999/02/22-rdf-syntax-ns#type> <http://bbc/BlogPost> .
<http://ex/cw2> <http://bbc/title> "policy reform plan" .
<http://ex/cw2> <http://bbc/category> <http://cat/Politics> .
<http://ex/cw2> <http://bbc/about> <http://ex/Globex> .

<http://ex/cw3> <http://www.w3.org/1999/02/22-rdf-syntax-ns#type> <http://bbc/BlogPost> .
<http://ex/cw3> <http://bbc/title> "the weather report" .
<http://ex/cw3> <http://bbc/category> <http://cat/Weather> .
<http://ex/cw3> <http://bbc/about> <http://ex/Acme> .
<http://ex/cw3> <http://bbc/mentions> <http://ex/London> .

<http://ex/cw4> <http://www.w3.org/1999/02/22-rdf-syntax-ns#type> <http://bbc/BlogPost> .
<http://ex/cw4> <http://bbc/title> "a policy aside" .
<http://ex/cw4> <http://bbc/about> <http://ex/Acme> .
<http://ex/cw4> <http://bbc/mentions> <http://ex/London> .

<http://ex/cw5> <http://www.w3.org/1999/02/22-rdf-syntax-ns#type> <http://bbc/BlogPost> .
<http://ex/cw5> <http://bbc/title> "second policy memo" .
<http://ex/cw5> <http://bbc/category> <http://cat/Politics> .
<http://ex/cw5> <http://bbc/about> <http://ex/Acme> .
<http://ex/cw5> <http://bbc/mentions> <http://ex/London> .
"#;

fn uris(g: &PropGraph, works: &[u32]) -> Vec<String> {
    works
        .iter()
        .map(|&w| uri_of(g, w).unwrap_or("?").to_string())
        .collect()
}

#[test]
fn keeps_policy_works_with_about_and_mentions_sharing_a_type() {
    let g = load_str(FIXTURE).0;
    let out = a15::run(&g, &title_hits(&g, "policy"), 100);
    // cw1, cw5 qualify; cw2 (no mentions), cw3 (no "policy"), cw4 (no category) don't.
    assert_eq!(uris(&g, &out), ["http://ex/cw1", "http://ex/cw5"]);
}

#[test]
fn a15_limit_truncates_after_id_sort() {
    let g = load_str(FIXTURE).0;
    let out = a15::run(&g, &title_hits(&g, "policy"), 1);
    // Lowest id wins the truncation; cw1 is declared before cw5.
    assert_eq!(uris(&g, &out), ["http://ex/cw1"]);
}
