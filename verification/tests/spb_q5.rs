use rustychickpeas_ldbc::rdfgraph::{load_str, PropGraph};
#[allow(unused_imports)]
use rustychickpeas_ldbc::spb::access::{name_of, text_prop_of, uri_of};
use rustychickpeas_ldbc::spb::q5;
// Two Company topics with labels (Acme, Globex) and one without (Hidden,
// excluded by the prefLabel join). Works of type BlogPost / NewsItem tag them
// via about/mentions, with a National/International audience and a
// dateModified timestamp.
const FIXTURE: &str = r#"
<http://dbpedia.org/resource/Acme> <http://www.w3.org/1999/02/22-rdf-syntax-ns#type> <http://dbpedia.org/ontology/Company> .
<http://dbpedia.org/resource/Acme> <http://www.w3.org/2000/01/rdf-schema#label> "Acme Corp" .
<http://dbpedia.org/resource/Globex> <http://www.w3.org/1999/02/22-rdf-syntax-ns#type> <http://dbpedia.org/ontology/Company> .
<http://dbpedia.org/resource/Globex> <http://www.w3.org/2000/01/rdf-schema#label> "Globex" .
<http://dbpedia.org/resource/Hidden> <http://www.w3.org/1999/02/22-rdf-syntax-ns#type> <http://dbpedia.org/ontology/Company> .

<http://ex/cw1> <http://www.w3.org/1999/02/22-rdf-syntax-ns#type> <http://www.bbc.co.uk/ontologies/creativework/CreativeWork> .
<http://ex/cw1> <http://www.w3.org/1999/02/22-rdf-syntax-ns#type> <http://www.bbc.co.uk/ontologies/creativework/BlogPost> .
<http://ex/cw1> <http://www.bbc.co.uk/ontologies/creativework/dateModified> "2012-01-01T10:00:00.000Z" .
<http://ex/cw1> <http://www.bbc.co.uk/ontologies/creativework/audience> <http://www.bbc.co.uk/ontologies/creativework/NationalAudience> .
<http://ex/cw1> <http://www.bbc.co.uk/ontologies/creativework/about> <http://dbpedia.org/resource/Acme> .
<http://ex/cw1> <http://www.bbc.co.uk/ontologies/creativework/mentions> <http://dbpedia.org/resource/Globex> .

<http://ex/cw2> <http://www.w3.org/1999/02/22-rdf-syntax-ns#type> <http://www.bbc.co.uk/ontologies/creativework/CreativeWork> .
<http://ex/cw2> <http://www.w3.org/1999/02/22-rdf-syntax-ns#type> <http://www.bbc.co.uk/ontologies/creativework/BlogPost> .
<http://ex/cw2> <http://www.bbc.co.uk/ontologies/creativework/dateModified> "2012-01-01T10:30:00.000Z" .
<http://ex/cw2> <http://www.bbc.co.uk/ontologies/creativework/audience> <http://www.bbc.co.uk/ontologies/creativework/NationalAudience> .
<http://ex/cw2> <http://www.bbc.co.uk/ontologies/creativework/about> <http://dbpedia.org/resource/Acme> .

<http://ex/cw7> <http://www.w3.org/1999/02/22-rdf-syntax-ns#type> <http://www.bbc.co.uk/ontologies/creativework/CreativeWork> .
<http://ex/cw7> <http://www.w3.org/1999/02/22-rdf-syntax-ns#type> <http://www.bbc.co.uk/ontologies/creativework/BlogPost> .
<http://ex/cw7> <http://www.bbc.co.uk/ontologies/creativework/dateModified> "2012-01-01T10:50:00.000Z" .
<http://ex/cw7> <http://www.bbc.co.uk/ontologies/creativework/audience> <http://www.bbc.co.uk/ontologies/creativework/NationalAudience> .
<http://ex/cw7> <http://www.bbc.co.uk/ontologies/creativework/about> <http://dbpedia.org/resource/Acme> .

<http://ex/cw3> <http://www.w3.org/1999/02/22-rdf-syntax-ns#type> <http://www.bbc.co.uk/ontologies/creativework/CreativeWork> .
<http://ex/cw3> <http://www.w3.org/1999/02/22-rdf-syntax-ns#type> <http://www.bbc.co.uk/ontologies/creativework/BlogPost> .
<http://ex/cw3> <http://www.bbc.co.uk/ontologies/creativework/dateModified> "2012-01-01T10:45:00.000Z" .
<http://ex/cw3> <http://www.bbc.co.uk/ontologies/creativework/audience> <http://www.bbc.co.uk/ontologies/creativework/NationalAudience> .
<http://ex/cw3> <http://www.bbc.co.uk/ontologies/creativework/about> <http://dbpedia.org/resource/Globex> .
<http://ex/cw3> <http://www.bbc.co.uk/ontologies/creativework/about> <http://dbpedia.org/resource/Hidden> .

<http://ex/cw4> <http://www.w3.org/1999/02/22-rdf-syntax-ns#type> <http://www.bbc.co.uk/ontologies/creativework/CreativeWork> .
<http://ex/cw4> <http://www.w3.org/1999/02/22-rdf-syntax-ns#type> <http://www.bbc.co.uk/ontologies/creativework/BlogPost> .
<http://ex/cw4> <http://www.bbc.co.uk/ontologies/creativework/dateModified> "2013-06-01T10:00:00.000Z" .
<http://ex/cw4> <http://www.bbc.co.uk/ontologies/creativework/audience> <http://www.bbc.co.uk/ontologies/creativework/NationalAudience> .
<http://ex/cw4> <http://www.bbc.co.uk/ontologies/creativework/about> <http://dbpedia.org/resource/Acme> .

<http://ex/cw5> <http://www.w3.org/1999/02/22-rdf-syntax-ns#type> <http://www.bbc.co.uk/ontologies/creativework/CreativeWork> .
<http://ex/cw5> <http://www.w3.org/1999/02/22-rdf-syntax-ns#type> <http://www.bbc.co.uk/ontologies/creativework/BlogPost> .
<http://ex/cw5> <http://www.bbc.co.uk/ontologies/creativework/dateModified> "2012-01-01T10:05:00.000Z" .
<http://ex/cw5> <http://www.bbc.co.uk/ontologies/creativework/audience> <http://www.bbc.co.uk/ontologies/creativework/InternationalAudience> .
<http://ex/cw5> <http://www.bbc.co.uk/ontologies/creativework/about> <http://dbpedia.org/resource/Acme> .

<http://ex/cw6> <http://www.w3.org/1999/02/22-rdf-syntax-ns#type> <http://www.bbc.co.uk/ontologies/creativework/CreativeWork> .
<http://ex/cw6> <http://www.w3.org/1999/02/22-rdf-syntax-ns#type> <http://www.bbc.co.uk/ontologies/creativework/NewsItem> .
<http://ex/cw6> <http://www.bbc.co.uk/ontologies/creativework/dateModified> "2012-01-01T10:15:00.000Z" .
<http://ex/cw6> <http://www.bbc.co.uk/ontologies/creativework/audience> <http://www.bbc.co.uk/ontologies/creativework/NationalAudience> .
<http://ex/cw6> <http://www.bbc.co.uk/ontologies/creativework/mentions> <http://dbpedia.org/resource/Globex> .
"#;

const NAT: &str = "http://www.bbc.co.uk/ontologies/creativework/NationalAudience";
const WIN_START: &str = "2012-01-01T09:00:00.000Z";
const WIN_END: &str = "2012-01-01T11:00:00.000Z";

#[test]
fn counts_tagging_works_per_topic_with_all_restrictions() {
    let g = load_str(FIXTURE).0;
    // BlogPost + National + window: cw1, cw2, cw7, cw3 qualify.
    //   Acme   <- cw1(about), cw2(about), cw7(about)        = 3
    //   Globex <- cw1(mentions), cw3(about)                 = 2
    //   Hidden has no label -> excluded by the prefLabel join.
    // cw4 (out of window), cw5 (International), cw6 (NewsItem) are excluded.
    let rows = q5::run(&g, Some("BlogPost"), Some(NAT), WIN_START, WIN_END);
    assert_eq!(rows, vec![("Acme Corp".to_string(), 3), ("Globex".to_string(), 2)]);
}

#[test]
fn dropping_the_type_restriction_folds_in_other_work_types() {
    let g = load_str(FIXTURE).0;
    // No type restriction adds cw6 (NewsItem, National, in window) -> Globex 3.
    let rows = q5::run(&g, None, Some(NAT), WIN_START, WIN_END);
    assert_eq!(rows, vec![("Acme Corp".to_string(), 3), ("Globex".to_string(), 3)]);
}

#[test]
fn dropping_the_audience_restriction_folds_in_other_audiences() {
    let g = load_str(FIXTURE).0;
    // No audience restriction adds cw5 (International, about Acme) -> Acme 4.
    let rows = q5::run(&g, Some("BlogPost"), None, WIN_START, WIN_END);
    assert_eq!(rows, vec![("Acme Corp".to_string(), 4), ("Globex".to_string(), 2)]);
}

#[test]
fn the_window_filter_excludes_works_outside_it() {
    let g = load_str(FIXTURE).0;
    // Narrow to (10:20, 10:48): only cw2 (10:30 -> Acme) and cw3 (10:45 -> Globex).
    let rows = q5::run(
        &g,
        Some("BlogPost"),
        Some(NAT),
        "2012-01-01T10:20:00.000Z",
        "2012-01-01T10:48:00.000Z",
    );
    assert_eq!(rows, vec![("Acme Corp".to_string(), 1), ("Globex".to_string(), 1)]);
}
