use rustychickpeas_ldbc::rdfgraph::{load_str, PropGraph};
#[allow(unused_imports)]
use rustychickpeas_ldbc::spb::access::{name_of, text_prop_of, uri_of};
use rustychickpeas_ldbc::spb::a19;
// Acme (label) tagged by 3 works peaking at 10:20; Globex (label) tagged by 2
// peaking at 10:40; Hidden (NO label) tagged by 1 at 10:05. Two decoys: an
// International-audience work and an out-of-window work that must be excluded.
const FIXTURE: &str = r#"
<http://dbpedia.org/resource/Acme> <http://www.w3.org/1999/02/22-rdf-syntax-ns#type> <http://dbpedia.org/ontology/Company> .
<http://dbpedia.org/resource/Acme> <http://www.w3.org/2000/01/rdf-schema#label> "Acme Corp" .
<http://dbpedia.org/resource/Globex> <http://www.w3.org/1999/02/22-rdf-syntax-ns#type> <http://dbpedia.org/ontology/Company> .
<http://dbpedia.org/resource/Globex> <http://www.w3.org/2000/01/rdf-schema#label> "Globex" .
<http://dbpedia.org/resource/Hidden> <http://www.w3.org/1999/02/22-rdf-syntax-ns#type> <http://dbpedia.org/ontology/Company> .

<http://ex/cw1> <http://www.w3.org/1999/02/22-rdf-syntax-ns#type> <http://www.bbc.co.uk/ontologies/creativework/CreativeWork> .
<http://ex/cw1> <http://www.w3.org/1999/02/22-rdf-syntax-ns#type> <http://www.bbc.co.uk/ontologies/creativework/BlogPost> .
<http://ex/cw1> <http://www.bbc.co.uk/ontologies/creativework/dateModified> "2012-01-01T10:00:00.000Z" .
<http://ex/cw1> <http://www.bbc.co.uk/ontologies/creativework/audience> <http://www.bbc.co.uk/ontologies/creativework/NationalAudience> .
<http://ex/cw1> <http://www.bbc.co.uk/ontologies/creativework/about> <http://dbpedia.org/resource/Acme> .

<http://ex/cw2> <http://www.w3.org/1999/02/22-rdf-syntax-ns#type> <http://www.bbc.co.uk/ontologies/creativework/CreativeWork> .
<http://ex/cw2> <http://www.w3.org/1999/02/22-rdf-syntax-ns#type> <http://www.bbc.co.uk/ontologies/creativework/BlogPost> .
<http://ex/cw2> <http://www.bbc.co.uk/ontologies/creativework/dateModified> "2012-01-01T10:10:00.000Z" .
<http://ex/cw2> <http://www.bbc.co.uk/ontologies/creativework/audience> <http://www.bbc.co.uk/ontologies/creativework/NationalAudience> .
<http://ex/cw2> <http://www.bbc.co.uk/ontologies/creativework/about> <http://dbpedia.org/resource/Acme> .

<http://ex/cw3> <http://www.w3.org/1999/02/22-rdf-syntax-ns#type> <http://www.bbc.co.uk/ontologies/creativework/CreativeWork> .
<http://ex/cw3> <http://www.w3.org/1999/02/22-rdf-syntax-ns#type> <http://www.bbc.co.uk/ontologies/creativework/BlogPost> .
<http://ex/cw3> <http://www.bbc.co.uk/ontologies/creativework/dateModified> "2012-01-01T10:20:00.000Z" .
<http://ex/cw3> <http://www.bbc.co.uk/ontologies/creativework/audience> <http://www.bbc.co.uk/ontologies/creativework/NationalAudience> .
<http://ex/cw3> <http://www.bbc.co.uk/ontologies/creativework/about> <http://dbpedia.org/resource/Acme> .

<http://ex/cw4> <http://www.w3.org/1999/02/22-rdf-syntax-ns#type> <http://www.bbc.co.uk/ontologies/creativework/CreativeWork> .
<http://ex/cw4> <http://www.w3.org/1999/02/22-rdf-syntax-ns#type> <http://www.bbc.co.uk/ontologies/creativework/BlogPost> .
<http://ex/cw4> <http://www.bbc.co.uk/ontologies/creativework/dateModified> "2012-01-01T10:30:00.000Z" .
<http://ex/cw4> <http://www.bbc.co.uk/ontologies/creativework/audience> <http://www.bbc.co.uk/ontologies/creativework/NationalAudience> .
<http://ex/cw4> <http://www.bbc.co.uk/ontologies/creativework/about> <http://dbpedia.org/resource/Globex> .

<http://ex/cw5> <http://www.w3.org/1999/02/22-rdf-syntax-ns#type> <http://www.bbc.co.uk/ontologies/creativework/CreativeWork> .
<http://ex/cw5> <http://www.w3.org/1999/02/22-rdf-syntax-ns#type> <http://www.bbc.co.uk/ontologies/creativework/BlogPost> .
<http://ex/cw5> <http://www.bbc.co.uk/ontologies/creativework/dateModified> "2012-01-01T10:40:00.000Z" .
<http://ex/cw5> <http://www.bbc.co.uk/ontologies/creativework/audience> <http://www.bbc.co.uk/ontologies/creativework/NationalAudience> .
<http://ex/cw5> <http://www.bbc.co.uk/ontologies/creativework/mentions> <http://dbpedia.org/resource/Globex> .

<http://ex/cw6> <http://www.w3.org/1999/02/22-rdf-syntax-ns#type> <http://www.bbc.co.uk/ontologies/creativework/CreativeWork> .
<http://ex/cw6> <http://www.w3.org/1999/02/22-rdf-syntax-ns#type> <http://www.bbc.co.uk/ontologies/creativework/BlogPost> .
<http://ex/cw6> <http://www.bbc.co.uk/ontologies/creativework/dateModified> "2012-01-01T10:05:00.000Z" .
<http://ex/cw6> <http://www.bbc.co.uk/ontologies/creativework/audience> <http://www.bbc.co.uk/ontologies/creativework/NationalAudience> .
<http://ex/cw6> <http://www.bbc.co.uk/ontologies/creativework/about> <http://dbpedia.org/resource/Hidden> .

<http://ex/cw7> <http://www.w3.org/1999/02/22-rdf-syntax-ns#type> <http://www.bbc.co.uk/ontologies/creativework/CreativeWork> .
<http://ex/cw7> <http://www.w3.org/1999/02/22-rdf-syntax-ns#type> <http://www.bbc.co.uk/ontologies/creativework/BlogPost> .
<http://ex/cw7> <http://www.bbc.co.uk/ontologies/creativework/dateModified> "2012-01-01T10:50:00.000Z" .
<http://ex/cw7> <http://www.bbc.co.uk/ontologies/creativework/audience> <http://www.bbc.co.uk/ontologies/creativework/InternationalAudience> .
<http://ex/cw7> <http://www.bbc.co.uk/ontologies/creativework/about> <http://dbpedia.org/resource/Acme> .

<http://ex/cw8> <http://www.w3.org/1999/02/22-rdf-syntax-ns#type> <http://www.bbc.co.uk/ontologies/creativework/CreativeWork> .
<http://ex/cw8> <http://www.w3.org/1999/02/22-rdf-syntax-ns#type> <http://www.bbc.co.uk/ontologies/creativework/BlogPost> .
<http://ex/cw8> <http://www.bbc.co.uk/ontologies/creativework/dateModified> "2013-01-01T10:00:00.000Z" .
<http://ex/cw8> <http://www.bbc.co.uk/ontologies/creativework/audience> <http://www.bbc.co.uk/ontologies/creativework/NationalAudience> .
<http://ex/cw8> <http://www.bbc.co.uk/ontologies/creativework/about> <http://dbpedia.org/resource/Globex> .
"#;

const NAT: &str = "http://www.bbc.co.uk/ontologies/creativework/NationalAudience";
const WIN_START: &str = "2012-01-01T09:00:00.000Z";
const WIN_END: &str = "2012-01-01T11:00:00.000Z";

#[test]
fn orders_by_newest_modification_then_count_keeping_labelless_topics() {
    let g = load_str(FIXTURE).0;
    let rows = a19::run(&g, Some("BlogPost"), Some(NAT), WIN_START, WIN_END, 10);
    // Globex (max 10:40, 2 works) outranks the *more-tagged* Acme (max 10:20,
    // 3 works) because MAX(dateModified) sorts first. Hidden has no label, so
    // it is rendered by uri and — unlike q5 — is NOT dropped.
    // cw7 (International) and cw8 (2013, out of window) are excluded, so Acme
    // stays at 3 / 10:20 and Globex at 2 / 10:40.
    assert_eq!(
        rows,
        vec![
            (
                "Globex".to_string(),
                2,
                "2012-01-01T10:40:00.000Z".to_string()
            ),
            (
                "Acme Corp".to_string(),
                3,
                "2012-01-01T10:20:00.000Z".to_string()
            ),
            (
                "http://dbpedia.org/resource/Hidden".to_string(),
                1,
                "2012-01-01T10:05:00.000Z".to_string()
            ),
        ]
    );
}

#[test]
fn a19_limit_truncates_after_ordering() {
    let g = load_str(FIXTURE).0;
    let rows = a19::run(&g, Some("BlogPost"), Some(NAT), WIN_START, WIN_END, 2);
    assert_eq!(
        rows,
        vec![
            (
                "Globex".to_string(),
                2,
                "2012-01-01T10:40:00.000Z".to_string()
            ),
            (
                "Acme Corp".to_string(),
                3,
                "2012-01-01T10:20:00.000Z".to_string()
            ),
        ]
    );
}

#[test]
fn narrowing_the_window_excludes_works_and_drops_topics() {
    let g = load_str(FIXTURE).0;
    // [10:25, 10:45] keeps only cw4 (10:30) and cw5 (10:40), both Globex;
    // Acme (<=10:20) and Hidden (10:05) drop out.
    let rows = a19::run(
        &g,
        Some("BlogPost"),
        Some(NAT),
        "2012-01-01T10:25:00.000Z",
        "2012-01-01T10:45:00.000Z",
        10,
    );
    assert_eq!(
        rows,
        vec![(
            "Globex".to_string(),
            2,
            "2012-01-01T10:40:00.000Z".to_string()
        )]
    );
}
