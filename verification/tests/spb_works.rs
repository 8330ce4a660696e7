use rustychickpeas_ldbc::rdfgraph::load_str;
use rustychickpeas_ldbc::spb::access::text_prop_of;
use rustychickpeas_ldbc::spb::{a2, a9, q2};

const A2_FIXTURE: &str = r#"
<http://bbc/BlogPost> <http://www.w3.org/2000/01/rdf-schema#subClassOf> <http://bbc/CreativeWork> .

<http://ex/cw1> <http://www.w3.org/1999/02/22-rdf-syntax-ns#type> <http://bbc/BlogPost> .
<http://ex/cw1> <http://www.w3.org/1999/02/22-rdf-syntax-ns#type> <http://bbc/CreativeWork> .
<http://ex/cw1> <http://bbc/title> "Breaking news" .

<http://ex/cw2> <http://www.w3.org/1999/02/22-rdf-syntax-ns#type> <http://bbc/BlogPost> .
<http://ex/cw2> <http://www.w3.org/1999/02/22-rdf-syntax-ns#type> <http://bbc/CreativeWork> .
"#;


#[test]
fn titled_work_yields_its_subtype() {
    let g = load_str(A2_FIXTURE).0;
    assert_eq!(a2::run(&g, "http://ex/cw1"), vec!["BlogPost".to_string()]);
}

#[test]
fn untitled_or_missing_work_yields_nothing() {
    let g = load_str(A2_FIXTURE).0;
    assert!(a2::run(&g, "http://ex/cw2").is_empty()); // present but untitled
    assert!(a2::run(&g, "http://ex/none").is_empty()); // unknown uri
}

const A9_FIXTURE: &str = r#"
<http://bbc/BlogPost> <http://www.w3.org/2000/01/rdf-schema#subClassOf> <http://bbc/CreativeWork> .

<http://ex/cw1> <http://www.w3.org/1999/02/22-rdf-syntax-ns#type> <http://bbc/BlogPost> .

<http://ex/cw2> <http://www.w3.org/1999/02/22-rdf-syntax-ns#type> <http://bbc/BlogPost> .
<http://ex/cw2> <http://bbc/mentions> <http://ex/f1> .

<http://ex/cw3> <http://www.w3.org/1999/02/22-rdf-syntax-ns#type> <http://bbc/BlogPost> .
<http://ex/cw3> <http://bbc/mentions> <http://ex/f1> .
<http://ex/cw3> <http://bbc/mentions> <http://ex/f2> .
<http://ex/cw3> <http://bbc/mentions> <http://ex/f3> .
"#;


#[test]
fn max_mentions_across_works() {
    let g = load_str(A9_FIXTURE).0;
    assert_eq!(a9::run(&g), 3);
}

#[test]
fn no_mentions_is_zero() {
    // A lone CreativeWork with no mentions: max over {0} is 0.
    let doc = "<http://ex/cw1> <http://www.w3.org/1999/02/22-rdf-syntax-ns#type> <http://bbc/CreativeWork> .";
    let g = load_str(doc).0;
    assert_eq!(a9::run(&g), 0);
}

const Q2_FIXTURE: &str = r#"
<http://ex/cw1> <http://www.w3.org/1999/02/22-rdf-syntax-ns#type> <http://www.bbc.co.uk/ontologies/creativework/CreativeWork> .
<http://ex/cw1> <http://www.bbc.co.uk/ontologies/creativework/title> "London derby" .
<http://ex/cw1> <http://www.bbc.co.uk/ontologies/creativework/dateCreated> "2011-08-15T08:00:00.000Z" .
<http://ex/cw1> <http://www.bbc.co.uk/ontologies/creativework/dateModified> "2011-08-15T12:30:00.000Z" .
<http://ex/cw1> <http://www.bbc.co.uk/ontologies/creativework/mentions> <http://sws.geonames.org/london> .

<http://ex/cw2> <http://www.w3.org/1999/02/22-rdf-syntax-ns#type> <http://www.bbc.co.uk/ontologies/creativework/CreativeWork> .

<http://sws.geonames.org/london> <http://www.w3.org/1999/02/22-rdf-syntax-ns#type> <http://www.geonames.org/ontology#Feature> .
<http://sws.geonames.org/london> <http://www.geonames.org/ontology#name> "London" .
"#;


#[test]
fn looks_up_a_concrete_creative_work_by_uri() {
    let g = load_str(Q2_FIXTURE).0;

    // Known creative work with a title -> Some, and its describe payload is
    // readable off the returned node.
    let node = q2::run(&g, "http://ex/cw1").expect("cw1 should resolve");
    assert_eq!(text_prop_of(&g, node, "title"), Some("London derby"));
    assert_eq!(text_prop_of(&g, node, "dateModified"), Some("2011-08-15T12:30:00.000Z"));

    // Unknown uri -> None.
    assert_eq!(q2::run(&g, "http://ex/missing"), None);

    // A Feature with that uri must not satisfy `a cwork:CreativeWork`.
    assert_eq!(q2::run(&g, "http://sws.geonames.org/london"), None);

    // The required (non-OPTIONAL) `cwork:title` pattern: a titleless
    // CreativeWork yields no solution.
    assert_eq!(q2::run(&g, "http://ex/cw2"), None);
}
