use rustychickpeas_ldbc::rdfgraph::{load_str, PropGraph};
#[allow(unused_imports)]
use rustychickpeas_ldbc::spb::access::{name_of, text_prop_of, uri_of};
use rustychickpeas_ldbc::spb::a25;
const ENT_A: &str = "http://dbpedia.org/resource/EntA";
const ENT_B: &str = "http://dbpedia.org/resource/EntB";
const ENT_C: &str = "http://dbpedia.org/resource/EntC";
const ENT_D: &str = "http://dbpedia.org/resource/EntD";

// Entity A co-occurs with B, C and D across creative works:
//   * B: cw1 (06-01), cw2 (06-02), cw3 (06-02 — same day, collapses) -> 2 days
//   * C: cw4 (07-10), cw5 (07-11) -> 2 days
//   * D: cw5 (07-11) -> 1 day                (cw5 is about A, C AND D)
// cw6 is about A alone (no co-occurrence); cw7 is about A+B but lacks the
// required dateCreated (excluded — B stays 2); cw8 (C+D) is NOT about A, so it
// is never reached and does not add a day to C or D.
const FIXTURE: &str = r#"
<http://dbpedia.org/resource/EntA> <http://www.w3.org/1999/02/22-rdf-syntax-ns#type> <http://dbpedia.org/ontology/Company> .
<http://dbpedia.org/resource/EntB> <http://www.w3.org/1999/02/22-rdf-syntax-ns#type> <http://dbpedia.org/ontology/Company> .
<http://dbpedia.org/resource/EntC> <http://www.w3.org/1999/02/22-rdf-syntax-ns#type> <http://dbpedia.org/ontology/Company> .
<http://dbpedia.org/resource/EntD> <http://www.w3.org/1999/02/22-rdf-syntax-ns#type> <http://dbpedia.org/ontology/Event> .

<http://ex/cw1> <http://www.w3.org/1999/02/22-rdf-syntax-ns#type> <http://www.bbc.co.uk/ontologies/creativework/CreativeWork> .
<http://ex/cw1> <http://www.bbc.co.uk/ontologies/creativework/about> <http://dbpedia.org/resource/EntA> .
<http://ex/cw1> <http://www.bbc.co.uk/ontologies/creativework/about> <http://dbpedia.org/resource/EntB> .
<http://ex/cw1> <http://www.bbc.co.uk/ontologies/creativework/dateCreated> "2024-06-01T12:00:00.000+00:00"^^<http://www.w3.org/2001/XMLSchema#dateTime> .

<http://ex/cw2> <http://www.w3.org/1999/02/22-rdf-syntax-ns#type> <http://www.bbc.co.uk/ontologies/creativework/CreativeWork> .
<http://ex/cw2> <http://www.bbc.co.uk/ontologies/creativework/about> <http://dbpedia.org/resource/EntA> .
<http://ex/cw2> <http://www.bbc.co.uk/ontologies/creativework/about> <http://dbpedia.org/resource/EntB> .
<http://ex/cw2> <http://www.bbc.co.uk/ontologies/creativework/dateCreated> "2024-06-02T08:00:00.000+00:00"^^<http://www.w3.org/2001/XMLSchema#dateTime> .

<http://ex/cw3> <http://www.w3.org/1999/02/22-rdf-syntax-ns#type> <http://www.bbc.co.uk/ontologies/creativework/CreativeWork> .
<http://ex/cw3> <http://www.bbc.co.uk/ontologies/creativework/about> <http://dbpedia.org/resource/EntA> .
<http://ex/cw3> <http://www.bbc.co.uk/ontologies/creativework/about> <http://dbpedia.org/resource/EntB> .
<http://ex/cw3> <http://www.bbc.co.uk/ontologies/creativework/dateCreated> "2024-06-02T19:30:00.000+00:00"^^<http://www.w3.org/2001/XMLSchema#dateTime> .

<http://ex/cw4> <http://www.w3.org/1999/02/22-rdf-syntax-ns#type> <http://www.bbc.co.uk/ontologies/creativework/CreativeWork> .
<http://ex/cw4> <http://www.bbc.co.uk/ontologies/creativework/about> <http://dbpedia.org/resource/EntA> .
<http://ex/cw4> <http://www.bbc.co.uk/ontologies/creativework/about> <http://dbpedia.org/resource/EntC> .
<http://ex/cw4> <http://www.bbc.co.uk/ontologies/creativework/dateCreated> "2024-07-10T10:00:00.000+00:00"^^<http://www.w3.org/2001/XMLSchema#dateTime> .

<http://ex/cw5> <http://www.w3.org/1999/02/22-rdf-syntax-ns#type> <http://www.bbc.co.uk/ontologies/creativework/CreativeWork> .
<http://ex/cw5> <http://www.bbc.co.uk/ontologies/creativework/about> <http://dbpedia.org/resource/EntA> .
<http://ex/cw5> <http://www.bbc.co.uk/ontologies/creativework/about> <http://dbpedia.org/resource/EntC> .
<http://ex/cw5> <http://www.bbc.co.uk/ontologies/creativework/about> <http://dbpedia.org/resource/EntD> .
<http://ex/cw5> <http://www.bbc.co.uk/ontologies/creativework/dateCreated> "2024-07-11T14:00:00.000+00:00"^^<http://www.w3.org/2001/XMLSchema#dateTime> .

<http://ex/cw6> <http://www.w3.org/1999/02/22-rdf-syntax-ns#type> <http://www.bbc.co.uk/ontologies/creativework/CreativeWork> .
<http://ex/cw6> <http://www.bbc.co.uk/ontologies/creativework/about> <http://dbpedia.org/resource/EntA> .
<http://ex/cw6> <http://www.bbc.co.uk/ontologies/creativework/dateCreated> "2024-08-01T09:00:00.000+00:00"^^<http://www.w3.org/2001/XMLSchema#dateTime> .

<http://ex/cw7> <http://www.w3.org/1999/02/22-rdf-syntax-ns#type> <http://www.bbc.co.uk/ontologies/creativework/CreativeWork> .
<http://ex/cw7> <http://www.bbc.co.uk/ontologies/creativework/about> <http://dbpedia.org/resource/EntA> .
<http://ex/cw7> <http://www.bbc.co.uk/ontologies/creativework/about> <http://dbpedia.org/resource/EntB> .

<http://ex/cw8> <http://www.w3.org/1999/02/22-rdf-syntax-ns#type> <http://www.bbc.co.uk/ontologies/creativework/CreativeWork> .
<http://ex/cw8> <http://www.bbc.co.uk/ontologies/creativework/about> <http://dbpedia.org/resource/EntC> .
<http://ex/cw8> <http://www.bbc.co.uk/ontologies/creativework/about> <http://dbpedia.org/resource/EntD> .
<http://ex/cw8> <http://www.bbc.co.uk/ontologies/creativework/dateCreated> "2024-09-01T09:00:00.000+00:00"^^<http://www.w3.org/2001/XMLSchema#dateTime> .
"#;

/// Map a result to `(who uri, interactionDays)` for order-sensitive asserts.
fn rows(g: &PropGraph, uri_a: &str, limit: usize) -> Vec<(String, usize)> {
    a25::run(g, uri_a, limit)
        .into_iter()
        .map(|(who, d)| (uri_of(g, who).unwrap_or("?").to_string(), d))
        .collect()
}

#[test]
fn ranks_by_distinct_days_with_same_day_collapse() {
    let g = load_str(FIXTURE).0;
    // B and C each share 2 distinct days with A (B's two 06-02 works collapse
    // to one day); D shares 1. A itself never appears as a result.
    assert_eq!(
        rows(&g, ENT_A, 10),
        [
            (ENT_B.to_string(), 2),
            (ENT_C.to_string(), 2),
            (ENT_D.to_string(), 1)
        ]
    );
}

#[test]
fn ties_break_on_who_uri_ascending() {
    let g = load_str(FIXTURE).0;
    // B and C tie at 2 interactionDays -> ordered by uri ascending (EntB < EntC).
    let out = rows(&g, ENT_A, 10);
    assert_eq!(out[0], (ENT_B.to_string(), 2));
    assert_eq!(out[1], (ENT_C.to_string(), 2));
    // A is excluded from its own related-entities list.
    assert!(out.iter().all(|(uri, _)| uri != ENT_A));
}

#[test]
fn a25_limit_truncates_after_ordering() {
    let g = load_str(FIXTURE).0;
    assert_eq!(
        rows(&g, ENT_A, 2),
        [(ENT_B.to_string(), 2), (ENT_C.to_string(), 2)]
    );
    // An unknown entity yields no rows.
    assert!(a25::run(&g, "http://dbpedia.org/resource/Unknown", 10).is_empty());
}
