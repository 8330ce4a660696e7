use rustychickpeas_ldbc::rdfgraph::{load_str, PropGraph};
#[allow(unused_imports)]
use rustychickpeas_ldbc::spb::access::{name_of, text_prop_of, uri_of};
use rustychickpeas_ldbc::spb::a14;
const VIDEO: &str = "http://www.bbc.co.uk/ontologies/creativework/VideoFormat";
const MOBILE: &str = "http://www.bbc.co.uk/ontologies/bbc/Mobile";

// TBox (about/mentions subPropertyOf tag, so the topic links materialize a tag
// rel) plus five CreativeWorks: two fully-specified Video/Mobile matches
// (differing dateModified, to exercise the DESC ordering) and three that each
// drop one required/filtered pattern — missing thumbnail, wrong primaryFormat,
// wrong webDocumentType — and so must be excluded.
const FIXTURE: &str = r#"
<http://www.bbc.co.uk/ontologies/creativework/about> <http://www.w3.org/2000/01/rdf-schema#subPropertyOf> <http://www.bbc.co.uk/ontologies/creativework/tag> .
<http://www.bbc.co.uk/ontologies/creativework/mentions> <http://www.w3.org/2000/01/rdf-schema#subPropertyOf> <http://www.bbc.co.uk/ontologies/creativework/tag> .

<http://ex/cw-new> <http://www.w3.org/1999/02/22-rdf-syntax-ns#type> <http://www.bbc.co.uk/ontologies/creativework/CreativeWork> .
<http://ex/cw-new> <http://www.bbc.co.uk/ontologies/creativework/title> "Newest" .
<http://ex/cw-new> <http://www.bbc.co.uk/ontologies/creativework/category> <http://www.bbc.co.uk/category/Politics> .
<http://ex/cw-new> <http://www.bbc.co.uk/ontologies/creativework/dateModified> "2024-06-01T12:00:00.000Z"^^<http://www.w3.org/2001/XMLSchema#dateTime> .
<http://ex/cw-new> <http://www.bbc.co.uk/ontologies/creativework/thumbnail> <http://www.bbc.co.uk/thumbnail/1> .
<http://ex/cw-new> <http://www.bbc.co.uk/ontologies/creativework/audience> <http://www.bbc.co.uk/ontologies/creativework/NationalAudience> .
<http://ex/cw-new> <http://www.bbc.co.uk/ontologies/creativework/primaryFormat> <http://www.bbc.co.uk/ontologies/creativework/VideoFormat> .
<http://ex/cw-new> <http://www.bbc.co.uk/ontologies/creativework/about> <http://dbpedia.org/resource/Policy> .
<http://ex/cw-new> <http://www.bbc.co.uk/ontologies/bbc/primaryContentOf> <http://ex/doc-new> .
<http://ex/doc-new> <http://www.bbc.co.uk/ontologies/bbc/webDocumentType> <http://www.bbc.co.uk/ontologies/bbc/Mobile> .

<http://ex/cw-old> <http://www.w3.org/1999/02/22-rdf-syntax-ns#type> <http://www.bbc.co.uk/ontologies/creativework/CreativeWork> .
<http://ex/cw-old> <http://www.bbc.co.uk/ontologies/creativework/title> "Oldest" .
<http://ex/cw-old> <http://www.bbc.co.uk/ontologies/creativework/category> <http://www.bbc.co.uk/category/Politics> .
<http://ex/cw-old> <http://www.bbc.co.uk/ontologies/creativework/dateModified> "2024-01-01T12:00:00.000Z"^^<http://www.w3.org/2001/XMLSchema#dateTime> .
<http://ex/cw-old> <http://www.bbc.co.uk/ontologies/creativework/thumbnail> <http://www.bbc.co.uk/thumbnail/2> .
<http://ex/cw-old> <http://www.bbc.co.uk/ontologies/creativework/audience> <http://www.bbc.co.uk/ontologies/creativework/NationalAudience> .
<http://ex/cw-old> <http://www.bbc.co.uk/ontologies/creativework/primaryFormat> <http://www.bbc.co.uk/ontologies/creativework/VideoFormat> .
<http://ex/cw-old> <http://www.bbc.co.uk/ontologies/creativework/about> <http://dbpedia.org/resource/Policy> .
<http://ex/cw-old> <http://www.bbc.co.uk/ontologies/bbc/primaryContentOf> <http://ex/doc-old> .
<http://ex/doc-old> <http://www.bbc.co.uk/ontologies/bbc/webDocumentType> <http://www.bbc.co.uk/ontologies/bbc/Mobile> .

<http://ex/cw-nothumb> <http://www.w3.org/1999/02/22-rdf-syntax-ns#type> <http://www.bbc.co.uk/ontologies/creativework/CreativeWork> .
<http://ex/cw-nothumb> <http://www.bbc.co.uk/ontologies/creativework/title> "No thumbnail" .
<http://ex/cw-nothumb> <http://www.bbc.co.uk/ontologies/creativework/category> <http://www.bbc.co.uk/category/Politics> .
<http://ex/cw-nothumb> <http://www.bbc.co.uk/ontologies/creativework/dateModified> "2024-05-01T12:00:00.000Z"^^<http://www.w3.org/2001/XMLSchema#dateTime> .
<http://ex/cw-nothumb> <http://www.bbc.co.uk/ontologies/creativework/audience> <http://www.bbc.co.uk/ontologies/creativework/NationalAudience> .
<http://ex/cw-nothumb> <http://www.bbc.co.uk/ontologies/creativework/primaryFormat> <http://www.bbc.co.uk/ontologies/creativework/VideoFormat> .
<http://ex/cw-nothumb> <http://www.bbc.co.uk/ontologies/creativework/about> <http://dbpedia.org/resource/Policy> .
<http://ex/cw-nothumb> <http://www.bbc.co.uk/ontologies/bbc/primaryContentOf> <http://ex/doc-nothumb> .
<http://ex/doc-nothumb> <http://www.bbc.co.uk/ontologies/bbc/webDocumentType> <http://www.bbc.co.uk/ontologies/bbc/Mobile> .

<http://ex/cw-wrongfmt> <http://www.w3.org/1999/02/22-rdf-syntax-ns#type> <http://www.bbc.co.uk/ontologies/creativework/CreativeWork> .
<http://ex/cw-wrongfmt> <http://www.bbc.co.uk/ontologies/creativework/title> "Wrong format" .
<http://ex/cw-wrongfmt> <http://www.bbc.co.uk/ontologies/creativework/category> <http://www.bbc.co.uk/category/Politics> .
<http://ex/cw-wrongfmt> <http://www.bbc.co.uk/ontologies/creativework/dateModified> "2024-05-01T12:00:00.000Z"^^<http://www.w3.org/2001/XMLSchema#dateTime> .
<http://ex/cw-wrongfmt> <http://www.bbc.co.uk/ontologies/creativework/thumbnail> <http://www.bbc.co.uk/thumbnail/3> .
<http://ex/cw-wrongfmt> <http://www.bbc.co.uk/ontologies/creativework/audience> <http://www.bbc.co.uk/ontologies/creativework/NationalAudience> .
<http://ex/cw-wrongfmt> <http://www.bbc.co.uk/ontologies/creativework/primaryFormat> <http://www.bbc.co.uk/ontologies/creativework/TextualFormat> .
<http://ex/cw-wrongfmt> <http://www.bbc.co.uk/ontologies/creativework/about> <http://dbpedia.org/resource/Policy> .
<http://ex/cw-wrongfmt> <http://www.bbc.co.uk/ontologies/bbc/primaryContentOf> <http://ex/doc-wrongfmt> .
<http://ex/doc-wrongfmt> <http://www.bbc.co.uk/ontologies/bbc/webDocumentType> <http://www.bbc.co.uk/ontologies/bbc/Mobile> .

<http://ex/cw-wrongdoc> <http://www.w3.org/1999/02/22-rdf-syntax-ns#type> <http://www.bbc.co.uk/ontologies/creativework/CreativeWork> .
<http://ex/cw-wrongdoc> <http://www.bbc.co.uk/ontologies/creativework/title> "Wrong web document" .
<http://ex/cw-wrongdoc> <http://www.bbc.co.uk/ontologies/creativework/category> <http://www.bbc.co.uk/category/Politics> .
<http://ex/cw-wrongdoc> <http://www.bbc.co.uk/ontologies/creativework/dateModified> "2024-05-01T12:00:00.000Z"^^<http://www.w3.org/2001/XMLSchema#dateTime> .
<http://ex/cw-wrongdoc> <http://www.bbc.co.uk/ontologies/creativework/thumbnail> <http://www.bbc.co.uk/thumbnail/4> .
<http://ex/cw-wrongdoc> <http://www.bbc.co.uk/ontologies/creativework/audience> <http://www.bbc.co.uk/ontologies/creativework/NationalAudience> .
<http://ex/cw-wrongdoc> <http://www.bbc.co.uk/ontologies/creativework/primaryFormat> <http://www.bbc.co.uk/ontologies/creativework/VideoFormat> .
<http://ex/cw-wrongdoc> <http://www.bbc.co.uk/ontologies/creativework/about> <http://dbpedia.org/resource/Policy> .
<http://ex/cw-wrongdoc> <http://www.bbc.co.uk/ontologies/bbc/primaryContentOf> <http://ex/doc-wrongdoc> .
<http://ex/doc-wrongdoc> <http://www.bbc.co.uk/ontologies/bbc/webDocumentType> <http://www.bbc.co.uk/ontologies/bbc/HighWeb> .
"#;

fn uris(g: &PropGraph, works: &[u32]) -> Vec<String> {
    works
        .iter()
        .map(|&w| uri_of(g, w).unwrap_or("?").to_string())
        .collect()
}

#[test]
fn full_star_filtered_and_ordered_desc() {
    let g = load_str(FIXTURE).0;
    let out = a14::run(&g, VIDEO, MOBILE, 100);
    // Only the two fully-specified Video/Mobile works survive, newest first;
    // the missing-thumbnail, wrong-format and wrong-web-document works drop out.
    assert_eq!(uris(&g, &out), ["http://ex/cw-new", "http://ex/cw-old"]);
}

#[test]
fn limit_truncates_after_date_order() {
    let g = load_str(FIXTURE).0;
    // LIMIT 1 keeps the newest of the two matches.
    assert_eq!(uris(&g, &a14::run(&g, VIDEO, MOBILE, 1)), ["http://ex/cw-new"]);
}

#[test]
fn unmatched_format_yields_empty() {
    let g = load_str(FIXTURE).0;
    // A primaryFormat nobody carries -> no matches.
    let out = a14::run(
        &g,
        "http://www.bbc.co.uk/ontologies/creativework/AudioFormat",
        MOBILE,
        100,
    );
    assert!(out.is_empty());
}
