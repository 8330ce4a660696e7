use rustychickpeas_ldbc::rdfgraph::{load_str, PropGraph};
#[allow(unused_imports)]
use rustychickpeas_ldbc::spb::access::{name_of, text_prop_of, uri_of};
use rustychickpeas_ldbc::spb::a18;
// Five creative works with varying dateModified. cwD deliberately lacks an
// `audience` edge, so the BGP must exclude it regardless of its date.
const FIXTURE: &str = r#"
<http://ex/cwA> <http://www.w3.org/1999/02/22-rdf-syntax-ns#type> <http://www.bbc.co.uk/ontologies/creativework/CreativeWork> .
<http://ex/cwA> <http://www.bbc.co.uk/ontologies/creativework/title> "Alpha update" .
<http://ex/cwA> <http://www.bbc.co.uk/ontologies/creativework/dateModified> "2012-02-01T09:00:00.000+00:00"^^<http://www.w3.org/2001/XMLSchema#dateTime> .
<http://ex/cwA> <http://www.bbc.co.uk/ontologies/creativework/liveCoverage> "true"^^<http://www.w3.org/2001/XMLSchema#boolean> .
<http://ex/cwA> <http://www.bbc.co.uk/ontologies/creativework/category> <http://www.bbc.co.uk/category/sport> .
<http://ex/cwA> <http://www.bbc.co.uk/ontologies/creativework/audience> <http://www.bbc.co.uk/audience/national> .

<http://ex/cwB> <http://www.w3.org/1999/02/22-rdf-syntax-ns#type> <http://www.bbc.co.uk/ontologies/creativework/CreativeWork> .
<http://ex/cwB> <http://www.bbc.co.uk/ontologies/creativework/title> "Bravo update" .
<http://ex/cwB> <http://www.bbc.co.uk/ontologies/creativework/dateModified> "2012-08-15T14:30:00.000+00:00"^^<http://www.w3.org/2001/XMLSchema#dateTime> .
<http://ex/cwB> <http://www.bbc.co.uk/ontologies/creativework/liveCoverage> "false"^^<http://www.w3.org/2001/XMLSchema#boolean> .
<http://ex/cwB> <http://www.bbc.co.uk/ontologies/creativework/category> <http://www.bbc.co.uk/category/politics> .
<http://ex/cwB> <http://www.bbc.co.uk/ontologies/creativework/audience> <http://www.bbc.co.uk/audience/international> .

<http://ex/cwC> <http://www.w3.org/1999/02/22-rdf-syntax-ns#type> <http://www.bbc.co.uk/ontologies/creativework/CreativeWork> .
<http://ex/cwC> <http://www.bbc.co.uk/ontologies/creativework/title> "Charlie update" .
<http://ex/cwC> <http://www.bbc.co.uk/ontologies/creativework/dateModified> "2013-01-01T08:00:00.000+00:00"^^<http://www.w3.org/2001/XMLSchema#dateTime> .
<http://ex/cwC> <http://www.bbc.co.uk/ontologies/creativework/liveCoverage> "true"^^<http://www.w3.org/2001/XMLSchema#boolean> .
<http://ex/cwC> <http://www.bbc.co.uk/ontologies/creativework/category> <http://www.bbc.co.uk/category/sport> .
<http://ex/cwC> <http://www.bbc.co.uk/ontologies/creativework/audience> <http://www.bbc.co.uk/audience/national> .

<http://ex/cwD> <http://www.w3.org/1999/02/22-rdf-syntax-ns#type> <http://www.bbc.co.uk/ontologies/creativework/CreativeWork> .
<http://ex/cwD> <http://www.bbc.co.uk/ontologies/creativework/title> "Delta update" .
<http://ex/cwD> <http://www.bbc.co.uk/ontologies/creativework/dateModified> "2012-05-05T12:00:00.000+00:00"^^<http://www.w3.org/2001/XMLSchema#dateTime> .
<http://ex/cwD> <http://www.bbc.co.uk/ontologies/creativework/liveCoverage> "false"^^<http://www.w3.org/2001/XMLSchema#boolean> .
<http://ex/cwD> <http://www.bbc.co.uk/ontologies/creativework/category> <http://www.bbc.co.uk/category/sport> .

<http://ex/cwE> <http://www.w3.org/1999/02/22-rdf-syntax-ns#type> <http://www.bbc.co.uk/ontologies/creativework/CreativeWork> .
<http://ex/cwE> <http://www.bbc.co.uk/ontologies/creativework/title> "Echo update" .
<http://ex/cwE> <http://www.bbc.co.uk/ontologies/creativework/dateModified> "2011-12-01T07:00:00.000+00:00"^^<http://www.w3.org/2001/XMLSchema#dateTime> .
<http://ex/cwE> <http://www.bbc.co.uk/ontologies/creativework/liveCoverage> "true"^^<http://www.w3.org/2001/XMLSchema#boolean> .
<http://ex/cwE> <http://www.bbc.co.uk/ontologies/creativework/category> <http://www.bbc.co.uk/category/sport> .
<http://ex/cwE> <http://www.bbc.co.uk/ontologies/creativework/audience> <http://www.bbc.co.uk/audience/national> .
"#;

/// Titles in result order (no sort — verifies ORDER BY DESC is applied).
fn ordered_titles(g: &PropGraph, works: &[u32]) -> Vec<String> {
    works.iter().map(|&w| text_prop_of(g, w, "title").unwrap_or("?").to_string()).collect()
}

#[test]
fn in_range_newest_first() {
    let g = load_str(FIXTURE).0;
    // 2012 window: cwA(02), cwB(08) bound & in range; cwD lacks audience,
    // cwC is 2013, cwE is 2011. DESC -> Bravo (Aug) before Alpha (Feb).
    let hits = a18::run(&g, "CreativeWork", "2012-01-01", "2012-12-31", 10);
    assert_eq!(ordered_titles(&g, &hits), ["Bravo update", "Alpha update"]);
}

#[test]
fn a18_limit_truncates_after_ordering() {
    let g = load_str(FIXTURE).0;
    // Full range, all bound: cwC(2013), cwB(08/2012), cwA(02/2012), cwE(2011).
    // DESC then LIMIT 2 -> the two newest.
    let hits = a18::run(&g, "CreativeWork", "2010-01-01", "2014-12-31", 2);
    assert_eq!(ordered_titles(&g, &hits), ["Charlie update", "Bravo update"]);
}

#[test]
fn unbound_audience_is_excluded() {
    let g = load_str(FIXTURE).0;
    // cwD (no audience) sits inside the window but must never appear.
    let hits = a18::run(&g, "CreativeWork", "2012-04-01", "2012-06-01", 10);
    assert!(hits.is_empty());
}

#[test]
fn limit_zero_is_empty() {
    let g = load_str(FIXTURE).0;
    assert!(a18::run(&g, "CreativeWork", "2010-01-01", "2014-12-31", 0).is_empty());
}

#[test]
fn a18_unknown_type_is_empty() {
    let g = load_str(FIXTURE).0;
    assert!(a18::run(&g, "NoSuchType", "2000-01-01", "2099-12-31", 10).is_empty());
}
