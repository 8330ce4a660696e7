use rustychickpeas_ldbc::rdfgraph::{load_str, PropGraph};
#[allow(unused_imports)]
use rustychickpeas_ldbc::spb::access::{name_of, text_prop_of, uri_of};
use rustychickpeas_ldbc::spb::q7;
// Four creative works carrying dateCreated / title / liveCoverage and
// category + audience edges. cw4 deliberately lacks an `audience` edge, so the
// BGP's "audience bound" requirement must exclude it. Categories/audiences are
// IRI nodes; the loader gives each a `uri` property we facet on.
const FIXTURE: &str = r#"
<http://ex/cw1> <http://www.w3.org/1999/02/22-rdf-syntax-ns#type> <http://www.bbc.co.uk/ontologies/creativework/CreativeWork> .
<http://ex/cw1> <http://www.bbc.co.uk/ontologies/creativework/title> "Winter derby" .
<http://ex/cw1> <http://www.bbc.co.uk/ontologies/creativework/description> "a football match" .
<http://ex/cw1> <http://www.bbc.co.uk/ontologies/creativework/dateCreated> "2012-01-10T09:00:00.000+00:00"^^<http://www.w3.org/2001/XMLSchema#dateTime> .
<http://ex/cw1> <http://www.bbc.co.uk/ontologies/creativework/liveCoverage> "true"^^<http://www.w3.org/2001/XMLSchema#boolean> .
<http://ex/cw1> <http://www.bbc.co.uk/ontologies/creativework/category> <http://www.bbc.co.uk/category/sport> .
<http://ex/cw1> <http://www.bbc.co.uk/ontologies/creativework/audience> <http://www.bbc.co.uk/audience/national> .

<http://ex/cw2> <http://www.w3.org/1999/02/22-rdf-syntax-ns#type> <http://www.bbc.co.uk/ontologies/creativework/CreativeWork> .
<http://ex/cw2> <http://www.bbc.co.uk/ontologies/creativework/title> "Spring debate" .
<http://ex/cw2> <http://www.bbc.co.uk/ontologies/creativework/dateCreated> "2012-06-20T14:30:00.000+00:00"^^<http://www.w3.org/2001/XMLSchema#dateTime> .
<http://ex/cw2> <http://www.bbc.co.uk/ontologies/creativework/liveCoverage> "false"^^<http://www.w3.org/2001/XMLSchema#boolean> .
<http://ex/cw2> <http://www.bbc.co.uk/ontologies/creativework/category> <http://www.bbc.co.uk/category/politics> .
<http://ex/cw2> <http://www.bbc.co.uk/ontologies/creativework/audience> <http://www.bbc.co.uk/audience/international> .

<http://ex/cw3> <http://www.w3.org/1999/02/22-rdf-syntax-ns#type> <http://www.bbc.co.uk/ontologies/creativework/CreativeWork> .
<http://ex/cw3> <http://www.bbc.co.uk/ontologies/creativework/title> "Spring final" .
<http://ex/cw3> <http://www.bbc.co.uk/ontologies/creativework/dateCreated> "2013-03-05T08:00:00.000+00:00"^^<http://www.w3.org/2001/XMLSchema#dateTime> .
<http://ex/cw3> <http://www.bbc.co.uk/ontologies/creativework/liveCoverage> "true"^^<http://www.w3.org/2001/XMLSchema#boolean> .
<http://ex/cw3> <http://www.bbc.co.uk/ontologies/creativework/category> <http://www.bbc.co.uk/category/sport> .
<http://ex/cw3> <http://www.bbc.co.uk/ontologies/creativework/audience> <http://www.bbc.co.uk/audience/national> .

<http://ex/cw4> <http://www.w3.org/1999/02/22-rdf-syntax-ns#type> <http://www.bbc.co.uk/ontologies/creativework/CreativeWork> .
<http://ex/cw4> <http://www.bbc.co.uk/ontologies/creativework/title> "Mid report" .
<http://ex/cw4> <http://www.bbc.co.uk/ontologies/creativework/dateCreated> "2012-04-01T12:00:00.000+00:00"^^<http://www.w3.org/2001/XMLSchema#dateTime> .
<http://ex/cw4> <http://www.bbc.co.uk/ontologies/creativework/liveCoverage> "false"^^<http://www.w3.org/2001/XMLSchema#boolean> .
<http://ex/cw4> <http://www.bbc.co.uk/ontologies/creativework/category> <http://www.bbc.co.uk/category/sport> .
"#;

const SPORT: &str = "http://www.bbc.co.uk/category/sport";
const NATIONAL: &str = "http://www.bbc.co.uk/audience/national";

fn titles(g: &PropGraph, works: &[u32]) -> Vec<String> {
    let mut t: Vec<String> = works.iter().map(|&w| text_prop_of(g, w, "title").unwrap_or("?").to_string()).collect();
    t.sort();
    t
}

#[test]
fn date_range_requires_full_bgp() {
    let g = load_str(FIXTURE).0;
    // 2012 window, no facets: cw1 + cw2 (cw3 is 2013; cw4 lacks an audience).
    let hits = q7::run(&g, "CreativeWork", "2012-01-01", "2012-12-31", None, None);
    assert_eq!(titles(&g, &hits), ["Spring debate", "Winter derby"]);
}

#[test]
fn q7_category_facet() {
    let g = load_str(FIXTURE).0;
    // 2012 + category=sport: cw1 only (cw2 is politics; cw4 sport but no audience).
    let hits = q7::run(&g, "CreativeWork", "2012-01-01", "2012-12-31", Some(SPORT), None);
    assert_eq!(titles(&g, &hits), ["Winter derby"]);
}

#[test]
fn audience_facet_over_full_range() {
    let g = load_str(FIXTURE).0;
    // all years + audience=national: cw1 + cw3 (cw2 international; cw4 unbound).
    let hits = q7::run(&g, "CreativeWork", "2010-01-01", "2014-12-31", None, Some(NATIONAL));
    assert_eq!(titles(&g, &hits), ["Spring final", "Winter derby"]);
}

#[test]
fn narrow_range_picks_one_year() {
    let g = load_str(FIXTURE).0;
    let hits = q7::run(&g, "CreativeWork", "2013-01-01", "2013-12-31", None, None);
    assert_eq!(titles(&g, &hits), ["Spring final"]);
}

#[test]
fn q7_unknown_type_is_empty() {
    let g = load_str(FIXTURE).0;
    assert!(q7::run(&g, "NoSuchType", "2000-01-01", "2099-12-31", None, None).is_empty());
}
