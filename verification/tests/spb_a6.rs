use rustychickpeas_ldbc::rdfgraph::{load_str, PropGraph};
#[allow(unused_imports)]
use rustychickpeas_ldbc::spb::access::{name_of, text_prop_of, uri_of};
use rustychickpeas_ldbc::spb::a6;
// TBox (Company/Event subClassOf coreconcepts:Thing) + works carrying a
// liveCoverage flag, an audience edge, and an `about` edge to a typed entity:
// two about a Company, one about an Event, plus one excluded by liveCoverage
// and one excluded by audience.
const FIXTURE: &str = r#"
<http://dbo/Company> <http://www.w3.org/2000/01/rdf-schema#subClassOf> <http://cc/Thing> .
<http://dbo/Event> <http://www.w3.org/2000/01/rdf-schema#subClassOf> <http://cc/Thing> .

<http://ex/cw1> <http://www.w3.org/1999/02/22-rdf-syntax-ns#type> <http://bbc/CreativeWork> .
<http://ex/cw1> <http://bbc/liveCoverage> "true"^^<http://www.w3.org/2001/XMLSchema#boolean> .
<http://ex/cw1> <http://bbc/audience> <http://ex/Intl> .
<http://ex/cw1> <http://bbc/about> <http://ex/Acme> .

<http://ex/cw2> <http://www.w3.org/1999/02/22-rdf-syntax-ns#type> <http://bbc/CreativeWork> .
<http://ex/cw2> <http://bbc/liveCoverage> "true"^^<http://www.w3.org/2001/XMLSchema#boolean> .
<http://ex/cw2> <http://bbc/audience> <http://ex/Intl> .
<http://ex/cw2> <http://bbc/about> <http://ex/Acme> .

<http://ex/cw3> <http://www.w3.org/1999/02/22-rdf-syntax-ns#type> <http://bbc/CreativeWork> .
<http://ex/cw3> <http://bbc/liveCoverage> "true"^^<http://www.w3.org/2001/XMLSchema#boolean> .
<http://ex/cw3> <http://bbc/audience> <http://ex/Intl> .
<http://ex/cw3> <http://bbc/about> <http://ex/WorldCup> .

<http://ex/cw4> <http://www.w3.org/1999/02/22-rdf-syntax-ns#type> <http://bbc/CreativeWork> .
<http://ex/cw4> <http://bbc/liveCoverage> "false"^^<http://www.w3.org/2001/XMLSchema#boolean> .
<http://ex/cw4> <http://bbc/audience> <http://ex/Intl> .
<http://ex/cw4> <http://bbc/about> <http://ex/Globex> .

<http://ex/cw5> <http://www.w3.org/1999/02/22-rdf-syntax-ns#type> <http://bbc/CreativeWork> .
<http://ex/cw5> <http://bbc/liveCoverage> "true"^^<http://www.w3.org/2001/XMLSchema#boolean> .
<http://ex/cw5> <http://bbc/audience> <http://ex/Other> .
<http://ex/cw5> <http://bbc/about> <http://ex/Globex> .

<http://ex/Acme> <http://www.w3.org/1999/02/22-rdf-syntax-ns#type> <http://dbo/Company> .
<http://ex/Globex> <http://www.w3.org/1999/02/22-rdf-syntax-ns#type> <http://dbo/Company> .
<http://ex/WorldCup> <http://www.w3.org/1999/02/22-rdf-syntax-ns#type> <http://dbo/Event> .
"#;

#[test]
fn counts_about_types_including_materialized_thing() {
    let g = load_str(FIXTURE).0;
    // liveCoverage=true, audience=Intl admits cw1, cw2 (about Acme=Company) and
    // cw3 (about WorldCup=Event); cw4 is excluded by liveCoverage, cw5 by
    // audience. Each about-target is also a Thing, so: Thing=3, Company=2,
    // Event=1.
    let rows = a6::run(&g, true, "http://ex/Intl", 1000);
    assert_eq!(
        rows,
        vec![
            ("Thing".to_string(), 3),
            ("Company".to_string(), 2),
            ("Event".to_string(), 1),
        ]
    );
}
