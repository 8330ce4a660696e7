use rustychickpeas_ldbc::rdfgraph::{load_str, PropGraph};
#[allow(unused_imports)]
use rustychickpeas_ldbc::spb::access::{name_of, text_prop_of, uri_of};
use rustychickpeas_ldbc::spb::a5;
// TBox (Company/Event subClassOf coreconcepts:Thing) + works about entities,
// across two categories plus one excluded category.
const FIXTURE: &str = r#"
<http://dbo/Company> <http://www.w3.org/2000/01/rdf-schema#subClassOf> <http://cc/Thing> .
<http://dbo/Event> <http://www.w3.org/2000/01/rdf-schema#subClassOf> <http://cc/Thing> .

<http://ex/cw1> <http://www.w3.org/1999/02/22-rdf-syntax-ns#type> <http://bbc/CreativeWork> .
<http://ex/cw1> <http://bbc/category> <http://cat/Company> .
<http://ex/cw1> <http://bbc/about> <http://ex/Acme> .

<http://ex/cw2> <http://www.w3.org/1999/02/22-rdf-syntax-ns#type> <http://bbc/CreativeWork> .
<http://ex/cw2> <http://bbc/category> <http://cat/Event> .
<http://ex/cw2> <http://bbc/about> <http://ex/Acme> .

<http://ex/cw3> <http://www.w3.org/1999/02/22-rdf-syntax-ns#type> <http://bbc/CreativeWork> .
<http://ex/cw3> <http://bbc/category> <http://cat/Persons> .
<http://ex/cw3> <http://bbc/about> <http://ex/Globex> .

<http://ex/Acme> <http://www.w3.org/1999/02/22-rdf-syntax-ns#type> <http://dbo/Company> .
<http://ex/Globex> <http://www.w3.org/1999/02/22-rdf-syntax-ns#type> <http://dbo/Company> .
"#;

#[test]
fn counts_about_things_in_either_category() {
    let g = load_str(FIXTURE).0;
    // Categories Company + Event: cw1, cw2 (both about Acme, a Thing) -> 2.
    // cw3 (Persons category) excluded, so Globex never counted.
    let rows = a5::run(&g, "Thing", "http://cat/Company", "http://cat/Event", 1000);
    assert_eq!(rows, vec![("http://ex/Acme".to_string(), 2)]);
}
