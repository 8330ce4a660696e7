use rustychickpeas_ldbc::rdfgraph::{load_str, PropGraph};
#[allow(unused_imports)]
use rustychickpeas_ldbc::spb::access::{name_of, text_prop_of, uri_of};
use rustychickpeas_ldbc::spb::a13;
// TBox (about/mentions subPropertyOf tag) + one work in cat Sports tagging two
// entities (about + mentions) and one work in the excluded cat Politics.
const FIXTURE: &str = r#"
<http://bbc/about> <http://www.w3.org/2000/01/rdf-schema#subPropertyOf> <http://bbc/tag> .
<http://bbc/mentions> <http://www.w3.org/2000/01/rdf-schema#subPropertyOf> <http://bbc/tag> .

<http://ex/cw1> <http://www.w3.org/1999/02/22-rdf-syntax-ns#type> <http://bbc/CreativeWork> .
<http://ex/cw1> <http://bbc/category> <http://cat/Sports> .
<http://ex/cw1> <http://bbc/about> <http://ex/Acme> .
<http://ex/cw1> <http://bbc/mentions> <http://ex/London> .
<http://ex/cw1> <http://bbc/dateModified> "2011-04-01T00:00:00.000Z"^^<http://www.w3.org/2001/XMLSchema#dateTime> .

<http://ex/cw2> <http://www.w3.org/1999/02/22-rdf-syntax-ns#type> <http://bbc/CreativeWork> .
<http://ex/cw2> <http://bbc/category> <http://cat/Politics> .
<http://ex/cw2> <http://bbc/about> <http://ex/Globex> .
<http://ex/cw2> <http://bbc/dateModified> "2011-04-02T00:00:00.000Z"^^<http://www.w3.org/2001/XMLSchema#dateTime> .
"#;

#[test]
fn one_row_per_tag_for_works_in_either_category() {
    let g = load_str(FIXTURE).0;
    // cw1 (Sports) tags Acme (about) + London (mentions) -> two rows; cw2
    // (Politics) is excluded.
    let rows = a13::run(&g, "http://cat/Sports", "http://cat/Weather", 100);
    assert_eq!(
        rows,
        vec![
            ("http://ex/cw1".to_string(), "http://ex/Acme".to_string()),
            ("http://ex/cw1".to_string(), "http://ex/London".to_string()),
        ]
    );
}

#[test]
fn excludes_works_outside_both_categories() {
    let g = load_str(FIXTURE).0;
    // Neither work is in Tech or Weather, so nothing matches.
    assert!(a13::run(&g, "http://cat/Tech", "http://cat/Weather", 100).is_empty());
}
