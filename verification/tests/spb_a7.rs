use rustychickpeas_ldbc::rdfgraph::{load_str, PropGraph};
#[allow(unused_imports)]
use rustychickpeas_ldbc::spb::access::{name_of, text_prop_of, uri_of};
use rustychickpeas_ldbc::spb::a7;
// Three works with primaryContentOf out-degrees 2, 3, 1 mentioning shared
// Features; with threshold 1 only the first two qualify.
const FIXTURE: &str = r#"
<http://ex/cw1> <http://www.w3.org/1999/02/22-rdf-syntax-ns#type> <http://bbc/CreativeWork> .
<http://ex/cw1> <http://bbc/primaryContentOf> <http://ex/pc1> .
<http://ex/cw1> <http://bbc/primaryContentOf> <http://ex/pc2> .
<http://ex/cw1> <http://bbc/mentions> <http://ex/London> .
<http://ex/cw1> <http://bbc/mentions> <http://ex/Paris> .

<http://ex/cw2> <http://www.w3.org/1999/02/22-rdf-syntax-ns#type> <http://bbc/CreativeWork> .
<http://ex/cw2> <http://bbc/primaryContentOf> <http://ex/pc3> .
<http://ex/cw2> <http://bbc/primaryContentOf> <http://ex/pc4> .
<http://ex/cw2> <http://bbc/primaryContentOf> <http://ex/pc5> .
<http://ex/cw2> <http://bbc/mentions> <http://ex/London> .

<http://ex/cw3> <http://www.w3.org/1999/02/22-rdf-syntax-ns#type> <http://bbc/CreativeWork> .
<http://ex/cw3> <http://bbc/primaryContentOf> <http://ex/pc6> .
<http://ex/cw3> <http://bbc/mentions> <http://ex/London> .
<http://ex/cw3> <http://bbc/mentions> <http://ex/Berlin> .

<http://ex/London> <http://www.w3.org/1999/02/22-rdf-syntax-ns#type> <http://geonames/Feature> .
<http://ex/Paris> <http://www.w3.org/1999/02/22-rdf-syntax-ns#type> <http://geonames/Feature> .
<http://ex/Berlin> <http://www.w3.org/1999/02/22-rdf-syntax-ns#type> <http://geonames/Feature> .
"#;

#[test]
fn counts_mentions_over_primary_content_threshold() {
    let g = load_str(FIXTURE).0;
    // threshold 1 -> only cw1 (out-degree 2) and cw2 (out-degree 3) qualify;
    // cw3 (out-degree 1) is excluded. London is mentioned by both, Paris by cw1.
    let rows = a7::run(&g, 1, 10);
    assert_eq!(
        rows,
        vec![("http://ex/London".to_string(), 2), ("http://ex/Paris".to_string(), 1)]
    );
}
