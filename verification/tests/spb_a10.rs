use rustychickpeas_ldbc::rdfgraph::{load_str, PropGraph};
#[allow(unused_imports)]
use rustychickpeas_ldbc::spb::access::{name_of, text_prop_of, uri_of};
use rustychickpeas_ldbc::spb::a10;
// Four works: cw1 mentions 1 thing, cw2/cw3/cw4 mention 3. cw1..cw3 carry a
// dateCreated; cw4 attains the maximum but lacks one, so it is filtered.
const FIXTURE: &str = r#"
<http://ex/cw1> <http://www.w3.org/1999/02/22-rdf-syntax-ns#type> <http://bbc/CreativeWork> .
<http://ex/cw1> <http://bbc/mentions> <http://ex/t1> .
<http://ex/cw1> <http://bbc/dateCreated> "2011-01-01T00:00:00.000Z"^^<http://www.w3.org/2001/XMLSchema#dateTime> .

<http://ex/cw2> <http://www.w3.org/1999/02/22-rdf-syntax-ns#type> <http://bbc/CreativeWork> .
<http://ex/cw2> <http://bbc/mentions> <http://ex/t1> .
<http://ex/cw2> <http://bbc/mentions> <http://ex/t2> .
<http://ex/cw2> <http://bbc/mentions> <http://ex/t3> .
<http://ex/cw2> <http://bbc/dateCreated> "2011-02-01T00:00:00.000Z"^^<http://www.w3.org/2001/XMLSchema#dateTime> .

<http://ex/cw3> <http://www.w3.org/1999/02/22-rdf-syntax-ns#type> <http://bbc/CreativeWork> .
<http://ex/cw3> <http://bbc/mentions> <http://ex/t1> .
<http://ex/cw3> <http://bbc/mentions> <http://ex/t2> .
<http://ex/cw3> <http://bbc/mentions> <http://ex/t3> .
<http://ex/cw3> <http://bbc/dateCreated> "2011-03-01T00:00:00.000Z"^^<http://www.w3.org/2001/XMLSchema#dateTime> .

<http://ex/cw4> <http://www.w3.org/1999/02/22-rdf-syntax-ns#type> <http://bbc/CreativeWork> .
<http://ex/cw4> <http://bbc/mentions> <http://ex/t1> .
<http://ex/cw4> <http://bbc/mentions> <http://ex/t2> .
<http://ex/cw4> <http://bbc/mentions> <http://ex/t3> .
"#;

#[test]
fn returns_max_mention_works_with_date_created() {
    let g = load_str(FIXTURE).0;
    let rows = a10::run(&g, 10);
    // max mentions = 3 (cw2, cw3, cw4); cw1 has only 1, cw4 lacks dateCreated.
    assert_eq!(
        rows,
        vec![
            ("http://ex/cw2".to_string(), 3),
            ("http://ex/cw3".to_string(), 3)
        ]
    );
}
