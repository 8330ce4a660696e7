use rustychickpeas_ldbc::rdfgraph::{load_str, PropGraph};
#[allow(unused_imports)]
use rustychickpeas_ldbc::spb::access::{name_of, text_prop_of, uri_of};
use rustychickpeas_ldbc::spb::a3;
// TBox (BlogPost subClassOf CreativeWork) + four in-window works (two sharing
// minute 30) and one work before the window.
const FIXTURE: &str = r#"
<http://bbc/BlogPost> <http://www.w3.org/2000/01/rdf-schema#subClassOf> <http://bbc/CreativeWork> .

<http://ex/cw1> <http://www.w3.org/1999/02/22-rdf-syntax-ns#type> <http://bbc/BlogPost> .
<http://ex/cw1> <http://bbc/dateModified> "2011-04-01T12:30:15.000Z"^^<http://www.w3.org/2001/XMLSchema#dateTime> .

<http://ex/cw2> <http://www.w3.org/1999/02/22-rdf-syntax-ns#type> <http://bbc/BlogPost> .
<http://ex/cw2> <http://bbc/dateModified> "2011-06-02T08:30:45.000Z"^^<http://www.w3.org/2001/XMLSchema#dateTime> .

<http://ex/cw3> <http://www.w3.org/1999/02/22-rdf-syntax-ns#type> <http://bbc/BlogPost> .
<http://ex/cw3> <http://bbc/dateModified> "2011-07-03T09:04:00.000Z"^^<http://www.w3.org/2001/XMLSchema#dateTime> .

<http://ex/cw4> <http://www.w3.org/1999/02/22-rdf-syntax-ns#type> <http://bbc/BlogPost> .
<http://ex/cw4> <http://bbc/dateModified> "2011-08-04T10:15:00.000Z"^^<http://www.w3.org/2001/XMLSchema#dateTime> .

<http://ex/cw5> <http://www.w3.org/1999/02/22-rdf-syntax-ns#type> <http://bbc/BlogPost> .
<http://ex/cw5> <http://bbc/dateModified> "2010-01-01T00:30:00.000Z"^^<http://www.w3.org/2001/XMLSchema#dateTime> .
"#;

#[test]
fn counts_by_minute_in_window() {
    let g = load_str(FIXTURE).0;
    // In-window: cw1/cw2 at minute 30 (count 2), cw3 at minute 4, cw4 at
    // minute 15. cw5 (minute 30) is before the window, so it does not count.
    // Ordered by count desc then minute: 30, then 4, then 15. The minute "04"
    // renders as "4" (no leading zero).
    let rows = a3::run(&g, "2011-01-01", "2012-01-01");
    assert_eq!(
        rows,
        vec![("30".to_string(), 2), ("4".to_string(), 1), ("15".to_string(), 1)]
    );
}
