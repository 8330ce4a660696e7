use rustychickpeas_ldbc::rdfgraph::{load_str, PropGraph};
#[allow(unused_imports)]
use rustychickpeas_ldbc::spb::access::{name_of, text_prop_of, uri_of};
use rustychickpeas_ldbc::spb::a8;
// TBox (about/mentions subPropertyOf tag) + two BlogPosts tagging topics via
// about/mentions, one NewsItem (wrong type), and one out-of-window BlogPost.
const FIXTURE: &str = r#"
<http://bbc/about> <http://www.w3.org/2000/01/rdf-schema#subPropertyOf> <http://bbc/tag> .
<http://bbc/mentions> <http://www.w3.org/2000/01/rdf-schema#subPropertyOf> <http://bbc/tag> .

<http://ex/cw1> <http://www.w3.org/1999/02/22-rdf-syntax-ns#type> <http://bbc/BlogPost> .
<http://ex/cw1> <http://www.w3.org/1999/02/22-rdf-syntax-ns#type> <http://bbc/CreativeWork> .
<http://ex/cw1> <http://bbc/about> <http://ex/Acme> .
<http://ex/cw1> <http://bbc/mentions> <http://ex/London> .
<http://ex/cw1> <http://bbc/audience> <http://ex/Intl> .
<http://ex/cw1> <http://bbc/dateModified> "2011-04-01T00:00:00.000Z"^^<http://www.w3.org/2001/XMLSchema#dateTime> .

<http://ex/cw2> <http://www.w3.org/1999/02/22-rdf-syntax-ns#type> <http://bbc/BlogPost> .
<http://ex/cw2> <http://www.w3.org/1999/02/22-rdf-syntax-ns#type> <http://bbc/CreativeWork> .
<http://ex/cw2> <http://bbc/about> <http://ex/Acme> .
<http://ex/cw2> <http://bbc/audience> <http://ex/Intl> .
<http://ex/cw2> <http://bbc/dateModified> "2011-04-15T00:00:00.000Z"^^<http://www.w3.org/2001/XMLSchema#dateTime> .

<http://ex/cw3> <http://www.w3.org/1999/02/22-rdf-syntax-ns#type> <http://bbc/NewsItem> .
<http://ex/cw3> <http://www.w3.org/1999/02/22-rdf-syntax-ns#type> <http://bbc/CreativeWork> .
<http://ex/cw3> <http://bbc/about> <http://ex/Acme> .
<http://ex/cw3> <http://bbc/audience> <http://ex/Intl> .
<http://ex/cw3> <http://bbc/dateModified> "2011-04-10T00:00:00.000Z"^^<http://www.w3.org/2001/XMLSchema#dateTime> .

<http://ex/cw4> <http://www.w3.org/1999/02/22-rdf-syntax-ns#type> <http://bbc/BlogPost> .
<http://ex/cw4> <http://www.w3.org/1999/02/22-rdf-syntax-ns#type> <http://bbc/CreativeWork> .
<http://ex/cw4> <http://bbc/about> <http://ex/Acme> .
<http://ex/cw4> <http://bbc/audience> <http://ex/Intl> .
<http://ex/cw4> <http://bbc/dateModified> "2011-09-01T00:00:00.000Z"^^<http://www.w3.org/2001/XMLSchema#dateTime> .
"#;

#[test]
fn counts_tag_topics_over_type_audience_window() {
    let g = load_str(FIXTURE).0;
    let rows = a8::run(&g, "BlogPost", "http://ex/Intl", "2011-03-01", "2011-06-01");
    // cw1 (about Acme + mentions London) and cw2 (about Acme) are in-window
    // BlogPosts; cw3 is a NewsItem, cw4 is out of window. So Acme=2, London=1.
    assert_eq!(
        rows,
        vec![("http://ex/Acme".to_string(), 2), ("http://ex/London".to_string(), 1)]
    );
}
