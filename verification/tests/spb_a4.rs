use rustychickpeas_ldbc::rdfgraph::{load_str, PropGraph};
#[allow(unused_imports)]
use rustychickpeas_ldbc::spb::access::{name_of, text_prop_of, uri_of};
use rustychickpeas_ldbc::spb::a4;
// Two BlogPosts (both in window) and two NewsItems (one in, one out); no
// Programme. Each work is typed with its subtype plus the CreativeWork
// supertype, as the extract materializes it.
const FIXTURE: &str = r#"
<http://ex/bp1> <http://www.w3.org/1999/02/22-rdf-syntax-ns#type> <http://bbc/BlogPost> .
<http://ex/bp1> <http://www.w3.org/1999/02/22-rdf-syntax-ns#type> <http://bbc/CreativeWork> .
<http://ex/bp1> <http://bbc/dateModified> "2011-04-01T00:00:00.000Z"^^<http://www.w3.org/2001/XMLSchema#dateTime> .

<http://ex/bp2> <http://www.w3.org/1999/02/22-rdf-syntax-ns#type> <http://bbc/BlogPost> .
<http://ex/bp2> <http://www.w3.org/1999/02/22-rdf-syntax-ns#type> <http://bbc/CreativeWork> .
<http://ex/bp2> <http://bbc/dateModified> "2011-04-15T00:00:00.000Z"^^<http://www.w3.org/2001/XMLSchema#dateTime> .

<http://ex/ni1> <http://www.w3.org/1999/02/22-rdf-syntax-ns#type> <http://bbc/NewsItem> .
<http://ex/ni1> <http://www.w3.org/1999/02/22-rdf-syntax-ns#type> <http://bbc/CreativeWork> .
<http://ex/ni1> <http://bbc/dateModified> "2011-04-10T00:00:00.000Z"^^<http://www.w3.org/2001/XMLSchema#dateTime> .

<http://ex/ni2> <http://www.w3.org/1999/02/22-rdf-syntax-ns#type> <http://bbc/NewsItem> .
<http://ex/ni2> <http://www.w3.org/1999/02/22-rdf-syntax-ns#type> <http://bbc/CreativeWork> .
<http://ex/ni2> <http://bbc/dateModified> "2011-09-01T00:00:00.000Z"^^<http://www.w3.org/2001/XMLSchema#dateTime> .
"#;

#[test]
fn counts_subtypes_in_window_ranked() {
    let g = load_str(FIXTURE).0;
    let rows = a4::run(&g, "2011-03-01", "2011-06-01", 10);
    // bp1+bp2 in window -> BlogPost 2; ni1 in, ni2 (Sept) out -> NewsItem 1;
    // Programme has no work, so it never appears.
    assert_eq!(
        rows,
        vec![("BlogPost".to_string(), 2), ("NewsItem".to_string(), 1)]
    );
}
