use rustychickpeas_ldbc::rdfgraph::{load_str, PropGraph};
use rustychickpeas_ldbc::spb::access::{name_of, text_prop_of};
use rustychickpeas_ldbc::spb::{a1, q1, q3, q4};

/// The titles of `works`, in order.
fn titles(g: &PropGraph, works: &[u32]) -> Vec<String> {
    works
        .iter()
        .map(|&w| text_prop_of(g, w, "title").unwrap_or("?").to_string())
        .collect()
}

fn names(g: &PropGraph, works: &[u32]) -> Vec<String> {
    works.iter().map(|&w| name_of(g, w).to_string()).collect()
}

const A1_FIXTURE: &str = r#"
<http://bbc/BlogPost> <http://www.w3.org/2000/01/rdf-schema#subClassOf> <http://bbc/CreativeWork> .
<http://bbc/NewsItem> <http://www.w3.org/2000/01/rdf-schema#subClassOf> <http://bbc/CreativeWork> .

<http://ex/Acme> <http://www.w3.org/1999/02/22-rdf-syntax-ns#type> <http://dbo/Company> .

<http://ex/cw1> <http://www.w3.org/1999/02/22-rdf-syntax-ns#type> <http://bbc/BlogPost> .
<http://ex/cw1> <http://bbc/about> <http://ex/Acme> .
<http://ex/cw1> <http://bbc/title> "Recent about" .
<http://ex/cw1> <http://bbc/dateModified> "2011-05-10T00:00:00.000Z"^^<http://www.w3.org/2001/XMLSchema#dateTime> .

<http://ex/cw2> <http://www.w3.org/1999/02/22-rdf-syntax-ns#type> <http://bbc/NewsItem> .
<http://ex/cw2> <http://bbc/about> <http://ex/Acme> .
<http://ex/cw2> <http://bbc/title> "Undated about" .

<http://ex/cw3> <http://www.w3.org/1999/02/22-rdf-syntax-ns#type> <http://bbc/BlogPost> .
<http://ex/cw3> <http://bbc/about> <http://ex/Acme> .
<http://ex/cw3> <http://bbc/title> "Old about" .
<http://ex/cw3> <http://bbc/dateModified> "2011-01-01T00:00:00.000Z"^^<http://www.w3.org/2001/XMLSchema#dateTime> .

<http://ex/cw4> <http://www.w3.org/1999/02/22-rdf-syntax-ns#type> <http://bbc/BlogPost> .
<http://ex/cw4> <http://bbc/mentions> <http://ex/Acme> .
<http://ex/cw4> <http://bbc/title> "Mentions" .
<http://ex/cw4> <http://bbc/dateModified> "2012-01-01T00:00:00.000Z"^^<http://www.w3.org/2001/XMLSchema#dateTime> .
"#;


#[test]
fn about_works_ordered_by_modified_desc_undated_excluded() {
    let g = load_str(A1_FIXTURE).0;
    // cw1 (2011-05-10) and cw3 (2011-01-01) are dated about-works; cw2 lacks a
    // dateModified so it is dropped; cw4 is a mentions-work, not an about-work.
    assert_eq!(titles(&g, &a1::run(&g, "about", "http://ex/Acme")), ["Recent about", "Old about"]);
}

#[test]
fn mentions_predicate_selects_the_mentions_work() {
    let g = load_str(A1_FIXTURE).0;
    assert_eq!(titles(&g, &a1::run(&g, "mentions", "http://ex/Acme")), ["Mentions"]);
}

#[test]
fn unknown_thing_is_empty() {
    let g = load_str(A1_FIXTURE).0;
    assert!(a1::run(&g, "about", "http://ex/Nope").is_empty());
}

const Q1_FIXTURE: &str = r#"
<http://sws.geonames.org/london> <http://www.w3.org/1999/02/22-rdf-syntax-ns#type> <http://www.geonames.org/ontology#Feature> .
<http://sws.geonames.org/london> <http://www.geonames.org/ontology#name> "London" .
<http://sws.geonames.org/paris> <http://www.w3.org/1999/02/22-rdf-syntax-ns#type> <http://www.geonames.org/ontology#Feature> .
<http://sws.geonames.org/paris> <http://www.geonames.org/ontology#name> "Paris" .

<http://ex/cw1> <http://www.w3.org/1999/02/22-rdf-syntax-ns#type> <http://www.bbc.co.uk/ontologies/creativework/CreativeWork> .
<http://ex/cw1> <http://www.bbc.co.uk/ontologies/creativework/title> "Mentions June" .
<http://ex/cw1> <http://www.bbc.co.uk/ontologies/creativework/mentions> <http://sws.geonames.org/london> .
<http://ex/cw1> <http://www.bbc.co.uk/ontologies/creativework/dateModified> "2024-06-01T12:00:00.000+00:00"^^<http://www.w3.org/2001/XMLSchema#dateTime> .

<http://ex/cw2> <http://www.w3.org/1999/02/22-rdf-syntax-ns#type> <http://www.bbc.co.uk/ontologies/creativework/CreativeWork> .
<http://ex/cw2> <http://www.bbc.co.uk/ontologies/creativework/title> "About September" .
<http://ex/cw2> <http://www.bbc.co.uk/ontologies/creativework/about> <http://sws.geonames.org/london> .
<http://ex/cw2> <http://www.bbc.co.uk/ontologies/creativework/dateModified> "2024-09-01T12:00:00.000+00:00"^^<http://www.w3.org/2001/XMLSchema#dateTime> .

<http://ex/cw3> <http://www.w3.org/1999/02/22-rdf-syntax-ns#type> <http://www.bbc.co.uk/ontologies/creativework/CreativeWork> .
<http://ex/cw3> <http://www.bbc.co.uk/ontologies/creativework/title> "Mentions March" .
<http://ex/cw3> <http://www.bbc.co.uk/ontologies/creativework/mentions> <http://sws.geonames.org/london> .
<http://ex/cw3> <http://www.bbc.co.uk/ontologies/creativework/dateModified> "2024-03-01T12:00:00.000+00:00"^^<http://www.w3.org/2001/XMLSchema#dateTime> .

<http://ex/cw4> <http://www.w3.org/1999/02/22-rdf-syntax-ns#type> <http://www.bbc.co.uk/ontologies/creativework/CreativeWork> .
<http://ex/cw4> <http://www.bbc.co.uk/ontologies/creativework/title> "Other topic" .
<http://ex/cw4> <http://www.bbc.co.uk/ontologies/creativework/mentions> <http://sws.geonames.org/paris> .
<http://ex/cw4> <http://www.bbc.co.uk/ontologies/creativework/dateModified> "2025-01-01T12:00:00.000+00:00"^^<http://www.w3.org/2001/XMLSchema#dateTime> .

<http://ex/cw5> <http://www.w3.org/1999/02/22-rdf-syntax-ns#type> <http://www.bbc.co.uk/ontologies/creativework/CreativeWork> .
<http://ex/cw5> <http://www.bbc.co.uk/ontologies/creativework/title> "No date" .
<http://ex/cw5> <http://www.bbc.co.uk/ontologies/creativework/mentions> <http://sws.geonames.org/london> .
"#;


#[test]
fn orders_about_and_mentions_by_date_modified_desc() {
    let g = load_str(Q1_FIXTURE).0;
    let works = q1::run(&g, "http://sws.geonames.org/london");
    // about + mentions union, newest `dateModified` first; the paris-topic work
    // and the `dateModified`-less work are excluded.
    assert_eq!(titles(&g, &works), ["About September", "Mentions June", "Mentions March"]);
}

#[test]
fn q1_unknown_topic_yields_no_rows() {
    let g = load_str(Q1_FIXTURE).0;
    assert!(q1::run(&g, "http://sws.geonames.org/nowhere").is_empty());
}

const LONDON: &str = "http://sws.geonames.org/london";

const Q3_FIXTURE: &str = r#"
<http://sws.geonames.org/london> <http://www.w3.org/1999/02/22-rdf-syntax-ns#type> <http://www.geonames.org/ontology#Feature> .
<http://sws.geonames.org/london> <http://www.geonames.org/ontology#name> "London" .
<http://sws.geonames.org/paris> <http://www.w3.org/1999/02/22-rdf-syntax-ns#type> <http://www.geonames.org/ontology#Feature> .
<http://sws.geonames.org/paris> <http://www.geonames.org/ontology#name> "Paris" .

<http://ex/jan> <http://www.w3.org/1999/02/22-rdf-syntax-ns#type> <http://www.bbc.co.uk/ontologies/creativework/CreativeWork> .
<http://ex/jan> <http://www.bbc.co.uk/ontologies/creativework/title> "Jan" .
<http://ex/jan> <http://www.bbc.co.uk/ontologies/creativework/dateCreated> "2024-01-10T08:00:00.000Z"^^<http://www.w3.org/2001/XMLSchema#dateTime> .
<http://ex/jan> <http://www.bbc.co.uk/ontologies/creativework/mentions> <http://sws.geonames.org/london> .

<http://ex/mar> <http://www.w3.org/1999/02/22-rdf-syntax-ns#type> <http://www.bbc.co.uk/ontologies/creativework/CreativeWork> .
<http://ex/mar> <http://www.bbc.co.uk/ontologies/creativework/title> "Mar" .
<http://ex/mar> <http://www.bbc.co.uk/ontologies/creativework/dateCreated> "2024-03-05T09:30:00.000Z"^^<http://www.w3.org/2001/XMLSchema#dateTime> .
<http://ex/mar> <http://www.bbc.co.uk/ontologies/creativework/mentions> <http://sws.geonames.org/london> .

<http://ex/feb> <http://www.w3.org/1999/02/22-rdf-syntax-ns#type> <http://www.bbc.co.uk/ontologies/creativework/CreativeWork> .
<http://ex/feb> <http://www.bbc.co.uk/ontologies/creativework/title> "Feb" .
<http://ex/feb> <http://www.bbc.co.uk/ontologies/creativework/dateCreated> "2024-02-20T12:00:00.000Z"^^<http://www.w3.org/2001/XMLSchema#dateTime> .
<http://ex/feb> <http://www.bbc.co.uk/ontologies/creativework/mentions> <http://sws.geonames.org/london> .

<http://ex/paris> <http://www.w3.org/1999/02/22-rdf-syntax-ns#type> <http://www.bbc.co.uk/ontologies/creativework/CreativeWork> .
<http://ex/paris> <http://www.bbc.co.uk/ontologies/creativework/title> "Paris" .
<http://ex/paris> <http://www.bbc.co.uk/ontologies/creativework/dateCreated> "2024-12-31T23:59:00.000Z"^^<http://www.w3.org/2001/XMLSchema#dateTime> .
<http://ex/paris> <http://www.bbc.co.uk/ontologies/creativework/mentions> <http://sws.geonames.org/paris> .
"#;


#[test]
fn orders_by_date_desc_and_excludes_other_topics() {
    let g = load_str(Q3_FIXTURE).0;
    // Newest-first over London's works; the (newer) Paris work is excluded.
    assert_eq!(names(&g, &q3::run(&g, LONDON, 10)), ["Mar", "Feb", "Jan"]);
}

#[test]
fn limit_truncates_to_the_freshest() {
    let g = load_str(Q3_FIXTURE).0;
    assert_eq!(names(&g, &q3::run(&g, LONDON, 2)), ["Mar", "Feb"]);
    assert_eq!(q3::run(&g, LONDON, 0).len(), 0);
}

#[test]
fn unknown_topic_is_empty() {
    let g = load_str(Q3_FIXTURE).0;
    assert!(q3::run(&g, "http://sws.geonames.org/atlantis", 10).is_empty());
}

#[test]
fn ties_break_by_node_id() {
    // Two London works sharing one dateCreated; lower node id wins. Node ids
    // are assigned in first-appearance order, so `tie-a` (declared first) <
    // `tie-b`.
    const TIES: &str = r#"
<http://sws.geonames.org/london> <http://www.w3.org/1999/02/22-rdf-syntax-ns#type> <http://www.geonames.org/ontology#Feature> .
<http://ex/tie-a> <http://www.w3.org/1999/02/22-rdf-syntax-ns#type> <http://www.bbc.co.uk/ontologies/creativework/CreativeWork> .
<http://ex/tie-a> <http://www.bbc.co.uk/ontologies/creativework/title> "A" .
<http://ex/tie-a> <http://www.bbc.co.uk/ontologies/creativework/dateCreated> "2024-05-01T00:00:00.000Z"^^<http://www.w3.org/2001/XMLSchema#dateTime> .
<http://ex/tie-a> <http://www.bbc.co.uk/ontologies/creativework/mentions> <http://sws.geonames.org/london> .
<http://ex/tie-b> <http://www.w3.org/1999/02/22-rdf-syntax-ns#type> <http://www.bbc.co.uk/ontologies/creativework/CreativeWork> .
<http://ex/tie-b> <http://www.bbc.co.uk/ontologies/creativework/title> "B" .
<http://ex/tie-b> <http://www.bbc.co.uk/ontologies/creativework/dateCreated> "2024-05-01T00:00:00.000Z"^^<http://www.w3.org/2001/XMLSchema#dateTime> .
<http://ex/tie-b> <http://www.bbc.co.uk/ontologies/creativework/mentions> <http://sws.geonames.org/london> .
"#;
    let g = load_str(TIES).0;
    assert_eq!(names(&g, &q3::run(&g, LONDON, 10)), ["A", "B"]);
}

const Q4_FIXTURE: &str = r#"
<http://dbpedia.org/resource/Acme> <http://www.w3.org/1999/02/22-rdf-syntax-ns#type> <http://dbpedia.org/ontology/Company> .
<http://dbpedia.org/resource/Acme> <http://www.ldbcouncil.org/spb#prefLabel> "Acme Corp" .
<http://dbpedia.org/resource/Globex> <http://www.w3.org/1999/02/22-rdf-syntax-ns#type> <http://dbpedia.org/ontology/Company> .

<http://ex/bp1> <http://www.w3.org/1999/02/22-rdf-syntax-ns#type> <http://www.bbc.co.uk/ontologies/creativework/CreativeWork> .
<http://ex/bp1> <http://www.w3.org/1999/02/22-rdf-syntax-ns#type> <http://www.bbc.co.uk/ontologies/creativework/BlogPost> .
<http://ex/bp1> <http://www.bbc.co.uk/ontologies/creativework/title> "BP June" .
<http://ex/bp1> <http://www.bbc.co.uk/ontologies/creativework/about> <http://dbpedia.org/resource/Acme> .
<http://ex/bp1> <http://www.bbc.co.uk/ontologies/creativework/dateCreated> "2024-06-01T12:00:00.000+00:00"^^<http://www.w3.org/2001/XMLSchema#dateTime> .

<http://ex/bp2> <http://www.w3.org/1999/02/22-rdf-syntax-ns#type> <http://www.bbc.co.uk/ontologies/creativework/CreativeWork> .
<http://ex/bp2> <http://www.w3.org/1999/02/22-rdf-syntax-ns#type> <http://www.bbc.co.uk/ontologies/creativework/BlogPost> .
<http://ex/bp2> <http://www.bbc.co.uk/ontologies/creativework/title> "BP September" .
<http://ex/bp2> <http://www.bbc.co.uk/ontologies/creativework/about> <http://dbpedia.org/resource/Acme> .
<http://ex/bp2> <http://www.bbc.co.uk/ontologies/creativework/dateCreated> "2024-09-01T12:00:00.000+00:00"^^<http://www.w3.org/2001/XMLSchema#dateTime> .

<http://ex/bp3> <http://www.w3.org/1999/02/22-rdf-syntax-ns#type> <http://www.bbc.co.uk/ontologies/creativework/CreativeWork> .
<http://ex/bp3> <http://www.w3.org/1999/02/22-rdf-syntax-ns#type> <http://www.bbc.co.uk/ontologies/creativework/BlogPost> .
<http://ex/bp3> <http://www.bbc.co.uk/ontologies/creativework/title> "BP March" .
<http://ex/bp3> <http://www.bbc.co.uk/ontologies/creativework/about> <http://dbpedia.org/resource/Acme> .
<http://ex/bp3> <http://www.bbc.co.uk/ontologies/creativework/dateCreated> "2024-03-01T12:00:00.000+00:00"^^<http://www.w3.org/2001/XMLSchema#dateTime> .

<http://ex/ni1> <http://www.w3.org/1999/02/22-rdf-syntax-ns#type> <http://www.bbc.co.uk/ontologies/creativework/CreativeWork> .
<http://ex/ni1> <http://www.w3.org/1999/02/22-rdf-syntax-ns#type> <http://www.bbc.co.uk/ontologies/creativework/NewsItem> .
<http://ex/ni1> <http://www.bbc.co.uk/ontologies/creativework/title> "News item" .
<http://ex/ni1> <http://www.bbc.co.uk/ontologies/creativework/about> <http://dbpedia.org/resource/Acme> .
<http://ex/ni1> <http://www.bbc.co.uk/ontologies/creativework/dateCreated> "2025-01-01T12:00:00.000+00:00"^^<http://www.w3.org/2001/XMLSchema#dateTime> .

<http://ex/bp4> <http://www.w3.org/1999/02/22-rdf-syntax-ns#type> <http://www.bbc.co.uk/ontologies/creativework/CreativeWork> .
<http://ex/bp4> <http://www.w3.org/1999/02/22-rdf-syntax-ns#type> <http://www.bbc.co.uk/ontologies/creativework/BlogPost> .
<http://ex/bp4> <http://www.bbc.co.uk/ontologies/creativework/title> "Other topic" .
<http://ex/bp4> <http://www.bbc.co.uk/ontologies/creativework/about> <http://dbpedia.org/resource/Globex> .
<http://ex/bp4> <http://www.bbc.co.uk/ontologies/creativework/dateCreated> "2025-05-01T12:00:00.000+00:00"^^<http://www.w3.org/2001/XMLSchema#dateTime> .

<http://ex/bp5> <http://www.w3.org/1999/02/22-rdf-syntax-ns#type> <http://www.bbc.co.uk/ontologies/creativework/CreativeWork> .
<http://ex/bp5> <http://www.w3.org/1999/02/22-rdf-syntax-ns#type> <http://www.bbc.co.uk/ontologies/creativework/BlogPost> .
<http://ex/bp5> <http://www.bbc.co.uk/ontologies/creativework/title> "No date" .
<http://ex/bp5> <http://www.bbc.co.uk/ontologies/creativework/about> <http://dbpedia.org/resource/Acme> .
"#;


#[test]
fn blog_posts_about_topic_newest_first() {
    let g = load_str(Q4_FIXTURE).0;
    let works = q4::run(&g, "http://dbpedia.org/resource/Acme", 10);
    // BlogPost-only, newest `dateCreated` first; the NewsItem, the other-topic
    // post, and the `dateCreated`-less post are all excluded.
    assert_eq!(titles(&g, &works), ["BP September", "BP June", "BP March"]);
}

#[test]
fn q4_limit_truncates_after_ordering() {
    let g = load_str(Q4_FIXTURE).0;
    let works = q4::run(&g, "http://dbpedia.org/resource/Acme", 2);
    assert_eq!(titles(&g, &works), ["BP September", "BP June"]);
}

#[test]
fn q4_unknown_topic_yields_no_rows() {
    let g = load_str(Q4_FIXTURE).0;
    assert!(q4::run(&g, "http://dbpedia.org/resource/Nope", 10).is_empty());
}
