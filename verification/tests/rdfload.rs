use rustychickpeas_ldbc::ntriples::{parse_line, Term};
use rustychickpeas_ldbc::rdfload::{is_tbox, percent_decode, predicate_is, resource_key};

#[test]
fn percent_decode_canonicalises_encoded_utf8() {
    assert_eq!(percent_decode("http://ex/Ottoman%E2%80%93Portuguese"), "http://ex/Ottoman–Portuguese");
    assert_eq!(percent_decode("http://ex/a%20b%2"), "http://ex/a b%2");
    assert_eq!(percent_decode("plain"), "plain");
    // Not hex: kept verbatim.
    assert_eq!(percent_decode("x%zz"), "x%zz");
    // An escape cut short at the end is kept.
    assert_eq!(percent_decode("x%41"), "xA");
    assert_eq!(percent_decode("x%41y"), "xAy");
    // Not UTF-8 after decoding: the input comes back unchanged.
    assert_eq!(percent_decode("x%FFy"), "x%FFy");
}

#[test]
fn resource_keys_keep_iris_and_blanks_apart() {
    assert_eq!(resource_key(&Term::Iri("x".into())), Some("I:x".to_string()));
    assert_eq!(resource_key(&Term::Blank("x".into())), Some("B:x".to_string()));
    assert_eq!(resource_key(&Term::Iri("a%41b".into())), Some("I:aAb".to_string()));
    assert_eq!(
        resource_key(&Term::Literal { value: "x".into(), datatype: None, lang: None }),
        None
    );
}

#[test]
fn schema_statements_are_recognised() {
    let sub = parse_line(
        "<http://bbc/BlogPost> <http://www.w3.org/2000/01/rdf-schema#subClassOf> <http://bbc/CreativeWork> .",
    )
    .unwrap();
    let prop = parse_line(
        "<http://bbc/about> <http://www.w3.org/2000/01/rdf-schema#subPropertyOf> <http://bbc/tag> .",
    )
    .unwrap();
    let data = parse_line("<http://ex/cw1> <http://bbc/about> <http://ex/Acme> .").unwrap();
    assert!(is_tbox(&sub));
    assert!(is_tbox(&prop));
    assert!(!is_tbox(&data));
    assert!(predicate_is(&data, "http://bbc/about"));
    assert!(!predicate_is(&data, "http://bbc/abou"));
}
