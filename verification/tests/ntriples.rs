use rustychickpeas_ldbc::ntriples::{local_name, parse, parse_line, Term};

#[test]
fn parses_iri_triple() {
    let t = parse_line("<http://ex/a> <http://ex/p> <http://ex/b> .").unwrap();
    assert_eq!(t.subject, Term::Iri("http://ex/a".into()));
    assert_eq!(t.predicate, Term::Iri("http://ex/p".into()));
    assert_eq!(t.object, Term::Iri("http://ex/b".into()));
}

#[test]
fn parses_plain_and_typed_literals() {
    let t = parse_line(r#"<http://ex/a> <http://ex/title> "Hello World" ."#).unwrap();
    assert_eq!(
        t.object,
        Term::Literal {
            value: "Hello World".into(),
            datatype: None,
            lang: None
        }
    );

    let t = parse_line(
        r#"<http://ex/a> <http://ex/lat> "51.5"^^<http://www.w3.org/2001/XMLSchema#double> ."#,
    )
    .unwrap();
    match t.object {
        Term::Literal {
            value, datatype, ..
        } => {
            assert_eq!(value, "51.5");
            assert_eq!(local_name(datatype.as_deref().unwrap()), "double");
        }
        _ => panic!("expected literal"),
    }
}

#[test]
fn parses_lang_tag_and_escapes() {
    let t = parse_line(r#"<http://ex/a> <http://ex/n> "café"@en ."#).unwrap();
    assert_eq!(
        t.object,
        Term::Literal {
            value: "café".into(),
            datatype: None,
            lang: Some("en".into())
        }
    );
    let t = parse_line(r#"<http://ex/a> <http://ex/q> "a \"quote\" and \\slash" ."#).unwrap();
    match t.object {
        Term::Literal { value, .. } => assert_eq!(value, r#"a "quote" and \slash"#),
        _ => panic!(),
    }
}

#[test]
fn parses_blank_nodes() {
    let t = parse_line("_:b0 <http://ex/p> _:b1 .").unwrap();
    assert_eq!(t.subject, Term::Blank("b0".into()));
    assert_eq!(t.object, Term::Blank("b1".into()));
}

#[test]
fn skips_comments_blanks_and_malformed() {
    assert!(parse_line("").is_none());
    assert!(parse_line("   ").is_none());
    assert!(parse_line("# a comment").is_none());
    assert!(parse_line("\"literal subject\" <http://ex/p> <http://ex/b> .").is_none());
}

#[test]
fn local_name_handles_hash_and_slash() {
    assert_eq!(
        local_name("http://www.w3.org/1999/02/22-rdf-syntax-ns#type"),
        "type"
    );
    assert_eq!(local_name("http://dbpedia.org/ontology/Place"), "Place");
    assert_eq!(local_name("http://ex/geo#long"), "long");
}

#[test]
fn parses_multiline_document() {
    let doc = "# header\n<http://ex/a> <http://ex/p> <http://ex/b> .\n\n<http://ex/a> <http://ex/n> \"x\" .\n";
    assert_eq!(parse(doc).len(), 2);
}

#[test]
fn decodes_uchar_escapes_in_iris_and_literals() {
    let t = parse_line(r#"<http://ex/caf\u00E9> <http://ex/p> "\u0041\U0001F600\n" ."#).unwrap();
    assert_eq!(t.subject, Term::Iri("http://ex/café".into()));
    match t.object {
        Term::Literal { value, .. } => assert_eq!(value, "A\u{1F600}\n"),
        _ => panic!("expected literal"),
    }
    // An escape that is not valid hex is kept verbatim in an IRI ...
    let t = parse_line(r#"<http://ex/a\uZZZZ> <http://ex/p> <http://ex/b> ."#).unwrap();
    assert_eq!(t.subject, Term::Iri(r"http://ex/a\uZZZZ".into()));
    // ... and makes a literal fail.
    assert!(parse_line(r#"<http://ex/a> <http://ex/p> "\uZZZZ" ."#).is_none());
    // A surrogate is no character.
    assert!(parse_line(r#"<http://ex/a> <http://ex/p> "\uD800" ."#).is_none());
}

#[test]
fn literal_suffixes_and_failures() {
    // A datatype that is not an IRI fails the line.
    assert!(parse_line(r#"<http://ex/a> <http://ex/p> "x"^^"y" ."#).is_none());
    // An unterminated literal fails.
    assert!(parse_line(r#"<http://ex/a> <http://ex/p> "open ."#).is_none());
    // An empty language tag is kept as such.
    let t = parse_line(r#"<http://ex/a> <http://ex/p> "x"@ ."#).unwrap();
    assert_eq!(
        t.object,
        Term::Literal { value: "x".into(), datatype: None, lang: Some(String::new()) }
    );
    // The predicate must be an IRI.
    assert!(parse_line("<http://ex/a> _:p <http://ex/b> .").is_none());
    // Leading Unicode white space and a trailing carriage return are trimmed.
    assert!(parse_line("\u{3000}<http://ex/a> <http://ex/p> <http://ex/b> .\r").is_some());
    // Fewer than three terms fail.
    assert!(parse_line("<http://ex/a> <http://ex/p>").is_none());
}

#[test]
fn term_is_resource() {
    assert!(Term::Iri("x".into()).is_resource());
    assert!(Term::Blank("b".into()).is_resource());
    assert!(!Term::Literal { value: "v".into(), datatype: None, lang: None }.is_resource());
}

#[test]
fn local_name_without_separators_is_whole() {
    assert_eq!(local_name("plain"), "plain");
    assert_eq!(local_name("a/b#"), "");
    assert_eq!(local_name("a#b/c"), "c");
}

#[test]
fn statement_needs_its_closing_dot() {
    assert!(parse_line("<http://ex/a> <http://ex/p> <http://ex/b>").is_none());
    assert!(parse_line("<http://ex/a> <http://ex/p> <http://ex/b> junk").is_none());
    assert!(parse_line("<http://ex/a> <http://ex/p> <http://ex/b> . more").is_none());
    assert!(parse_line("<http://ex/a> <http://ex/p> <http://ex/b>.").is_some());
    assert!(parse_line("<http://ex/a> <http://ex/p> <http://ex/b> . # note").is_some());
    assert!(parse_line("<http://ex/a> <http://ex/p> \"x\"@en .").is_some());
}

#[test]
fn joined_documents_give_both_parts() {
    let a = "<http://ex/a> <http://ex/p> <http://ex/b> .\n# c";
    let b = "<http://ex/c> <http://ex/p> \"v\" .";
    let mut both = parse(a);
    both.extend(parse(b));
    assert_eq!(parse(&format!("{a}\n{b}")), both);
}
