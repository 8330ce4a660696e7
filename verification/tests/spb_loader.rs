use rustychickpeas_ldbc::rdfgraph::{literal_kind, load_str, LiteralKind, PropGraph};

const DOC: &str = r#"
<http://ex/cw1> <http://www.w3.org/1999/02/22-rdf-syntax-ns#type> <http://bbc/CreativeWork> .
<http://ex/cw1> <http://bbc/title> "Hello" .
<http://ex/cw1> <http://bbc/about> <http://ex/London> .
<http://ex/London> <http://www.w3.org/1999/02/22-rdf-syntax-ns#type> <http://dbo/Place> .
<http://ex/London> <http://geo#lat> "51.5"^^<http://www.w3.org/2001/XMLSchema#double> .
<http://ex/London> <http://geo#views> "42"^^<http://www.w3.org/2001/XMLSchema#integer> .
"#;

/// Nodes carrying `label`, in id order.
fn nodes_with_label(g: &PropGraph, label: &str) -> Vec<u32> {
    (0..g.labels.len() as u32)
        .filter(|&n| g.labels[n as usize].iter().any(|l| l == label))
        .collect()
}

/// Targets of `node`'s relationships of type `ty`, in order.
fn neighbors_by_type(g: &PropGraph, node: u32, ty: &str) -> Vec<u32> {
    g.rels.iter().filter(|r| r.0 == node && r.2 == ty).map(|r| r.1).collect()
}

/// A property's value and datatype.
fn prop<'a>(g: &'a PropGraph, node: u32, key: &str) -> Option<(&'a str, Option<&'a str>)> {
    g.props
        .iter()
        .find(|p| p.0 == node && p.1 == key)
        .map(|p| (p.2.as_str(), p.3.as_deref()))
}

#[test]
fn maps_types_to_labels_and_rels_and_props() {
    let (g, stats) = load_str(DOC);
    assert_eq!(stats.resources, 2); // cw1, London
    assert_eq!(stats.rels, 1); // about
    assert!(stats.literals >= 3); // title, lat, views

    let cw = nodes_with_label(&g, "CreativeWork");
    assert_eq!(cw.len(), 1);
    let place = nodes_with_label(&g, "Place");
    assert_eq!(place.len(), 1);

    // Typed literals land as their native column types.
    let london = place[0];
    let (lat, lat_dt) = prop(&g, london, "lat").unwrap();
    assert_eq!(literal_kind(lat, lat_dt), LiteralKind::Decimal);
    assert_eq!(lat.parse::<f64>().ok(), Some(51.5));
    let (views, views_dt) = prop(&g, london, "views").unwrap();
    assert_eq!(literal_kind(views, views_dt), LiteralKind::Int(42));
}

#[test]
fn rel_uses_predicate_local_name() {
    let (g, _) = load_str(DOC);
    let cw = nodes_with_label(&g, "CreativeWork")[0];
    let about = neighbors_by_type(&g, cw, "about");
    assert_eq!(about.len(), 1);
}

#[test]
fn rdfs_forward_chains_subclass_and_subproperty() {
    // TBox (BlogPost <= CreativeWork <= owl:Thing; Company <= Thing; about <=
    // tag) + an instance: a BlogPost `about` a Company.
    const RDFS: &str = r#"
<http://bbc/BlogPost> <http://www.w3.org/2000/01/rdf-schema#subClassOf> <http://bbc/CreativeWork> .
<http://bbc/CreativeWork> <http://www.w3.org/2000/01/rdf-schema#subClassOf> <http://www.w3.org/2002/07/owl#Thing> .
<http://dbo/Company> <http://www.w3.org/2000/01/rdf-schema#subClassOf> <http://cc/Thing> .
<http://bbc/about> <http://www.w3.org/2000/01/rdf-schema#subPropertyOf> <http://bbc/tag> .
<http://ex/cw1> <http://www.w3.org/1999/02/22-rdf-syntax-ns#type> <http://bbc/BlogPost> .
<http://ex/cw1> <http://bbc/about> <http://ex/Acme> .
<http://ex/Acme> <http://www.w3.org/1999/02/22-rdf-syntax-ns#type> <http://dbo/Company> .
"#;
    let (g, stats) = load_str(RDFS);
    // TBox triples are not instance data: only cw1 + Acme become nodes.
    assert_eq!(stats.resources, 2);

    // subClassOf: cw1 is a BlogPost AND a CreativeWork (owl:Thing dropped);
    // Acme is a Company AND a Thing.
    let cw1 = nodes_with_label(&g, "BlogPost")[0];
    assert!(nodes_with_label(&g, "CreativeWork").contains(&cw1));
    let acme = nodes_with_label(&g, "Company")[0];
    let thing = nodes_with_label(&g, "Thing");
    assert!(thing.contains(&acme) && !thing.contains(&cw1));

    // subPropertyOf: the `about` rel is also a `tag` rel.
    let tag = neighbors_by_type(&g, cw1, "tag");
    assert_eq!(tag, neighbors_by_type(&g, cw1, "about"));
    assert_eq!(tag.len(), 1);
}

#[test]
fn resources_get_ids_in_order_with_decoded_uris() {
    let doc = "<http://ex/a%41> <http://ex/p> _:b1 .\n<http://ex/aA> <http://ex/q> \"x\" .\n";
    let (g, stats) = load_str(doc);
    // The encoded and the raw IRI are one node; the blank node is another.
    assert_eq!(stats.resources, 2);
    assert_eq!(g.uris, vec![Some("http://ex/aA".to_string()), None]);
    assert_eq!(g.rels, vec![(0, 1, "p".to_string())]);
    assert_eq!(g.props, vec![(0, "q".to_string(), "x".to_string(), None)]);
    assert_eq!(stats.triples, 2);
}

#[test]
fn first_literal_per_node_and_name_wins() {
    let doc = "<http://ex/a> <http://ex/n> \"1\" .\n<http://ex/a> <http://other/n> \"2\" .\n";
    let (g, stats) = load_str(doc);
    assert_eq!(g.props, vec![(0, "n".to_string(), "1".to_string(), None)]);
    assert_eq!(stats.literals, 1);
}

#[test]
fn subproperty_chains_are_closed() {
    let doc = "\
<http://p/a> <http://www.w3.org/2000/01/rdf-schema#subPropertyOf> <http://p/b> .
<http://p/b> <http://www.w3.org/2000/01/rdf-schema#subPropertyOf> <http://p/c> .
<http://ex/x> <http://p/a> <http://ex/y> .
";
    let (g, stats) = load_str(doc);
    assert_eq!(stats.rels, 1);
    assert_eq!(
        g.rels,
        vec![(0, 1, "a".to_string()), (0, 1, "b".to_string()), (0, 1, "c".to_string())]
    );
}

#[test]
fn literal_kinds_follow_the_datatype() {
    let xsd = "http://www.w3.org/2001/XMLSchema#";
    assert_eq!(literal_kind("7", Some(&format!("{xsd}long"))), LiteralKind::Int(7));
    assert_eq!(literal_kind("7.5", Some(&format!("{xsd}int"))), LiteralKind::Text);
    assert_eq!(literal_kind("true", Some(&format!("{xsd}boolean"))), LiteralKind::Bool(true));
    assert_eq!(literal_kind("TRUE", Some(&format!("{xsd}boolean"))), LiteralKind::Text);
    assert_eq!(literal_kind("1e3", Some(&format!("{xsd}float"))), LiteralKind::Decimal);
    assert_eq!(literal_kind("x", Some(&format!("{xsd}string"))), LiteralKind::Text);
    assert_eq!(literal_kind("5", None), LiteralKind::Text);
}
