//! Loading RDF statements as a property graph: every resource (IRI or blank
//! node) becomes a node, `rdf:type` gives labels (with their RDFS
//! super-classes), a resource object gives a relationship named after the
//! predicate's local name (also under each RDFS super-property), and a literal
//! object gives a property (the first one per node and name). RDFS schema
//! statements are read as an ontology, not loaded as data.
use vstd::prelude::*;
use crate::closure::{close_transitively, reaches};
use crate::hashed::{seen_keys, text_ids, SeenKeys, TextIds};
use crate::ntriples::{is_resource_term, lines_scan_from, local_name, local_name_chars, parse, triples_from, RdfTerm, RdfTriple, Term, Triple};
use crate::rdfload::{has_predicate, is_tbox, percent_decoded, predicate_is, rdfs_subclass, rdfs_subprop, resource_key, resource_key_of, same_text};
use crate::numtext::{parse_i64_text, text_i64};
use crate::text::{chars_of, string_of};

verus! {

/// `rdf:type`.
pub open spec fn rdf_type() -> Seq<char> {
    "http://www.w3.org/1999/02/22-rdf-syntax-ns#type"@
}

/// `owl:Thing`, the universal class, which is never a label.
pub open spec fn owl_thing() -> Seq<char> {
    "http://www.w3.org/2002/07/owl#Thing"@
}

/// The IRIs `(s, o)` of a statement `s pred o` whose three terms are IRIs.
pub open spec fn schema_pair(t: RdfTriple, pred: Seq<char>) -> Option<(Seq<char>, Seq<char>)> {
    match t.subject {
        RdfTerm::Iri(s) => match t.predicate {
            RdfTerm::Iri(p) => match t.object {
                RdfTerm::Iri(o) => if p == pred {
                    Some((s, o))
                } else {
                    None
                },
                _ => None,
            },
            _ => None,
        },
        _ => None,
    }
}

/// The IRIs of a sub-class or sub-property statement between IRIs.
pub open spec fn schema_iris(t: RdfTriple) -> Option<(Seq<char>, Seq<char>)> {
    match schema_pair(t, rdfs_subclass()) {
        Some(p) => Some(p),
        None => schema_pair(t, rdfs_subprop()),
    }
}

/// `names` with `x` appended unless it is there already.
pub open spec fn add_name(names: Seq<Seq<char>>, x: Seq<char>) -> Seq<Seq<char>> {
    if names.contains(x) {
        names
    } else {
        names.push(x)
    }
}

/// The IRIs of the schema statements, each once, in order of first appearance
/// (subject before object).
pub open spec fn schema_names(ts: Seq<RdfTriple>) -> Seq<Seq<char>>
    decreases ts.len(),
{
    if ts.len() == 0 {
        Seq::empty()
    } else {
        let prev = schema_names(ts.drop_last());
        match schema_iris(ts.last()) {
            Some((s, o)) => add_name(add_name(prev, s), o),
            None => prev,
        }
    }
}

/// Some statement of `ts` says `names[i] pred names[j]`.
pub open spec fn states(ts: Seq<RdfTriple>, pred: Seq<char>, names: Seq<Seq<char>>, i: int, j: int) -> bool {
    exists|k: int| 0 <= k < ts.len() && #[trigger] schema_pair(ts[k], pred) == Some((names[i], names[j]))
}

/// The direct `pred` relation between the schema names, as a matrix.
pub open spec fn direct_matrix(ts: Seq<RdfTriple>, pred: Seq<char>) -> Seq<Seq<bool>> {
    let names = schema_names(ts);
    Seq::new(names.len(), |i: int| Seq::new(names.len(), |j: int| states(ts, pred, names, i, j)))
}

/// The rows of a boolean matrix as sequences.
pub open spec fn bool_rows(m: Seq<Vec<bool>>) -> Seq<Seq<bool>> {
    m.map_values(|r: Vec<bool>| r@)
}

proof fn lemma_add_name(names: Seq<Seq<char>>, x: Seq<char>)
    requires
        names.no_duplicates(),
    ensures
        add_name(names, x).no_duplicates(),
        add_name(names, x).contains(x),
        forall|y: Seq<char>| #[trigger] add_name(names, x).contains(y) <==> (names.contains(y) || y == x),
        names.len() <= add_name(names, x).len(),
        forall|i: int| 0 <= i < names.len() ==> #[trigger] add_name(names, x)[i] == names[i],
{
    if !names.contains(x) {
        let q = names.push(x);
        assert(q[names.len() as int] == x);
        assert forall|i: int, j: int| 0 <= i < q.len() && 0 <= j < q.len() && i != j implies q[i] != q[j] by {
            if i == names.len() {
                assert(names.contains(names[j]));
            } else if j == names.len() {
                assert(names.contains(names[i]));
            }
        }
        assert forall|y: Seq<char>| #[trigger] q.contains(y) <==> (names.contains(y) || y == x) by {
            if q.contains(y) && y != x {
                let i = choose|i: int| 0 <= i < q.len() && q[i] == y;
                assert(names[i] == y);
            }
            if names.contains(y) {
                let i = choose|i: int| 0 <= i < names.len() && names[i] == y;
                assert(q[i] == y);
            }
        }
    }
}

/// The schema names have no duplicates and hold every schema IRI.
pub proof fn lemma_schema_names(ts: Seq<RdfTriple>)
    ensures
        schema_names(ts).no_duplicates(),
        forall|k: int| #![trigger ts[k]] 0 <= k < ts.len() ==> (schema_iris(ts[k]) matches Some((s, o)) ==> schema_names(ts).contains(s)
            && schema_names(ts).contains(o)),
    decreases ts.len(),
{
    if ts.len() > 0 {
        let p = ts.drop_last();
        lemma_schema_names(p);
        let prev = schema_names(p);
        match schema_iris(ts.last()) {
            Some((s, o)) => {
                lemma_add_name(prev, s);
                lemma_add_name(add_name(prev, s), o);
            },
            None => {},
        }
        assert forall|k: int| #![trigger ts[k]] 0 <= k < ts.len() implies (schema_iris(ts[k]) matches Some((s, o)) ==> schema_names(ts).contains(s)
            && schema_names(ts).contains(o)) by {
            if k < p.len() {
                assert(ts[k] == p[k]);
            }
        }
    }
}

/// `names` holds distinct texts and `m` maps each to its position.
pub open spec fn name_index(m: Map<Seq<char>, usize>, names: Seq<Seq<char>>) -> bool {
    &&& names.no_duplicates()
    &&& forall|x: Seq<char>| #[trigger] m.contains_key(x) <==> names.contains(x)
    &&& forall|x: Seq<char>| #[trigger] m.contains_key(x) ==> m[x] < names.len() && names[m[x] as int] == x
}

/// Give `x` the next id unless it has one.
fn note_name(names: &mut Vec<String>, ids: &mut TextIds, x: &String)
    requires
        name_index(text_ids(*old(ids)), old(names)@.map_values(|s: String| s@)),
    ensures
        final(names)@.map_values(|s: String| s@) == add_name(old(names)@.map_values(|s: String| s@), x@),
        name_index(text_ids(*final(ids)), final(names)@.map_values(|s: String| s@)),
{
    let ghost before = names@.map_values(|s: String| s@);
    match ids.get(x.as_str()) {
        Some(_) => {
            assert(before.contains(x@));
        },
        None => {
            let id = names.len();
            ids.insert(x.clone(), id);
            names.push(x.clone());
            proof {
                assert(!before.contains(x@));
                let after = names@.map_values(|s: String| s@);
                assert(after =~= before.push(x@));
                lemma_add_name(before, x@);
                assert forall|y: Seq<char>| #[trigger] text_ids(*ids).contains_key(y) implies text_ids(*ids)[y]
                    < after.len() && after[text_ids(*ids)[y] as int] == y by {
                    if y != x@ {
                        assert(after[text_ids(*ids)[y] as int] == before[text_ids(*ids)[y] as int]);
                    }
                }
            }
        },
    }
}

/// The schema names of `ts` with their positions, and the direct sub-class and
/// sub-property relations between them as matrices.
fn read_schema(ts: &Vec<Triple>) -> (r: (Vec<String>, TextIds, Vec<Vec<bool>>, Vec<Vec<bool>>))
    ensures
        r.0@.map_values(|s: String| s@) == schema_names(ts@.map_values(|t: Triple| t@)),
        name_index(text_ids(r.1), r.0@.map_values(|s: String| s@)),
        bool_rows(r.2@) == direct_matrix(ts@.map_values(|t: Triple| t@), rdfs_subclass()),
        bool_rows(r.3@) == direct_matrix(ts@.map_values(|t: Triple| t@), rdfs_subprop()),
        forall|i: int| 0 <= i < r.2@.len() ==> #[trigger] r.2@[i]@.len() == r.2@.len(),
        forall|i: int| 0 <= i < r.3@.len() ==> #[trigger] r.3@[i]@.len() == r.3@.len(),
{
    let ghost tv = ts@.map_values(|t: Triple| t@);
    let mut names: Vec<String> = Vec::new();
    let mut ids = TextIds::new();
    proof {
        assert(text_ids(ids).dom() =~= Set::<Seq<char>>::empty());
        assert(names@.map_values(|s: String| s@) =~= Seq::<Seq<char>>::empty());
        assert(tv.take(0) =~= Seq::<RdfTriple>::empty());
    }
    let mut i: usize = 0;
    while i < ts.len()
        invariant
            tv == ts@.map_values(|t: Triple| t@),
            i <= ts@.len(),
            names@.map_values(|s: String| s@) == schema_names(tv.take(i as int)),
            name_index(text_ids(ids), names@.map_values(|s: String| s@)),
        decreases ts@.len() - i,
    {
        let t = &ts[i];
        proof {
            assert(tv.take(i + 1).drop_last() =~= tv.take(i as int));
            assert(tv.take(i + 1).last() == t@);
        }
        let schema = predicate_is(t, "http://www.w3.org/2000/01/rdf-schema#subClassOf") || predicate_is(
            t,
            "http://www.w3.org/2000/01/rdf-schema#subPropertyOf",
        );
        match (&t.subject, &t.object) {
            (Term::Iri(s), Term::Iri(o)) => {
                if schema {
                    note_name(&mut names, &mut ids, s);
                    note_name(&mut names, &mut ids, o);
                }
            },
            _ => {},
        }
        i = i + 1;
    }
    proof {
        assert(tv.take(ts@.len() as int) =~= tv);
    }
    let class_m = relation_matrix(ts, &names, &ids, "http://www.w3.org/2000/01/rdf-schema#subClassOf");
    let prop_m = relation_matrix(ts, &names, &ids, "http://www.w3.org/2000/01/rdf-schema#subPropertyOf");
    (names, ids, class_m, prop_m)
}

/// An `n`-by-`n` matrix of `false`.
fn empty_matrix(n: usize) -> (m: Vec<Vec<bool>>)
    ensures
        m@.len() == n,
        forall|i: int| 0 <= i < n ==> #[trigger] m@[i]@ == Seq::new(n as nat, |j: int| false),
{
    let mut m: Vec<Vec<bool>> = Vec::new();
    let mut i: usize = 0;
    while i < n
        invariant
            i <= n,
            m@.len() == i,
            forall|k: int| 0 <= k < i ==> #[trigger] m@[k]@ == Seq::new(n as nat, |j: int| false),
        decreases n - i,
    {
        let mut row: Vec<bool> = Vec::new();
        let mut j: usize = 0;
        while j < n
            invariant
                j <= n,
                row@ == Seq::new(j as nat, |x: int| false),
            decreases n - j,
        {
            row.push(false);
            j = j + 1;
            proof {
                assert(row@ =~= Seq::new(j as nat, |x: int| false));
            }
        }
        m.push(row);
        i = i + 1;
    }
    m
}

/// The direct relation `pred` between the schema names, as a matrix.
fn relation_matrix(ts: &Vec<Triple>, names: &Vec<String>, ids: &TextIds, pred: &str) -> (m: Vec<Vec<bool>>)
    requires
        names@.map_values(|s: String| s@) == schema_names(ts@.map_values(|t: Triple| t@)),
        name_index(text_ids(*ids), names@.map_values(|s: String| s@)),
    ensures
        bool_rows(m@) == direct_matrix(ts@.map_values(|t: Triple| t@), pred@),
        forall|i: int| 0 <= i < m@.len() ==> #[trigger] m@[i]@.len() == m@.len(),
{
    let ghost tv = ts@.map_values(|t: Triple| t@);
    let ghost nv = names@.map_values(|s: String| s@);
    let n = names.len();
    let mut m = empty_matrix(n);
    proof {
        lemma_schema_names(tv);
    }
    let mut k: usize = 0;
    while k < ts.len()
        invariant
            tv == ts@.map_values(|t: Triple| t@),
            nv == names@.map_values(|s: String| s@),
            nv == schema_names(tv),
            name_index(text_ids(*ids), nv),
            n == nv.len(),
            forall|q: int| #![trigger tv[q]] 0 <= q < tv.len() ==> (schema_iris(tv[q]) matches Some((s, o)) ==> nv.contains(s)
                && nv.contains(o)),
            k <= ts@.len(),
            m@.len() == n,
            forall|i: int| 0 <= i < n ==> #[trigger] m@[i]@.len() == n,
            forall|i: int, j: int|
                0 <= i < n && 0 <= j < n ==> (#[trigger] m@[i]@[j] <==> exists|q: int|
                    0 <= q < k && #[trigger] schema_pair(tv[q], pred@) == Some((nv[i], nv[j]))),
        decreases ts@.len() - k,
    {
        let t = &ts[k];
        let ghost tk = tv[k as int];
        proof {
            assert(tk == t@);
        }
        if predicate_is(t, pred) {
            match (&t.subject, &t.object) {
                (Term::Iri(s), Term::Iri(o)) => {
                    proof {
                        assert(schema_pair(tk, pred@) == Some((s@, o@)));
                        if pred@ == rdfs_subclass() || pred@ == rdfs_subprop() {
                            assert(schema_iris(tk) is Some);
                        }
                    }
                    match (ids.get(s.as_str()), ids.get(o.as_str())) {
                        (Some(a), Some(b)) => {
                            let ghost before = m@;
                            let mut row = m[a].clone();
                            row.set(b, true);
                            m.set(a, row);
                            proof {
                                assert forall|i: int, j: int| 0 <= i < n && 0 <= j < n implies (#[trigger] m@[i]@[j]
                                    <==> exists|q: int| 0 <= q < k + 1 && #[trigger] schema_pair(tv[q], pred@) == Some(
                                    (nv[i], nv[j]),
                                )) by {
                                    if i == a && j == b {
                                        assert(schema_pair(tv[k as int], pred@) == Some((nv[i], nv[j])));
                                    } else {
                                        assert(m@[i]@[j] == before[i]@[j]);
                                        if schema_pair(tv[k as int], pred@) == Some((nv[i], nv[j])) {
                                            assert(nv[i] == s@ && nv[j] == o@);
                                            assert(nv[a as int] == s@);
                                            assert(nv[b as int] == o@);
                                        }
                                    }
                                }
                            }
                        },
                        _ => {
                            proof {
                                assert(!nv.contains(s@) || !nv.contains(o@));
                                assert forall|i: int, j: int| 0 <= i < n && 0 <= j < n implies schema_pair(
                                    tk,
                                    pred@,
                                ) != Some((nv[i], nv[j])) by {
                                    if schema_pair(tk, pred@) == Some((nv[i], nv[j])) {
                                        assert(nv.contains(nv[i]) && nv.contains(nv[j]));
                                    }
                                }
                            }
                        },
                    }
                },
                _ => {},
            }
        }
        proof {
            assert forall|i: int, j: int| 0 <= i < n && 0 <= j < n implies (#[trigger] m@[i]@[j] <==> exists|q: int|
                0 <= q < k + 1 && #[trigger] schema_pair(tv[q], pred@) == Some((nv[i], nv[j]))) by {
                if exists|q: int| 0 <= q < k + 1 && #[trigger] schema_pair(tv[q], pred@) == Some((nv[i], nv[j])) {
                    let q = choose|q: int| 0 <= q < k + 1 && #[trigger] schema_pair(tv[q], pred@) == Some((nv[i], nv[j]));
                }
            }
        }
        k = k + 1;
    }
    proof {
        assert(bool_rows(m@) =~= direct_matrix(tv, pred@)) by {
            assert forall|i: int| 0 <= i < n implies #[trigger] bool_rows(m@)[i] =~= direct_matrix(tv, pred@)[i] by {
            }
        }
    }
    m
}

/// Resources in id order: their identity keys, the `rdf:type` class IRIs of
/// each, and the decoded IRI of each IRI resource.
pub type Resources = (Seq<Seq<char>>, Seq<Seq<Seq<char>>>, Seq<Option<Seq<char>>>);

/// The decoded IRI of an IRI term.
pub open spec fn term_uri(t: RdfTerm) -> Option<Seq<char>> {
    match t {
        RdfTerm::Iri(i) => Some(percent_decoded(i)),
        _ => None,
    }
}

/// `r` with the resource `t` added, unless its key is known already.
pub open spec fn intern_term(r: Resources, t: RdfTerm) -> Resources {
    match resource_key_of(t) {
        Some(k) => if r.0.contains(k) {
            r
        } else {
            (r.0.push(k), r.1.push(Seq::empty()), r.2.push(term_uri(t)))
        },
        None => r,
    }
}

/// A sub-class or sub-property statement.
pub open spec fn is_schema(t: RdfTriple) -> bool {
    has_predicate(t, rdfs_subclass()) || has_predicate(t, rdfs_subprop())
}

/// The effect of one statement on the resources: schema statements are
/// skipped; the subject is added; an `rdf:type` statement with an IRI object
/// adds that class to the subject's types, and any other statement adds a
/// resource object.
pub open spec fn resources_step(r: Resources, t: RdfTriple) -> Resources {
    if is_schema(t) {
        r
    } else {
        let r1 = intern_term(r, t.subject);
        if has_predicate(t, rdf_type()) {
            match (resource_key_of(t.subject), t.object) {
                (Some(k), RdfTerm::Iri(c)) => {
                    let i = r1.0.index_of(k);
                    (r1.0, r1.1.update(i, r1.1[i].push(c)), r1.2)
                },
                _ => r1,
            }
        } else if is_resource_term(t.object) {
            intern_term(r1, t.object)
        } else {
            r1
        }
    }
}

/// The resources of the statements `ts`, in order.
pub open spec fn resources_of(ts: Seq<RdfTriple>) -> Resources
    decreases ts.len(),
{
    if ts.len() == 0 {
        (Seq::empty(), Seq::empty(), Seq::empty())
    } else {
        resources_step(resources_of(ts.drop_last()), ts.last())
    }
}

/// Class lists as plain sequences.
pub open spec fn text_lists(v: Seq<Vec<String>>) -> Seq<Seq<Seq<char>>> {
    v.map_values(|x: Vec<String>| x@.map_values(|s: String| s@))
}

/// Optional texts as plain sequences.
pub open spec fn opt_texts(v: Seq<Option<String>>) -> Seq<Option<Seq<char>>> {
    v.map_values(|o: Option<String>| match o {
        Some(s) => Some(s@),
        None => None,
    })
}

/// The resource state held by `ids`, `types` and `uris` is `r`.
pub open spec fn holds_resources(ids: TextIds, types: Seq<Vec<String>>, uris: Seq<Option<String>>, r: Resources) -> bool {
    &&& name_index(text_ids(ids), r.0)
    &&& text_lists(types) == r.1
    &&& opt_texts(uris) == r.2
    &&& r.1.len() == r.0.len()
    &&& r.2.len() == r.0.len()
}

/// Add the resource `t` unless known; its id, `None` for a literal.
fn intern(
    t: &Term,
    ids: &mut TextIds,
    types: &mut Vec<Vec<String>>,
    uris: &mut Vec<Option<String>>,
    Ghost(r): Ghost<Resources>,
) -> (id: Option<usize>)
    requires
        holds_resources(*old(ids), old(types)@, old(uris)@, r),
    ensures
        holds_resources(*final(ids), final(types)@, final(uris)@, intern_term(r, t@)),
        match id {
            Some(i) => resource_key_of(t@) is Some && intern_term(r, t@).0.index_of(resource_key_of(t@)->0) == i
                && 0 <= i < intern_term(r, t@).0.len() && intern_term(r, t@).0[i as int] == resource_key_of(t@)->0,
            None => resource_key_of(t@) is None,
        },
{
    let key = match resource_key(t) {
        Some(k) => k,
        None => {
            return None;
        },
    };
    let ghost k = key@;
    match ids.get(key.as_str()) {
        Some(i) => {
            proof {
                assert(r.0.contains(k));
                assert(r.0[i as int] == k);
                assert(r.0.index_of(k) == i) by {
                    let j = r.0.index_of(k);
                    assert(r.0[j] == k);
                }
            }
            Some(i)
        },
        None => {
            let i = types.len();
            let uri = match t {
                Term::Iri(iri) => Some(crate::rdfload::percent_decode(iri.as_str())),
                _ => None,
            };
            ids.insert(key, i);
            types.push(Vec::new());
            uris.push(uri);
            proof {
                let r2 = intern_term(r, t@);
                assert(!r.0.contains(k));
                assert(r2.0 == r.0.push(k));
                lemma_add_name(r.0, k);
                assert(add_name(r.0, k) == r2.0);
                assert(types@[i as int]@.map_values(|s: String| s@) =~= Seq::<Seq<char>>::empty());
                assert forall|j: int| 0 <= j < types@.len() implies #[trigger] text_lists(types@)[j] == r2.1[j] by {
                    if j < i {
                        assert(text_lists(types@)[j] == text_lists(old(types)@)[j]);
                    }
                }
                assert(text_lists(types@) =~= r2.1);
                assert(opt_texts(uris@) =~= r2.2);
                assert forall|y: Seq<char>| #[trigger] text_ids(*ids).contains_key(y) implies text_ids(*ids)[y]
                    < r2.0.len() && r2.0[text_ids(*ids)[y] as int] == y by {
                    if y != k {
                        assert(r2.0[text_ids(*ids)[y] as int] == r.0[text_ids(*ids)[y] as int]);
                    }
                }
                assert(r2.0[i as int] == k);
                assert(r2.0.index_of(k) == i) by {
                    let j = r2.0.index_of(k);
                    assert(r2.0[j] == k);
                    assert(r2.0.no_duplicates());
                }
            }
            Some(i)
        },
    }
}

/// The resources of `ts`: their key-to-id map, types and decoded IRIs.
fn read_resources(ts: &Vec<Triple>) -> (r: (TextIds, Vec<Vec<String>>, Vec<Option<String>>))
    ensures
        holds_resources(r.0, r.1@, r.2@, resources_of(ts@.map_values(|t: Triple| t@))),
{
    let ghost tv = ts@.map_values(|t: Triple| t@);
    let mut ids = TextIds::new();
    let mut types: Vec<Vec<String>> = Vec::new();
    let mut uris: Vec<Option<String>> = Vec::new();
    proof {
        assert(text_ids(ids).dom() =~= Set::<Seq<char>>::empty());
        assert(tv.take(0) =~= Seq::<RdfTriple>::empty());
        assert(text_lists(types@) =~= Seq::<Seq<Seq<char>>>::empty());
        assert(opt_texts(uris@) =~= Seq::<Option<Seq<char>>>::empty());
    }
    let mut i: usize = 0;
    while i < ts.len()
        invariant
            tv == ts@.map_values(|t: Triple| t@),
            i <= ts@.len(),
            holds_resources(ids, types@, uris@, resources_of(tv.take(i as int))),
        decreases ts@.len() - i,
    {
        let t = &ts[i];
        let ghost r = resources_of(tv.take(i as int));
        proof {
            assert(tv.take(i + 1).drop_last() =~= tv.take(i as int));
            assert(tv.take(i + 1).last() == t@);
        }
        if !is_tbox(t) {
            let sid = intern(&t.subject, &mut ids, &mut types, &mut uris, Ghost(r));
            let ghost r1 = intern_term(r, t.subject@);
            if predicate_is(t, "http://www.w3.org/1999/02/22-rdf-syntax-ns#type") {
                match (sid, &t.object) {
                    (Some(si), Term::Iri(c)) => {
                        let ghost before = types@;
                        let mut row: Vec<String> = Vec::new();
                        types.set_and_swap(si, &mut row);
                        let cc = c.clone();
                        row.push(cc);
                        types.set_and_swap(si, &mut row);
                        proof {
                            assert(text_lists(types@) =~= r1.1.update(si as int, r1.1[si as int].push(c@))) by {
                                assert(before[si as int]@.map_values(|s: String| s@) == r1.1[si as int]);
                                assert(types@[si as int]@ == before[si as int]@.push(cc));
                                assert(types@[si as int]@.map_values(|s: String| s@) =~= before[si as int]@.map_values(
                                    |s: String| s@,
                                ).push(c@));
                                assert forall|j: int| 0 <= j < types@.len() implies #[trigger] text_lists(types@)[j]
                                    == r1.1.update(si as int, r1.1[si as int].push(c@))[j] by {
                                    if j != si {
                                        assert(types@[j] == before[j]);
                                    }
                                }
                            }
                        }
                    },
                    _ => {},
                }
            } else if t.object.is_resource() {
                intern(&t.object, &mut ids, &mut types, &mut uris, Ghost(r1));
            }
        }
        i = i + 1;
    }
    proof {
        assert(tv.take(ts@.len() as int) =~= tv);
    }
    (ids, types, uris)
}

/// The names `names[j]`, `j` ascending below `k`, for which `pick(j)` holds.
pub open spec fn picked(names: Seq<Seq<char>>, k: int, pick: spec_fn(int) -> bool) -> Seq<Seq<char>>
    decreases k,
{
    if k <= 0 {
        Seq::empty()
    } else {
        picked(names, k - 1, pick) + if pick(k - 1) {
            seq![names[k - 1]]
        } else {
            Seq::empty()
        }
    }
}

/// Whether schema name `j` is a super of name `i` under `pred` (reachable in
/// one or more steps), and not excluded as `owl:Thing` when `skip_thing`.
pub open spec fn super_pick(ts: Seq<RdfTriple>, pred: Seq<char>, i: int, skip_thing: bool) -> spec_fn(int) -> bool {
    |j: int| reaches(direct_matrix(ts, pred), i, j) && !(skip_thing && schema_names(ts)[j] == owl_thing())
}

/// The supers of `x` under `pred`: the schema names reachable from it, in
/// schema order, leaving out `owl:Thing` when `skip_thing`; none when `x` is
/// not a schema name.
pub open spec fn supers(ts: Seq<RdfTriple>, pred: Seq<char>, x: Seq<char>, skip_thing: bool) -> Seq<Seq<char>> {
    let names = schema_names(ts);
    if names.contains(x) {
        picked(names, names.len() as int, super_pick(ts, pred, names.index_of(x), skip_thing))
    } else {
        Seq::empty()
    }
}

/// Label IRIs for a node of the classes `types`: each class followed by its
/// super-classes.
pub open spec fn label_candidates(ts: Seq<RdfTriple>, types: Seq<Seq<char>>) -> Seq<Seq<char>>
    decreases types.len(),
{
    if types.len() == 0 {
        Seq::empty()
    } else {
        label_candidates(ts, types.drop_last()) + seq![types.last()] + supers(
            ts,
            rdfs_subclass(),
            types.last(),
            true,
        )
    }
}

/// The entries of `s`, each once, in order of first appearance.
pub open spec fn distinct_texts(s: Seq<Seq<char>>) -> Seq<Seq<char>>
    decreases s.len(),
{
    if s.len() == 0 {
        Seq::empty()
    } else {
        add_name(distinct_texts(s.drop_last()), s.last())
    }
}

/// The labels of a node of the classes `types`: the local names of its
/// distinct label IRIs.
pub open spec fn node_label_names(ts: Seq<RdfTriple>, types: Seq<Seq<char>>) -> Seq<Seq<char>> {
    distinct_texts(label_candidates(ts, types)).map_values(|x: Seq<char>| local_name_chars(x))
}

/// Texts as plain sequences.
pub open spec fn texts(v: Seq<String>) -> Seq<Seq<char>> {
    v.map_values(|s: String| s@)
}

fn contains_text(list: &Vec<String>, x: &str) -> (r: bool)
    ensures
        r == texts(list@).contains(x@),
{
    let mut i: usize = 0;
    while i < list.len()
        invariant
            i <= list@.len(),
            forall|j: int| 0 <= j < i ==> list@[j]@ != x@,
        decreases list@.len() - i,
    {
        if same_text(list[i].as_str(), x) {
            proof {
                assert(texts(list@)[i as int] == x@);
            }
            return true;
        }
        i = i + 1;
    }
    proof {
        if texts(list@).contains(x@) {
            let j = choose|j: int| 0 <= j < texts(list@).len() && texts(list@)[j] == x@;
            assert(list@[j]@ == x@);
        }
    }
    false
}

fn add_text(list: &mut Vec<String>, x: &String)
    ensures
        texts(final(list)@) == add_name(texts(old(list)@), x@),
{
    if !contains_text(list, x.as_str()) {
        let ghost before = list@;
        list.push(x.clone());
        proof {
            assert(texts(list@) =~= texts(before).push(x@));
        }
    }
}

/// The supers of schema name `i` (a row of the closed relation `closed`),
/// appended to `out` in schema order.
fn add_supers(
    out: &mut Vec<String>,
    names: &Vec<String>,
    closed: &Vec<Vec<bool>>,
    i: usize,
    skip_thing: bool,
    Ghost(ts): Ghost<Seq<RdfTriple>>,
    Ghost(pred): Ghost<Seq<char>>,
    Ghost(cands): Ghost<Seq<Seq<char>>>,
) -> (all: Ghost<Seq<Seq<char>>>)
    requires
        texts(names@) == schema_names(ts),
        closed@.len() == names@.len(),
        i < names@.len(),
        forall|a: int| 0 <= a < closed@.len() ==> #[trigger] closed@[a]@.len() == closed@.len(),
        forall|a: int, b: int|
            0 <= a < closed@.len() && 0 <= b < closed@.len() ==> (#[trigger] closed@[a]@[b] <==> reaches(
                direct_matrix(ts, pred),
                a,
                b,
            )),
        texts(old(out)@) == distinct_texts(cands),
    ensures
        all@ == cands + picked(schema_names(ts), names@.len() as int, super_pick(ts, pred, i as int, skip_thing)),
        texts(final(out)@) == distinct_texts(all@),
{
    let ghost nv = texts(names@);
    let ghost pick = super_pick(ts, pred, i as int, skip_thing);
    let ghost mut acc = cands;
    let mut j: usize = 0;
    while j < names.len()
        invariant
            nv == texts(names@),
            nv == schema_names(ts),
            pick == super_pick(ts, pred, i as int, skip_thing),
            closed@.len() == names@.len(),
            i < names@.len(),
            forall|a: int| 0 <= a < closed@.len() ==> #[trigger] closed@[a]@.len() == closed@.len(),
            forall|a: int, b: int|
                0 <= a < closed@.len() && 0 <= b < closed@.len() ==> (#[trigger] closed@[a]@[b] <==> reaches(
                    direct_matrix(ts, pred),
                    a,
                    b,
                )),
            j <= names@.len(),
            acc == cands + picked(nv, j as int, pick),
            texts(out@) == distinct_texts(acc),
        decreases names@.len() - j,
    {
        let thing = same_text(names[j].as_str(), "http://www.w3.org/2002/07/owl#Thing");
        proof {
            assert(nv[j as int] == names@[j as int]@);
        }
        if closed[i][j] && !(skip_thing && thing) {
            add_text(out, &names[j]);
            proof {
                assert(pick(j as int));
                assert(picked(nv, j + 1, pick) == picked(nv, j as int, pick) + seq![nv[j as int]]);
                assert(acc.push(nv[j as int]).drop_last() =~= acc);
                acc = acc.push(nv[j as int]);
                assert(acc =~= cands + picked(nv, j + 1, pick));
            }
        } else {
            proof {
                assert(!pick(j as int));
                assert(picked(nv, j + 1, pick) =~= picked(nv, j as int, pick));
            }
        }
        j = j + 1;
    }
    Ghost(acc)
}

/// The labels of a node whose classes are `types`: its distinct label IRIs
/// (each class, then the class's super-classes other than `owl:Thing`) by
/// local name.
fn node_labels(
    types: &Vec<String>,
    names: &Vec<String>,
    name_ids: &TextIds,
    closed: &Vec<Vec<bool>>,
    Ghost(ts): Ghost<Seq<RdfTriple>>,
) -> (labels: Vec<String>)
    requires
        texts(names@) == schema_names(ts),
        name_index(text_ids(*name_ids), texts(names@)),
        closed@.len() == names@.len(),
        forall|a: int| 0 <= a < closed@.len() ==> #[trigger] closed@[a]@.len() == closed@.len(),
        forall|a: int, b: int|
            0 <= a < closed@.len() && 0 <= b < closed@.len() ==> (#[trigger] closed@[a]@[b] <==> reaches(
                direct_matrix(ts, rdfs_subclass()),
                a,
                b,
            )),
    ensures
        texts(labels@) == node_label_names(ts, texts(types@)),
{
    let ghost tv = texts(types@);
    let mut iris: Vec<String> = Vec::new();
    let ghost mut cands: Seq<Seq<char>> = Seq::empty();
    proof {
        assert(texts(iris@) =~= Seq::<Seq<char>>::empty());
        assert(tv.take(0) =~= Seq::<Seq<char>>::empty());
    }
    let mut t: usize = 0;
    while t < types.len()
        invariant
            tv == texts(types@),
            texts(names@) == schema_names(ts),
            name_index(text_ids(*name_ids), texts(names@)),
            closed@.len() == names@.len(),
            forall|a: int| 0 <= a < closed@.len() ==> #[trigger] closed@[a]@.len() == closed@.len(),
            forall|a: int, b: int|
                0 <= a < closed@.len() && 0 <= b < closed@.len() ==> (#[trigger] closed@[a]@[b] <==> reaches(
                    direct_matrix(ts, rdfs_subclass()),
                    a,
                    b,
                )),
            t <= types@.len(),
            cands == label_candidates(ts, tv.take(t as int)),
            texts(iris@) == distinct_texts(cands),
        decreases types@.len() - t,
    {
        let ty = &types[t];
        proof {
            assert(tv.take(t + 1).drop_last() =~= tv.take(t as int));
            assert(tv.take(t + 1).last() == ty@);
            assert(cands.push(ty@).drop_last() =~= cands);
        }
        add_text(&mut iris, ty);
        proof {
            cands = cands.push(ty@);
        }
        let ghost nv = texts(names@);
        match name_ids.get(ty.as_str()) {
            Some(i) => {
                proof {
                    assert(nv.contains(ty@));
                    assert(nv.index_of(ty@) == i) by {
                        let j = nv.index_of(ty@);
                        assert(nv[j] == ty@);
                    }
                }
                let Ghost(all) = add_supers(
                    &mut iris,
                    names,
                    closed,
                    i,
                    true,
                    Ghost(ts),
                    Ghost(rdfs_subclass()),
                    Ghost(cands),
                );
                proof {
                    cands = all;
                }
            },
            None => {
                proof {
                    assert(!nv.contains(ty@));
                    assert(supers(ts, rdfs_subclass(), ty@, true) =~= Seq::<Seq<char>>::empty());
                }
            },
        }
        proof {
            assert(cands =~= label_candidates(ts, tv.take(t + 1)));
        }
        t = t + 1;
    }
    proof {
        assert(tv.take(types@.len() as int) =~= tv);
    }
    let mut labels: Vec<String> = Vec::new();
    let mut k: usize = 0;
    while k < iris.len()
        invariant
            k <= iris@.len(),
            labels@.len() == k,
            texts(labels@) == texts(iris@).take(k as int).map_values(|x: Seq<char>| local_name_chars(x)),
        decreases iris@.len() - k,
    {
        let ln = local_name(iris[k].as_str());
        let lc = chars_of(ln);
        let ghost before = labels@;
        let lab = string_of(lc.as_slice());
        proof {
            assert(lab@ == local_name_chars(texts(iris@)[k as int]));
        }
        labels.push(lab);
        k = k + 1;
        proof {
            assert forall|q: int| 0 <= q < k implies #[trigger] texts(labels@)[q] == texts(iris@).take(k as int).map_values(
                |x: Seq<char>| local_name_chars(x),
            )[q] by {
                if q < k - 1 {
                    assert(labels@[q] == before[q]);
                    assert(texts(labels@)[q] == texts(before)[q]);
                }
            }
            assert(texts(labels@) =~= texts(iris@).take(k as int).map_values(|x: Seq<char>| local_name_chars(x)));
        }
    }
    proof {
        assert(texts(iris@).take(iris@.len() as int) =~= texts(iris@));
    }
    labels
}

/// Relationships (source node, target node, type), properties (node, key,
/// value, datatype IRI), the (node, key) pairs that have a property, and the
/// number of statements that gave a relationship.
pub type EdgeState = (
    Seq<(u32, u32, Seq<char>)>,
    Seq<(u32, Seq<char>, Seq<char>, Option<Seq<char>>)>,
    Set<(u32, Seq<char>)>,
    nat,
);

/// The relationships from `sid` to `did` under each super-property in `sup`.
pub open spec fn super_rels(sid: u32, did: u32, sup: Seq<Seq<char>>) -> Seq<(u32, u32, Seq<char>)> {
    sup.map_values(|x: Seq<char>| (sid, did, local_name_chars(x)))
}

/// The effect of one statement on the relationships and properties, with
/// resource ids by position in `keys` and super-properties from the schema of
/// `all`: `rdf:type` and schema statements are skipped; a resource object
/// gives a relationship named by the predicate's local name, followed by one
/// per super-property of the predicate; a literal object gives a property
/// unless the node has one of that name already.
pub open spec fn edges_step(all: Seq<RdfTriple>, keys: Seq<Seq<char>>, st: EdgeState, t: RdfTriple) -> EdgeState {
    if has_predicate(t, rdf_type()) || is_schema(t) {
        st
    } else {
        match (resource_key_of(t.subject), t.predicate) {
            (Some(sk), RdfTerm::Iri(p)) => {
                let sid = keys.index_of(sk) as u32;
                let key = local_name_chars(p);
                if is_resource_term(t.object) {
                    let did = keys.index_of(resource_key_of(t.object)->0) as u32;
                    (
                        st.0 + seq![(sid, did, key)] + super_rels(sid, did, supers(all, rdfs_subprop(), p, false)),
                        st.1,
                        st.2,
                        st.3 + 1,
                    )
                } else {
                    match t.object {
                        RdfTerm::Literal { value, datatype, .. } => if st.2.contains((sid, key)) {
                            st
                        } else {
                            (st.0, st.1.push((sid, key, value, datatype)), st.2.insert((sid, key)), st.3)
                        },
                        _ => st,
                    }
                }
            },
            _ => st,
        }
    }
}

/// The relationships and properties of the statements `ts`, in order.
pub open spec fn edges_of(all: Seq<RdfTriple>, keys: Seq<Seq<char>>, ts: Seq<RdfTriple>) -> EdgeState
    decreases ts.len(),
{
    if ts.len() == 0 {
        (Seq::empty(), Seq::empty(), Set::empty(), 0)
    } else {
        edges_step(all, keys, edges_of(all, keys, ts.drop_last()), ts.last())
    }
}

proof fn lemma_intern_keeps(r: Resources, t: RdfTerm, k: Seq<char>)
    requires
        r.0.contains(k),
    ensures
        intern_term(r, t).0.contains(k),
{
    match resource_key_of(t) {
        Some(x) => if !r.0.contains(x) {
            let i = choose|i: int| 0 <= i < r.0.len() && r.0[i] == k;
            assert(r.0.push(x)[i] == k);
        },
        None => {},
    }
}

proof fn lemma_intern_adds(r: Resources, t: RdfTerm)
    ensures
        resource_key_of(t) matches Some(x) ==> intern_term(r, t).0.contains(x),
{
    match resource_key_of(t) {
        Some(x) => if !r.0.contains(x) {
            assert(r.0.push(x)[r.0.len() as int] == x);
        },
        None => {},
    }
}

proof fn lemma_step_keeps(r: Resources, t: RdfTriple, k: Seq<char>)
    requires
        r.0.contains(k),
    ensures
        resources_step(r, t).0.contains(k),
{
    if !is_schema(t) {
        lemma_intern_keeps(r, t.subject, k);
        let r1 = intern_term(r, t.subject);
        if !has_predicate(t, rdf_type()) && is_resource_term(t.object) {
            lemma_intern_keeps(r1, t.object, k);
        }
    }
}

/// Every resource that a data statement names has a key among the resources.
proof fn lemma_resources_cover(ts: Seq<RdfTriple>, q: int)
    requires
        0 <= q < ts.len(),
        !is_schema(ts[q]),
    ensures
        resource_key_of(ts[q].subject) matches Some(x) ==> resources_of(ts).0.contains(x),
        !has_predicate(ts[q], rdf_type()) && is_resource_term(ts[q].object) ==> resources_of(ts).0.contains(
            resource_key_of(ts[q].object)->0,
        ),
    decreases ts.len(),
{
    let p = ts.drop_last();
    if q < ts.len() - 1 {
        assert(ts[q] == p[q]);
        lemma_resources_cover(p, q);
        if let Some(x) = resource_key_of(ts[q].subject) {
            lemma_step_keeps(resources_of(p), ts.last(), x);
        }
        if !has_predicate(ts[q], rdf_type()) && is_resource_term(ts[q].object) {
            lemma_step_keeps(resources_of(p), ts.last(), resource_key_of(ts[q].object)->0);
        }
    } else {
        let r = resources_of(p);
        let t = ts.last();
        lemma_intern_adds(r, t.subject);
        let r1 = intern_term(r, t.subject);
        if !has_predicate(t, rdf_type()) && is_resource_term(t.object) {
            if let Some(x) = resource_key_of(t.subject) {
                lemma_intern_keeps(r1, t.object, x);
            }
            lemma_intern_adds(r1, t.object);
        }
    }
}

/// Relationships as plain values.
pub open spec fn rel_rows(v: Seq<(u32, u32, String)>) -> Seq<(u32, u32, Seq<char>)> {
    v.map_values(|r: (u32, u32, String)| (r.0, r.1, r.2@))
}

/// Properties as plain values.
pub open spec fn prop_rows(v: Seq<(u32, String, String, Option<String>)>) -> Seq<(u32, Seq<char>, Seq<char>, Option<Seq<char>>)> {
    v.map_values(|p: (u32, String, String, Option<String>)| (p.0, p.1@, p.2@, match p.3 {
        Some(d) => Some(d@),
        None => None,
    }))
}

pub(crate) fn text_copy(s: &str) -> (r: String)
    ensures
        r@ == s@,
{
    let c = chars_of(s);
    string_of(c.as_slice())
}

/// Append a relationship from `sid` to `did` for each super-property of
/// schema name `i` (a row of the closed sub-property relation `closed`).
fn add_super_rels(
    rels: &mut Vec<(u32, u32, String)>,
    names: &Vec<String>,
    closed: &Vec<Vec<bool>>,
    i: usize,
    sid: u32,
    did: u32,
    Ghost(ts): Ghost<Seq<RdfTriple>>,
)
    requires
        texts(names@) == schema_names(ts),
        closed@.len() == names@.len(),
        i < names@.len(),
        forall|a: int| 0 <= a < closed@.len() ==> #[trigger] closed@[a]@.len() == closed@.len(),
        forall|a: int, b: int|
            0 <= a < closed@.len() && 0 <= b < closed@.len() ==> (#[trigger] closed@[a]@[b] <==> reaches(
                direct_matrix(ts, rdfs_subprop()),
                a,
                b,
            )),
    ensures
        rel_rows(final(rels)@) == rel_rows(old(rels)@) + super_rels(
            sid,
            did,
            picked(schema_names(ts), names@.len() as int, super_pick(ts, rdfs_subprop(), i as int, false)),
        ),
{
    let ghost nv = texts(names@);
    let ghost pick = super_pick(ts, rdfs_subprop(), i as int, false);
    let mut j: usize = 0;
    while j < names.len()
        invariant
            nv == texts(names@),
            nv == schema_names(ts),
            pick == super_pick(ts, rdfs_subprop(), i as int, false),
            closed@.len() == names@.len(),
            i < names@.len(),
            forall|a: int| 0 <= a < closed@.len() ==> #[trigger] closed@[a]@.len() == closed@.len(),
            forall|a: int, b: int|
                0 <= a < closed@.len() && 0 <= b < closed@.len() ==> (#[trigger] closed@[a]@[b] <==> reaches(
                    direct_matrix(ts, rdfs_subprop()),
                    a,
                    b,
                )),
            j <= names@.len(),
            rel_rows(rels@) == rel_rows(old(rels)@) + super_rels(sid, did, picked(nv, j as int, pick)),
        decreases names@.len() - j,
    {
        proof {
            assert(nv[j as int] == names@[j as int]@);
        }
        if closed[i][j] {
            let ghost before = rels@;
            let ln = local_name(names[j].as_str());
            let lab = text_copy(ln);
            rels.push((sid, did, lab));
            proof {
                assert(pick(j as int));
                assert(picked(nv, j + 1, pick) == picked(nv, j as int, pick) + seq![nv[j as int]]);
                assert(super_rels(sid, did, picked(nv, j + 1, pick)) =~= super_rels(sid, did, picked(nv, j as int, pick)).push(
                    (sid, did, local_name_chars(nv[j as int])),
                ));
                assert(rel_rows(rels@) =~= rel_rows(before).push((sid, did, local_name_chars(nv[j as int]))));
            }
        } else {
            proof {
                assert(!pick(j as int));
                assert(picked(nv, j + 1, pick) =~= picked(nv, j as int, pick));
            }
        }
        j = j + 1;
    }
}

/// The relationships and properties of the data statements of `ts`, and the
/// number of statements that gave a relationship.
fn read_edges(
    ts: &Vec<Triple>,
    ids: &TextIds,
    names: &Vec<String>,
    name_ids: &TextIds,
    closed: &Vec<Vec<bool>>,
    Ghost(keys): Ghost<Seq<Seq<char>>>,
) -> (r: (Vec<(u32, u32, String)>, Vec<(u32, String, String, Option<String>)>, usize))
    requires
        name_index(text_ids(*ids), keys),
        keys == resources_of(ts@.map_values(|t: Triple| t@)).0,
        keys.len() <= u32::MAX,
        texts(names@) == schema_names(ts@.map_values(|t: Triple| t@)),
        name_index(text_ids(*name_ids), texts(names@)),
        closed@.len() == names@.len(),
        forall|a: int| 0 <= a < closed@.len() ==> #[trigger] closed@[a]@.len() == closed@.len(),
        forall|a: int, b: int|
            0 <= a < closed@.len() && 0 <= b < closed@.len() ==> (#[trigger] closed@[a]@[b] <==> reaches(
                direct_matrix(ts@.map_values(|t: Triple| t@), rdfs_subprop()),
                a,
                b,
            )),
    ensures
        rel_rows(r.0@) == edges_of(ts@.map_values(|t: Triple| t@), keys, ts@.map_values(|t: Triple| t@)).0,
        prop_rows(r.1@) == edges_of(ts@.map_values(|t: Triple| t@), keys, ts@.map_values(|t: Triple| t@)).1,
        r.2 == edges_of(ts@.map_values(|t: Triple| t@), keys, ts@.map_values(|t: Triple| t@)).3,
{
    let ghost tv = ts@.map_values(|t: Triple| t@);
    let mut rels: Vec<(u32, u32, String)> = Vec::new();
    let mut props: Vec<(u32, String, String, Option<String>)> = Vec::new();
    let mut seen = SeenKeys::new();
    let mut main: usize = 0;
    proof {
        assert(tv.take(0) =~= Seq::<RdfTriple>::empty());
        assert(rel_rows(rels@) =~= Seq::<(u32, u32, Seq<char>)>::empty());
        assert(prop_rows(props@) =~= Seq::<(u32, Seq<char>, Seq<char>, Option<Seq<char>>)>::empty());
        assert(seen_keys(seen) =~= Set::<(u32, Seq<char>)>::empty());
    }
    let mut i: usize = 0;
    while i < ts.len()
        invariant
            tv == ts@.map_values(|t: Triple| t@),
            name_index(text_ids(*ids), keys),
            keys == resources_of(tv).0,
            keys.len() <= u32::MAX,
            texts(names@) == schema_names(tv),
            name_index(text_ids(*name_ids), texts(names@)),
            closed@.len() == names@.len(),
            forall|a: int| 0 <= a < closed@.len() ==> #[trigger] closed@[a]@.len() == closed@.len(),
            forall|a: int, b: int|
                0 <= a < closed@.len() && 0 <= b < closed@.len() ==> (#[trigger] closed@[a]@[b] <==> reaches(
                    direct_matrix(tv, rdfs_subprop()),
                    a,
                    b,
                )),
            i <= ts@.len(),
            main <= i,
            rel_rows(rels@) == edges_of(tv, keys, tv.take(i as int)).0,
            prop_rows(props@) == edges_of(tv, keys, tv.take(i as int)).1,
            seen_keys(seen) == edges_of(tv, keys, tv.take(i as int)).2,
            main == edges_of(tv, keys, tv.take(i as int)).3,
        decreases ts@.len() - i,
    {
        let t = &ts[i];
        let ghost st = edges_of(tv, keys, tv.take(i as int));
        proof {
            assert(tv.take(i + 1).drop_last() =~= tv.take(i as int));
            assert(tv.take(i + 1).last() == t@);
            assert(tv[i as int] == t@);
        }
        if !(predicate_is(t, "http://www.w3.org/1999/02/22-rdf-syntax-ns#type") || is_tbox(t)) {
            proof {
                lemma_resources_cover(tv, i as int);
            }
            match (resource_key(&t.subject), &t.predicate) {
                (Some(sk), Term::Iri(p)) => {
                    let sid = match ids.get(sk.as_str()) {
                        Some(x) => x,
                        None => {
                            proof {
                                assert(keys.contains(sk@));
                            }
                            return (rels, props, main);
                        },
                    };
                    proof {
                        assert(keys.index_of(sk@) == sid) by {
                            let j = keys.index_of(sk@);
                            assert(keys[j] == sk@);
                        }
                    }
                    let sid = sid as u32;
                    let key = text_copy(local_name(p.as_str()));
                    if t.object.is_resource() {
                        let dk = match resource_key(&t.object) {
                            Some(k) => k,
                            None => {
                                return (rels, props, main);
                            },
                        };
                        let did = match ids.get(dk.as_str()) {
                            Some(x) => x,
                            None => {
                                proof {
                                    assert(keys.contains(dk@));
                                }
                                return (rels, props, main);
                            },
                        };
                        proof {
                            assert(keys.index_of(dk@) == did) by {
                                let j = keys.index_of(dk@);
                                assert(keys[j] == dk@);
                            }
                        }
                        let did = did as u32;
                        let ghost before = rels@;
                        rels.push((sid, did, key));
                        main = main + 1;
                        let ghost nv = texts(names@);
                        match name_ids.get(p.as_str()) {
                            Some(pi) => {
                                proof {
                                    assert(nv.contains(p@));
                                    assert(nv.index_of(p@) == pi) by {
                                        let j = nv.index_of(p@);
                                        assert(nv[j] == p@);
                                    }
                                }
                                add_super_rels(&mut rels, names, closed, pi, sid, did, Ghost(tv));
                            },
                            None => {
                                proof {
                                    assert(!nv.contains(p@));
                                    assert(supers(tv, rdfs_subprop(), p@, false) =~= Seq::<Seq<char>>::empty());
                                    assert(super_rels(sid, did, Seq::<Seq<char>>::empty()) =~= Seq::<(u32, u32, Seq<char>)>::empty());
                                }
                            },
                        }
                        proof {
                            assert(rel_rows(before.push((sid, did, key))) =~= rel_rows(before) + seq![
                                (sid, did, local_name_chars(p@)),
                            ]);
                            assert(rel_rows(rels@) =~= edges_of(tv, keys, tv.take(i + 1)).0);
                        }
                    } else {
                        match &t.object {
                            Term::Literal { value, datatype, .. } => {
                                let ghost before = props@;
                                if seen.insert(sid, key.clone()) {
                                    let dt = match datatype {
                                        Some(d) => Some(d.clone()),
                                        None => None,
                                    };
                                    props.push((sid, key, value.clone(), dt));
                                    proof {
                                        assert(prop_rows(props@) =~= prop_rows(before).push(
                                            (sid, local_name_chars(p@), value@, crate::ntriples::opt_chars(*datatype)),
                                        ));
                                    }
                                }
                            },
                            _ => {},
                        }
                    }
                },
                _ => {},
            }
        }
        i = i + 1;
    }
    proof {
        assert(tv.take(ts@.len() as int) =~= tv);
    }
    (rels, props, main)
}

/// A property graph over dense node ids: each node's labels and, for a
/// resource loaded from RDF, its decoded IRI (by node id); the relationships
/// (source, target, type); and the properties (node, name, value text,
/// datatype IRI), whose datatype says how the text is stored (see
/// [`literal_kind`]); and the integer properties of relationships
/// (relationship position in `rels`, name, value).
pub struct PropGraph {
    pub labels: Vec<Vec<String>>,
    pub uris: Vec<Option<String>>,
    pub rels: Vec<(u32, u32, String)>,
    pub props: Vec<(u32, String, String, Option<String>)>,
    pub rel_props: Vec<(usize, String, i64)>,
}

/// Counts from a load, for the run banner.
pub struct SpbStats {
    pub resources: usize,
    pub triples: usize,
    pub rels: usize,
    pub literals: usize,
}

impl Default for SpbStats {
    fn default() -> (s: SpbStats)
        ensures
            s.resources == 0,
            s.triples == 0,
            s.rels == 0,
            s.literals == 0,
    {
        SpbStats { resources: 0, triples: 0, rels: 0, literals: 0 }
    }
}

/// The labels of every node of the statements `ts`, by node id.
pub open spec fn graph_labels(ts: Seq<RdfTriple>) -> Seq<Seq<Seq<char>>> {
    let res = resources_of(ts);
    Seq::new(res.0.len(), |i: int| node_label_names(ts, res.1[i]))
}

/// Load N-Triples text as a property graph: resources get node ids in order
/// of first appearance; `rdf:type` statements give labels (each class and its
/// RDFS super-classes, `owl:Thing` aside, by local name); a resource object
/// gives a relationship typed by the predicate's local name and one more per
/// RDFS super-property; a literal object gives a property, the first per node
/// and name. RDFS schema statements are read as the ontology only.
pub fn load_str(text: &str) -> (r: (PropGraph, SpbStats))
    requires
        lines_scan_from(text@, 0),
        resources_of(triples_from(text@, 0)).0.len() <= u32::MAX,
    ensures
        text_lists(r.0.labels@) == graph_labels(triples_from(text@, 0)),
        opt_texts(r.0.uris@) == resources_of(triples_from(text@, 0)).2,
        rel_rows(r.0.rels@) == edges_of(
            triples_from(text@, 0),
            resources_of(triples_from(text@, 0)).0,
            triples_from(text@, 0),
        ).0,
        prop_rows(r.0.props@) == edges_of(
            triples_from(text@, 0),
            resources_of(triples_from(text@, 0)).0,
            triples_from(text@, 0),
        ).1,
        r.0.rel_props@.len() == 0,
        r.1.resources == resources_of(triples_from(text@, 0)).0.len(),
        r.1.triples == triples_from(text@, 0).len(),
        r.1.rels == edges_of(
            triples_from(text@, 0),
            resources_of(triples_from(text@, 0)).0,
            triples_from(text@, 0),
        ).3,
        r.1.literals == edges_of(
            triples_from(text@, 0),
            resources_of(triples_from(text@, 0)).0,
            triples_from(text@, 0),
        ).1.len(),
{
    let triples = parse(text);
    let ghost tv = triples@.map_values(|t: Triple| t@);
    let (names, name_ids, mut class_m, mut prop_m) = read_schema(&triples);
    let ghost class0 = class_m@;
    let ghost prop0 = prop_m@;
    proof {
        assert(bool_rows(class0).len() == class0.len());
        assert(bool_rows(prop0).len() == prop0.len());
        assert(texts(names@).len() == names@.len());
        assert(class0.len() == names@.len());
        assert(prop0.len() == names@.len());
        assert(class0.map_values(|r: Vec<bool>| r@) == direct_matrix(tv, rdfs_subclass()));
        assert(prop0.map_values(|r: Vec<bool>| r@) == direct_matrix(tv, rdfs_subprop()));
    }
    close_transitively(&mut class_m);
    close_transitively(&mut prop_m);
    let (ids, types, uris) = read_resources(&triples);
    let ghost res = resources_of(tv);
    let n = types.len();
    let mut labels: Vec<Vec<String>> = Vec::new();
    let mut id: usize = 0;
    while id < n
        invariant
            n == types@.len() == res.1.len(),
            text_lists(types@) == res.1,
            texts(names@) == schema_names(tv),
            name_index(text_ids(name_ids), texts(names@)),
            class_m@.len() == names@.len(),
            forall|a: int| 0 <= a < class_m@.len() ==> #[trigger] class_m@[a]@.len() == class_m@.len(),
            forall|a: int, b: int|
                0 <= a < class_m@.len() && 0 <= b < class_m@.len() ==> (#[trigger] class_m@[a]@[b] <==> reaches(
                    direct_matrix(tv, rdfs_subclass()),
                    a,
                    b,
                )),
            id <= n,
            labels@.len() == id,
            forall|q: int| 0 <= q < id ==> #[trigger] texts(labels@[q]@) == node_label_names(tv, res.1[q]),
        decreases n - id,
    {
        proof {
            assert(texts(types@[id as int]@) == res.1[id as int]);
        }
        let l = node_labels(&types[id], &names, &name_ids, &class_m, Ghost(tv));
        labels.push(l);
        id = id + 1;
    }
    let (rels, props, main) = read_edges(&triples, &ids, &names, &name_ids, &prop_m, Ghost(res.0));
    proof {
        assert(text_lists(labels@) =~= graph_labels(tv)) by {
            assert forall|q: int| 0 <= q < n implies #[trigger] text_lists(labels@)[q] == graph_labels(tv)[q] by {
                assert(texts(labels@[q]@) == node_label_names(tv, res.1[q]));
            }
        }
    }
    let stats = SpbStats { resources: n, triples: triples.len(), rels: main, literals: props.len() };
    proof {
        assert(prop_rows(props@).len() == props@.len());
    }
    (PropGraph { labels, uris, rels, props, rel_props: Vec::new() }, stats)
}

/// How a literal is stored: as an integer, a boolean, a decimal number (its
/// text read as a floating-point number), or as text.
#[derive(Debug, Clone, Copy, PartialEq, Eq)]
pub enum LiteralKind {
    Int(i64),
    Bool(bool),
    Decimal,
    Text,
}

/// The XSD integer datatypes, by local name.
pub open spec fn is_integer_type(ln: Seq<char>) -> bool {
    ln == "integer"@ || ln == "int"@ || ln == "long"@ || ln == "short"@ || ln == "byte"@ || ln
        == "nonNegativeInteger"@ || ln == "positiveInteger"@
}

/// The XSD decimal datatypes, by local name.
pub open spec fn is_decimal_type(ln: Seq<char>) -> bool {
    ln == "double"@ || ln == "float"@ || ln == "decimal"@
}

/// The most specific storage that a literal's datatype allows: an integer
/// type whose value reads as an `i64`, a decimal type (read as a number by the
/// store, which falls back to text when it does not read), `boolean` with the
/// value `true` or `false`; text otherwise.
pub open spec fn literal_kind_of(value: Seq<char>, datatype: Option<Seq<char>>) -> LiteralKind {
    match datatype {
        Some(d) => {
            let ln = local_name_chars(d);
            if is_integer_type(ln) {
                match text_i64(value) {
                    Some(v) => LiteralKind::Int(v),
                    None => LiteralKind::Text,
                }
            } else if is_decimal_type(ln) {
                LiteralKind::Decimal
            } else if ln == "boolean"@ {
                if value == "true"@ {
                    LiteralKind::Bool(true)
                } else if value == "false"@ {
                    LiteralKind::Bool(false)
                } else {
                    LiteralKind::Text
                }
            } else {
                LiteralKind::Text
            }
        },
        None => LiteralKind::Text,
    }
}

/// How to store a literal with this value and datatype IRI.
pub fn literal_kind(value: &str, datatype: Option<&str>) -> (k: LiteralKind)
    ensures
        k == literal_kind_of(value@, match datatype {
            Some(d) => Some(d@),
            None => None,
        }),
{
    match datatype {
        Some(dt) => {
            let ln = local_name(dt);
            if same_text(ln, "integer") || same_text(ln, "int") || same_text(ln, "long") || same_text(ln, "short")
                || same_text(ln, "byte") || same_text(ln, "nonNegativeInteger") || same_text(
                ln,
                "positiveInteger",
            ) {
                let vc = chars_of(value);
                match parse_i64_text(vc.as_slice()) {
                    Some(v) => LiteralKind::Int(v),
                    None => LiteralKind::Text,
                }
            } else if same_text(ln, "double") || same_text(ln, "float") || same_text(ln, "decimal") {
                LiteralKind::Decimal
            } else if same_text(ln, "boolean") {
                if same_text(value, "true") {
                    LiteralKind::Bool(true)
                } else if same_text(value, "false") {
                    LiteralKind::Bool(false)
                } else {
                    LiteralKind::Text
                }
            } else {
                LiteralKind::Text
            }
        },
        None => LiteralKind::Text,
    }
}

/// Without schema statements nothing has supers: every node's labels are the
/// local names of its own classes, and each relationship statement gives one
/// relationship.
pub proof fn law_no_schema_no_supers(ts: Seq<RdfTriple>, pred: Seq<char>, x: Seq<char>, skip_thing: bool)
    requires
        forall|k: int| 0 <= k < ts.len() ==> schema_iris(#[trigger] ts[k]) is None,
    ensures
        supers(ts, pred, x, skip_thing) == Seq::<Seq<char>>::empty(),
{
    lemma_no_schema_names(ts);
}

proof fn lemma_no_schema_names(ts: Seq<RdfTriple>)
    requires
        forall|k: int| 0 <= k < ts.len() ==> schema_iris(#[trigger] ts[k]) is None,
    ensures
        schema_names(ts) == Seq::<Seq<char>>::empty(),
    decreases ts.len(),
{
    if ts.len() > 0 {
        let p = ts.drop_last();
        assert forall|k: int| 0 <= k < p.len() implies schema_iris(#[trigger] p[k]) is None by {
            assert(p[k] == ts[k]);
        }
        lemma_no_schema_names(p);
        assert(schema_iris(ts[ts.len() - 1]) is None);
    }
}

} // verus!
