//! Reading the property graph of an SPB load: node labels and IRIs,
//! relationships by type in either direction, literal properties by kind,
//! and the lookup of a resource by its IRI.
use vstd::prelude::*;
use crate::rdfgraph::{literal_kind, literal_kind_of, text_copy, texts, LiteralKind, PropGraph};
use crate::rdfload::same_text;

verus! {

/// The node ids in use: one per node, within the `u32` range of ids.
pub open spec fn id_limit(g: PropGraph) -> int {
    if g.labels@.len() <= 0x1_0000_0000 {
        g.labels@.len() as int
    } else {
        0x1_0000_0000
    }
}

/// The number of node ids in use.
pub fn id_count(g: &PropGraph) -> (r: usize)
    ensures
        r == id_limit(*g),
{
    if g.labels.len() <= u32::MAX as usize {
        g.labels.len()
    } else {
        u32::MAX as usize + 1
    }
}

/// An optional text as a plain sequence.
pub open spec fn opt_text(o: Option<&str>) -> Option<Seq<char>> {
    match o {
        Some(s) => Some(s@),
        None => None,
    }
}

/// Node `n` carries the label `l`.
pub open spec fn labelled(g: PropGraph, n: int, l: Seq<char>) -> bool {
    0 <= n < g.labels@.len() && texts(g.labels@[n]@).contains(l)
}

/// The IRI of node `n`; blank nodes have none.
pub open spec fn uri_at(g: PropGraph, n: int) -> Option<Seq<char>> {
    if 0 <= n < g.uris@.len() {
        match g.uris@[n] {
            Some(s) => Some(s@),
            None => None,
        }
    } else {
        None
    }
}

/// Relationship `k` starts at `s` and has type `ty`.
pub open spec fn rel_from(g: PropGraph, k: int, s: int, ty: Seq<char>) -> bool {
    g.rels@[k].0 == s && g.rels@[k].2@ == ty
}

/// Relationship `k` ends at `t` and has type `ty`.
pub open spec fn rel_into(g: PropGraph, k: int, t: int, ty: Seq<char>) -> bool {
    g.rels@[k].1 == t && g.rels@[k].2@ == ty
}

/// The targets of the first `k` relationships that start at `s` with type
/// `ty`, in relationship order (one per relationship).
pub open spec fn targets_upto(g: PropGraph, s: int, ty: Seq<char>, k: int) -> Seq<u32>
    decreases k,
{
    if k <= 0 {
        Seq::empty()
    } else if rel_from(g, k - 1, s, ty) {
        targets_upto(g, s, ty, k - 1).push(g.rels@[k - 1].1)
    } else {
        targets_upto(g, s, ty, k - 1)
    }
}

/// The targets of the relationships of type `ty` out of `s`.
pub open spec fn targets(g: PropGraph, s: int, ty: Seq<char>) -> Seq<u32> {
    targets_upto(g, s, ty, g.rels@.len() as int)
}

/// The sources of the first `k` relationships of type `ty` into `t`.
pub open spec fn sources_upto(g: PropGraph, t: int, ty: Seq<char>, k: int) -> Seq<u32>
    decreases k,
{
    if k <= 0 {
        Seq::empty()
    } else if rel_into(g, k - 1, t, ty) {
        sources_upto(g, t, ty, k - 1).push(g.rels@[k - 1].0)
    } else {
        sources_upto(g, t, ty, k - 1)
    }
}

/// The sources of the relationships of type `ty` into `t`.
pub open spec fn sources(g: PropGraph, t: int, ty: Seq<char>) -> Seq<u32> {
    sources_upto(g, t, ty, g.rels@.len() as int)
}

/// The value and datatype of the first property named `key` of node `n`
/// among the properties from index `i` on.
pub open spec fn prop_from(g: PropGraph, n: int, key: Seq<char>, i: int) -> Option<(Seq<char>, Option<Seq<char>>)>
    decreases g.props@.len() - i,
{
    if 0 <= i < g.props@.len() {
        if g.props@[i].0 == n && g.props@[i].1@ == key {
            Some(
                (
                    g.props@[i].2@,
                    match g.props@[i].3 {
                        Some(d) => Some(d@),
                        None => None,
                    },
                ),
            )
        } else {
            prop_from(g, n, key, i + 1)
        }
    } else {
        None
    }
}

/// The property `key` of node `n`: its value and datatype.
pub open spec fn prop_of(g: PropGraph, n: int, key: Seq<char>) -> Option<(Seq<char>, Option<Seq<char>>)> {
    prop_from(g, n, key, 0)
}

/// The property `key` of node `n` when it is stored as text.
pub open spec fn text_prop(g: PropGraph, n: int, key: Seq<char>) -> Option<Seq<char>> {
    match prop_of(g, n, key) {
        Some(p) => if literal_kind_of(p.0, p.1) is Text {
            Some(p.0)
        } else {
            None
        },
        None => None,
    }
}

/// The property `key` of node `n` when it is stored as text and is not empty.
pub open spec fn filled_prop(g: PropGraph, n: int, key: Seq<char>) -> Option<Seq<char>> {
    match text_prop(g, n, key) {
        Some(v) => if v.len() > 0 {
            Some(v)
        } else {
            None
        },
        None => None,
    }
}

/// The property `key` of node `n` is the boolean `true`.
pub open spec fn true_prop(g: PropGraph, n: int, key: Seq<char>) -> bool {
    match prop_of(g, n, key) {
        Some(p) => literal_kind_of(p.0, p.1) == LiteralKind::Bool(true),
        None => false,
    }
}

/// Whether node `n` carries the label `l`.
pub fn has_label(g: &PropGraph, n: u32, l: &str) -> (r: bool)
    ensures
        r == labelled(*g, n as int, l@),
{
    let idx = n as usize;
    if idx >= g.labels.len() {
        return false;
    }
    let ls = &g.labels[idx];
    let mut j: usize = 0;
    while j < ls.len()
        invariant
            j <= ls@.len(),
            (n as int) < g.labels@.len(),
            ls@ == g.labels@[n as int]@,
            forall|q: int| 0 <= q < j ==> texts(ls@)[q] != l@,
        decreases ls.len() - j,
    {
        if same_text(ls[j].as_str(), l) {
            proof {
                assert(texts(ls@)[j as int] == l@);
                assert(texts(ls@).contains(l@));
            }
            return true;
        }
        j = j + 1;
    }
    proof {
        if texts(ls@).contains(l@) {
            let q = choose|q: int| 0 <= q < texts(ls@).len() && texts(ls@)[q] == l@;
            assert(texts(ls@)[q] != l@);
        }
    }
    false
}

/// The IRI of node `n`, if it has one.
pub fn uri_of<'a>(g: &'a PropGraph, n: u32) -> (r: Option<&'a str>)
    ensures
        opt_text(r) == uri_at(*g, n as int),
{
    let idx = n as usize;
    if idx >= g.uris.len() {
        return None;
    }
    match &g.uris[idx] {
        Some(s) => Some(s.as_str()),
        None => None,
    }
}

/// The targets of the relationships of type `ty` out of `s`, in order.
pub fn targets_of(g: &PropGraph, s: u32, ty: &str) -> (r: Vec<u32>)
    ensures
        r@ == targets(*g, s as int, ty@),
{
    let mut out: Vec<u32> = Vec::new();
    let mut k: usize = 0;
    while k < g.rels.len()
        invariant
            k <= g.rels@.len(),
            out@ == targets_upto(*g, s as int, ty@, k as int),
        decreases g.rels.len() - k,
    {
        let rel = &g.rels[k];
        if rel.0 == s && same_text(rel.2.as_str(), ty) {
            out.push(rel.1);
        }
        k = k + 1;
    }
    out
}

/// The sources of the relationships of type `ty` into `t`, in order.
pub fn sources_of(g: &PropGraph, t: u32, ty: &str) -> (r: Vec<u32>)
    ensures
        r@ == sources(*g, t as int, ty@),
{
    let mut out: Vec<u32> = Vec::new();
    let mut k: usize = 0;
    while k < g.rels.len()
        invariant
            k <= g.rels@.len(),
            out@ == sources_upto(*g, t as int, ty@, k as int),
        decreases g.rels.len() - k,
    {
        let rel = &g.rels[k];
        if rel.1 == t && same_text(rel.2.as_str(), ty) {
            out.push(rel.0);
        }
        k = k + 1;
    }
    out
}

/// The value and datatype of the property `key` of node `n`.
pub fn prop_value<'a>(g: &'a PropGraph, n: u32, key: &str) -> (r: Option<(&'a str, Option<&'a str>)>)
    ensures
        match r {
            Some(p) => prop_of(*g, n as int, key@) == Some((p.0@, opt_text(p.1))),
            None => prop_of(*g, n as int, key@) is None,
        },
{
    let mut i: usize = 0;
    while i < g.props.len()
        invariant
            i <= g.props@.len(),
            prop_of(*g, n as int, key@) == prop_from(*g, n as int, key@, i as int),
        decreases g.props.len() - i,
    {
        let p = &g.props[i];
        if p.0 == n && same_text(p.1.as_str(), key) {
            let dt: Option<&str> = match &p.3 {
                Some(d) => Some(d.as_str()),
                None => None,
            };
            return Some((p.2.as_str(), dt));
        }
        i = i + 1;
    }
    None
}

/// Whether node `n` has a property `key`, of any kind.
pub fn has_prop(g: &PropGraph, n: u32, key: &str) -> (r: bool)
    ensures
        r == prop_of(*g, n as int, key@) is Some,
{
    prop_value(g, n, key).is_some()
}

/// The property `key` of node `n` when it is stored as text.
pub fn text_prop_of<'a>(g: &'a PropGraph, n: u32, key: &str) -> (r: Option<&'a str>)
    ensures
        opt_text(r) == text_prop(*g, n as int, key@),
{
    match prop_value(g, n, key) {
        Some(p) => match literal_kind(p.0, p.1) {
            LiteralKind::Text => Some(p.0),
            _ => None,
        },
        None => None,
    }
}

/// The property `key` of node `n` when it is stored as text and not empty.
pub fn filled_prop_of<'a>(g: &'a PropGraph, n: u32, key: &str) -> (r: Option<&'a str>)
    ensures
        opt_text(r) == filled_prop(*g, n as int, key@),
{
    match text_prop_of(g, n, key) {
        Some(v) => if v.unicode_len() > 0 {
            Some(v)
        } else {
            None
        },
        None => None,
    }
}

/// Whether the property `key` of node `n` is the boolean `true`.
pub fn true_prop_of(g: &PropGraph, n: u32, key: &str) -> (r: bool)
    ensures
        r == true_prop(*g, n as int, key@),
{
    match prop_value(g, n, key) {
        Some(p) => match literal_kind(p.0, p.1) {
            LiteralKind::Bool(b) => b,
            _ => false,
        },
        None => false,
    }
}

/// The first node from id `i` on that carries label `l` and the IRI `uri`.
pub open spec fn first_with_uri(g: PropGraph, l: Seq<char>, uri: Seq<char>, i: int) -> Option<u32>
    decreases id_limit(g) - i,
{
    if 0 <= i < id_limit(g) {
        if labelled(g, i, l) && uri_at(g, i) == Some(uri) {
            Some(i as u32)
        } else {
            first_with_uri(g, l, uri, i + 1)
        }
    } else {
        None
    }
}

/// Node `n` is a facet: labelled `Facet`, or a resource without any type
/// (categories, audiences, formats, documents).
pub open spec fn facet_node(g: PropGraph, n: int) -> bool {
    labelled(g, n, "Facet"@) || (0 <= n < g.labels@.len() && g.labels@[n]@.len() == 0)
}

/// The first facet from id `i` on with the IRI `uri`.
pub open spec fn first_facet_with_uri(g: PropGraph, uri: Seq<char>, i: int) -> Option<u32>
    decreases id_limit(g) - i,
{
    if 0 <= i < id_limit(g) {
        if facet_node(g, i) && uri_at(g, i) == Some(uri) {
            Some(i as u32)
        } else {
            first_facet_with_uri(g, uri, i + 1)
        }
    } else {
        None
    }
}

/// The labels under which a resource is looked up by IRI, in turn: creative
/// works, GeoNames features, and the companies and events that works are
/// about.
pub open spec fn lookup_labels() -> Seq<Seq<char>> {
    seq!["CreativeWork"@, "Feature"@, "Company"@, "Event"@]
}

/// The node with IRI `uri`, trying the lookup labels from index `j` on and
/// the facets last.
pub open spec fn lookup_from(g: PropGraph, uri: Seq<char>, j: int) -> Option<u32>
    decreases 4 - j,
{
    if 0 <= j < 4 {
        match first_with_uri(g, lookup_labels()[j], uri, 0) {
            Some(n) => Some(n),
            None => lookup_from(g, uri, j + 1),
        }
    } else {
        first_facet_with_uri(g, uri, 0)
    }
}

/// The node with IRI `uri`: the lowest id under the first lookup label that
/// has one, else the lowest facet with it.
pub open spec fn node_with_uri(g: PropGraph, uri: Seq<char>) -> Option<u32> {
    lookup_from(g, uri, 0)
}

fn first_facet(g: &PropGraph, uri: &str) -> (r: Option<u32>)
    ensures
        r == first_facet_with_uri(*g, uri@, 0),
{
    let lim = id_count(g);
    let mut i: usize = 0;
    while i < lim
        invariant
            lim == id_limit(*g),
            i <= lim,
            first_facet_with_uri(*g, uri@, 0) == first_facet_with_uri(*g, uri@, i as int),
        decreases lim - i,
    {
        let n = i as u32;
        if has_label(g, n, "Facet") || g.labels[i].len() == 0 {
            match uri_of(g, n) {
                Some(u) => {
                    if same_text(u, uri) {
                        return Some(n);
                    }
                },
                None => {},
            }
        }
        i = i + 1;
    }
    None
}

/// The lowest node id that carries label `l` and the IRI `uri`.
pub fn first_labelled_with_uri(g: &PropGraph, l: &str, uri: &str) -> (r: Option<u32>)
    ensures
        r == first_with_uri(*g, l@, uri@, 0),
{
    let lim = id_count(g);
    let mut i: usize = 0;
    while i < lim
        invariant
            lim == id_limit(*g),
            i <= lim,
            first_with_uri(*g, l@, uri@, 0) == first_with_uri(*g, l@, uri@, i as int),
        decreases lim - i,
    {
        let n = i as u32;
        if has_label(g, n, l) {
            match uri_of(g, n) {
                Some(u) => {
                    if same_text(u, uri) {
                        return Some(n);
                    }
                },
                None => {},
            }
        }
        i = i + 1;
    }
    None
}

/// The node with IRI `uri` among creative works, features, companies,
/// events and, failing those, facets (untyped resources such as categories,
/// audiences, formats and documents), in that order of preference; `None`
/// when unknown.
pub fn node_by_uri(g: &PropGraph, uri: &str) -> (r: Option<u32>)
    ensures
        r == node_with_uri(*g, uri@),
{
    proof {
        reveal_strlit("CreativeWork");
        reveal_strlit("Feature");
        reveal_strlit("Company");
        reveal_strlit("Event");
        reveal_with_fuel(lookup_from, 5);
    }
    match first_labelled_with_uri(g, "CreativeWork", uri) {
        Some(n) => return Some(n),
        None => {},
    }
    match first_labelled_with_uri(g, "Feature", uri) {
        Some(n) => return Some(n),
        None => {},
    }
    match first_labelled_with_uri(g, "Company", uri) {
        Some(n) => return Some(n),
        None => {},
    }
    match first_labelled_with_uri(g, "Event", uri) {
        Some(n) => return Some(n),
        None => {},
    }
    first_facet(g, uri)
}

/// For every node id, the number of relationships of type `ty` out of it.
pub fn out_degrees(g: &PropGraph, ty: &str) -> (r: Vec<usize>)
    ensures
        r@.len() == id_limit(*g),
        forall|w: int| 0 <= w < r@.len() ==> #[trigger] r@[w] == targets(*g, w, ty@).len(),
{
    let lim = id_count(g);
    let mut counts: Vec<usize> = Vec::new();
    while counts.len() < lim
        invariant
            counts@.len() <= lim,
            forall|w: int| 0 <= w < counts@.len() ==> #[trigger] counts@[w] == 0,
        decreases lim - counts.len(),
    {
        counts.push(0);
    }
    let mut k: usize = 0;
    while k < g.rels.len()
        invariant
            lim == id_limit(*g),
            counts@.len() == lim,
            k <= g.rels@.len(),
            forall|w: int| 0 <= w < lim ==> #[trigger] counts@[w] == targets_upto(*g, w, ty@, k as int).len(),
        decreases g.rels.len() - k,
    {
        let rel = &g.rels[k];
        let s = rel.0 as usize;
        if s < lim && same_text(rel.2.as_str(), ty) {
            proof {
                assert(targets_upto(*g, s as int, ty@, k as int).len() <= k) by {
                    lemma_targets_len(*g, s as int, ty@, k as int);
                }
            }
            counts.set(s, counts[s] + 1);
        }
        k = k + 1;
    }
    counts
}

/// At most one target per relationship.
pub proof fn lemma_targets_len(g: PropGraph, s: int, ty: Seq<char>, k: int)
    ensures
        targets_upto(g, s, ty, k).len() <= if k < 0 { 0 } else { k },
    decreases k,
{
    if k > 0 {
        lemma_targets_len(g, s, ty, k - 1);
    }
}

/// The IRI of node `n`, or `?` for a node without one.
pub open spec fn uri_or_mark(g: PropGraph, n: int) -> Seq<char> {
    match uri_at(g, n) {
        Some(u) => u,
        None => "?"@,
    }
}

/// The IRI of node `n` as an owned string, or `?` for a node without one.
pub fn uri_text(g: &PropGraph, n: u32) -> (r: String)
    ensures
        r@ == uri_or_mark(*g, n as int),
{
    match uri_of(g, n) {
        Some(u) => text_copy(u),
        None => {
            proof {
                reveal_strlit("?");
            }
            text_copy("?")
        },
    }
}

/// For every node id, whether it has a relationship of type `ty` to `t`.
pub fn linked_into(g: &PropGraph, t: u32, ty: &str) -> (r: Vec<bool>)
    ensures
        r@.len() == id_limit(*g),
        forall|w: int| 0 <= w < r@.len() ==> #[trigger] r@[w] == targets(*g, w, ty@).contains(t),
{
    let lim = id_count(g);
    let mut marks: Vec<bool> = Vec::new();
    while marks.len() < lim
        invariant
            marks@.len() <= lim,
            forall|w: int| 0 <= w < marks@.len() ==> !#[trigger] marks@[w],
        decreases lim - marks.len(),
    {
        marks.push(false);
    }
    let mut k: usize = 0;
    while k < g.rels.len()
        invariant
            lim == id_limit(*g),
            marks@.len() == lim,
            k <= g.rels@.len(),
            forall|w: int| 0 <= w < lim ==> #[trigger] marks@[w] == targets_upto(*g, w, ty@, k as int).contains(t),
        decreases g.rels.len() - k,
    {
        let rel = &g.rels[k];
        let s = rel.0 as usize;
        let hit = s < lim && same_text(rel.2.as_str(), ty);
        proof {
            assert forall|w: int| 0 <= w < lim implies #[trigger] targets_upto(*g, w, ty@, k + 1).contains(t) == (
            targets_upto(*g, w, ty@, k as int).contains(t) || (hit && w == s && rel.1 == t)) by {
                let before = targets_upto(*g, w, ty@, k as int);
                if rel_from(*g, k as int, w, ty@) {
                    assert(targets_upto(*g, w, ty@, k + 1) == before.push(rel.1));
                    if before.push(rel.1).contains(t) && !before.contains(t) {
                        let q = choose|q: int| 0 <= q < before.push(rel.1).len() && before.push(rel.1)[q] == t;
                        assert(q == before.len());
                    }
                    if before.contains(t) {
                        let q = choose|q: int| 0 <= q < before.len() && before[q] == t;
                        assert(before.push(rel.1)[q] == t);
                    }
                    if rel.1 == t {
                        assert(before.push(rel.1)[before.len() as int] == t);
                    }
                }
            }
        }
        if hit && rel.1 == t {
            marks.set(s, true);
        }
        k = k + 1;
    }
    marks
}

/// The display name of node `n`: a creative work's `title`, else a
/// feature's `name`, else `?`.
pub open spec fn display_name(g: PropGraph, n: int) -> Seq<char> {
    match text_prop(g, n, "title"@) {
        Some(t) => t,
        None => match text_prop(g, n, "name"@) {
            Some(t) => t,
            None => "?"@,
        },
    }
}

/// Display name: a creative work's `title`, or a feature's `name`.
pub fn name_of<'a>(g: &'a PropGraph, n: u32) -> (r: &'a str)
    ensures
        r@ == display_name(*g, n as int),
{
    match text_prop_of(g, n, "title") {
        Some(t) => t,
        None => match text_prop_of(g, n, "name") {
            Some(t) => t,
            None => {
                proof {
                    reveal_strlit("?");
                }
                "?"
            },
        },
    }
}

/// For every node id, the targets of its relationships of type `ty`, in order.
pub fn out_lists(g: &PropGraph, ty: &str) -> (r: Vec<Vec<u32>>)
    ensures
        r@.len() == id_limit(*g),
        forall|w: int| 0 <= w < r@.len() ==> #[trigger] r@[w]@ == targets(*g, w, ty@),
{
    let lim = id_count(g);
    let mut lists: Vec<Vec<u32>> = Vec::new();
    while lists.len() < lim
        invariant
            lists@.len() <= lim,
            forall|w: int| 0 <= w < lists@.len() ==> #[trigger] lists@[w]@ == Seq::<u32>::empty(),
        decreases lim - lists.len(),
    {
        lists.push(Vec::new());
    }
    let mut k: usize = 0;
    while k < g.rels.len()
        invariant
            lim == id_limit(*g),
            lists@.len() == lim,
            k <= g.rels@.len(),
            forall|w: int| 0 <= w < lim ==> #[trigger] lists@[w]@ == targets_upto(*g, w, ty@, k as int),
        decreases g.rels.len() - k,
    {
        let rel = &g.rels[k];
        let s = rel.0 as usize;
        if s < lim && same_text(rel.2.as_str(), ty) {
            lists[s].push(rel.1);
        }
        k = k + 1;
    }
    lists
}

/// For every node id, whether it is among `hits`.
pub fn hit_marks(g: &PropGraph, hits: &Vec<u32>) -> (r: Vec<bool>)
    ensures
        r@.len() == id_limit(*g),
        forall|w: int| 0 <= w < r@.len() ==> #[trigger] r@[w] == hits@.contains(w as u32),
{
    let lim = id_count(g);
    let mut marks: Vec<bool> = Vec::new();
    while marks.len() < lim
        invariant
            marks@.len() <= lim,
            forall|w: int| 0 <= w < marks@.len() ==> !#[trigger] marks@[w],
        decreases lim - marks.len(),
    {
        marks.push(false);
    }
    let mut k: usize = 0;
    while k < hits.len()
        invariant
            lim == id_limit(*g),
            lim <= 0x1_0000_0000,
            marks@.len() == lim,
            k <= hits@.len(),
            forall|w: int| 0 <= w < lim ==> #[trigger] marks@[w] == hits@.take(k as int).contains(w as u32),
        decreases hits.len() - k,
    {
        let h = hits[k] as usize;
        if h < lim {
            marks.set(h, true);
        }
        proof {
            let before = hits@.take(k as int);
            let after = hits@.take(k + 1);
            assert(after =~= before.push(hits@[k as int]));
            assert forall|w: int| 0 <= w < lim implies #[trigger] marks@[w] == after.contains(w as u32) by {
                if after.contains(w as u32) && !before.contains(w as u32) {
                    let p = choose|p: int| 0 <= p < after.len() && #[trigger] after[p] == w as u32;
                    if p < k {
                        assert(before[p] == w as u32);
                    }
                    assert((w as u32) as int == w);
                }
                if before.contains(w as u32) {
                    let p = choose|p: int| 0 <= p < before.len() && #[trigger] before[p] == w as u32;
                    assert(after[p] == w as u32);
                }
                if w == h {
                    assert(after[k as int] == w as u32);
                }
            }
        }
        k = k + 1;
    }
    proof {
        assert(hits@.take(k as int) =~= hits@);
    }
    marks
}

/// The property `key` of node `n` as an integer: its value when it is stored
/// as one, 0 otherwise.
pub open spec fn int_value(g: PropGraph, n: int, key: Seq<char>) -> i64 {
    match prop_of(g, n, key) {
        Some(p) => match literal_kind_of(p.0, p.1) {
            LiteralKind::Int(v) => v,
            _ => 0,
        },
        None => 0,
    }
}

/// The property `key` of node `n` as an integer (0 unless stored as one).
pub fn int_prop_of(g: &PropGraph, n: u32, key: &str) -> (r: i64)
    ensures
        r == int_value(*g, n as int, key@),
{
    match prop_value(g, n, key) {
        Some(p) => match literal_kind(p.0, p.1) {
            LiteralKind::Int(v) => v,
            _ => 0,
        },
        None => 0,
    }
}

} // verus!
