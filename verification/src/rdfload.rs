//! Mapping RDF statements onto a property graph: resource identity keys
//! (IRIs percent-decoded, blank nodes kept apart), and recognising the RDFS
//! schema statements that are read as an ontology rather than as data.
use vstd::prelude::*;
use vstd::utf8::{decode_utf8, encode_utf8, valid_utf8};
use crate::ntriples::{RdfTerm, RdfTriple, Term, Triple};
use crate::numtext::digit_value;
use crate::text::{chars_of, string_of};

verus! {

/// The byte value of the hex digit `b`, if it is one.
pub open spec fn hex_byte(b: u8) -> Option<nat> {
    digit_value(b, 16)
}

/// Percent-decoding of the bytes of `b` from index `i` on: a `%` followed by
/// two hex digits, with at least one more byte after them, becomes the byte
/// they spell; every other byte is kept.
pub open spec fn pct_from(b: Seq<u8>, i: int) -> Seq<u8>
    decreases b.len() - i,
{
    if 0 <= i < b.len() {
        if b[i] == 37u8 && i + 2 < b.len() && hex_byte(b[i + 1]) is Some && hex_byte(b[i + 2]) is Some {
            seq![(hex_byte(b[i + 1]).unwrap() * 16 + hex_byte(b[i + 2]).unwrap()) as u8] + pct_from(b, i + 3)
        } else {
            seq![b[i]] + pct_from(b, i + 1)
        }
    } else {
        Seq::empty()
    }
}

/// The canonical form of an IRI: unchanged when it has no `%`; otherwise its
/// UTF-8 bytes percent-decoded, when those decode as UTF-8, and unchanged when
/// they do not.
pub open spec fn percent_decoded(s: Seq<char>) -> Seq<char> {
    if !s.contains('%') {
        s
    } else {
        let d = pct_from(encode_utf8(s), 0);
        if valid_utf8(d) {
            decode_utf8(d)
        } else {
            s
        }
    }
}

/// `String::from_utf8`: the text that `b` encodes, when `b` is valid UTF-8.
#[verifier::external_body]
fn string_from_utf8(b: Vec<u8>) -> (r: Option<String>)
    ensures
        match r {
            Some(s) => valid_utf8(b@) && s@ == decode_utf8(b@),
            None => !valid_utf8(b@),
        },
{
    String::from_utf8(b).ok()
}

fn hex_digit_value(b: u8) -> (r: Option<u8>)
    ensures
        match r {
            Some(v) => hex_byte(b) == Some(v as nat),
            None => hex_byte(b) is None,
        },
{
    if 48 <= b && b <= 57 {
        Some(b - 48)
    } else if 97 <= b && b <= 102 {
        Some(b - 87)
    } else if 65 <= b && b <= 70 {
        Some(b - 55)
    } else {
        None
    }
}

fn contains_char(s: &[char], c: char) -> (r: bool)
    ensures
        r == s@.contains(c),
{
    let mut i: usize = 0;
    while i < s.len()
        invariant
            i <= s@.len(),
            forall|j: int| 0 <= j < i ==> s@[j] != c,
        decreases s@.len() - i,
    {
        if s[i] == c {
            proof {
                assert(s@[i as int] == c);
            }
            return true;
        }
        i = i + 1;
    }
    false
}

/// Percent-decode an IRI to a canonical form, so that an entity written both
/// percent-encoded and as raw UTF-8 resolves to one node. A `%XX` that is not
/// hex, or a result that is not UTF-8, is left verbatim.
pub fn percent_decode(s: &str) -> (r: String)
    ensures
        r@ == percent_decoded(s@),
{
    let cs = chars_of(s);
    if !contains_char(cs.as_slice(), '%') {
        return string_of(cs.as_slice());
    }
    let bytes = s.as_bytes();
    let ghost b = bytes@;
    let mut out: Vec<u8> = Vec::new();
    let mut i: usize = 0;
    while i < bytes.len()
        invariant
            b == bytes@,
            i <= b.len(),
            out@ + pct_from(b, i as int) == pct_from(b, 0),
        decreases b.len() - i,
    {
        let ghost before = out@;
        if bytes[i] == 37 && bytes.len() - i > 2 {
            let hi = hex_digit_value(bytes[i + 1]);
            let lo = hex_digit_value(bytes[i + 2]);
            match (hi, lo) {
                (Some(h), Some(l)) => {
                    out.push(h * 16 + l);
                    proof {
                        assert(out@ + pct_from(b, i + 3) =~= before + pct_from(b, i as int));
                    }
                    i = i + 3;
                    continue;
                },
                _ => {},
            }
        }
        out.push(bytes[i]);
        proof {
            assert(out@ + pct_from(b, i + 1) =~= before + pct_from(b, i as int));
        }
        i = i + 1;
    }
    proof {
        assert(out@ =~= pct_from(b, 0));
    }
    match string_from_utf8(out) {
        Some(t) => t,
        None => string_of(cs.as_slice()),
    }
}

/// The identity key of a resource term: `I:` and the decoded IRI, or `B:` and
/// the blank-node label, so that a blank `x` and an IRI `x` never collide;
/// `None` for a literal.
pub open spec fn resource_key_of(t: RdfTerm) -> Option<Seq<char>> {
    match t {
        RdfTerm::Iri(s) => Some(seq!['I', ':'] + percent_decoded(s)),
        RdfTerm::Blank(b) => Some(seq!['B', ':'] + b),
        RdfTerm::Literal { .. } => None,
    }
}

/// The identity key of a resource term (see [`resource_key_of`]).
pub fn resource_key(term: &Term) -> (r: Option<String>)
    ensures
        match r {
            Some(k) => resource_key_of(term@) == Some(k@),
            None => resource_key_of(term@) is None,
        },
{
    match term {
        Term::Iri(iri) => {
            let d = percent_decode(iri.as_str());
            let dc = chars_of(d.as_str());
            let mut out: Vec<char> = Vec::new();
            out.push('I');
            out.push(':');
            let mut i: usize = 0;
            while i < dc.len()
                invariant
                    i <= dc@.len(),
                    out@ == seq!['I', ':'] + dc@.take(i as int),
                decreases dc@.len() - i,
            {
                out.push(dc[i]);
                i = i + 1;
                proof {
                    assert(out@ =~= seq!['I', ':'] + dc@.take(i as int));
                }
            }
            proof {
                assert(dc@.take(dc@.len() as int) =~= dc@);
            }
            Some(string_of(out.as_slice()))
        },
        Term::Blank(b) => {
            let bc = chars_of(b.as_str());
            let mut out: Vec<char> = Vec::new();
            out.push('B');
            out.push(':');
            let mut i: usize = 0;
            while i < bc.len()
                invariant
                    i <= bc@.len(),
                    out@ == seq!['B', ':'] + bc@.take(i as int),
                decreases bc@.len() - i,
            {
                out.push(bc[i]);
                i = i + 1;
                proof {
                    assert(out@ =~= seq!['B', ':'] + bc@.take(i as int));
                }
            }
            proof {
                assert(bc@.take(bc@.len() as int) =~= bc@);
            }
            Some(string_of(out.as_slice()))
        },
        Term::Literal { .. } => None,
    }
}

/// The predicate of `t` is the IRI `iri`.
pub open spec fn has_predicate(t: RdfTriple, iri: Seq<char>) -> bool {
    t.predicate matches RdfTerm::Iri(p) && p == iri
}

pub(crate) fn same_text(a: &str, b: &str) -> (r: bool)
    ensures
        r == (a@ == b@),
{
    let x = chars_of(a);
    let y = chars_of(b);
    if x.len() != y.len() {
        proof {
            assert(x@.len() != y@.len());
        }
        return false;
    }
    let mut i: usize = 0;
    while i < x.len()
        invariant
            x@ == a@,
            y@ == b@,
            x@.len() == y@.len(),
            i <= x@.len(),
            forall|j: int| 0 <= j < i ==> x@[j] == y@[j],
        decreases x@.len() - i,
    {
        if x[i] != y[i] {
            proof {
                assert(x@[i as int] != y@[i as int]);
            }
            return false;
        }
        i = i + 1;
    }
    proof {
        assert(x@ =~= y@);
    }
    true
}

/// Whether the predicate of `t` is the IRI `iri`.
pub fn predicate_is(t: &Triple, iri: &str) -> (r: bool)
    ensures
        r == has_predicate(t@, iri@),
{
    match &t.predicate {
        Term::Iri(p) => same_text(p.as_str(), iri),
        _ => false,
    }
}

/// `rdfs:subClassOf`.
pub open spec fn rdfs_subclass() -> Seq<char> {
    "http://www.w3.org/2000/01/rdf-schema#subClassOf"@
}

/// `rdfs:subPropertyOf`.
pub open spec fn rdfs_subprop() -> Seq<char> {
    "http://www.w3.org/2000/01/rdf-schema#subPropertyOf"@
}

/// Whether `t` is an RDFS schema statement (sub-class or sub-property), read
/// for forward-chaining rather than loaded as data.
pub fn is_tbox(t: &Triple) -> (r: bool)
    ensures
        r == (has_predicate(t@, rdfs_subclass()) || has_predicate(t@, rdfs_subprop())),
{
    predicate_is(t, "http://www.w3.org/2000/01/rdf-schema#subClassOf") || predicate_is(
        t,
        "http://www.w3.org/2000/01/rdf-schema#subPropertyOf",
    )
}

/// An IRI and a blank node never share an identity key, whatever their text.
pub proof fn law_iri_and_blank_keys_differ(iri: Seq<char>, blank: Seq<char>)
    ensures
        resource_key_of(RdfTerm::Iri(iri)) != resource_key_of(RdfTerm::Blank(blank)),
{
    let a = seq!['I', ':'] + percent_decoded(iri);
    let b = seq!['B', ':'] + blank;
    assert(a[0] != b[0]);
}

/// Two IRIs that decode to the same text share an identity key, so an entity
/// written both percent-encoded and as raw UTF-8 is one resource.
pub proof fn law_equally_decoded_iris_share_a_key(a: Seq<char>, b: Seq<char>)
    requires
        percent_decoded(a) == percent_decoded(b),
    ensures
        resource_key_of(RdfTerm::Iri(a)) == resource_key_of(RdfTerm::Iri(b)),
{
}

/// Text without `%` is its own canonical form.
pub proof fn law_plain_iri_unchanged(s: Seq<char>)
    requires
        !s.contains('%'),
    ensures
        percent_decoded(s) == s,
{
}

} // verus!
