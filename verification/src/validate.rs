//! Checking algorithm output against a reference file of `<vertex-id> <value>`
//! lines. Output is node-indexed, so each node is mapped to its vertex id
//! before the comparison; the first disagreeing vertex is reported.
use std::collections::HashMap;
use vstd::prelude::*;
use crate::dataset::Dataset;
use crate::json::{decimal, push_all, push_decimal};
use crate::numtext::{parse_i64_text, parse_u32_text, text_i64, text_u32};
use crate::hashed::{text_ids, TextIds};
use crate::rdfload::same_text;
use crate::text::{chars_of, string_of};
use crate::textlines::{char_rows, split_lines, split_words, text_lines, text_words};

verus! {

broadcast use vstd::std_specs::hash::group_hash_axioms;

/// The vertex -> value map that reference lines give: each line with at least
/// two words whose first is a `u32` maps that vertex to its second word; a
/// later line for the same vertex wins.
pub open spec fn reference_of(lines: Seq<Seq<char>>) -> Map<u32, Seq<char>>
    decreases lines.len(),
{
    if lines.len() == 0 {
        Map::empty()
    } else {
        let m = reference_of(lines.drop_last());
        let w = text_words(lines.last());
        if w.len() >= 2 {
            match text_u32(w[0]) {
                Some(v) => m.insert(v, w[1]),
                None => m,
            }
        } else {
            m
        }
    }
}

/// A map of texts as plain sequences.
pub open spec fn text_map(m: Map<u32, String>) -> Map<u32, Seq<char>> {
    m.map_values(|s: String| s@)
}

/// What `format!("{:?}", s)` writes for the string `s`: the text in double
/// quotes with Rust's debug escapes.
pub uninterp spec fn debug_text(s: Seq<char>) -> Seq<char>;

/// The debug form of a string (`format!("{:?}", s)`).
#[verifier::external_body]
fn debug_string(s: &str) -> (r: String)
    ensures
        r@ == debug_text(s@),
{
    format!("{:?}", s)
}

/// `v` in decimal, with a leading `-` when negative.
pub open spec fn signed_decimal(v: int) -> Seq<char> {
    if v < 0 {
        seq!['-'] + decimal((-v) as nat)
    } else {
        decimal(v as nat)
    }
}

/// The message for a vertex that the reference does not list.
pub open spec fn missing_message(vertex: u32) -> Seq<char> {
    "vertex "@ + decimal(vertex as nat) + " missing from reference"@
}

/// The message for a reference value that is not an integer.
pub open spec fn unparseable_message(vertex: u32, raw: Seq<char>) -> Seq<char> {
    "vertex "@ + decimal(vertex as nat) + ": unparseable reference value "@ + debug_text(raw)
}

/// The message for a value that differs from the reference.
pub open spec fn mismatch_message(vertex: u32, got: i64, want: i64) -> Seq<char> {
    "vertex "@ + decimal(vertex as nat) + ": got "@ + signed_decimal(got as int) + ", want "@ + signed_decimal(
        want as int,
    )
}

/// The reference value of `vertex` read as an `i64`, or the message saying why
/// it cannot be.
pub open spec fn ref_value(reference: Map<u32, Seq<char>>, vertex: u32) -> Result<i64, Seq<char>> {
    if !reference.contains_key(vertex) {
        Err(missing_message(vertex))
    } else {
        match text_i64(reference[vertex]) {
            Some(x) => Ok(x),
            None => Err(unparseable_message(vertex, reference[vertex])),
        }
    }
}

/// The complaint about node output `mine` for `vertex`, if any.
pub open spec fn exact_complaint(reference: Map<u32, Seq<char>>, vertex: u32, mine: i64) -> Option<Seq<char>> {
    match ref_value(reference, vertex) {
        Err(m) => Some(m),
        Ok(want) => if mine != want {
            Some(mismatch_message(vertex, mine, want))
        } else {
            None
        },
    }
}

/// The first complaint over nodes `i..` of `out`, in node order.
pub open spec fn first_complaint(
    vertices: Seq<u32>,
    out: Seq<i64>,
    reference: Map<u32, Seq<char>>,
    i: int,
) -> Option<Seq<char>>
    decreases out.len() - i,
{
    if 0 <= i < out.len() {
        match exact_complaint(reference, vertices[i], out[i]) {
            Some(m) => Some(m),
            None => first_complaint(vertices, out, reference, i + 1),
        }
    } else {
        None
    }
}

/// Parse a `<vertex-id> <value>` reference text into a vertex -> raw-value map.
pub fn parse_reference(text: &str) -> (m: HashMap<u32, String>)
    ensures
        text_map(m@) == reference_of(text_lines(text@)),
{
    let lines = split_lines(&chars_of(text));
    let ghost ls = text_lines(text@);
    let mut m: HashMap<u32, String> = HashMap::new();
    let mut i: usize = 0;
    proof {
        assert(ls.take(0) =~= Seq::<Seq<char>>::empty());
        assert(text_map(m@) =~= Map::<u32, Seq<char>>::empty());
    }
    while i < lines.len()
        invariant
            char_rows(lines@) == ls,
            i <= lines@.len(),
            text_map(m@) == reference_of(ls.take(i as int)),
        decreases lines@.len() - i,
    {
        let words = split_words(lines[i].as_slice());
        proof {
            assert(ls.take(i + 1).drop_last() =~= ls.take(i as int));
            assert(ls[i as int] == lines@[i as int]@);
            assert(char_rows(words@) == text_words(ls[i as int]));
            if words@.len() >= 2 {
                assert(text_words(ls[i as int])[0] == words@[0]@);
                assert(text_words(ls[i as int])[1] == words@[1]@);
            }
        }
        if words.len() >= 2 {
            match parse_u32_text(words[0].as_slice()) {
                Some(vid) => {
                    let ghost before = m@;
                    let val = string_of(words[1].as_slice());
                    m.insert(vid, val);
                    proof {
                        assert(text_map(m@) =~= text_map(before).insert(vid, words@[1]@));
                    }
                },
                None => {},
            }
        }
        i = i + 1;
    }
    proof {
        assert(ls.take(lines@.len() as int) =~= ls);
    }
    m
}

fn push_text(out: &mut Vec<char>, s: &str)
    ensures
        final(out)@ == old(out)@ + s@,
{
    let cs = chars_of(s);
    push_all(out, cs.as_slice());
}

fn push_signed(out: &mut Vec<char>, v: i64)
    ensures
        final(out)@ == old(out)@ + signed_decimal(v as int),
{
    if v < 0 {
        out.push('-');
        let w: i128 = -(v as i128);
        push_decimal(out, w as u64);
        proof {
            assert(final(out)@ =~= old(out)@ + signed_decimal(v as int));
        }
    } else {
        push_decimal(out, v as u64);
    }
}

/// The message for a reference value of `vertex` that is not an integer,
/// given the value's debug form `shown`.
pub fn unparseable_value(vertex: u32, shown: &str) -> (m: String)
    ensures
        m@ == "vertex "@ + decimal(vertex as nat) + ": unparseable reference value "@ + shown@,
{
    let mut out: Vec<char> = Vec::new();
    push_text(&mut out, "vertex ");
    push_decimal(&mut out, vertex as u64);
    push_text(&mut out, ": unparseable reference value ");
    let dc = chars_of(shown);
    push_all(&mut out, dc.as_slice());
    string_of(out.as_slice())
}

/// Look up `vertex` in the reference and read its value as an `i64`, with a
/// message naming the vertex when it is missing or not an integer.
pub fn parse_ref(reference: &HashMap<u32, String>, vertex: u32) -> (r: Result<i64, String>)
    ensures
        match r {
            Ok(x) => ref_value(text_map(reference@), vertex) == Ok::<i64, Seq<char>>(x),
            Err(m) => ref_value(text_map(reference@), vertex) == Err::<i64, Seq<char>>(m@),
        },
{
    match reference.get(&vertex) {
        None => {
            let mut out: Vec<char> = Vec::new();
            push_text(&mut out, "vertex ");
            push_decimal(&mut out, vertex as u64);
            push_text(&mut out, " missing from reference");
            proof {
                assert(out@ =~= missing_message(vertex));
            }
            Err(string_of(out.as_slice()))
        },
        Some(raw) => {
            let cs = chars_of(raw.as_str());
            proof {
                assert(text_map(reference@)[vertex] == raw@);
            }
            match parse_i64_text(cs.as_slice()) {
                Some(x) => Ok(x),
                None => {
                    let d = debug_string(raw.as_str());
                    Err(unparseable_value(vertex, d.as_str()))
                },
            }
        },
    }
}

/// Exact integer agreement (BFS depths, CDLP labels): `Ok` when every node's
/// output equals its vertex's reference value, else the message for the first
/// node (in node order) whose vertex is missing from the reference, has a
/// value that is not an integer, or disagrees.
pub fn check_exact_i64(ds: &Dataset, out: &[i64], reference: &HashMap<u32, String>) -> (r: Result<(), String>)
    requires
        out@.len() <= ds.vertex_of_node@.len(),
    ensures
        match r {
            Ok(()) => first_complaint(ds.vertex_of_node@, out@, text_map(reference@), 0) is None,
            Err(m) => first_complaint(ds.vertex_of_node@, out@, text_map(reference@), 0) == Some(m@),
        },
{
    let ghost rm = text_map(reference@);
    let mut node: usize = 0;
    while node < out.len()
        invariant
            out@.len() <= ds.vertex_of_node@.len(),
            node <= out@.len(),
            rm == text_map(reference@),
            first_complaint(ds.vertex_of_node@, out@, rm, 0) == first_complaint(
                ds.vertex_of_node@,
                out@,
                rm,
                node as int,
            ),
        decreases out@.len() - node,
    {
        let vertex = ds.vertex_of_node[node];
        let mine = out[node];
        match parse_ref(reference, vertex) {
            Err(m) => {
                return Err(m);
            },
            Ok(want) => {
                if mine != want {
                    let mut msg: Vec<char> = Vec::new();
                    push_text(&mut msg, "vertex ");
                    push_decimal(&mut msg, vertex as u64);
                    push_text(&mut msg, ": got ");
                    push_signed(&mut msg, mine);
                    push_text(&mut msg, ", want ");
                    push_signed(&mut msg, want);
                    proof {
                        assert(msg@ =~= mismatch_message(vertex, mine, want));
                    }
                    return Err(string_of(msg.as_slice()));
                }
            },
        }
        node = node + 1;
    }
    Ok(())
}

proof fn lemma_no_complaint_from(vertices: Seq<u32>, out: Seq<i64>, reference: Map<u32, Seq<char>>, i: int)
    requires
        0 <= i <= out.len(),
    ensures
        first_complaint(vertices, out, reference, i) is None <==> forall|k: int|
            i <= k < out.len() ==> ref_value(reference, vertices[k]) == Ok::<i64, Seq<char>>(#[trigger] out[k]),
    decreases out.len() - i,
{
    if i < out.len() {
        lemma_no_complaint_from(vertices, out, reference, i + 1);
        if first_complaint(vertices, out, reference, i) is None {
            assert forall|k: int| i <= k < out.len() implies ref_value(reference, vertices[k]) == Ok::<
                i64,
                Seq<char>,
            >(#[trigger] out[k]) by {
                if k == i {
                    assert(exact_complaint(reference, vertices[i], out[i]) is None);
                }
            }
        }
        if forall|k: int|
            i <= k < out.len() ==> ref_value(reference, vertices[k]) == Ok::<i64, Seq<char>>(#[trigger] out[k]) {
            assert(ref_value(reference, vertices[i]) == Ok::<i64, Seq<char>>(out[i]));
        }
    }
}

/// An exact check passes exactly when the reference gives every checked
/// node's vertex an integer value equal to the node's output.
pub proof fn law_exact_check_passes_iff_all_agree(vertices: Seq<u32>, out: Seq<i64>, reference: Map<u32, Seq<char>>)
    ensures
        first_complaint(vertices, out, reference, 0) is None <==> forall|k: int|
            0 <= k < out.len() ==> ref_value(reference, vertices[k]) == Ok::<i64, Seq<char>>(#[trigger] out[k]),
{
    lemma_no_complaint_from(vertices, out, reference, 0);
}

/// The message for one of our labels that meets two reference labels.
pub open spec fn our_label_split(vertex: u32, mine: u32, prev: Seq<char>, want: Seq<char>) -> Seq<char> {
    "vertex "@ + decimal(vertex as nat) + ": our label "@ + decimal(mine as nat) + " maps to both "@ + prev + " and "@
        + want
}

/// The message for a reference label that meets two of our labels.
pub open spec fn ref_label_split(vertex: u32, want: Seq<char>, other: nat, mine: u32) -> Seq<char> {
    "vertex "@ + decimal(vertex as nat) + ": ref label "@ + want + " maps to both "@ + decimal(other) + " and "@
        + decimal(mine as nat)
}

/// The first complaint of a relabel-invariant check over nodes `i..`, given
/// the label pairing so far: `ours` maps our labels to reference labels and
/// `refs` maps reference labels to ours.
pub open spec fn relabel_complaint(
    vertices: Seq<u32>,
    out: Seq<u32>,
    reference: Map<u32, Seq<char>>,
    i: int,
    ours: Map<u32, Seq<char>>,
    refs: Map<Seq<char>, usize>,
) -> Option<Seq<char>>
    decreases out.len() - i,
{
    if i < 0 || i >= out.len() {
        None
    } else {
        let vertex = vertices[i];
        let mine = out[i];
        if !reference.contains_key(vertex) {
            Some(missing_message(vertex))
        } else {
            let want = reference[vertex];
            if ours.contains_key(mine) {
                if ours[mine] != want {
                    Some(our_label_split(vertex, mine, ours[mine], want))
                } else {
                    relabel_complaint(vertices, out, reference, i + 1, ours, refs)
                }
            } else if refs.contains_key(want) && refs[want] != mine as usize {
                Some(ref_label_split(vertex, want, refs[want] as nat, mine))
            } else {
                relabel_complaint(vertices, out, reference, i + 1, ours.insert(mine, want), refs.insert(want, mine as usize))
            }
        }
    }
}

/// Relabel-invariant agreement (WCC): `Ok` when the partition that `out`
/// induces over the vertices equals the reference's, whatever the label
/// values; otherwise the message for the first node (in node order) whose
/// vertex is missing from the reference, or whose label pairing contradicts an
/// earlier one.
pub fn check_relabel(ds: &Dataset, out: &[u32], reference: &HashMap<u32, String>) -> (r: Result<(), String>)
    requires
        out@.len() <= ds.vertex_of_node@.len(),
    ensures
        match r {
            Ok(()) => relabel_complaint(
                ds.vertex_of_node@,
                out@,
                text_map(reference@),
                0,
                Map::empty(),
                Map::empty(),
            ) is None,
            Err(m) => relabel_complaint(
                ds.vertex_of_node@,
                out@,
                text_map(reference@),
                0,
                Map::empty(),
                Map::empty(),
            ) == Some(m@),
        },
{
    let ghost rm = text_map(reference@);
    let ghost vs = ds.vertex_of_node@;
    let mut ours_to_ref: HashMap<u32, String> = HashMap::new();
    let mut ref_to_ours = TextIds::new();
    proof {
        assert(text_map(ours_to_ref@) =~= Map::<u32, Seq<char>>::empty());
        assert(text_ids(ref_to_ours) =~= Map::<Seq<char>, usize>::empty());
    }
    let mut node: usize = 0;
    while node < out.len()
        invariant
            out@.len() <= vs.len(),
            vs == ds.vertex_of_node@,
            rm == text_map(reference@),
            node <= out@.len(),
            relabel_complaint(vs, out@, rm, 0, Map::empty(), Map::empty()) == relabel_complaint(
                vs,
                out@,
                rm,
                node as int,
                text_map(ours_to_ref@),
                text_ids(ref_to_ours),
            ),
        decreases out@.len() - node,
    {
        let vertex = ds.vertex_of_node[node];
        let mine = out[node];
        let want = match reference.get(&vertex) {
            Some(w) => w.clone(),
            None => {
                let mut msg: Vec<char> = Vec::new();
                push_text(&mut msg, "vertex ");
                push_decimal(&mut msg, vertex as u64);
                push_text(&mut msg, " missing from reference");
                proof {
                    assert(msg@ =~= missing_message(vertex));
                }
                return Err(string_of(msg.as_slice()));
            },
        };
        proof {
            assert(rm.contains_key(vertex));
            assert(rm[vertex] == want@);
        }
        let ghost m0 = text_map(ours_to_ref@);
        let ghost r0 = text_ids(ref_to_ours);
        match ours_to_ref.get(&mine) {
            Some(prev) => {
                proof {
                    assert(m0.contains_key(mine));
                    assert(m0[mine] == prev@);
                }
                if !same_text(prev.as_str(), want.as_str()) {
                    let mut msg: Vec<char> = Vec::new();
                    push_text(&mut msg, "vertex ");
                    push_decimal(&mut msg, vertex as u64);
                    push_text(&mut msg, ": our label ");
                    push_decimal(&mut msg, mine as u64);
                    push_text(&mut msg, " maps to both ");
                    push_text(&mut msg, prev.as_str());
                    push_text(&mut msg, " and ");
                    push_text(&mut msg, want.as_str());
                    proof {
                        assert(msg@ =~= our_label_split(vertex, mine, prev@, want@));
                    }
                    return Err(string_of(msg.as_slice()));
                }
            },
            None => {
                proof {
                    assert(!m0.contains_key(mine));
                }
                match ref_to_ours.get(want.as_str()) {
                    Some(other) => {
                        if other != mine as usize {
                            let mut msg: Vec<char> = Vec::new();
                            push_text(&mut msg, "vertex ");
                            push_decimal(&mut msg, vertex as u64);
                            push_text(&mut msg, ": ref label ");
                            push_text(&mut msg, want.as_str());
                            push_text(&mut msg, " maps to both ");
                            push_decimal(&mut msg, other as u64);
                            push_text(&mut msg, " and ");
                            push_decimal(&mut msg, mine as u64);
                            proof {
                                assert(msg@ =~= ref_label_split(vertex, want@, other as nat, mine));
                            }
                            return Err(string_of(msg.as_slice()));
                        }
                    },
                    None => {},
                }
                let w2 = want.clone();
                ours_to_ref.insert(mine, want);
                ref_to_ours.insert(w2, mine as usize);
                proof {
                    assert(text_map(ours_to_ref@) =~= m0.insert(mine, rm[vertex]));
                }
            },
        }
        node = node + 1;
    }
    Ok(())
}

/// Every checked node's vertex has a reference value.
pub open spec fn all_listed(vertices: Seq<u32>, out: Seq<u32>, reference: Map<u32, Seq<char>>) -> bool {
    forall|a: int| 0 <= a < out.len() ==> reference.contains_key(#[trigger] vertices[a])
}

/// Two checked nodes share our label exactly when their vertices share a
/// reference label.
pub open spec fn same_partition(vertices: Seq<u32>, out: Seq<u32>, reference: Map<u32, Seq<char>>) -> bool {
    forall|a: int, b: int|
        0 <= a < out.len() && 0 <= b < out.len() ==> (#[trigger] out[a] == #[trigger] out[b] <==> reference[vertices[a]]
            == reference[vertices[b]])
}

/// The pairing built from the first `k` nodes, which agree with each other.
spec fn pairing_upto(
    vertices: Seq<u32>,
    out: Seq<u32>,
    reference: Map<u32, Seq<char>>,
    k: int,
    ours: Map<u32, Seq<char>>,
    refs: Map<Seq<char>, usize>,
) -> bool {
    &&& 0 <= k <= out.len()
    &&& out.len() <= vertices.len()
    &&& forall|a: int| 0 <= a < k ==> reference.contains_key(#[trigger] vertices[a])
    &&& forall|a: int, b: int|
        0 <= a < k && 0 <= b < k ==> (#[trigger] out[a] == #[trigger] out[b] <==> reference[vertices[a]]
            == reference[vertices[b]])
    &&& forall|x: u32| #[trigger] ours.contains_key(x) ==> exists|a: int| 0 <= a < k && out[a] == x
    &&& forall|a: int| 0 <= a < k ==> ours.contains_key(#[trigger] out[a]) && ours[out[a]] == reference[vertices[a]]
    &&& forall|y: Seq<char>| #[trigger] refs.contains_key(y) ==> exists|a: int| 0 <= a < k && reference[vertices[a]] == y
    &&& forall|a: int| 0 <= a < k ==> refs.contains_key(reference[#[trigger] vertices[a]]) && refs[reference[vertices[a]]]
        == out[a] as usize
}

proof fn lemma_relabel_from(
    vertices: Seq<u32>,
    out: Seq<u32>,
    reference: Map<u32, Seq<char>>,
    k: int,
    ours: Map<u32, Seq<char>>,
    refs: Map<Seq<char>, usize>,
)
    requires
        pairing_upto(vertices, out, reference, k, ours, refs),
    ensures
        relabel_complaint(vertices, out, reference, k, ours, refs) is None <==> (all_listed(vertices, out, reference)
            && same_partition(vertices, out, reference)),
    decreases out.len() - k, 1int,
{
    if k < out.len() {
        lemma_relabel_step(vertices, out, reference, k, ours, refs);
    }
}

proof fn lemma_relabel_step(
    vertices: Seq<u32>,
    out: Seq<u32>,
    reference: Map<u32, Seq<char>>,
    k: int,
    ours: Map<u32, Seq<char>>,
    refs: Map<Seq<char>, usize>,
)
    requires
        pairing_upto(vertices, out, reference, k, ours, refs),
        k < out.len(),
    ensures
        relabel_complaint(vertices, out, reference, k, ours, refs) is None <==> (all_listed(vertices, out, reference)
            && same_partition(vertices, out, reference)),
    decreases out.len() - k, 0int,
{
    let vertex = vertices[k];
    let mine = out[k];
    if !reference.contains_key(vertex) {
        assert(!all_listed(vertices, out, reference));
    } else {
        let want = reference[vertex];
        if ours.contains_key(mine) {
            let a = choose|a: int| 0 <= a < k && out[a] == mine;
            if ours[mine] != want {
                assert(out[a] == out[k]);
                assert(!same_partition(vertices, out, reference));
            } else {
                assert(pairing_upto(vertices, out, reference, k + 1, ours, refs)) by {
                    assert forall|b: int, c: int|
                        0 <= b < k + 1 && 0 <= c < k + 1 implies (#[trigger] out[b] == #[trigger] out[c] <==> reference[vertices[b]]
                        == reference[vertices[c]]) by {
                        if b < k && c < k {
                        } else if b == k && c < k {
                            assert(out[a] == out[k]);
                            assert(reference[vertices[a]] == want);
                            assert(out[c] == out[a] <==> reference[vertices[c]] == reference[vertices[a]]);
                        } else if c == k && b < k {
                            assert(out[a] == out[k]);
                            assert(reference[vertices[a]] == want);
                            assert(out[b] == out[a] <==> reference[vertices[b]] == reference[vertices[a]]);
                        }
                    }
                    assert forall|x: u32| #[trigger] ours.contains_key(x) implies exists|b: int| 0 <= b < k + 1 && out[b] == x by {
                        let b = choose|b: int| 0 <= b < k && out[b] == x;
                    }
                    assert forall|y: Seq<char>| #[trigger] refs.contains_key(y) implies exists|b: int|
                        0 <= b < k + 1 && reference[vertices[b]] == y by {
                        let b = choose|b: int| 0 <= b < k && reference[vertices[b]] == y;
                    }
                    assert(refs.contains_key(reference[vertices[a]]));
                }
                lemma_relabel_from(vertices, out, reference, k + 1, ours, refs);
            }
        } else if refs.contains_key(want) && refs[want] != mine as usize {
            let a = choose|a: int| 0 <= a < k && reference[vertices[a]] == want;
            assert(refs[reference[vertices[a]]] == out[a] as usize);
            assert(out[a] != out[k]);
            assert(!same_partition(vertices, out, reference)) by {
                assert(reference[vertices[a]] == reference[vertices[k]]);
            }
        } else {
            assert forall|b: int| 0 <= b < k implies out[b] != mine by {
                assert(ours.contains_key(out[b]));
            }
            assert forall|b: int| 0 <= b < k implies reference[vertices[b]] != want by {
                if reference[vertices[b]] == want {
                    assert(refs.contains_key(want));
                    assert(refs[want] == out[b] as usize);
                    assert(refs[want] != mine as usize) by {
                        assert(out[b] != mine);
                    }
                }
            }
            let ours2 = ours.insert(mine, want);
            let refs2 = refs.insert(want, mine as usize);
            assert(pairing_upto(vertices, out, reference, k + 1, ours2, refs2)) by {
                assert forall|x: u32| #[trigger] ours2.contains_key(x) implies exists|b: int| 0 <= b < k + 1 && out[b] == x by {
                    if x != mine {
                        let b = choose|b: int| 0 <= b < k && out[b] == x;
                    }
                }
                assert forall|y: Seq<char>| #[trigger] refs2.contains_key(y) implies exists|b: int|
                    0 <= b < k + 1 && reference[vertices[b]] == y by {
                    if y != want {
                        let b = choose|b: int| 0 <= b < k && reference[vertices[b]] == y;
                    }
                }
                assert forall|b: int| 0 <= b < k + 1 implies ours2.contains_key(#[trigger] out[b]) && ours2[out[b]]
                    == reference[vertices[b]] by {
                    if b < k {
                        assert(out[b] != mine);
                    }
                }
                assert forall|b: int| 0 <= b < k + 1 implies refs2.contains_key(reference[#[trigger] vertices[b]])
                    && refs2[reference[vertices[b]]] == out[b] as usize by {
                    if b < k {
                        assert(reference[vertices[b]] != want);
                    }
                }
            }
            lemma_relabel_from(vertices, out, reference, k + 1, ours2, refs2);
        }
    }
}

/// The relabel-invariant check passes exactly when every checked node's
/// vertex is in the reference and two nodes share our label exactly when
/// their vertices share a reference label.
pub proof fn law_relabel_check_passes_iff_same_partition(
    vertices: Seq<u32>,
    out: Seq<u32>,
    reference: Map<u32, Seq<char>>,
)
    requires
        out.len() <= vertices.len(),
    ensures
        relabel_complaint(vertices, out, reference, 0, Map::empty(), Map::empty()) is None <==> (all_listed(
            vertices,
            out,
            reference,
        ) && same_partition(vertices, out, reference)),
{
    lemma_relabel_from(vertices, out, reference, 0, Map::empty(), Map::empty());
}

} // verus!
