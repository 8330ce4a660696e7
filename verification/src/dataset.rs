//! Graph datasets in the `.v` / `.e` / `.properties` text layout: vertices get
//! dense node ids in order of first appearance, edges become relationships
//! between those nodes, and the properties file gives the per-algorithm run
//! parameters.
use std::collections::HashMap;
use vstd::prelude::*;
use crate::ntriples::{find_char, find_from, trim, trim_chars};
use crate::numtext::{parse_u32_text, text_u32};
use crate::text::{chars_of, string_of};
use crate::textlines::{char_rows, split_lines, split_words, text_lines, text_words};
use crate::topology::{in_list, kept_edges, out_list, Topology};

verus! {

broadcast use vstd::std_specs::hash::group_hash_axioms;

/// Run parameters as plain values: directed, BFS source, SSSP source, the
/// PageRank damping-factor texts in file order, PageRank iterations, CDLP
/// iterations.
pub type ParamsModel = (bool, Option<u32>, Option<u32>, Seq<Seq<char>>, u32, u32);

/// Per-dataset algorithm parameters. Sources are dataset vertex ids. The
/// damping factor is a decimal number: `pr_damping_values` keeps every value
/// the file gives for it, in order, and the last one that reads as a number
/// applies (`0.85` when none does).
pub struct Params {
    pub directed: bool,
    pub bfs_source: Option<u32>,
    pub sssp_source: Option<u32>,
    pub pr_damping_values: Vec<String>,
    pub pr_iterations: u32,
    pub cdlp_iterations: u32,
}

impl Params {
    pub open spec fn model(&self) -> ParamsModel {
        (
            self.directed,
            self.bfs_source,
            self.sssp_source,
            self.pr_damping_values@.map_values(|s: String| s@),
            self.pr_iterations,
            self.cdlp_iterations,
        )
    }
}

/// Parameters when the properties file says nothing: directed, no sources,
/// ten iterations each.
pub open spec fn default_params() -> ParamsModel {
    (true, None, None, Seq::empty(), 10, 10)
}

impl Default for Params {
    fn default() -> (p: Params)
        ensures
            p.model() == default_params(),
    {
        let p = Params {
            directed: true,
            bfs_source: None,
            sssp_source: None,
            pr_damping_values: Vec::new(),
            pr_iterations: 10,
            cdlp_iterations: 10,
        };
        proof {
            assert(p.pr_damping_values@.map_values(|s: String| s@) =~= Seq::<Seq<char>>::empty());
        }
        p
    }
}

/// `s` ends with `suffix`.
pub open spec fn ends_with(s: Seq<char>, suffix: Seq<char>) -> bool {
    s.len() >= suffix.len() && s.subrange(s.len() - suffix.len(), s.len() as int) == suffix
}

/// ASCII lower case of `c`.
pub open spec fn ascii_lower(c: char) -> char {
    if 'A' <= c <= 'Z' {
        ((c as u32) + 32) as char
    } else {
        c
    }
}

/// `v` equals `true` ignoring ASCII case.
pub open spec fn is_true_text(v: Seq<char>) -> bool {
    &&& v.len() == 4
    &&& ascii_lower(v[0]) == 't'
    &&& ascii_lower(v[1]) == 'r'
    &&& ascii_lower(v[2]) == 'u'
    &&& ascii_lower(v[3]) == 'e'
}

/// The effect of one properties line: blank lines, `#` comments and lines
/// without `=` change nothing; otherwise the trimmed key is matched on its
/// suffix and the trimmed value applied (a number that does not parse leaves
/// the iteration counts unchanged, and clears a source).
pub open spec fn params_step(p: ParamsModel, line: Seq<char>) -> ParamsModel {
    let t = trim_chars(line);
    if t.len() == 0 || t[0] == '#' {
        p
    } else {
        match find_from(t, 0, '=') {
            None => p,
            Some(e) => {
                let key = trim_chars(t.subrange(0, e));
                let val = trim_chars(t.subrange(e + 1, t.len() as int));
                if ends_with(key, ".directed"@) {
                    (is_true_text(val), p.1, p.2, p.3, p.4, p.5)
                } else if ends_with(key, ".bfs.source-vertex"@) {
                    (p.0, text_u32(val), p.2, p.3, p.4, p.5)
                } else if ends_with(key, ".sssp.source-vertex"@) {
                    (p.0, p.1, text_u32(val), p.3, p.4, p.5)
                } else if ends_with(key, ".pr.damping-factor"@) {
                    (p.0, p.1, p.2, p.3.push(val), p.4, p.5)
                } else if ends_with(key, ".pr.num-iterations"@) {
                    match text_u32(val) {
                        Some(i) => (p.0, p.1, p.2, p.3, i, p.5),
                        None => p,
                    }
                } else if ends_with(key, ".cdlp.max-iterations"@) {
                    match text_u32(val) {
                        Some(i) => (p.0, p.1, p.2, p.3, p.4, i),
                        None => p,
                    }
                } else {
                    p
                }
            },
        }
    }
}

/// The parameters that the properties lines `lines` give, in order.
pub open spec fn params_of(lines: Seq<Seq<char>>) -> ParamsModel
    decreases lines.len(),
{
    if lines.len() == 0 {
        default_params()
    } else {
        params_step(params_of(lines.drop_last()), lines.last())
    }
}

/// The vertex id a `.v` line names: its first word, when that is a `u32`.
pub open spec fn line_vertex(line: Seq<char>) -> Option<u32> {
    let w = text_words(line);
    if w.len() >= 1 {
        text_u32(w[0])
    } else {
        None
    }
}

/// The vertex ids of the `.v` lines, each once, in order of first appearance.
pub open spec fn vertices_of(lines: Seq<Seq<char>>) -> Seq<u32>
    decreases lines.len(),
{
    if lines.len() == 0 {
        Seq::empty()
    } else {
        let prev = vertices_of(lines.drop_last());
        match line_vertex(lines.last()) {
            Some(v) => if prev.contains(v) {
                prev
            } else {
                prev.push(v)
            },
            None => prev,
        }
    }
}

/// `m` maps exactly the vertices of `vs` to their positions in `vs`.
pub open spec fn indexes(m: Map<u32, u32>, vs: Seq<u32>) -> bool {
    &&& forall|v: u32| #[trigger] m.contains_key(v) <==> vs.contains(v)
    &&& forall|v: u32| #[trigger] m.contains_key(v) ==> m[v] < vs.len() && vs[m[v] as int] == v
}

/// The relationship an `.e` line `src dst [weight]` describes, between the
/// nodes of its two vertices, with its weight text if it has one; `None` when
/// a vertex id does not parse or is not a vertex of `m`.
pub open spec fn line_edge(line: Seq<char>, m: Map<u32, u32>) -> Option<(u32, u32, Option<Seq<char>>)> {
    let w = text_words(line);
    if w.len() < 2 {
        None
    } else {
        match (text_u32(w[0]), text_u32(w[1])) {
            (Some(s), Some(d)) => if m.contains_key(s) && m.contains_key(d) {
                Some((m[s], m[d], if w.len() > 2 { Some(w[2]) } else { None }))
            } else {
                None
            },
            _ => None,
        }
    }
}

/// The relationships that the `.e` lines describe, in order.
pub open spec fn edges_of(lines: Seq<Seq<char>>, m: Map<u32, u32>) -> Seq<(u32, u32, Option<Seq<char>>)>
    decreases lines.len(),
{
    if lines.len() == 0 {
        Seq::empty()
    } else {
        let prev = edges_of(lines.drop_last(), m);
        match line_edge(lines.last(), m) {
            Some(e) => prev.push(e),
            None => prev,
        }
    }
}

/// The optional weight texts as plain sequences.
pub open spec fn weight_rows(w: Seq<Option<String>>) -> Seq<Option<Seq<char>>> {
    w.map_values(|o: Option<String>| match o {
        Some(s) => Some(s@),
        None => None,
    })
}

/// A loaded dataset: its topology, run parameters, the relationships with
/// their weight texts, and the maps between dense node ids (`0..n`) and the
/// dataset vertex ids.
pub struct Dataset {
    pub graph: Topology,
    pub params: Params,
    /// Node id -> dataset vertex id.
    pub vertex_of_node: Vec<u32>,
    /// Dataset vertex id -> node id.
    pub node_of_vertex: HashMap<u32, u32>,
    /// The relationships, as (source node, target node), in `.e` order.
    pub edges: Vec<(u32, u32)>,
    /// Each relationship's weight text, `None` for the unit default.
    pub weight_texts: Vec<Option<String>>,
}

impl Dataset {
    /// Dense node id of a dataset vertex id.
    pub fn node(&self, vertex: u32) -> (r: Option<u32>)
        ensures
            r == (if self.node_of_vertex@.contains_key(vertex) {
                Some(self.node_of_vertex@[vertex])
            } else {
                None
            }),
    {
        match self.node_of_vertex.get(&vertex) {
            Some(n) => Some(*n),
            None => None,
        }
    }

    /// Number of vertices.
    pub fn len(&self) -> (r: usize)
        ensures
            r == self.vertex_of_node@.len(),
    {
        self.vertex_of_node.len()
    }

    /// Whether the dataset has no vertices.
    pub fn is_empty(&self) -> (r: bool)
        ensures
            r == (self.vertex_of_node@.len() == 0),
    {
        self.vertex_of_node.len() == 0
    }
}

/// `s` ends with the text `suffix`.
fn ends_with_text(s: &[char], suffix: &str) -> (r: bool)
    ensures
        r == ends_with(s@, suffix@),
{
    let t = chars_of(suffix);
    if s.len() < t.len() {
        return false;
    }
    let off = s.len() - t.len();
    let mut i: usize = 0;
    while i < t.len()
        invariant
            t@ == suffix@,
            off + t@.len() == s@.len(),
            s@.len() == s.len(),
            t@.len() == t.len(),
            i <= t@.len(),
            forall|j: int| 0 <= j < i ==> s@[off + j] == #[trigger] t@[j],
        decreases t@.len() - i,
    {
        if s[off + i] != t[i] {
            proof {
                assert(s@.subrange(off as int, s@.len() as int)[i as int] != t@[i as int]);
            }
            return false;
        }
        i = i + 1;
    }
    proof {
        assert(s@.subrange(off as int, s@.len() as int) =~= t@);
    }
    true
}

fn lower(c: char) -> (r: char)
    ensures
        r == ascii_lower(c),
{
    if 'A' <= c && c <= 'Z' {
        proof {
            assert(('A' as u32) <= (c as u32) <= ('Z' as u32));
        }
        let d = ((c as u32) + 32) as u8;
        d as char
    } else {
        c
    }
}

fn true_text(v: &[char]) -> (r: bool)
    ensures
        r == is_true_text(v@),
{
    v.len() == 4 && lower(v[0]) == 't' && lower(v[1]) == 'r' && lower(v[2]) == 'u' && lower(v[3]) == 'e'
}

/// Apply one properties line to `p`.
fn apply_param_line(p: &mut Params, line: &[char])
    ensures
        final(p).model() == params_step(old(p).model(), line@),
{
    let t = trim(line);
    if t.len() == 0 || t[0] == '#' {
        return;
    }
    let e = match find_char(t, 0, '=') {
        Some(e) => e,
        None => {
            return;
        },
    };
    let key = trim(&t[0..e]);
    let val = trim(&t[e + 1..t.len()]);
    proof {
        assert(t@.subrange(0, e as int) == t@.subrange(0, e as int));
    }
    if ends_with_text(key, ".directed") {
        p.directed = true_text(val);
    } else if ends_with_text(key, ".bfs.source-vertex") {
        p.bfs_source = parse_u32_text(val);
    } else if ends_with_text(key, ".sssp.source-vertex") {
        p.sssp_source = parse_u32_text(val);
    } else if ends_with_text(key, ".pr.damping-factor") {
        let ghost before = p.pr_damping_values@;
        p.pr_damping_values.push(string_of(val));
        proof {
            assert(p.pr_damping_values@.map_values(|s: String| s@) =~= before.map_values(|s: String| s@).push(
                val@,
            ));
        }
    } else if ends_with_text(key, ".pr.num-iterations") {
        match parse_u32_text(val) {
            Some(i) => {
                p.pr_iterations = i;
            },
            None => {},
        }
    } else if ends_with_text(key, ".cdlp.max-iterations") {
        match parse_u32_text(val) {
            Some(i) => {
                p.cdlp_iterations = i;
            },
            None => {},
        }
    }
}

/// Parse the subset of `.properties` keys the algorithms need, matching each
/// key on its suffix so that the dataset-name prefix does not matter.
pub fn parse_params(props: &str) -> (p: Params)
    ensures
        p.model() == params_of(text_lines(props@)),
{
    let lines = split_lines(&chars_of(props));
    let ghost ls = text_lines(props@);
    let mut p = Params::default();
    let mut i: usize = 0;
    proof {
        assert(ls.take(0) =~= Seq::<Seq<char>>::empty());
    }
    while i < lines.len()
        invariant
            char_rows(lines@) == ls,
            i <= lines@.len(),
            p.model() == params_of(ls.take(i as int)),
        decreases lines@.len() - i,
    {
        apply_param_line(&mut p, lines[i].as_slice());
        proof {
            assert(ls.take(i + 1).drop_last() =~= ls.take(i as int));
            assert(ls[i as int] == lines@[i as int]@);
        }
        i = i + 1;
    }
    proof {
        assert(ls.take(lines@.len() as int) =~= ls);
    }
    p
}

proof fn lemma_kept_all(edges: Seq<(u32, u32)>, n: int)
    requires
        forall|i: int| 0 <= i < edges.len() ==> (#[trigger] edges[i]).0 < n && edges[i].1 < n,
    ensures
        kept_edges(edges, n) == edges,
    decreases edges.len(),
{
    if edges.len() > 0 {
        lemma_kept_all(edges.drop_last(), n);
        assert(edges.drop_last().push(edges.last()) =~= edges);
    }
}

/// The vertex ids of the `.v` text, in order of first appearance, and the map
/// from each to its position.
fn read_vertices(v_text: &str) -> (r: (Vec<u32>, HashMap<u32, u32>))
    requires
        vertices_of(text_lines(v_text@)).len() <= u32::MAX,
    ensures
        r.0@ == vertices_of(text_lines(v_text@)),
        indexes(r.1@, r.0@),
{
    let lines = split_lines(&chars_of(v_text));
    let ghost ls = text_lines(v_text@);
    let mut vertex_of_node: Vec<u32> = Vec::new();
    let mut node_of_vertex: HashMap<u32, u32> = HashMap::new();
    let mut i: usize = 0;
    proof {
        assert(ls.take(0) =~= Seq::<Seq<char>>::empty());
        assert(node_of_vertex@ =~= Map::<u32, u32>::empty());
    }
    while i < lines.len()
        invariant
            char_rows(lines@) == ls,
            vertices_of(ls).len() <= u32::MAX,
            i <= lines@.len(),
            vertex_of_node@ == vertices_of(ls.take(i as int)),
            indexes(node_of_vertex@, vertex_of_node@),
        decreases lines@.len() - i,
    {
        let words = split_words(lines[i].as_slice());
        proof {
            assert(ls.take(i + 1).drop_last() =~= ls.take(i as int));
            assert(ls[i as int] == lines@[i as int]@);
            assert(char_rows(words@) == text_words(ls[i as int]));
            if words@.len() >= 1 {
                assert(text_words(ls[i as int])[0] == words@[0]@);
            }
            lemma_vertices_prefix(ls, i as int);
        }
        if words.len() >= 1 {
            match parse_u32_text(words[0].as_slice()) {
                Some(vid) => {
                    if !node_of_vertex.contains_key(&vid) {
                        let ghost before = vertex_of_node@;
                        let id = vertex_of_node.len() as u32;
                        node_of_vertex.insert(vid, id);
                        vertex_of_node.push(vid);
                        proof {
                            assert forall|v: u32| #[trigger] node_of_vertex@.contains_key(v) <==> vertex_of_node@.contains(v) by {
                                if v != vid && before.contains(v) {
                                    let j = choose|j: int| 0 <= j < before.len() && before[j] == v;
                                    assert(vertex_of_node@[j] == v);
                                }
                                if vertex_of_node@.contains(v) && v != vid {
                                    let j = choose|j: int| 0 <= j < vertex_of_node@.len() && vertex_of_node@[j] == v;
                                    assert(before[j] == v);
                                }
                                if v == vid {
                                    assert(vertex_of_node@[before.len() as int] == vid);
                                }
                            }
                            assert forall|v: u32| #[trigger] node_of_vertex@.contains_key(v) implies node_of_vertex@[v]
                                < vertex_of_node@.len() && vertex_of_node@[node_of_vertex@[v] as int] == v by {
                                if v != vid {
                                    assert(before[node_of_vertex@[v] as int] == v);
                                }
                            }
                        }
                    }
                },
                None => {},
            }
        }
        i = i + 1;
    }
    proof {
        assert(ls.take(lines@.len() as int) =~= ls);
    }
    (vertex_of_node, node_of_vertex)
}

proof fn lemma_vertices_prefix(ls: Seq<Seq<char>>, i: int)
    requires
        0 <= i < ls.len(),
    ensures
        vertices_of(ls.take(i)).len() <= vertices_of(ls.take(i + 1)).len() <= vertices_of(ls).len(),
    decreases ls.len() - i,
{
    assert(ls.take(i + 1).drop_last() =~= ls.take(i));
    if i + 1 < ls.len() {
        lemma_vertices_prefix(ls, i + 1);
    } else {
        assert(ls.take(i + 1) =~= ls);
    }
}

/// Build a dataset from the contents of its `.v`, `.e` and `.properties`
/// files. Vertices get dense node ids in `.v` order of first appearance; each
/// `.e` line `src dst [weight]` whose vertices are both known becomes a
/// relationship (others are skipped). Undirected graphs store each edge once.
pub fn load_str(v_text: &str, e_text: &str, props: &str) -> (ds: Dataset)
    requires
        vertices_of(text_lines(v_text@)).len() <= u32::MAX,
    ensures
        ds.vertex_of_node@ == vertices_of(text_lines(v_text@)),
        indexes(ds.node_of_vertex@, ds.vertex_of_node@),
        ds.edges@ == edges_of(text_lines(e_text@), ds.node_of_vertex@).map_values(
            |e: (u32, u32, Option<Seq<char>>)| (e.0, e.1),
        ),
        weight_rows(ds.weight_texts@) == edges_of(text_lines(e_text@), ds.node_of_vertex@).map_values(
            |e: (u32, u32, Option<Seq<char>>)| e.2,
        ),
        ds.graph.node_count() == ds.vertex_of_node@.len(),
        forall|v: int|
            0 <= v < ds.vertex_of_node@.len() ==> #[trigger] ds.graph.outgoing(v) == out_list(ds.edges@, v),
        forall|v: int|
            0 <= v < ds.vertex_of_node@.len() ==> #[trigger] ds.graph.incoming(v) == in_list(ds.edges@, v),
        ds.params.model() == params_of(text_lines(props@)),
{
    let params = parse_params(props);
    let (vertex_of_node, node_of_vertex) = read_vertices(v_text);
    let n = vertex_of_node.len() as u32;
    let lines = split_lines(&chars_of(e_text));
    let ghost ls = text_lines(e_text@);
    let ghost m = node_of_vertex@;
    let mut edges: Vec<(u32, u32)> = Vec::new();
    let mut weight_texts: Vec<Option<String>> = Vec::new();
    let mut i: usize = 0;
    proof {
        assert(ls.take(0) =~= Seq::<Seq<char>>::empty());
        assert(edges@ =~= edges_of(ls.take(0), m).map_values(|e: (u32, u32, Option<Seq<char>>)| (e.0, e.1)));
        assert(weight_rows(weight_texts@) =~= edges_of(ls.take(0), m).map_values(
            |e: (u32, u32, Option<Seq<char>>)| e.2,
        ));
    }
    while i < lines.len()
        invariant
            char_rows(lines@) == ls,
            m == node_of_vertex@,
            indexes(m, vertex_of_node@),
            n == vertex_of_node@.len(),
            i <= lines@.len(),
            edges@ == edges_of(ls.take(i as int), m).map_values(|e: (u32, u32, Option<Seq<char>>)| (e.0, e.1)),
            weight_rows(weight_texts@) == edges_of(ls.take(i as int), m).map_values(
                |e: (u32, u32, Option<Seq<char>>)| e.2,
            ),
            forall|j: int| 0 <= j < edges@.len() ==> (#[trigger] edges@[j]).0 < n && edges@[j].1 < n,
        decreases lines@.len() - i,
    {
        let words = split_words(lines[i].as_slice());
        let ghost line = ls[i as int];
        proof {
            assert(ls.take(i + 1).drop_last() =~= ls.take(i as int));
            assert(line == lines@[i as int]@);
            assert(char_rows(words@) == text_words(line));
            if words@.len() >= 2 {
                assert(text_words(line)[0] == words@[0]@);
                assert(text_words(line)[1] == words@[1]@);
            }
            if words@.len() >= 3 {
                assert(text_words(line)[2] == words@[2]@);
            }
        }
        let ghost before_e = edges@;
        let ghost before_w = weight_texts@;
        if words.len() >= 2 {
            let s = parse_u32_text(words[0].as_slice());
            let d = parse_u32_text(words[1].as_slice());
            match (s, d) {
                (Some(sv), Some(dv)) => {
                    match (node_of_vertex.get(&sv), node_of_vertex.get(&dv)) {
                        (Some(su), Some(du)) => {
                            let su = *su;
                            let du = *du;
                            let w = if words.len() > 2 {
                                Some(string_of(words[2].as_slice()))
                            } else {
                                None
                            };
                            edges.push((su, du));
                            weight_texts.push(w);
                            proof {
                                let e = line_edge(line, m).unwrap();
                                assert(edges@ =~= before_e.push((e.0, e.1)));
                                assert(weight_rows(weight_texts@) =~= weight_rows(before_w).push(e.2));
                                assert(edges_of(ls.take(i + 1), m) == edges_of(ls.take(i as int), m).push(e));
                                assert(edges_of(ls.take(i + 1), m).map_values(|e: (u32, u32, Option<Seq<char>>)| (e.0, e.1))
                                    =~= edges_of(ls.take(i as int), m).map_values(|e: (u32, u32, Option<Seq<char>>)| (e.0, e.1)).push((e.0, e.1)));
                                assert(edges_of(ls.take(i + 1), m).map_values(|e: (u32, u32, Option<Seq<char>>)| e.2)
                                    =~= edges_of(ls.take(i as int), m).map_values(|e: (u32, u32, Option<Seq<char>>)| e.2).push(e.2));
                            }
                        },
                        _ => {},
                    }
                },
                _ => {},
            }
        }
        i = i + 1;
    }
    proof {
        assert(ls.take(lines@.len() as int) =~= ls);
        lemma_kept_all(edges@, n as int);
    }
    let graph = Topology::from_edges(n, edges.as_slice());
    Dataset { graph, params, vertex_of_node, node_of_vertex, edges, weight_texts }
}

proof fn lemma_vertices_distinct(lines: Seq<Seq<char>>)
    ensures
        vertices_of(lines).no_duplicates(),
    decreases lines.len(),
{
    if lines.len() > 0 {
        lemma_vertices_distinct(lines.drop_last());
        let prev = vertices_of(lines.drop_last());
        match line_vertex(lines.last()) {
            Some(v) => if !prev.contains(v) {
                let q = prev.push(v);
                assert forall|i: int, j: int| 0 <= i < q.len() && 0 <= j < q.len() && i != j implies q[i] != q[j] by {
                    if i == prev.len() {
                        assert(q[j] == prev[j]);
                        assert(prev.contains(prev[j]));
                    } else if j == prev.len() {
                        assert(q[i] == prev[i]);
                        assert(prev.contains(prev[i]));
                    } else {
                        assert(prev[i] != prev[j]);
                    }
                }
            },
            None => {},
        }
    }
}

/// The `.v` vertices get distinct node ids, and node ids and vertex ids map
/// back and forth: vertex `vs[i]` has node `i`, and the vertex of a vertex's
/// node is that vertex.
pub proof fn law_node_vertex_inverse(lines: Seq<Seq<char>>, m: Map<u32, u32>, i: int, vertex: u32)
    requires
        indexes(m, vertices_of(lines)),
    ensures
        vertices_of(lines).no_duplicates(),
        0 <= i < vertices_of(lines).len() ==> m.contains_key(vertices_of(lines)[i]) && m[vertices_of(lines)[i]]
            == i,
        m.contains_key(vertex) ==> vertices_of(lines)[m[vertex] as int] == vertex,
{
    let vs = vertices_of(lines);
    lemma_vertices_distinct(lines);
    if 0 <= i < vs.len() {
        assert(vs.contains(vs[i]));
        assert(m.contains_key(vs[i]));
        let j = m[vs[i]] as int;
        assert(vs[j] == vs[i]);
    }
}

} // verus!
