//! Minimal N-Triples parser.
//!
//! N-Triples is the line-oriented RDF serialization: one `<s> <p> <o> .` per
//! line, where terms are absolute IRIs (`<...>`), blank nodes (`_:label`) or
//! literals (`"..."` with an optional `^^<datatype>` or `@lang`). Only the
//! serialization is parsed; the triples feed the RDF to property-graph loader.
//!
//! The grammar is stated as spec functions over characters (`read_term_at`,
//! `literal_body`, `line_result`). A position in a line is a character index;
//! every delimiter is ASCII, so this reads the same terms as a byte scanner.
//! One input shape aborts the scan instead of failing it: a backslash in a
//! literal followed by a non-ASCII character. The outcome `Scan::Abort` names
//! it, and the parsing functions require that it does not occur.
use vstd::prelude::*;
use vstd::string::StrSliceExecFns;
use crate::numtext::{ascii_byte, ascii_bytes, is_ascii_char, parse_u32_radix, spec_parse_hex_u32};
use crate::text::{chars_of, string_of};

verus! {

/// An RDF term: an IRI, a blank node, or a literal.
#[derive(Debug, Clone, PartialEq, Eq)]
pub enum Term {
    /// Absolute IRI (without the surrounding angle brackets).
    Iri(String),
    /// Blank-node label (without the `_:` prefix).
    Blank(String),
    /// A literal value with optional datatype IRI and language tag.
    Literal { value: String, datatype: Option<String>, lang: Option<String> },
}

/// One RDF statement.
#[derive(Debug, Clone, PartialEq, Eq)]
pub struct Triple {
    pub subject: Term,
    pub predicate: Term,
    pub object: Term,
}

/// The mathematical model of a [`Term`].
#[verifier::ext_equal]
pub enum RdfTerm {
    Iri(Seq<char>),
    Blank(Seq<char>),
    Literal { value: Seq<char>, datatype: Option<Seq<char>>, lang: Option<Seq<char>> },
}

/// The mathematical model of a [`Triple`].
#[verifier::ext_equal]
pub struct RdfTriple {
    pub subject: RdfTerm,
    pub predicate: RdfTerm,
    pub object: RdfTerm,
}

pub open spec fn opt_chars(o: Option<String>) -> Option<Seq<char>> {
    match o {
        Some(s) => Some(s@),
        None => None,
    }
}

impl View for Term {
    type V = RdfTerm;

    open spec fn view(&self) -> RdfTerm {
        match self {
            Term::Iri(s) => RdfTerm::Iri(s@),
            Term::Blank(s) => RdfTerm::Blank(s@),
            Term::Literal { value, datatype, lang } => RdfTerm::Literal {
                value: value@,
                datatype: opt_chars(*datatype),
                lang: opt_chars(*lang),
            },
        }
    }
}

impl View for Triple {
    type V = RdfTriple;

    open spec fn view(&self) -> RdfTriple {
        RdfTriple { subject: self.subject@, predicate: self.predicate@, object: self.object@ }
    }
}

/// Outcome of scanning from a position: a value and the position after it, a
/// failure (the line is not a triple), or an aborted scan.
pub enum Scan<T> {
    Done(T, int),
    Fail,
    Abort,
}

pub open spec fn is_resource_term(t: RdfTerm) -> bool {
    !(t is Literal)
}

impl Term {
    /// Whether this term is a resource (IRI or blank node) rather than a literal.
    pub fn is_resource(&self) -> (r: bool)
        ensures
            r == is_resource_term(self@),
    {
        match self {
            Term::Literal { .. } => false,
            _ => true,
        }
    }
}

pub open spec fn is_ascii_alnum(c: char) -> bool {
    ('0' <= c <= '9') || ('a' <= c <= 'z') || ('A' <= c <= 'Z')
}

/// Characters allowed in a blank-node label.
pub open spec fn is_name_char(c: char) -> bool {
    is_ascii_alnum(c) || c == '_' || c == '-' || c == '.'
}

/// Characters allowed in a language tag.
pub open spec fn is_lang_char(c: char) -> bool {
    is_ascii_alnum(c) || c == '-'
}

/// Characters that `str::trim` removes (Unicode `White_Space`).
pub open spec fn is_white_space(c: char) -> bool {
    ||| ('\t' <= c <= '\r')
    ||| c == ' '
    ||| c == '\u{85}'
    ||| c == '\u{a0}'
    ||| c == '\u{1680}'
    ||| ('\u{2000}' <= c <= '\u{200a}')
    ||| c == '\u{2028}'
    ||| c == '\u{2029}'
    ||| c == '\u{202f}'
    ||| c == '\u{205f}'
    ||| c == '\u{3000}'
}

/// First position at or after `i` that is not a space or tab.
pub open spec fn skip_blanks(s: Seq<char>, i: int) -> int
    decreases s.len() - i,
{
    if 0 <= i < s.len() && (s[i] == ' ' || s[i] == '\t') {
        skip_blanks(s, i + 1)
    } else {
        i
    }
}

/// End of the run of blank-node label characters starting at `i`.
pub open spec fn name_end(s: Seq<char>, i: int) -> int
    decreases s.len() - i,
{
    if 0 <= i < s.len() && is_name_char(s[i]) {
        name_end(s, i + 1)
    } else {
        i
    }
}

/// End of the run of language-tag characters starting at `i`.
pub open spec fn lang_end(s: Seq<char>, i: int) -> int
    decreases s.len() - i,
{
    if 0 <= i < s.len() && is_lang_char(s[i]) {
        lang_end(s, i + 1)
    } else {
        i
    }
}

/// Position of the first `c` at or after `i`.
pub open spec fn find_from(s: Seq<char>, i: int, c: char) -> Option<int>
    decreases s.len() - i,
{
    if 0 <= i < s.len() {
        if s[i] == c {
            Some(i)
        } else {
            find_from(s, i + 1, c)
        }
    } else {
        None
    }
}

/// The character with scalar value `v`, if `v` is one.
pub open spec fn char_of(v: u32) -> Option<char> {
    if v < 0xD800 || (0xE000 <= v <= 0x10FFFF) {
        Some(v as char)
    } else {
        None
    }
}

/// The character named by the `n` hex digits at `start` (an optional `+`
/// then hex digits, as `u32::from_str_radix` reads them).
pub open spec fn hex_char(s: Seq<char>, start: int, n: int) -> Option<char> {
    if 0 <= start && start + n <= s.len() {
        match ascii_bytes(s.subrange(start, start + n)) {
            Some(b) => match spec_parse_hex_u32(b) {
                Some(v) => char_of(v),
                None => None,
            },
            None => None,
        }
    } else {
        None
    }
}

/// Width of the hex escape that a backslash at `i` starts in an IRI (`\u` 4, `\U` 8), or 0.
pub open spec fn iri_escape_width(s: Seq<char>, i: int) -> int {
    if 0 <= i && i + 1 < s.len() && s[i] == '\\' {
        if s[i + 1] == 'u' {
            4
        } else if s[i + 1] == 'U' {
            8
        } else {
            0
        }
    } else {
        0
    }
}

/// `UCHAR` escapes (`\uXXXX`, `\UXXXXXXXX`) in an IRI from position `i` on,
/// decoded; every other character is copied.
pub open spec fn unescape_from(s: Seq<char>, i: int) -> Seq<char>
    decreases s.len() - i,
{
    if 0 <= i < s.len() {
        let n = iri_escape_width(s, i);
        if n > 0 && hex_char(s, i + 2, n) is Some {
            seq![hex_char(s, i + 2, n).unwrap()] + unescape_from(s, i + 2 + n)
        } else {
            seq![s[i]] + unescape_from(s, i + 1)
        }
    } else {
        Seq::empty()
    }
}

/// The IRI `s` with its `UCHAR` escapes decoded.
pub open spec fn unescape_iri_chars(s: Seq<char>) -> Seq<char> {
    unescape_from(s, 0)
}

pub open spec fn prepend(c: char, r: Scan<Seq<char>>) -> Scan<Seq<char>> {
    match r {
        Scan::Done(v, k) => Scan::Done(seq![c] + v, k),
        Scan::Fail => Scan::Fail,
        Scan::Abort => Scan::Abort,
    }
}

/// The character a backslash-escape `\e` in a literal stands for (`\u`/`\U` aside).
pub open spec fn simple_escape(e: char) -> char {
    if e == 'n' {
        '\n'
    } else if e == 't' {
        '\t'
    } else if e == 'r' {
        '\r'
    } else {
        e
    }
}

/// The body of a literal from position `i` (just after the opening quote) to
/// its closing quote: the decoded value and the position after the quote.
pub open spec fn literal_body(s: Seq<char>, i: int) -> Scan<Seq<char>>
    decreases s.len() - i,
{
    if i < 0 || i >= s.len() {
        Scan::Fail
    } else if s[i] == '\\' {
        if i + 1 >= s.len() {
            Scan::Fail
        } else {
            let e = s[i + 1];
            if e == 'u' || e == 'U' {
                let n: int = if e == 'u' { 4 } else { 8 };
                match hex_char(s, i + 2, n) {
                    Some(c) => prepend(c, literal_body(s, i + 2 + n)),
                    None => Scan::Fail,
                }
            } else if (e as u32) < 128 {
                prepend(simple_escape(e), literal_body(s, i + 2))
            } else {
                Scan::Abort
            }
        }
    } else if s[i] == '"' {
        Scan::Done(Seq::empty(), i + 1)
    } else {
        prepend(s[i], literal_body(s, i + 1))
    }
}

/// The term starting at or after position `i` (after spaces and tabs).
pub open spec fn read_term_at(s: Seq<char>, i: int) -> Scan<RdfTerm>
    decreases s.len() - i, 1int,
{
    let j = skip_blanks(s, i);
    if j < 0 || j >= s.len() {
        Scan::Fail
    } else if s[j] == '<' {
        match find_from(s, j + 1, '>') {
            Some(e) => Scan::Done(RdfTerm::Iri(unescape_iri_chars(s.subrange(j + 1, e))), e + 1),
            None => Scan::Fail,
        }
    } else if s[j] == '_' {
        if j + 1 >= s.len() || s[j + 1] != ':' {
            Scan::Fail
        } else {
            let e = name_end(s, j + 2);
            Scan::Done(RdfTerm::Blank(s.subrange(j + 2, e)), e)
        }
    } else if s[j] == '"' {
        if i <= j {
            read_literal_at(s, j)
        } else {
            Scan::Fail
        }
    } else {
        Scan::Fail
    }
}

/// The literal whose opening quote is at position `i`, with its optional
/// `^^<datatype>` or `@lang` suffix.
pub open spec fn read_literal_at(s: Seq<char>, i: int) -> Scan<RdfTerm>
    decreases s.len() - i, 0int,
{
    match literal_body(s, i + 1) {
        Scan::Done(value, k) => {
            if i < k && k < s.len() && k + 1 < s.len() && s[k] == '^' && s[k + 1] == '^' {
                match read_term_at(s, k + 2) {
                    Scan::Done(RdfTerm::Iri(dt), k2) => Scan::Done(
                        RdfTerm::Literal { value, datatype: Some(dt), lang: None },
                        k2,
                    ),
                    Scan::Abort => Scan::Abort,
                    _ => Scan::Fail,
                }
            } else if 0 <= k < s.len() && s[k] == '@' {
                let e = lang_end(s, k + 1);
                Scan::Done(
                    RdfTerm::Literal { value, datatype: None, lang: Some(s.subrange(k + 1, e)) },
                    e,
                )
            } else {
                Scan::Done(RdfTerm::Literal { value, datatype: None, lang: None }, k)
            }
        },
        Scan::Fail => Scan::Fail,
        Scan::Abort => Scan::Abort,
    }
}

/// First position at or after `i` that is not white space.
pub open spec fn first_non_white(s: Seq<char>, i: int) -> int
    decreases s.len() - i,
{
    if 0 <= i < s.len() && is_white_space(s[i]) {
        first_non_white(s, i + 1)
    } else {
        i
    }
}

/// End of `s[..j]` once trailing white space is dropped.
pub open spec fn last_non_white_end(s: Seq<char>, j: int) -> int
    decreases j,
{
    if 0 < j <= s.len() && is_white_space(s[j - 1]) {
        last_non_white_end(s, j - 1)
    } else {
        j
    }
}

/// `s` without leading and trailing white space (`str::trim`).
pub open spec fn trim_chars(s: Seq<char>) -> Seq<char> {
    let a = first_non_white(s, 0);
    if a >= s.len() {
        Seq::empty()
    } else {
        s.subrange(a, last_non_white_end(s, s.len() as int))
    }
}

/// The statement that ends before position `i` of the trimmed line `t` is
/// closed: after spaces or tabs comes the terminating `.`, and after it
/// only spaces or tabs, up to the end or to a `#` comment.
pub open spec fn closed_at(t: Seq<char>, i: int) -> bool {
    let j = skip_blanks(t, i);
    &&& 0 <= j < t.len()
    &&& t[j] == '.'
    &&& {
        let k = skip_blanks(t, j + 1);
        k >= t.len() || t[k] == '#'
    }
}

/// What a line parses to: a triple (subject a resource, predicate an IRI,
/// closed by a `.`), a failure for blank, comment or malformed lines, or an
/// aborted scan.
pub open spec fn line_result(line: Seq<char>) -> Scan<RdfTriple> {
    let t = trim_chars(line);
    if t.len() == 0 || t[0] == '#' {
        Scan::Fail
    } else {
        match read_term_at(t, 0) {
            Scan::Done(subject, i1) => match read_term_at(t, i1) {
                Scan::Done(predicate, i2) => match read_term_at(t, i2) {
                    Scan::Done(object, i3) => if is_resource_term(subject) && predicate is Iri && closed_at(t, i3) {
                        Scan::Done(RdfTriple { subject, predicate, object }, i3)
                    } else {
                        Scan::Fail
                    },
                    Scan::Fail => Scan::Fail,
                    Scan::Abort => Scan::Abort,
                },
                Scan::Fail => Scan::Fail,
                Scan::Abort => Scan::Abort,
            },
            Scan::Fail => Scan::Fail,
            Scan::Abort => Scan::Abort,
        }
    }
}

/// The triple a line holds, if any.
pub open spec fn line_triple(line: Seq<char>) -> Option<RdfTriple> {
    match line_result(line) {
        Scan::Done(t, _) => Some(t),
        _ => None,
    }
}

/// The triples of a document: each `\n`-separated line from `start` on that
/// parses as a triple, in order.
pub open spec fn triples_from(s: Seq<char>, start: int) -> Seq<RdfTriple>
    decreases s.len() - start, 
{
    if start < 0 || start > s.len() {
        Seq::empty()
    } else {
        match find_from(s, start, '\n') {
            Some(e) => {
                let rest = if e + 1 > start && e < s.len() {
                    triples_from(s, e + 1)
                } else {
                    Seq::empty()
                };
                match line_triple(s.subrange(start, e)) {
                    Some(t) => seq![t] + rest,
                    None => rest,
                }
            },
            None => match line_triple(s.subrange(start, s.len() as int)) {
                Some(t) => seq![t],
                None => Seq::empty(),
            },
        }
    }
}

/// No line of the document from `start` on aborts the scan.
pub open spec fn lines_scan_from(s: Seq<char>, start: int) -> bool
    decreases s.len() - start,
{
    if start < 0 || start > s.len() {
        true
    } else {
        match find_from(s, start, '\n') {
            Some(e) => !(line_result(s.subrange(start, e)) is Abort) && if e + 1 > start && e
                < s.len() {
                lines_scan_from(s, e + 1)
            } else {
                true
            },
            None => !(line_result(s.subrange(start, s.len() as int)) is Abort),
        }
    }
}

/// Position just after the last `c` in `s`, or 0 when there is none.
pub open spec fn after_last(s: Seq<char>, c: char) -> int
    decreases s.len(),
{
    if s.len() == 0 {
        0
    } else if s.last() == c {
        s.len() as int
    } else {
        after_last(s.drop_last(), c)
    }
}

/// The local name of an IRI: what follows its last `#`, and within that, its last `/`.
pub open spec fn local_name_chars(iri: Seq<char>) -> Seq<char> {
    let t = iri.subrange(after_last(iri, '#'), iri.len() as int);
    t.subrange(after_last(t, '/'), t.len() as int)
}

/// `char::from_u32`: the character with scalar value `v`, if there is one.
#[verifier::external_body]
fn char_from_u32(v: u32) -> (r: Option<char>)
    ensures
        r == char_of(v),
{
    char::from_u32(v)
}

fn hex_char_at(s: &[char], start: usize, n: usize) -> (r: Option<char>)
    ensures
        r == hex_char(s@, start as int, n as int),
{
    if start > s.len() || n > s.len() - start {
        return None;
    }
    let mut b: Vec<u8> = Vec::new();
    let mut k: usize = start;
    while k < start + n
        invariant
            start <= k <= start + n <= s.len(),
            b@.len() == k - start,
            forall|j: int| start <= j < k ==> is_ascii_char(#[trigger] s@[j]) && b@[j - start]
                == ascii_byte(s@[j]),
        decreases start + n - k,
    {
        let c = s[k];
        if (c as u32) >= 128 {
            proof {
                let sub = s@.subrange(start as int, start + n);
                assert(sub[k - start] == c);
                assert(!is_ascii_char(sub[k - start]));
                assert(ascii_bytes(sub) is None);
            }
            return None;
        }
        let ghost old_b = b@;
        b.push((c as u32) as u8);
        proof {
            assert(c == s@[k as int]);
            assert((c as u32) < 128);
            assert(is_ascii_char(s@[k as int]));
            assert(b@[k - start] == ascii_byte(c));
            assert forall|j: int| start <= j < k + 1 implies is_ascii_char(#[trigger] s@[j])
                && b@[j - start] == ascii_byte(s@[j]) by {
                if j < k {
                    assert(b@[j - start] == old_b[j - start]);
                }
            }
        }
        k = k + 1;
    }
    proof {
        let sub = s@.subrange(start as int, start + n);
        assert forall|i: int| 0 <= i < sub.len() implies #[trigger] is_ascii_char(sub[i]) by {
            assert(sub[i] == s@[start + i]);
            assert(is_ascii_char(s@[start + i]));
        }
        assert(b@ =~= Seq::new(sub.len(), |i: int| ascii_byte(sub[i])));
    }
    match parse_u32_radix(&b, 16) {
        Some(v) => char_from_u32(v),
        None => None,
    }
}

fn skip_ws(s: &[char], i: usize) -> (r: usize)
    requires
        i <= s.len(),
    ensures
        r == skip_blanks(s@, i as int),
        i <= r <= s.len(),
{
    let mut j = i;
    while j < s.len() && (s[j] == ' ' || s[j] == '\t')
        invariant
            i <= j <= s.len(),
            skip_blanks(s@, j as int) == skip_blanks(s@, i as int),
        decreases s.len() - j,
    {
        j = j + 1;
    }
    j
}

fn label_char(c: char, lang: bool) -> (r: bool)
    ensures
        r == if lang { is_lang_char(c) } else { is_name_char(c) },
{
    let alnum = ('0' <= c && c <= '9') || ('a' <= c && c <= 'z') || ('A' <= c && c <= 'Z');
    if lang {
        alnum || c == '-'
    } else {
        alnum || c == '_' || c == '-' || c == '.'
    }
}

fn name_end_from(s: &[char], i: usize, lang: bool) -> (r: usize)
    requires
        i <= s.len(),
    ensures
        !lang ==> r == name_end(s@, i as int),
        lang ==> r == lang_end(s@, i as int),
        i <= r <= s.len(),
{
    let mut j = i;
    while j < s.len() && label_char(s[j], lang)
        invariant
            i <= j <= s.len(),
            !lang ==> name_end(s@, j as int) == name_end(s@, i as int),
            lang ==> lang_end(s@, j as int) == lang_end(s@, i as int),
        decreases s.len() - j,
    {
        j = j + 1;
    }
    j
}

pub(crate) fn find_char(s: &[char], i: usize, c: char) -> (r: Option<usize>)
    requires
        i <= s.len(),
    ensures
        match r {
            Some(e) => find_from(s@, i as int, c) == Some(e as int) && i <= e < s.len(),
            None => find_from(s@, i as int, c) is None,
        },
{
    let mut j = i;
    while j < s.len()
        invariant
            i <= j <= s.len(),
            find_from(s@, j as int, c) == find_from(s@, i as int, c),
        decreases s.len() - j,
    {
        if s[j] == c {
            return Some(j);
        }
        j = j + 1;
    }
    None
}

fn unescape_iri(s: &[char]) -> (r: Vec<char>)
    ensures
        r@ == unescape_iri_chars(s@),
{
    let mut out: Vec<char> = Vec::new();
    let mut i: usize = 0;
    while i < s.len()
        invariant
            i <= s.len(),
            unescape_from(s@, 0) == out@ + unescape_from(s@, i as int),
        decreases s.len() - i,
    {
        let n: usize = if s[i] == '\\' && i + 1 < s.len() {
            if s[i + 1] == 'u' {
                4
            } else if s[i + 1] == 'U' {
                8
            } else {
                0
            }
        } else {
            0
        };
        assert(n == iri_escape_width(s@, i as int));
        let decoded = if n > 0 {
            hex_char_at(s, i + 2, n)
        } else {
            None
        };
        match decoded {
            Some(ch) => {
                assert(unescape_from(s@, i as int) == seq![ch] + unescape_from(s@, i + 2 + n));
                assert(out@ + (seq![ch] + unescape_from(s@, i + 2 + n)) =~= out@.push(ch)
                    + unescape_from(s@, i + 2 + n));
                out.push(ch);
                i = i + 2 + n;
            },
            None => {
                let c = s[i];
                assert(unescape_from(s@, i as int) == seq![c] + unescape_from(s@, i + 1));
                assert(out@ + (seq![c] + unescape_from(s@, i + 1)) =~= out@.push(c)
                    + unescape_from(s@, i + 1));
                out.push(c);
                i = i + 1;
            },
        }
    }
    assert(out@ + unescape_from(s@, i as int) =~= out@);
    out
}

pub open spec fn prepend_all(acc: Seq<char>, r: Scan<Seq<char>>) -> Scan<Seq<char>> {
    match r {
        Scan::Done(v, k) => Scan::Done(acc + v, k),
        Scan::Fail => Scan::Fail,
        Scan::Abort => Scan::Abort,
    }
}

proof fn lemma_prepend_step(acc: Seq<char>, c: char, r: Scan<Seq<char>>)
    ensures
        prepend_all(acc, prepend(c, r)) == prepend_all(acc.push(c), r),
{
    match r {
        Scan::Done(v, k) => {
            assert(acc + (seq![c] + v) =~= acc.push(c) + v);
        },
        _ => {},
    }
}

fn literal_body_from(s: &[char], i: usize) -> (r: Option<(Vec<char>, usize)>)
    requires
        i <= s.len(),
        !(literal_body(s@, i as int) is Abort),
    ensures
        match literal_body(s@, i as int) {
            Scan::Done(v, k) => r matches Some((rv, rk)) && rv@ == v && rk == k && i < rk
                <= s.len(),
            _ => r is None,
        },
{
    let mut acc: Vec<char> = Vec::new();
    let mut j: usize = i;
    assert(prepend_all(acc@, literal_body(s@, j as int)) == literal_body(s@, i as int)) by {
        match literal_body(s@, i as int) {
            Scan::Done(v, k) => {
                assert(acc@ + v =~= v);
            },
            _ => {},
        }
    }
    loop
        invariant
            i <= j <= s.len(),
            prepend_all(acc@, literal_body(s@, j as int)) == literal_body(s@, i as int),
            !(literal_body(s@, i as int) is Abort),
        decreases s.len() - j,
    {
        if j >= s.len() {
            return None;
        }
        let c = s[j];
        if c == '\\' {
            if j + 1 >= s.len() {
                return None;
            }
            let e = s[j + 1];
            if e == 'u' || e == 'U' {
                let n: usize = if e == 'u' { 4 } else { 8 };
                match hex_char_at(s, j + 2, n) {
                    Some(ch) => {
                        proof {
                            lemma_prepend_step(acc@, ch, literal_body(s@, j + 2 + n));
                        }
                        acc.push(ch);
                        j = j + 2 + n;
                    },
                    None => {
                        return None;
                    },
                }
            } else if (e as u32) < 128 {
                let ch = if e == 'n' {
                    '\n'
                } else if e == 't' {
                    '\t'
                } else if e == 'r' {
                    '\r'
                } else {
                    e
                };
                proof {
                    lemma_prepend_step(acc@, ch, literal_body(s@, j + 2));
                }
                acc.push(ch);
                j = j + 2;
            } else {
                return None;
            }
        } else if c == '"' {
            assert(acc@ + Seq::<char>::empty() =~= acc@);
            return Some((acc, j + 1));
        } else {
            proof {
                lemma_prepend_step(acc@, c, literal_body(s@, j + 1));
            }
            acc.push(c);
            j = j + 1;
        }
    }
}

fn read_term(s: &[char], i: usize) -> (r: Option<(Term, usize)>)
    requires
        i <= s.len(),
        !(read_term_at(s@, i as int) is Abort),
    ensures
        match read_term_at(s@, i as int) {
            Scan::Done(t, k) => r matches Some((rt, rk)) && rt@ == t && rk == k && rk <= s.len(),
            _ => r is None,
        },
    decreases s.len() - i, 1int,
{
    let j = skip_ws(s, i);
    if j >= s.len() {
        return None;
    }
    if s[j] == '<' {
        match find_char(s, j + 1, '>') {
            Some(e) => {
                let iri = unescape_iri(&s[j + 1..e]);
                Some((Term::Iri(string_of(&iri)), e + 1))
            },
            None => None,
        }
    } else if s[j] == '_' {
        if j + 1 >= s.len() || s[j + 1] != ':' {
            return None;
        }
        let e = name_end_from(s, j + 2, false);
        Some((Term::Blank(string_of(&s[j + 2..e])), e))
    } else if s[j] == '"' {
        read_literal(s, j)
    } else {
        None
    }
}

fn read_literal(s: &[char], i: usize) -> (r: Option<(Term, usize)>)
    requires
        i < s.len(),
        !(read_literal_at(s@, i as int) is Abort),
    ensures
        match read_literal_at(s@, i as int) {
            Scan::Done(t, k) => r matches Some((rt, rk)) && rt@ == t && rk == k && rk <= s.len(),
            _ => r is None,
        },
    decreases s.len() - i, 0int,
{
    let (value, k) = match literal_body_from(s, i + 1) {
        Some(p) => p,
        None => return None,
    };
    if i < k && k < s.len() && k + 1 < s.len() && s[k] == '^' && s[k + 1] == '^' {
        match read_term(s, k + 2) {
            Some((Term::Iri(dt), k2)) => Some(
                (Term::Literal { value: string_of(&value), datatype: Some(dt), lang: None }, k2),
            ),
            _ => None,
        }
    } else if k < s.len() && s[k] == '@' {
        let e = name_end_from(s, k + 1, true);
        Some(
            (
                Term::Literal {
                    value: string_of(&value),
                    datatype: None,
                    lang: Some(string_of(&s[k + 1..e])),
                },
                e,
            ),
        )
    } else {
        Some((Term::Literal { value: string_of(&value), datatype: None, lang: None }, k))
    }
}

pub(crate) fn white_space(c: char) -> (r: bool)
    ensures
        r == is_white_space(c),
{
    ('\t' <= c && c <= '\r') || c == ' ' || c == '\u{85}' || c == '\u{a0}' || c == '\u{1680}' || (
    '\u{2000}' <= c && c <= '\u{200a}') || c == '\u{2028}' || c == '\u{2029}' || c == '\u{202f}'
        || c == '\u{205f}' || c == '\u{3000}'
}

/// `s` without leading and trailing white space.
pub(crate) fn trim(s: &[char]) -> (r: &[char])
    ensures
        r@ == trim_chars(s@),
{
    let mut a: usize = 0;
    while a < s.len() && white_space(s[a])
        invariant
            a <= s.len(),
            first_non_white(s@, a as int) == first_non_white(s@, 0),
        decreases s.len() - a,
    {
        a = a + 1;
    }
    if a >= s.len() {
        return &s[0..0];
    }
    let mut b: usize = s.len();
    while white_space(s[b - 1])
        invariant
            a < b <= s.len(),
            !is_white_space(s@[a as int]),
            last_non_white_end(s@, b as int) == last_non_white_end(s@, s.len() as int),
        decreases b,
    {
        b = b - 1;
    }
    &s[a..b]
}

/// Parse the characters of one line.
fn parse_line_chars(line: &[char]) -> (r: Option<Triple>)
    requires
        !(line_result(line@) is Abort),
    ensures
        match line_triple(line@) {
            Some(t) => r matches Some(rt) && rt@ == t,
            None => r is None,
        },
{
    let t = trim(line);
    if t.len() == 0 || t[0] == '#' {
        return None;
    }
    let (subject, i1) = match read_term(t, 0) {
        Some(p) => p,
        None => return None,
    };
    let (predicate, i2) = match read_term(t, i1) {
        Some(p) => p,
        None => return None,
    };
    let (object, i3) = match read_term(t, i2) {
        Some(p) => p,
        None => return None,
    };
    let j = skip_ws(t, i3);
    if j >= t.len() || t[j] != '.' {
        return None;
    }
    let k = skip_ws(t, j + 1);
    if k < t.len() && t[k] != '#' {
        return None;
    }
    let is_iri = match &predicate {
        Term::Iri(_) => true,
        _ => false,
    };
    if !subject.is_resource() || !is_iri {
        return None;
    }
    Some(Triple { subject, predicate, object })
}

/// Parse a single line into a triple, or `None` for blank/comment/malformed
/// lines. The subject must be a resource, the predicate an IRI, and the
/// statement must end with `.` (only blanks or a `#` comment may follow).
pub fn parse_line(line: &str) -> (r: Option<Triple>)
    requires
        !(line_result(line@) is Abort),
    ensures
        match line_triple(line@) {
            Some(t) => r matches Some(rt) && rt@ == t,
            None => r is None,
        },
{
    let cs = chars_of(line);
    parse_line_chars(&cs)
}

/// Parse a whole N-Triples document, skipping blank and comment lines and any
/// line that does not parse as a valid triple.
pub fn parse(input: &str) -> (r: Vec<Triple>)
    requires
        lines_scan_from(input@, 0),
    ensures
        r@.map_values(|t: Triple| t@) == triples_from(input@, 0),
{
    let cs = chars_of(input);
    let mut out: Vec<Triple> = Vec::new();
    let mut start: usize = 0;
    loop
        invariant
            start <= cs@.len(),
            cs@ == input@,
            lines_scan_from(cs@, start as int),
            triples_from(cs@, 0) == out@.map_values(|t: Triple| t@) + triples_from(
                cs@,
                start as int,
            ),
        decreases cs@.len() - start,
    {
        let ghost old_out = out@;
        match find_char(&cs, start, '\n') {
            Some(e) => {
                let line = &cs[start..e];
                match parse_line_chars(line) {
                    Some(t) => {
                        out.push(t);
                        assert(out@.map_values(|t: Triple| t@) =~= old_out.map_values(
                            |t: Triple| t@,
                        ).push(line_triple(cs@.subrange(start as int, e as int)).unwrap()));
                    },
                    None => {},
                }
                proof {
                    let a = old_out.map_values(|t: Triple| t@);
                    let rest = triples_from(cs@, e + 1);
                    match line_triple(cs@.subrange(start as int, e as int)) {
                        Some(t) => {
                            assert(a + (seq![t] + rest) =~= a.push(t) + rest);
                        },
                        None => {},
                    }
                }
                start = e + 1;
            },
            None => {
                let line = &cs[start..cs.len()];
                match parse_line_chars(line) {
                    Some(t) => {
                        out.push(t);
                    },
                    None => {},
                }
                proof {
                    let a = old_out.map_values(|t: Triple| t@);
                    match line_triple(cs@.subrange(start as int, cs@.len() as int)) {
                        Some(t) => {
                            assert(out@.map_values(|t: Triple| t@) =~= a + seq![t]);
                        },
                        None => {
                            assert(out@.map_values(|t: Triple| t@) =~= a + Seq::empty());
                        },
                    }
                }
                return out;
            },
        }
    }
}

fn after_last_index(s: &[char], lo: usize, c: char) -> (r: usize)
    requires
        lo <= s.len(),
    ensures
        r == lo + after_last(s@.subrange(lo as int, s@.len() as int), c),
        lo <= r <= s.len(),
{
    let mut j: usize = s.len();
    while j > lo && s[j - 1] != c
        invariant
            lo <= j <= s.len(),
            after_last(s@.subrange(lo as int, s@.len() as int), c) == after_last(
                s@.subrange(lo as int, j as int),
                c,
            ),
        decreases j,
    {
        assert(s@.subrange(lo as int, j as int).drop_last() =~= s@.subrange(lo as int, j - 1));
        j = j - 1;
    }
    j
}

/// The local name of an IRI: the substring after the last `#` or `/`.
pub fn local_name(iri: &str) -> (r: &str)
    ensures
        r@ == local_name_chars(iri@),
{
    let cs = chars_of(iri);
    let h = after_last_index(&cs, 0, '#');
    let k = after_last_index(&cs, h, '/');
    proof {
        assert(iri@.subrange(0, iri@.len() as int) =~= iri@);
        let t = iri@.subrange(h as int, iri@.len() as int);
        assert(iri@.subrange(k as int, iri@.len() as int) =~= t.subrange(
            after_last(t, '/'),
            t.len() as int,
        ));
    }
    iri.substring_char(k, cs.len())
}

/// Searching a text with a prefix in front finds the same position, shifted.
proof fn lemma_find_shift(p: Seq<char>, b: Seq<char>, i: int, c: char)
    requires
        0 <= i <= b.len(),
    ensures
        find_from(p + b, p.len() + i, c) == match find_from(b, i, c) {
            Some(e) => Some(p.len() + e),
            None => None,
        },
    decreases b.len() - i,
{
    if i < b.len() {
        assert((p + b)[p.len() + i] == b[i]);
        lemma_find_shift(p, b, i + 1, c);
    }
}

/// The triples of a text with a prefix in front, read from the prefix's
/// end on, are those of the text.
proof fn lemma_triples_shift(p: Seq<char>, b: Seq<char>, i: int)
    requires
        0 <= i <= b.len(),
    ensures
        triples_from(p + b, p.len() + i) == triples_from(b, i),
    decreases b.len() - i,
{
    let w = p + b;
    lemma_find_shift(p, b, i, '\n');
    match find_from(b, i, '\n') {
        Some(e) => {
            lemma_find_bounds(b, i, '\n');
            assert(w.subrange(p.len() + i, p.len() + e) =~= b.subrange(i, e));
            if e + 1 <= b.len() {
                lemma_triples_shift(p, b, e + 1);
            }
        },
        None => {
            assert(w.subrange(p.len() + i, w.len() as int) =~= b.subrange(i, b.len() as int));
        },
    }
}

proof fn lemma_find_bounds(s: Seq<char>, i: int, c: char)
    ensures
        find_from(s, i, c) matches Some(e) ==> 0 <= i <= e < s.len() && s[e] == c,
    decreases s.len() - i,
{
    if 0 <= i < s.len() && s[i] != c {
        lemma_find_bounds(s, i + 1, c);
    }
}

/// The triples of `a`, a newline and `b`, read from position `i` of `a`
/// on, are those of `a` from `i` followed by those of `b`.
proof fn lemma_triples_join(a: Seq<char>, b: Seq<char>, i: int)
    requires
        0 <= i <= a.len(),
    ensures
        triples_from(a + seq!['\n'] + b, i) == triples_from(a, i) + triples_from(b, 0),
    decreases a.len() - i,
{
    let p = a + seq!['\n'];
    let w = p + b;
    lemma_find_bounds(a, i, '\n');
    lemma_find_join(a, b, i);
    match find_from(a, i, '\n') {
        Some(e) => {
            assert(w.subrange(i, e) =~= a.subrange(i, e));
            lemma_triples_join(a, b, e + 1);
            match line_triple(a.subrange(i, e)) {
                Some(t) => {
                    assert(seq![t] + (triples_from(a, e + 1) + triples_from(b, 0)) =~= (seq![t] + triples_from(a, e + 1))
                        + triples_from(b, 0));
                },
                None => {},
            }
        },
        None => {
            assert(w.subrange(i, a.len() as int) =~= a.subrange(i, a.len() as int));
            lemma_triples_shift(p, b, 0);
            match line_triple(a.subrange(i, a.len() as int)) {
                Some(t) => {},
                None => {
                    assert(Seq::<RdfTriple>::empty() + triples_from(b, 0) =~= triples_from(b, 0));
                },
            }
        },
    }
}

/// In `a`, a newline and `b`, the first newline from position `i` of `a`
/// on is `a`'s own, or else the joining one.
proof fn lemma_find_join(a: Seq<char>, b: Seq<char>, i: int)
    requires
        0 <= i <= a.len(),
    ensures
        find_from(a + seq!['\n'] + b, i, '\n') == match find_from(a, i, '\n') {
            Some(e) => Some(e),
            None => Some(a.len() as int),
        },
    decreases a.len() - i,
{
    let w = a + seq!['\n'] + b;
    if i < a.len() {
        assert(w[i] == a[i]);
        lemma_find_join(a, b, i + 1);
    } else {
        assert(w[i] == '\n');
    }
}

/// Parsing two documents joined by a newline gives the triples of the
/// first followed by those of the second.
pub proof fn law_parse_joined(a: Seq<char>, b: Seq<char>)
    ensures
        triples_from(a + seq!['\n'] + b, 0) == triples_from(a, 0) + triples_from(b, 0),
{
    lemma_triples_join(a, b, 0);
}

/// The N-Triples character escapes inside a literal: `\t` stands for a tab,
/// `\n` for a line feed, `\r` for a carriage return, `\"` for a quote and
/// `\\` for a backslash; the rest of the literal reads on after the escape.
pub proof fn law_literal_escapes(s: Seq<char>, i: int)
    requires
        0 <= i,
        i + 1 < s.len(),
        s[i] == '\\',
    ensures
        s[i + 1] == 't' ==> literal_body(s, i) == prepend('\t', literal_body(s, i + 2)),
        s[i + 1] == 'n' ==> literal_body(s, i) == prepend('\n', literal_body(s, i + 2)),
        s[i + 1] == 'r' ==> literal_body(s, i) == prepend('\r', literal_body(s, i + 2)),
        s[i + 1] == '"' ==> literal_body(s, i) == prepend('"', literal_body(s, i + 2)),
        s[i + 1] == '\\' ==> literal_body(s, i) == prepend('\\', literal_body(s, i + 2)),
{
}

/// The numeric escapes inside a literal: `\u` takes the four hex digits
/// after it and `\U` the eight, the character they name standing for the
/// escape; the rest of the literal reads on after the digits.
pub proof fn law_literal_numeric_escapes(s: Seq<char>, i: int)
    requires
        0 <= i,
        i + 1 < s.len(),
        s[i] == '\\',
    ensures
        s[i + 1] == 'u' && hex_char(s, i + 2, 4) is Some ==> literal_body(s, i) == prepend(
            hex_char(s, i + 2, 4).unwrap(),
            literal_body(s, i + 6),
        ),
        s[i + 1] == 'U' && hex_char(s, i + 2, 8) is Some ==> literal_body(s, i) == prepend(
            hex_char(s, i + 2, 8).unwrap(),
            literal_body(s, i + 10),
        ),
        s[i + 1] == 'u' && hex_char(s, i + 2, 4) is None ==> literal_body(s, i) is Fail,
{
}

/// The same numeric escapes inside an IRI: `\u` with four hex digits and
/// `\U` with eight stand for the character they name.
pub proof fn law_iri_numeric_escapes(s: Seq<char>, i: int)
    requires
        0 <= i,
        i + 1 < s.len(),
        s[i] == '\\',
    ensures
        s[i + 1] == 'u' && hex_char(s, i + 2, 4) is Some ==> unescape_from(s, i) == seq![hex_char(s, i + 2, 4).unwrap()]
            + unescape_from(s, i + 6),
        s[i + 1] == 'U' && hex_char(s, i + 2, 8) is Some ==> unescape_from(s, i) == seq![hex_char(s, i + 2, 8).unwrap()]
            + unescape_from(s, i + 10),
{
}

/// The value of a hex digit character, as a number.
pub open spec fn hex_digit(c: char) -> Option<nat> {
    if '0' <= c <= '9' {
        Some((c as nat - '0' as nat) as nat)
    } else if 'a' <= c <= 'f' {
        Some((c as nat - 'a' as nat + 10) as nat)
    } else if 'A' <= c <= 'F' {
        Some((c as nat - 'A' as nat + 10) as nat)
    } else {
        None
    }
}

/// Four hex digits name the character whose code is their value read in
/// base 16, most significant first (when that code is a character).
pub proof fn law_four_hex_digits(s: Seq<char>, start: int)
    requires
        0 <= start,
        start + 4 <= s.len(),
        forall|k: int| start <= k < start + 4 ==> #[trigger] hex_digit(s[k]) is Some,
    ensures
        hex_char(s, start, 4) == char_of(
            (4096 * hex_digit(s[start]).unwrap() + 256 * hex_digit(s[start + 1]).unwrap() + 16 * hex_digit(
                s[start + 2],
            ).unwrap() + hex_digit(s[start + 3]).unwrap()) as u32,
        ),
{
    let t = s.subrange(start, start + 4);
    assert forall|k: int| 0 <= k < 4 implies #[trigger] is_ascii_char(t[k]) by {
        assert(t[k] == s[start + k]);
        assert(hex_digit(s[start + k]) is Some);
    }
    let b = ascii_bytes(t).unwrap();
    assert forall|k: int| 0 <= k < 4 implies #[trigger] crate::numtext::digit_value(b[k], 16) == hex_digit(s[start + k]) by {
        assert(t[k] == s[start + k]);
        assert(hex_digit(s[start + k]) is Some);
        assert(b[k] == ascii_byte(s[start + k]));
    }
    let v0 = hex_digit(s[start]).unwrap();
    let v1 = hex_digit(s[start + 1]).unwrap();
    let v2 = hex_digit(s[start + 2]).unwrap();
    let v3 = hex_digit(s[start + 3]).unwrap();
    assert(crate::numtext::digit_value(b[0], 16) == Some(v0));
    assert(crate::numtext::digit_value(b[1], 16) == Some(v1));
    assert(crate::numtext::digit_value(b[2], 16) == Some(v2));
    assert(crate::numtext::digit_value(b[3], 16) == Some(v3));
    assert(b[0] != 43u8 && b[0] != 45u8);
    assert(crate::numtext::split_sign(b, false) == Some((false, b)));
    assert(crate::numtext::all_digits(b, 16));
    let b3 = b.drop_last();
    let b2 = b3.drop_last();
    let b1 = b2.drop_last();
    let b0 = b1.drop_last();
    assert(b0.len() == 0);
    assert(b1.last() == b[0] && b2.last() == b[1] && b3.last() == b[2] && b.last() == b[3]);
    assert(crate::numtext::digits_value(b0, 16) == 0);
    assert(crate::numtext::digits_value(b1, 16) == v0);
    assert(crate::numtext::digits_value(b2, 16) == 16 * v0 + v1);
    assert(crate::numtext::digits_value(b3, 16) == 16 * (16 * v0 + v1) + v2);
    assert(crate::numtext::digits_value(b, 16) == 16 * (16 * (16 * v0 + v1) + v2) + v3);
    assert(v0 < 16 && v1 < 16 && v2 < 16 && v3 < 16);
}

} // verus!
