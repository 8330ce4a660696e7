//! JSON output: string literals and the row arrays of the cross-check dumps.
use vstd::prelude::*;
use crate::text::{chars_of, string_of};

verus! {

/// Lowercase hex digit of `v` (0..16).
pub open spec fn hex_digit(v: int) -> char {
    if v < 10 {
        (48 + v) as char
    } else {
        (87 + v) as char
    }
}

/// The JSON escape of one character: `"`, `\`, newline, carriage return and
/// tab by their short escapes, other control characters as `\u00XX`.
pub open spec fn escape_char(c: char) -> Seq<char> {
    if c == '"' {
        seq!['\\', '"']
    } else if c == '\\' {
        seq!['\\', '\\']
    } else if c == '\n' {
        seq!['\\', 'n']
    } else if c == '\r' {
        seq!['\\', 'r']
    } else if c == '\t' {
        seq!['\\', 't']
    } else if (c as u32) < 0x20 {
        seq!['\\', 'u', '0', '0', hex_digit((c as u32) as int / 16), hex_digit((c as u32) as int % 16)]
    } else {
        seq![c]
    }
}

/// The JSON escape of every character of `s`, in order.
pub open spec fn escape_all(s: Seq<char>) -> Seq<char>
    decreases s.len(),
{
    if s.len() == 0 {
        Seq::empty()
    } else {
        escape_char(s[0]) + escape_all(s.drop_first())
    }
}

/// `s` as a quoted JSON string literal.
pub open spec fn json_string(s: Seq<char>) -> Seq<char> {
    seq!['"'] + escape_all(s) + seq!['"']
}

pub(crate) fn push_all(out: &mut Vec<char>, s: &[char])
    ensures
        final(out)@ == old(out)@ + s@,
{
    let mut i: usize = 0;
    while i < s.len()
        invariant
            i <= s.len(),
            out@ == old(out)@ + s@.subrange(0, i as int),
        decreases s.len() - i,
    {
        assert(s@.subrange(0, i + 1) =~= s@.subrange(0, i as int).push(s@[i as int]));
        out.push(s[i]);
        i = i + 1;
    }
    assert(s@.subrange(0, i as int) =~= s@);
}

fn hex_digit_of(v: u32) -> (c: char)
    requires
        v < 16,
    ensures
        c == hex_digit(v as int),
{
    let table = ['0', '1', '2', '3', '4', '5', '6', '7', '8', '9', 'a', 'b', 'c', 'd', 'e', 'f'];
    let c = table[v as usize];
    assert(c == hex_digit(v as int)) by {
        reveal_with_fuel(hex_digit, 1);
    }
    c
}

fn push_escaped(out: &mut Vec<char>, c: char)
    ensures
        final(out)@ == old(out)@ + escape_char(c),
{
    if c == '"' {
        push_all(out, &['\\', '"']);
    } else if c == '\\' {
        push_all(out, &['\\', '\\']);
    } else if c == '\n' {
        push_all(out, &['\\', 'n']);
    } else if c == '\r' {
        push_all(out, &['\\', 'r']);
    } else if c == '\t' {
        push_all(out, &['\\', 't']);
    } else if (c as u32) < 0x20 {
        let v = c as u32;
        let hi = hex_digit_of(v / 16);
        let lo = hex_digit_of(v % 16);
        push_all(out, &['\\', 'u', '0', '0', hi, lo]);
    } else {
        push_all(out, &[c]);
    }
}

fn push_json_string(out: &mut Vec<char>, s: &[char])
    ensures
        final(out)@ == old(out)@ + json_string(s@),
{
    out.push('"');
    let mut i: usize = 0;
    assert(s@.subrange(0, s@.len() as int) =~= s@);
    while i < s.len()
        invariant
            i <= s.len(),
            old(out)@.push('"') + escape_all(s@) == out@ + escape_all(
                s@.subrange(i as int, s@.len() as int),
            ),
        decreases s.len() - i,
    {
        proof {
            let rest = s@.subrange(i as int, s@.len() as int);
            assert(rest.drop_first() =~= s@.subrange(i + 1, s@.len() as int));
            assert(rest[0] == s@[i as int]);
        }
        let ghost before = out@;
        push_escaped(out, s[i]);
        assert(before + (escape_char(s@[i as int]) + escape_all(
            s@.subrange(i + 1, s@.len() as int),
        )) =~= out@ + escape_all(s@.subrange(i + 1, s@.len() as int)));
        i = i + 1;
    }
    assert(s@.subrange(i as int, s@.len() as int) =~= Seq::<char>::empty());
    out.push('"');
    assert(old(out)@ + json_string(s@) =~= old(out)@.push('"') + escape_all(s@) + seq!['"']);
}

/// Minimal JSON string escaper: `s` quoted, with `"`, `\` and control
/// characters escaped.
pub fn jstr(s: &str) -> (r: String)
    ensures
        r@ == json_string(s@),
{
    let cs = chars_of(s);
    let mut out: Vec<char> = Vec::new();
    push_json_string(&mut out, &cs);
    assert(out@ =~= json_string(s@));
    string_of(&out)
}

/// Value of a hex digit character (either case).
pub open spec fn hex_value(c: char) -> Option<int> {
    if '0' <= c <= '9' {
        Some(c as int - 48)
    } else if 'a' <= c <= 'f' {
        Some(c as int - 87)
    } else if 'A' <= c <= 'F' {
        Some(c as int - 55)
    } else {
        None
    }
}

/// The character that the four hex digits at `t[2..6]` of a `\u` escape name.
pub open spec fn unicode_escape(t: Seq<char>) -> Option<char> {
    if t.len() >= 6 {
        match (hex_value(t[2]), hex_value(t[3]), hex_value(t[4]), hex_value(t[5])) {
            (Some(a), Some(b), Some(c), Some(d)) => Some(
                (a * 4096 + b * 256 + c * 16 + d) as char,
            ),
            _ => None,
        }
    } else {
        None
    }
}

/// Decode the body of a JSON string literal: each escape becomes the
/// character it stands for; any other character stands for itself.
pub open spec fn json_unescape(t: Seq<char>) -> Seq<char>
    decreases t.len(),
{
    if t.len() == 0 {
        Seq::empty()
    } else if t[0] == '\\' && t.len() >= 2 && (t[1] == '"' || t[1] == '\\' || t[1] == '/') {
        seq![t[1]] + json_unescape(t.subrange(2, t.len() as int))
    } else if t[0] == '\\' && t.len() >= 2 && t[1] == 'n' {
        seq!['\n'] + json_unescape(t.subrange(2, t.len() as int))
    } else if t[0] == '\\' && t.len() >= 2 && t[1] == 'r' {
        seq!['\r'] + json_unescape(t.subrange(2, t.len() as int))
    } else if t[0] == '\\' && t.len() >= 2 && t[1] == 't' {
        seq!['\t'] + json_unescape(t.subrange(2, t.len() as int))
    } else if t[0] == '\\' && t.len() >= 2 && t[1] == 'u' && unicode_escape(t) is Some {
        seq![unicode_escape(t).unwrap()] + json_unescape(t.subrange(6, t.len() as int))
    } else {
        seq![t[0]] + json_unescape(t.drop_first())
    }
}

proof fn lemma_unescape_char(c: char, t: Seq<char>)
    ensures
        json_unescape(escape_char(c) + t) == seq![c] + json_unescape(t),
{
    let e = escape_char(c);
    let w = e + t;
    if c == '"' || c == '\\' || c == '\n' || c == '\r' || c == '\t' {
        assert(w.subrange(2, w.len() as int) =~= t);
    } else if (c as u32) < 0x20 {
        assert(w.subrange(6, w.len() as int) =~= t);
        let v = (c as u32) as int;
        assert(hex_value(w[4]) == Some(v / 16));
        assert(hex_value(w[5]) == Some(v % 16));
        assert(unicode_escape(w) == Some(c));
    } else {
        assert(w.drop_first() =~= t);
    }
}

/// Decoding the body of `jstr(s)` gives back `s`: the escaping loses nothing.
pub proof fn law_json_string_round_trip(s: Seq<char>)
    ensures
        json_unescape(json_string(s).subrange(1, json_string(s).len() - 1)) == s,
    decreases s.len(),
{
    assert(json_string(s).subrange(1, json_string(s).len() - 1) =~= escape_all(s));
    lemma_unescape_all(s);
}

proof fn lemma_unescape_all(s: Seq<char>)
    ensures
        json_unescape(escape_all(s)) == s,
    decreases s.len(),
{
    if s.len() > 0 {
        lemma_unescape_all(s.drop_first());
        lemma_unescape_char(s[0], escape_all(s.drop_first()));
        assert(seq![s[0]] + s.drop_first() =~= s);
    }
}

/// No character of an escaped string is a control character, so `jstr`
/// output is a valid JSON string literal.
pub proof fn law_json_string_has_no_controls(s: Seq<char>)
    ensures
        forall|i: int| 0 <= i < json_string(s).len() ==> (#[trigger] json_string(s)[i] as u32) >= 0x20,
    decreases s.len(),
{
    lemma_escape_all_no_controls(s);
    assert forall|i: int| 0 <= i < json_string(s).len() implies (#[trigger] json_string(s)[i] as u32)
        >= 0x20 by {
        if 0 < i < json_string(s).len() - 1 {
            assert(json_string(s)[i] == escape_all(s)[i - 1]);
        }
    }
}

proof fn lemma_escape_all_no_controls(s: Seq<char>)
    ensures
        forall|i: int| 0 <= i < escape_all(s).len() ==> (#[trigger] escape_all(s)[i] as u32) >= 0x20,
    decreases s.len(),
{
    if s.len() > 0 {
        lemma_escape_all_no_controls(s.drop_first());
        let e = escape_char(s[0]);
        let r = escape_all(s.drop_first());
        assert forall|i: int| 0 <= i < e.len() implies (#[trigger] e[i] as u32) >= 0x20 by {
            let c = s[0];
            if (c as u32) < 0x20 && c != '\n' && c != '\r' && c != '\t' {
                let v = (c as u32) as int;
                assert(0 <= v / 16 < 16 && 0 <= v % 16 < 16);
            }
        }
        assert forall|i: int| 0 <= i < escape_all(s).len() implies (#[trigger] escape_all(s)[i] as u32)
            >= 0x20 by {
            if i < e.len() {
                assert(escape_all(s)[i] == e[i]);
            } else {
                assert(escape_all(s)[i] == r[i - e.len()]);
            }
        }
    }
}

/// Decimal digits of `n`.
pub open spec fn decimal(n: nat) -> Seq<char>
    decreases n,
{
    if n < 10 {
        seq![(48 + n) as char]
    } else {
        decimal(n / 10).push((48 + n % 10) as char)
    }
}

pub(crate) fn push_decimal(out: &mut Vec<char>, n: u64)
    ensures
        final(out)@ == old(out)@ + decimal(n as nat),
    decreases n,
{
    let digits = ['0', '1', '2', '3', '4', '5', '6', '7', '8', '9'];
    if n >= 10 {
        push_decimal(out, n / 10);
    }
    let d = digits[(n % 10) as usize];
    assert(d == (48 + n % 10) as char);
    out.push(d);
    assert(final(out)@ =~= old(out)@ + decimal(n as nat)) by {
        if n >= 10 {
            assert(decimal(n as nat) == decimal((n / 10) as nat).push(d));
        }
    }
}

/// The items joined by commas.
pub open spec fn join_commas(items: Seq<Seq<char>>) -> Seq<char>
    decreases items.len(),
{
    if items.len() == 0 {
        Seq::empty()
    } else if items.len() == 1 {
        items[0]
    } else {
        join_commas(items.drop_last()) + seq![','] + items.last()
    }
}

/// A JSON array of already rendered items.
pub open spec fn json_array(items: Seq<Seq<char>>) -> Seq<char> {
    seq!['['] + join_commas(items) + seq![']']
}

/// `[key, count]` for an aggregate row.
pub open spec fn kv_row(item: (String, usize)) -> Seq<char> {
    seq!['['] + json_string(item.0@) + seq![','] + decimal(item.1 as nat) + seq![']']
}

/// `[a, b]` for a pair row.
pub open spec fn pair_row(item: (String, String)) -> Seq<char> {
    seq!['['] + json_string(item.0@) + seq![','] + json_string(item.1@) + seq![']']
}

proof fn lemma_join_step(items: Seq<Seq<char>>, i: int)
    requires
        0 <= i < items.len(),
    ensures
        join_commas(items.take(i + 1)) == if i == 0 {
            items[0]
        } else {
            join_commas(items.take(i)) + seq![','] + items[i]
        },
{
    assert(items.take(i + 1).drop_last() =~= items.take(i));
}

/// A query block: `{"kind":<kind>,"rows":<rows>}`.
pub fn block(kind: &str, rows: String) -> (r: String)
    ensures
        r@ == seq!['{', '"', 'k', 'i', 'n', 'd', '"', ':'] + json_string(kind@) + seq![
            ',',
            '"',
            'r',
            'o',
            'w',
            's',
            '"',
            ':',
        ] + rows@ + seq!['}'],
{
    let mut out: Vec<char> = Vec::new();
    push_all(&mut out, &['{', '"', 'k', 'i', 'n', 'd', '"', ':']);
    let k = chars_of(kind);
    push_json_string(&mut out, &k);
    push_all(&mut out, &[',', '"', 'r', 'o', 'w', 's', '"', ':']);
    let rs = chars_of(rows.as_str());
    push_all(&mut out, &rs);
    out.push('}');
    assert(out@ =~= seq!['{', '"', 'k', 'i', 'n', 'd', '"', ':'] + json_string(kind@) + seq![
        ',',
        '"',
        'r',
        'o',
        'w',
        's',
        '"',
        ':',
    ] + rows@ + seq!['}']);
    string_of(&out)
}

/// `[[label, count], ...]` for `(String, usize)` aggregate rows.
pub fn rows_kv(items: &[(String, usize)]) -> (r: String)
    ensures
        r@ == json_array(items@.map_values(|it: (String, usize)| kv_row(it))),
{
    let ghost rendered = items@.map_values(|it: (String, usize)| kv_row(it));
    let mut out: Vec<char> = Vec::new();
    out.push('[');
    let mut i: usize = 0;
    while i < items.len()
        invariant
            i <= items.len(),
            rendered == items@.map_values(|it: (String, usize)| kv_row(it)),
            out@ == seq!['['] + join_commas(rendered.take(i as int)),
        decreases items.len() - i,
    {
        proof {
            lemma_join_step(rendered, i as int);
        }
        let ghost before = out@;
        if i > 0 {
            out.push(',');
        }
        out.push('[');
        let k = chars_of(items[i].0.as_str());
        push_json_string(&mut out, &k);
        out.push(',');
        push_decimal(&mut out, items[i].1 as u64);
        out.push(']');
        assert(rendered[i as int] == kv_row(items@[i as int]));
        if i > 0 {
            assert(out@ =~= before + seq![','] + rendered[i as int]);
        } else {
            assert(out@ =~= before + rendered[i as int]);
        }
        i = i + 1;
    }
    assert(rendered.take(i as int) =~= rendered);
    out.push(']');
    string_of(&out)
}

/// A JSON array of strings.
pub fn strs(items: &[String]) -> (r: String)
    ensures
        r@ == json_array(items@.map_values(|it: String| json_string(it@))),
{
    let ghost rendered = items@.map_values(|it: String| json_string(it@));
    let mut out: Vec<char> = Vec::new();
    out.push('[');
    let mut i: usize = 0;
    while i < items.len()
        invariant
            i <= items.len(),
            rendered == items@.map_values(|it: String| json_string(it@)),
            out@ == seq!['['] + join_commas(rendered.take(i as int)),
        decreases items.len() - i,
    {
        proof {
            lemma_join_step(rendered, i as int);
        }
        let ghost before = out@;
        if i > 0 {
            out.push(',');
        }
        let k = chars_of(items[i].as_str());
        push_json_string(&mut out, &k);
        assert(rendered[i as int] == json_string(items@[i as int]@));
        if i > 0 {
            assert(out@ =~= before + seq![','] + rendered[i as int]);
        } else {
            assert(out@ =~= before + rendered[i as int]);
        }
        i = i + 1;
    }
    assert(rendered.take(i as int) =~= rendered);
    out.push(']');
    string_of(&out)
}

/// `[[a, b], ...]` for `(String, String)` pair rows.
pub fn rows_pairs(items: &[(String, String)]) -> (r: String)
    ensures
        r@ == json_array(items@.map_values(|it: (String, String)| pair_row(it))),
{
    let ghost rendered = items@.map_values(|it: (String, String)| pair_row(it));
    let mut out: Vec<char> = Vec::new();
    out.push('[');
    let mut i: usize = 0;
    while i < items.len()
        invariant
            i <= items.len(),
            rendered == items@.map_values(|it: (String, String)| pair_row(it)),
            out@ == seq!['['] + join_commas(rendered.take(i as int)),
        decreases items.len() - i,
    {
        proof {
            lemma_join_step(rendered, i as int);
        }
        let ghost before = out@;
        if i > 0 {
            out.push(',');
        }
        out.push('[');
        let a = chars_of(items[i].0.as_str());
        push_json_string(&mut out, &a);
        out.push(',');
        let b = chars_of(items[i].1.as_str());
        push_json_string(&mut out, &b);
        out.push(']');
        assert(rendered[i as int] == pair_row(items@[i as int]));
        if i > 0 {
            assert(out@ =~= before + seq![','] + rendered[i as int]);
        } else {
            assert(out@ =~= before + rendered[i as int]);
        }
        i = i + 1;
    }
    assert(rendered.take(i as int) =~= rendered);
    out.push(']');
    string_of(&out)
}

/// `t` is a well-formed JSON string body: each `\\` starts a valid escape
/// (a short one or `\\u` with four hex digits), and no other character is
/// a quote or a control character.
pub open spec fn json_body(t: Seq<char>) -> bool
    decreases t.len(),
{
    if t.len() == 0 {
        true
    } else if t[0] == '\\' {
        if t.len() >= 2 && (t[1] == '"' || t[1] == '\\' || t[1] == '/' || t[1] == 'n' || t[1] == 'r' || t[1] == 't') {
            json_body(t.subrange(2, t.len() as int))
        } else if t.len() >= 2 && t[1] == 'u' && unicode_escape(t) is Some {
            json_body(t.subrange(6, t.len() as int))
        } else {
            false
        }
    } else {
        t[0] != '"' && (t[0] as u32) >= 0x20 && json_body(t.drop_first())
    }
}

proof fn lemma_body_char(c: char, t: Seq<char>)
    requires
        json_body(t),
    ensures
        json_body(escape_char(c) + t),
{
    let e = escape_char(c);
    let w = e + t;
    if c == '"' || c == '\\' || c == '\n' || c == '\r' || c == '\t' {
        assert(w.subrange(2, w.len() as int) =~= t);
    } else if (c as u32) < 0x20 {
        assert(w.subrange(6, w.len() as int) =~= t);
        let v = (c as u32) as int;
        assert(hex_value(w[2]) == Some(0int));
        assert(hex_value(w[3]) == Some(0int));
        assert(hex_value(w[4]) == Some(v / 16));
        assert(hex_value(w[5]) == Some(v % 16));
    } else {
        assert(w.drop_first() =~= t);
    }
}

proof fn lemma_body_all(s: Seq<char>)
    ensures
        json_body(escape_all(s)),
    decreases s.len(),
{
    if s.len() > 0 {
        lemma_body_all(s.drop_first());
        lemma_body_char(s[0], escape_all(s.drop_first()));
    }
}

/// `jstr(s)` is one well-formed JSON string literal: a quote, a body in
/// which every quote, backslash and control character is escaped, and a
/// closing quote.
pub proof fn law_json_string_well_formed(s: Seq<char>)
    ensures
        json_string(s).len() >= 2,
        json_string(s)[0] == '"',
        json_string(s)[json_string(s).len() - 1] == '"',
        json_body(json_string(s).subrange(1, json_string(s).len() - 1)),
{
    assert(json_string(s).subrange(1, json_string(s).len() - 1) =~= escape_all(s));
    lemma_body_all(s);
}

/// Text without quotes, backslashes or control characters is only wrapped in
/// quotes.
pub proof fn law_json_string_plain(s: Seq<char>)
    requires
        forall|i: int| 0 <= i < s.len() ==> #[trigger] s[i] != '"' && s[i] != '\\' && (s[i] as u32) >= 0x20,
    ensures
        json_string(s) == seq!['"'] + s + seq!['"'],
    decreases s.len(),
{
    lemma_plain_all(s);
}

proof fn lemma_plain_all(s: Seq<char>)
    requires
        forall|i: int| 0 <= i < s.len() ==> #[trigger] s[i] != '"' && s[i] != '\\' && (s[i] as u32) >= 0x20,
    ensures
        escape_all(s) == s,
    decreases s.len(),
{
    if s.len() > 0 {
        assert forall|i: int| 0 <= i < s.drop_first().len() implies #[trigger] s.drop_first()[i] != '"'
            && s.drop_first()[i] != '\\' && (s.drop_first()[i] as u32) >= 0x20 by {
            assert(s.drop_first()[i] == s[i + 1]);
        }
        lemma_plain_all(s.drop_first());
        assert(s[0] != '"' && s[0] != '\\' && (s[0] as u32) >= 0x20);
        assert(seq![s[0]] + s.drop_first() =~= s);
    }
}

} // verus!
