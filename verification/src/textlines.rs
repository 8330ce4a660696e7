//! Lines and words of a text, as `str::lines` and `str::split_whitespace`
//! give them: lines end at `'\n'` (a `'\r'` right before it is dropped, and a
//! final line ending adds no empty line); words are the maximal runs of
//! non-white-space characters.
use vstd::prelude::*;
use crate::ntriples::{find_char, find_from, is_white_space};

verus! {

/// The line starting at `i`: up to the next `'\n'` (exclusive), without a
/// `'\r'` right before that `'\n'`; the rest of `s` when no `'\n'` follows.
pub open spec fn line_text(s: Seq<char>, i: int) -> Seq<char> {
    match find_from(s, i, '\n') {
        Some(e) => if e > i && s[e - 1] == '\r' {
            s.subrange(i, e - 1)
        } else {
            s.subrange(i, e)
        },
        None => s.subrange(i, s.len() as int),
    }
}

/// The lines of `s` from index `i` on.
pub open spec fn lines_from(s: Seq<char>, i: int) -> Seq<Seq<char>>
    decreases s.len() - i,
{
    if 0 <= i < s.len() {
        match find_from(s, i, '\n') {
            Some(e) => if i <= e < s.len() {
                seq![line_text(s, i)] + lines_from(s, e + 1)
            } else {
                Seq::empty()
            },
            None => seq![line_text(s, i)],
        }
    } else {
        Seq::empty()
    }
}

/// The lines of `s`, as `str::lines` yields them.
pub open spec fn text_lines(s: Seq<char>) -> Seq<Seq<char>> {
    lines_from(s, 0)
}

/// End of the word that starts at `i`: the first white-space character at or
/// after `i`, or the end of `s`.
pub open spec fn word_end(s: Seq<char>, i: int) -> int
    decreases s.len() - i,
{
    if 0 <= i < s.len() && !is_white_space(s[i]) {
        word_end(s, i + 1)
    } else {
        i
    }
}

/// The words of `s` from index `i` on.
pub open spec fn words_from(s: Seq<char>, i: int) -> Seq<Seq<char>>
    decreases s.len() - i,
{
    if 0 <= i < s.len() {
        if is_white_space(s[i]) {
            words_from(s, i + 1)
        } else {
            let e = word_end(s, i);
            if i < e <= s.len() {
                seq![s.subrange(i, e)] + words_from(s, e)
            } else {
                Seq::empty()
            }
        }
    } else {
        Seq::empty()
    }
}

/// The words of `s`, as `str::split_whitespace` yields them.
pub open spec fn text_words(s: Seq<char>) -> Seq<Seq<char>> {
    words_from(s, 0)
}

/// The character vectors of `v`, as sequences.
pub open spec fn char_rows(v: Seq<Vec<char>>) -> Seq<Seq<char>> {
    v.map_values(|l: Vec<char>| l@)
}

proof fn lemma_word_end(s: Seq<char>, i: int)
    requires
        0 <= i <= s.len(),
    ensures
        i <= word_end(s, i) <= s.len(),
        i < s.len() && !is_white_space(s[i]) ==> word_end(s, i) > i,
        word_end(s, i) < s.len() ==> is_white_space(s[word_end(s, i)]),
        forall|k: int| i <= k < word_end(s, i) ==> !is_white_space(#[trigger] s[k]),
    decreases s.len() - i,
{
    if i < s.len() && !is_white_space(s[i]) {
        lemma_word_end(s, i + 1);
    }
}

/// The characters `s[i..j]` as a vector.
pub fn chars_between(s: &[char], i: usize, j: usize) -> (r: Vec<char>)
    requires
        i <= j <= s@.len(),
    ensures
        r@ == s@.subrange(i as int, j as int),
{
    let mut r: Vec<char> = Vec::new();
    let mut k: usize = i;
    while k < j
        invariant
            i <= k <= j <= s@.len(),
            r@ == s@.subrange(i as int, k as int),
        decreases j - k,
    {
        r.push(s[k]);
        k = k + 1;
        proof {
            assert(r@ =~= s@.subrange(i as int, k as int));
        }
    }
    r
}

/// The lines of `s`, as `str::lines` yields them.
pub fn split_lines(s: &[char]) -> (r: Vec<Vec<char>>)
    ensures
        char_rows(r@) == text_lines(s@),
{
    let mut out: Vec<Vec<char>> = Vec::new();
    let mut i: usize = 0;
    while i < s.len()
        invariant
            i <= s@.len(),
            text_lines(s@) == char_rows(out@) + lines_from(s@, i as int),
        decreases s@.len() - i,
    {
        let ghost before = out@;
        match find_char(s, i, '\n') {
            Some(e) => {
                let end = if e > i && s[e - 1] == '\r' { e - 1 } else { e };
                out.push(chars_between(s, i, end));
                proof {
                    assert(char_rows(out@) =~= char_rows(before).push(line_text(s@, i as int)));
                    assert(char_rows(before) + lines_from(s@, i as int) =~= char_rows(before).push(
                        line_text(s@, i as int),
                    ) + lines_from(s@, e + 1));
                }
                i = e + 1;
            },
            None => {
                out.push(chars_between(s, i, s.len()));
                proof {
                    assert(char_rows(out@) =~= char_rows(before).push(line_text(s@, i as int)));
                    assert(lines_from(s@, s@.len() as int) =~= Seq::<Seq<char>>::empty());
                    assert(char_rows(before) + lines_from(s@, i as int) =~= char_rows(out@) + lines_from(
                        s@,
                        s@.len() as int,
                    ));
                }
                i = s.len();
            },
        }
    }
    proof {
        assert(char_rows(out@) + lines_from(s@, i as int) =~= char_rows(out@));
    }
    out
}

/// The words of `s`, as `str::split_whitespace` yields them.
pub fn split_words(s: &[char]) -> (r: Vec<Vec<char>>)
    ensures
        char_rows(r@) == text_words(s@),
{
    let mut out: Vec<Vec<char>> = Vec::new();
    let mut i: usize = 0;
    while i < s.len()
        invariant
            i <= s@.len(),
            text_words(s@) == char_rows(out@) + words_from(s@, i as int),
        decreases s@.len() - i,
    {
        if crate::ntriples::white_space(s[i]) {
            i = i + 1;
        } else {
            proof {
                lemma_word_end(s@, i as int);
            }
            let mut e: usize = i + 1;
            while e < s.len() && !crate::ntriples::white_space(s[e])
                invariant
                    i < e <= s@.len(),
                    word_end(s@, e as int) == word_end(s@, i as int),
                decreases s@.len() - e,
            {
                e = e + 1;
            }
            let ghost before = out@;
            out.push(chars_between(s, i, e));
            proof {
                assert(char_rows(out@) =~= char_rows(before).push(s@.subrange(i as int, e as int)));
                assert(char_rows(before) + words_from(s@, i as int) =~= char_rows(out@) + words_from(
                    s@,
                    e as int,
                ));
            }
            i = e;
        }
    }
    proof {
        assert(char_rows(out@) + words_from(s@, i as int) =~= char_rows(out@));
    }
    out
}

} // verus!
