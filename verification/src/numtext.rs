//! Integer literals in text: the decimal and hexadecimal forms that Rust's
//! `str::parse` / `from_str_radix` accept for `i64`, `u32` and `u64`.
//!
//! A literal is an optional sign followed by at least one digit. `+` is always
//! allowed; `-` only for signed targets. The value must fit the target type.
use vstd::prelude::*;
use crate::text::string_of;

verus! {

/// Value of an ASCII digit in `radix` (10 or 16; hex digits in either case).
pub open spec fn digit_value(c: u8, radix: nat) -> Option<nat> {
    if 48 <= c <= 57 && (c - 48) < radix {
        Some((c - 48) as nat)
    } else if radix == 16 && 97 <= c <= 102 {
        Some((c - 87) as nat)
    } else if radix == 16 && 65 <= c <= 70 {
        Some((c - 55) as nat)
    } else {
        None
    }
}

/// Every byte of `b` is a digit in `radix`.
pub open spec fn all_digits(b: Seq<u8>, radix: nat) -> bool {
    forall|i: int| 0 <= i < b.len() ==> (#[trigger] digit_value(b[i], radix)) is Some
}

/// The number that the digit string `b` denotes in `radix` (most significant first).
pub open spec fn digits_value(b: Seq<u8>, radix: nat) -> nat
    decreases b.len(),
{
    if b.len() == 0 {
        0
    } else {
        radix * digits_value(b.drop_last(), radix) + match digit_value(b.last(), radix) {
            Some(d) => d,
            None => 0,
        }
    }
}

/// Split a literal into (is_negative, digits), or `None` when it has no digits
/// after the sign, or a `-` sign where `signed` is false.
pub open spec fn split_sign(b: Seq<u8>, signed: bool) -> Option<(bool, Seq<u8>)> {
    if b.len() == 0 {
        None
    } else if (b[0] == 43u8 || b[0] == 45u8) && b.len() == 1 {
        None
    } else if b[0] == 43u8 {
        Some((false, b.drop_first()))
    } else if b[0] == 45u8 && signed {
        Some((true, b.drop_first()))
    } else {
        Some((false, b))
    }
}

/// The integer that `b` denotes as a literal in `radix`, before any range check.
pub open spec fn literal_value(b: Seq<u8>, radix: nat, signed: bool) -> Option<int> {
    match split_sign(b, signed) {
        None => None,
        Some((neg, ds)) => if all_digits(ds, radix) {
            if neg {
                Some(-(digits_value(ds, radix) as int))
            } else {
                Some(digits_value(ds, radix) as int)
            }
        } else {
            None
        },
    }
}

/// What `str::parse::<i64>` gives for the bytes `b`.
pub open spec fn spec_parse_i64(b: Seq<u8>) -> Option<i64> {
    match literal_value(b, 10, true) {
        Some(v) => if i64::MIN <= v <= i64::MAX {
            Some(v as i64)
        } else {
            None
        },
        None => None,
    }
}

/// What `str::parse::<u32>` gives for the bytes `b`.
pub open spec fn spec_parse_u32(b: Seq<u8>) -> Option<u32> {
    match literal_value(b, 10, false) {
        Some(v) => if v <= u32::MAX {
            Some(v as u32)
        } else {
            None
        },
        None => None,
    }
}

/// What `u32::from_str_radix(_, 16)` gives for the bytes `b`.
pub open spec fn spec_parse_hex_u32(b: Seq<u8>) -> Option<u32> {
    match literal_value(b, 16, false) {
        Some(v) => if v <= u32::MAX {
            Some(v as u32)
        } else {
            None
        },
        None => None,
    }
}

/// A character in the ASCII range.
pub open spec fn is_ascii_char(c: char) -> bool {
    (c as u32) < 128
}

/// The byte of an ASCII character.
pub open spec fn ascii_byte(c: char) -> u8 {
    (c as u32) as u8
}

/// The ASCII bytes of a character sequence whose characters are all ASCII,
/// `None` otherwise. Literals are ASCII, so a parse of characters goes through it.
pub open spec fn ascii_bytes(s: Seq<char>) -> Option<Seq<u8>> {
    if forall|i: int| 0 <= i < s.len() ==> #[trigger] is_ascii_char(s[i]) {
        Some(Seq::new(s.len(), |i: int| ascii_byte(s[i])))
    } else {
        None
    }
}

proof fn lemma_digits_value_prefix(b: Seq<u8>, radix: nat, i: int)
    requires
        0 <= i <= b.len(),
        radix >= 1,
    ensures
        digits_value(b.take(i), radix) <= digits_value(b, radix),
    decreases b.len() - i,
{
    if i < b.len() {
        lemma_digits_value_prefix(b, radix, i + 1);
        assert(b.take(i + 1).drop_last() =~= b.take(i));
        let v = digits_value(b.take(i), radix);
        assert(v <= radix * v) by (nonlinear_arith)
            requires radix >= 1;
    } else {
        assert(b.take(i) =~= b);
    }
}

/// Decimal value of the digit string `ds`, or `None` when a byte is not a digit
/// or the value exceeds `bound`.
fn digits_up_to(ds: &[u8], radix: u64, bound: u64) -> (r: Option<u64>)
    requires
        radix == 10 || radix == 16,
    ensures
        match r {
            Some(v) => all_digits(ds@, radix as nat) && v == digits_value(ds@, radix as nat)
                && v <= bound,
            None => !all_digits(ds@, radix as nat) || digits_value(ds@, radix as nat) > bound,
        },
{
    let mut acc: u64 = 0;
    let mut i: usize = 0;
    while i < ds.len()
        invariant
            radix == 10 || radix == 16,
            i <= ds.len(),
            all_digits(ds@.take(i as int), radix as nat),
            acc == digits_value(ds@.take(i as int), radix as nat),
            acc <= bound,
        decreases ds.len() - i,
    {
        let c = ds[i];
        let d: u64 = if 48 <= c && c <= 57 && ((c - 48) as u64) < radix {
            (c - 48) as u64
        } else if radix == 16 && 97 <= c && c <= 102 {
            (c - 87) as u64
        } else if radix == 16 && 65 <= c && c <= 70 {
            (c - 55) as u64
        } else {
            assert(ds@[i as int] == c);
            return None;
        };
        proof {
            assert(ds@.take(i + 1).drop_last() =~= ds@.take(i as int));
            assert(ds@.take(i + 1).last() == c);
            assert forall|j: int| 0 <= j < i + 1 implies (#[trigger] digit_value(
                ds@.take(i + 1)[j],
                radix as nat,
            )) is Some by {
                if j < i {
                    assert(ds@.take(i + 1)[j] == ds@.take(i as int)[j]);
                }
            }
        }
        assert((radix as u128) * (acc as u128) <= 18446744073709551615u128 * 16) by (nonlinear_arith)
            requires acc <= 18446744073709551615u64, radix <= 16;
        let next: u128 = (radix as u128) * (acc as u128) + (d as u128);
        assert(digit_value(c, radix as nat) == Some(d as nat));
        assert(next == digits_value(ds@.take(i + 1), radix as nat));
        if next > bound as u128 {
            proof {
                lemma_digits_value_prefix(ds@, radix as nat, i + 1);
                if !all_digits(ds@, radix as nat) {
                } else {
                }
            }
            return None;
        }
        acc = next as u64;
        i = i + 1;
    }
    assert(ds@.take(i as int) =~= ds@);
    Some(acc)
}

/// `str::parse::<i64>` on the bytes `b`.
pub fn parse_i64(b: &[u8]) -> (r: Option<i64>)
    ensures
        r == spec_parse_i64(b@),
{
    if b.len() == 0 {
        return None;
    }
    if (b[0] == 43 || b[0] == 45) && b.len() == 1 {
        return None;
    }
    let neg = b[0] == 45;
    let start: usize = if b[0] == 43 || b[0] == 45 { 1 } else { 0 };
    let ds = slice_from(b, start);
    proof {
        if start == 1 {
            assert(ds@ =~= b@.drop_first());
        } else {
            assert(ds@ =~= b@);
        }
    }
    let bound: u64 = if neg { 9223372036854775808u64 } else { 9223372036854775807u64 };
    match digits_up_to(ds, 10, bound) {
        Some(v) => {
            if neg {
                if v == 9223372036854775808u64 {
                    Some(i64::MIN)
                } else {
                    Some(-(v as i64))
                }
            } else {
                Some(v as i64)
            }
        },
        None => None,
    }
}

/// `str::parse::<u32>` (radix 10) or `u32::from_str_radix(_, 16)` on the bytes `b`.
pub fn parse_u32_radix(b: &[u8], radix: u64) -> (r: Option<u32>)
    requires
        radix == 10 || radix == 16,
    ensures
        radix == 10 ==> r == spec_parse_u32(b@),
        radix == 16 ==> r == spec_parse_hex_u32(b@),
{
    if b.len() == 0 {
        return None;
    }
    if (b[0] == 43 || b[0] == 45) && b.len() == 1 {
        return None;
    }
    let start: usize = if b[0] == 43 { 1 } else { 0 };
    let ds = slice_from(b, start);
    proof {
        if start == 1 {
            assert(ds@ =~= b@.drop_first());
        } else {
            assert(ds@ =~= b@);
        }
    }
    match digits_up_to(ds, radix, 4294967295u64) {
        Some(v) => Some(v as u32),
        None => None,
    }
}

/// The bytes of `b` from `start` on.
pub fn slice_from(b: &[u8], start: usize) -> (r: &[u8])
    requires
        start <= b.len(),
    ensures
        r@ == b@.subrange(start as int, b@.len() as int),
{
    &b[start..b.len()]
}

/// What `str::parse::<u32>` gives for the characters `t`.
pub open spec fn text_u32(t: Seq<char>) -> Option<u32> {
    match ascii_bytes(t) {
        Some(b) => spec_parse_u32(b),
        None => None,
    }
}

/// What `str::parse::<i64>` gives for the characters `t`.
pub open spec fn text_i64(t: Seq<char>) -> Option<i64> {
    match ascii_bytes(t) {
        Some(b) => spec_parse_i64(b),
        None => None,
    }
}

/// The ASCII bytes of `t`, or `None` when it holds a non-ASCII character.
pub fn ascii_of(t: &[char]) -> (r: Option<Vec<u8>>)
    ensures
        match r {
            Some(b) => ascii_bytes(t@) == Some(b@),
            None => ascii_bytes(t@) is None,
        },
{
    let mut b: Vec<u8> = Vec::new();
    let mut k: usize = 0;
    while k < t.len()
        invariant
            k <= t@.len(),
            b@.len() == k,
            forall|j: int| 0 <= j < k ==> is_ascii_char(#[trigger] t@[j]) && b@[j] == ascii_byte(t@[j]),
        decreases t@.len() - k,
    {
        let c = t[k];
        if (c as u32) >= 128 {
            proof {
                assert(!is_ascii_char(t@[k as int]));
            }
            return None;
        }
        b.push((c as u32) as u8);
        k = k + 1;
    }
    proof {
        assert(b@ =~= Seq::new(t@.len(), |i: int| ascii_byte(t@[i])));
    }
    Some(b)
}

/// `str::parse::<u32>` on the characters `t`.
pub fn parse_u32_text(t: &[char]) -> (r: Option<u32>)
    ensures
        r == text_u32(t@),
{
    match ascii_of(t) {
        Some(b) => parse_u32_radix(b.as_slice(), 10),
        None => None,
    }
}

/// `str::parse::<i64>` on the characters `t`.
pub fn parse_i64_text(t: &[char]) -> (r: Option<i64>)
    ensures
        r == text_i64(t@),
{
    match ascii_of(t) {
        Some(b) => parse_i64(b.as_slice()),
        None => None,
    }
}

/// The character of a decimal digit.
pub open spec fn digit_char(d: nat) -> char {
    if d == 0 { '0' } else if d == 1 { '1' } else if d == 2 { '2' } else if d == 3 { '3' } else if d == 4 { '4' }
    else if d == 5 { '5' } else if d == 6 { '6' } else if d == 7 { '7' } else if d == 8 { '8' } else { '9' }
}

/// The decimal digits of `n`, most significant first, without leading zeros.
pub open spec fn nat_digits(n: nat) -> Seq<char>
    decreases n,
{
    if n < 10 {
        seq![digit_char(n)]
    } else {
        nat_digits(n / 10).push(digit_char(n % 10))
    }
}

/// The decimal text of `v`, with a `-` before a negative number.
pub open spec fn dec_text(v: int) -> Seq<char> {
    if v < 0 {
        seq!['-'] + nat_digits((-v) as nat)
    } else {
        nat_digits(v as nat)
    }
}

proof fn lemma_nat_digits_bytes(n: nat)
    ensures
        nat_digits(n).len() >= 1,
        ascii_bytes(nat_digits(n)) is Some,
        all_digits(ascii_bytes(nat_digits(n)).unwrap(), 10),
        digits_value(ascii_bytes(nat_digits(n)).unwrap(), 10) == n,
        ascii_bytes(nat_digits(n)).unwrap()[0] != 43u8,
        ascii_bytes(nat_digits(n)).unwrap()[0] != 45u8,
    decreases n,
{
    let t = nat_digits(n);
    if n < 10 {
        assert(is_ascii_char(t[0]));
        let b = ascii_bytes(t).unwrap();
        assert(b.drop_last() =~= Seq::<u8>::empty());
        assert(digit_value(b[0], 10) == Some(n));
        assert(b.last() == b[0]);
        assert(digits_value(b.drop_last(), 10) == 0);
        assert(digits_value(b, 10) == 10 * digits_value(b.drop_last(), 10) + n);
    } else {
        lemma_nat_digits_bytes(n / 10);
        let p = nat_digits(n / 10);
        let pb = ascii_bytes(p).unwrap();
        assert forall|i: int| 0 <= i < t.len() implies #[trigger] is_ascii_char(t[i]) by {
            if i < p.len() {
                assert(t[i] == p[i]);
            }
        }
        let b = ascii_bytes(t).unwrap();
        assert(b.drop_last() =~= pb);
        assert(digit_value(b.last(), 10) == Some(n % 10));
        assert(digits_value(b, 10) == 10 * digits_value(pb, 10) + n % 10);
        assert(n == 10 * (n / 10) + n % 10) by (nonlinear_arith);
        assert forall|i: int| 0 <= i < b.len() implies (#[trigger] digit_value(b[i], 10)) is Some by {
            if i < pb.len() {
                assert(b[i] == pb[i]);
            }
        }
        assert(b[0] == pb[0]);
    }
}

/// The decimal text of an integer reads back as that integer.
pub proof fn lemma_dec_text_reads(v: i64)
    ensures
        text_i64(dec_text(v as int)) == Some(v),
{
    if v < 0 {
        let n = (-(v as int)) as nat;
        lemma_nat_digits_bytes(n);
        let d = nat_digits(n);
        let t = dec_text(v as int);
        assert(t == seq!['-'] + d);
        assert forall|i: int| 0 <= i < t.len() implies #[trigger] is_ascii_char(t[i]) by {
            if i > 0 {
                assert(t[i] == d[i - 1]);
            }
        }
        let b = ascii_bytes(t).unwrap();
        assert(b.drop_first() =~= ascii_bytes(d).unwrap());
        assert(b[0] == 45u8);
    } else {
        lemma_nat_digits_bytes(v as nat);
    }
}

fn nat_text(n: u64) -> (r: Vec<char>)
    ensures
        r@ == nat_digits(n as nat),
    decreases n,
{
    let d = n % 10;
    let c = if d == 0 { '0' } else if d == 1 { '1' } else if d == 2 { '2' } else if d == 3 { '3' } else if d == 4 { '4' }
    else if d == 5 { '5' } else if d == 6 { '6' } else if d == 7 { '7' } else if d == 8 { '8' } else { '9' };
    if n < 10 {
        let mut r: Vec<char> = Vec::new();
        r.push(c);
        proof {
            assert(r@ =~= nat_digits(n as nat));
        }
        r
    } else {
        let mut r = nat_text(n / 10);
        r.push(c);
        r
    }
}

/// The decimal text of `v`.
pub fn int_text(v: i64) -> (r: String)
    ensures
        r@ == dec_text(v as int),
        text_i64(r@) == Some(v),
{
    let cs = if v < 0 {
        let mag: u64 = if v == i64::MIN {
            9_223_372_036_854_775_808u64
        } else {
            (-v) as u64
        };
        let ds = nat_text(mag);
        let mut out: Vec<char> = Vec::new();
        out.push('-');
        let mut k: usize = 0;
        while k < ds.len()
            invariant
                k <= ds@.len(),
                out@ == seq!['-'] + ds@.take(k as int),
            decreases ds.len() - k,
        {
            out.push(ds[k]);
            proof {
                assert(ds@.take(k + 1) =~= ds@.take(k as int).push(ds@[k as int]));
            }
            k = k + 1;
        }
        proof {
            assert(ds@.take(k as int) =~= ds@);
        }
        out
    } else {
        nat_text(v as u64)
    };
    proof {
        lemma_dec_text_reads(v);
    }
    string_of(cs.as_slice())
}

} // verus!
