//! Byte-level text helpers: UTF-8 validity, decimal numbers, ASCII case.

use vstd::prelude::*;
use vstd::utf8::{valid_utf8, is_char_boundary};
use vstd::string::StringSliceAdditionalSpecFns;

verus! {

/// `std::str::from_utf8`. Trusted: the standard library accepts exactly
/// the byte sequences that are UTF-8 encodings of Unicode scalar values
/// (what `valid_utf8` states), and the `str` it returns is those bytes.
#[verifier::external_body]
fn str_from_utf8(b: &[u8]) -> (r: Option<&str>)
    ensures
        r is Some <==> valid_utf8(b@),
        r matches Some(s) ==> s.spec_bytes() == b@,
{
    std::str::from_utf8(b).ok()
}

/// Whether `b` is valid UTF-8.
pub fn is_valid_utf8(b: &[u8]) -> (r: bool)
    ensures
        r == valid_utf8(b@),
{
    str_from_utf8(b).is_some()
}

/// Whether `index` falls on a character boundary of the UTF-8 bytes `b`.
pub fn is_char_boundary_bytes(b: &[u8], index: usize) -> (r: bool)
    requires
        valid_utf8(b@),
    ensures
        r == is_char_boundary(b@, index as int),
{
    match str_from_utf8(b) {
        Some(s) => s.is_char_boundary(index),
        None => false,
    }
}

pub open spec fn is_digit(c: u8) -> bool {
    0x30 <= c <= 0x39
}

/// Every byte is an ASCII digit.
pub open spec fn all_digits(s: Seq<u8>) -> bool {
    forall|i: int| 0 <= i < s.len() ==> is_digit(#[trigger] s[i])
}

/// The value of a string of ASCII digits, most significant first.
pub open spec fn digits_value(s: Seq<u8>) -> nat
    decreases s.len(),
{
    if s.len() == 0 {
        0
    } else {
        digits_value(s.drop_last()) * 10 + (s.last() - 0x30) as nat
    }
}

/// What `str::parse::<u64>` accepts: an optional `+`, then one or more
/// ASCII digits whose value fits in 64 bits.
pub open spec fn spec_parse_u64(s: Seq<u8>) -> Option<u64> {
    let d = if s.len() > 0 && s[0] == 0x2B {
        s.skip(1)
    } else {
        s
    };
    if d.len() > 0 && all_digits(d) && digits_value(d) <= u64::MAX {
        Some(digits_value(d) as u64)
    } else {
        None
    }
}

/// The decimal digits of `n`, without leading zeros (`"0"` for zero), as
/// `u64::to_string` writes them.
pub open spec fn decimal(n: nat) -> Seq<u8>
    decreases n,
{
    if n < 10 {
        seq![(n + 0x30) as u8]
    } else {
        decimal(n / 10).push(((n % 10) + 0x30) as u8)
    }
}

proof fn lemma_digits_value_prefix(s: Seq<u8>, i: int)
    requires
        0 <= i < s.len(),
    ensures
        s.take(i + 1).drop_last() == s.take(i),
        s.take(i + 1).last() == s[i],
{
    assert(s.take(i + 1).drop_last() =~= s.take(i));
}

/// Parses a decimal `u64` as `str::parse::<u64>` does: an optional `+`,
/// then digits; `None` for anything else or a value past `u64::MAX`.
pub fn parse_u64(s: &[u8]) -> (r: Option<u64>)
    ensures
        r == spec_parse_u64(s@),
{
    let start: usize = if s.len() > 0 && s[0] == 0x2B {
        1
    } else {
        0
    };
    let ghost d = if s@.len() > 0 && s@[0] == 0x2B {
        s@.skip(1)
    } else {
        s@
    };
    assert(d =~= s@.skip(start as int));
    if start == s.len() {
        return None;
    }
    let mut v: u64 = 0;
    let mut i: usize = start;
    while i < s.len()
        invariant
            start <= i <= s.len(),
            d == s@.skip(start as int),
            d == (if s@.len() > 0 && s@[0] == 0x2B {
                s@.skip(1)
            } else {
                s@
            }),
            v == digits_value(d.take(i - start)),
            all_digits(d.take(i - start)),
        decreases s.len() - i,
    {
        let c = s[i];
        let ghost k = i - start;
        proof {
            lemma_digits_value_prefix(d, k);
        }
        assert(d[k] == c);
        if !(0x30 <= c && c <= 0x39) {
            assert(!all_digits(d)) by {
                assert(!is_digit(d[k]));
            }
            return None;
        }
        let dv: u64 = (c - 0x30) as u64;
        if v > (u64::MAX - dv) / 10 {
            proof {
                assert(digits_value(d.take(k + 1)) == v * 10 + dv);
                assert(v * 10 + dv > u64::MAX) by (nonlinear_arith)
                    requires
                        v > (u64::MAX - dv) / 10,
                        dv <= 9,
                ;
                if all_digits(d) {
                    lemma_digits_value_mono(d, k + 1);
                }
            }
            return None;
        }
        assert(v * 10 + dv <= u64::MAX) by (nonlinear_arith)
            requires
                v <= (u64::MAX - dv) / 10,
                dv <= 9,
        ;
        v = v * 10 + dv;
        i = i + 1;
        assert(all_digits(d.take(i - start))) by {
            assert forall|j: int| 0 <= j < d.take(i - start).len() implies is_digit(
                #[trigger] d.take(i - start)[j],
            ) by {
                if j < k {
                    assert(d.take(i - start)[j] == d.take(k)[j]);
                }
            }
        }
    }
    assert(d.take(s.len() - start) =~= d);
    Some(v)
}

/// The value of a digit string is at least the value of any prefix of it.
proof fn lemma_digits_value_mono(d: Seq<u8>, k: int)
    requires
        0 <= k <= d.len(),
        all_digits(d),
    ensures
        digits_value(d) >= digits_value(d.take(k)),
    decreases d.len() - k,
{
    if k < d.len() {
        lemma_digits_value_mono(d, k + 1);
        lemma_digits_value_prefix(d, k);
        assert(is_digit(d[k]));
    } else {
        assert(d.take(k) =~= d);
    }
}

/// Writes `n` in decimal, as `u64::to_string` does.
pub fn u64_to_decimal(n: u64) -> (r: Vec<u8>)
    ensures
        r@ == decimal(n as nat),
    decreases n,
{
    if n < 10 {
        vec![(n + 0x30) as u8]
    } else {
        let mut v = u64_to_decimal(n / 10);
        v.push(((n % 10) + 0x30) as u8);
        v
    }
}

proof fn lemma_decimal_digits(n: nat)
    ensures
        all_digits(decimal(n)),
        decimal(n).len() > 0,
        digits_value(decimal(n)) == n,
    decreases n,
{
    if n >= 10 {
        lemma_decimal_digits(n / 10);
        let s = decimal(n);
        assert(s.drop_last() =~= decimal(n / 10));
        assert(s.last() == ((n % 10) + 0x30) as u8);
        assert((n / 10) * 10 + n % 10 == n) by (nonlinear_arith);
        assert(forall|i: int| 0 <= i < s.len() - 1 ==> s[i] == decimal(n / 10)[i]);
        assert(digits_value(s) == digits_value(decimal(n / 10)) * 10 + (n % 10));
    } else {
        let s = decimal(n);
        assert(s.drop_last() =~= Seq::<u8>::empty());
        assert(digits_value(s.drop_last()) == 0);
        assert(s.last() == (n + 0x30) as u8);
    }
}

/// Reading back what [`u64_to_decimal`] writes gives the number back.
pub proof fn lemma_decimal_round_trip(n: u64)
    ensures
        spec_parse_u64(decimal(n as nat)) == Some(n),
{
    lemma_decimal_digits(n as nat);
    let s = decimal(n as nat);
    assert(s[0] != 0x2B) by {
        assert(is_digit(s[0]));
    }
}

/// Every byte is ASCII.
pub open spec fn is_ascii_bytes(b: Seq<u8>) -> bool {
    forall|i: int| 0 <= i < b.len() ==> #[trigger] b[i] < 0x80
}

/// ASCII bytes are valid UTF-8.
pub proof fn lemma_ascii_valid_utf8(b: Seq<u8>)
    requires
        is_ascii_bytes(b),
    ensures
        valid_utf8(b),
    decreases b.len(),
{
    if b.len() > 0 {
        let rest = b.subrange(1, b.len() as int);
        assert(vstd::utf8::pop_first_scalar(b) =~= rest);
        assert(is_ascii_bytes(rest)) by {
            assert forall|i: int| 0 <= i < rest.len() implies #[trigger] rest[i] < 0x80 by {
                assert(rest[i] == b[i + 1]);
            }
        }
        lemma_ascii_valid_utf8(rest);
    }
}

/// ASCII bytes read as characters.
pub open spec fn ascii_chars(b: Seq<u8>) -> Seq<char> {
    b.map_values(|x: u8| x as char)
}

/// The decimal digits of `n` as characters.
pub open spec fn decimal_chars(n: nat) -> Seq<char> {
    ascii_chars(decimal(n))
}

proof fn lemma_decimal_ascii(n: nat)
    ensures
        is_ascii_bytes(decimal(n)),
    decreases n,
{
    if n >= 10 {
        lemma_decimal_ascii(n / 10);
        let s = decimal(n);
        assert forall|i: int| 0 <= i < s.len() implies #[trigger] s[i] < 0x80 by {
            if i < s.len() - 1 {
                assert(s[i] == decimal(n / 10)[i]);
            }
        }
    }
}

/// A `String` holding ASCII bytes.
pub fn ascii_to_string(b: &[u8]) -> (r: String)
    requires
        is_ascii_bytes(b@),
    ensures
        r@ == ascii_chars(b@),
{
    proof {
        lemma_ascii_valid_utf8(b@);
    }
    let s = str_from_utf8(b).unwrap();
    proof {
        let c = ascii_chars(b@);
        assert(vstd::utf8::is_ascii_chars(c));
        vstd::utf8::is_ascii_chars_encode_utf8(c);
        assert(vstd::utf8::encode_utf8(c) =~= b@);
        vstd::utf8::encode_utf8_decode_utf8(c);
        vstd::utf8::encode_utf8_decode_utf8(s@);
    }
    <String as vstd::string::StringExecFns>::from_str(s)
}

/// `n` in decimal, as a `String`.
pub fn u64_to_string(n: u64) -> (r: String)
    ensures
        r@ == decimal_chars(n as nat),
{
    let d = u64_to_decimal(n);
    proof {
        lemma_decimal_ascii(n as nat);
    }
    ascii_to_string(d.as_slice())
}

/// `n` in decimal with a leading `-` when negative, as `i32::to_string`
/// writes it.
pub open spec fn i32_chars(n: i32) -> Seq<char> {
    if n < 0 {
        seq!['-'] + decimal_chars((-(n as int)) as nat)
    } else {
        decimal_chars(n as nat)
    }
}

/// `n` in decimal, as `i32::to_string` writes it.
pub fn i32_to_string(n: i32) -> (r: String)
    ensures
        r@ == i32_chars(n),
{
    if n < 0 {
        let m: u64 = (-(n as i64)) as u64;
        let mut s = <String as vstd::string::StringExecFns>::from_str("-");
        proof {
            reveal_strlit("-");
        }
        let d = u64_to_string(m);
        vstd::string::StringExecFns::append(&mut s, d.as_str());
        assert(s@ =~= i32_chars(n));
        s
    } else {
        u64_to_string(n as u64)
    }
}

/// ASCII case folding of one byte.
pub open spec fn ascii_lower(c: u8) -> u8 {
    if 0x41 <= c <= 0x5A {
        (c + 32) as u8
    } else {
        c
    }
}

/// `a` and `b` are equal up to ASCII case.
pub open spec fn eq_ignore_ascii_case(a: Seq<u8>, b: Seq<u8>) -> bool {
    a.len() == b.len() && forall|i: int| 0 <= i < a.len() ==> ascii_lower(#[trigger] a[i]) == ascii_lower(b[i])
}

pub fn ascii_lower_exec(c: u8) -> (r: u8)
    ensures
        r == ascii_lower(c),
{
    if 0x41 <= c && c <= 0x5A {
        c + 32
    } else {
        c
    }
}

/// Whether `s[at..at + pat.len()]` equals `pat` up to ASCII case.
pub fn matches_ignore_case_at(s: &[u8], at: usize, pat: &[u8]) -> (r: bool)
    requires
        at <= s.len(),
    ensures
        r == (at + pat.len() <= s.len() && eq_ignore_ascii_case(
            s@.subrange(at as int, at + pat.len()),
            pat@,
        )),
{
    if s.len() - at < pat.len() {
        return false;
    }
    let mut i: usize = 0;
    while i < pat.len()
        invariant
            at + pat.len() <= s.len(),
            i <= pat.len(),
            forall|j: int| 0 <= j < i ==> ascii_lower(s@[at + j]) == ascii_lower(pat@[j]),
        decreases pat.len() - i,
    {
        if ascii_lower_exec(s[at + i]) != ascii_lower_exec(pat[i]) {
            assert(s@.subrange(at as int, at + pat.len())[i as int] == s@[at + i]);
            return false;
        }
        i = i + 1;
    }
    assert forall|j: int| 0 <= j < pat.len() implies ascii_lower(
        #[trigger] s@.subrange(at as int, at + pat.len())[j],
    ) == ascii_lower(pat@[j]) by {
        assert(s@.subrange(at as int, at + pat.len())[j] == s@[at + j]);
    }
    true
}

} // verus!
