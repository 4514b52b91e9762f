//! Text made of bytes: UTF-8 validation, ASCII, and decimal numbers.

use vstd::prelude::*;
use vstd::string::*;
use vstd::utf8::*;

verus! {

/// The error of `core::str::from_utf8`, carried through and never read.
#[verifier::external_type_specification]
#[verifier::external_body]
pub struct ExUtf8Error(core::str::Utf8Error);

/// `core::str::from_utf8` succeeds exactly on well-formed UTF-8 and then
/// gives the text that the bytes encode.
pub assume_specification[ core::str::from_utf8 ](v: &[u8]) -> (r: Result<
    &str,
    core::str::Utf8Error,
>)
    ensures
        r is Ok <==> valid_utf8(v@),
        r matches Ok(s) ==> s@ == decode_utf8(v@),
;

/// Whether every byte is an ASCII byte.
pub open spec fn is_ascii_bytes(bytes: Seq<u8>) -> bool {
    forall|i: int| 0 <= i < bytes.len() ==> #[trigger] bytes[i] < 128
}

/// The text whose characters are the given ASCII bytes.
pub open spec fn ascii_text(bytes: Seq<u8>) -> Seq<char> {
    Seq::new(bytes.len(), |i: int| bytes[i] as char)
}

/// ASCII bytes are well-formed UTF-8, and encode the text that holds them
/// as characters.
pub proof fn lemma_ascii_is_utf8(bytes: Seq<u8>)
    requires
        is_ascii_bytes(bytes),
    ensures
        valid_utf8(bytes),
        decode_utf8(bytes) == ascii_text(bytes),
        encode_utf8(ascii_text(bytes)) == bytes,
{
    let chars = ascii_text(bytes);
    assert(is_ascii_chars(chars)) by {
        assert forall|i: int| 0 <= i < chars.len() implies '\0' <= #[trigger] chars[i]
            <= '\u{7f}' by {
            assert(bytes[i] < 128);
        }
    }
    is_ascii_chars_encode_utf8(chars);
    assert(encode_utf8(chars) =~= bytes) by {
        assert forall|i: int| 0 <= i < bytes.len() implies encode_utf8(chars)[i] == bytes[i] by {
            assert(chars[i] as u8 == encode_utf8(chars)[i]);
            assert(bytes[i] < 128);
        }
    }
    encode_utf8_valid_utf8(chars);
    encode_utf8_decode_utf8(chars);
}

/// The string that holds the given ASCII bytes as characters.
pub fn ascii_string(bytes: &[u8]) -> (s: String)
    requires
        is_ascii_bytes(bytes@),
    ensures
        s@ == ascii_text(bytes@),
{
    proof {
        lemma_ascii_is_utf8(bytes@);
    }
    match core::str::from_utf8(bytes) {
        Ok(text) => text.to_owned(),
        // unreachable: ASCII bytes are well-formed UTF-8
        Err(_) => String::new(),
    }
}

/// Whether two byte strings are the same.
pub fn same_bytes(a: &[u8], b: &[u8]) -> (same: bool)
    ensures
        same == (a@ == b@),
{
    if a.len() != b.len() {
        return false;
    }
    let mut i: usize = 0;
    while i < a.len()
        invariant
            a@.len() == b@.len(),
            i <= a@.len(),
            forall|j: int| 0 <= j < i ==> a@[j] == b@[j],
        decreases a@.len() - i,
    {
        if a[i] != b[i] {
            return false;
        }
        i = i + 1;
    }
    assert(a@ =~= b@);
    true
}

/// Whether two texts are the same.
pub fn same_text(a: &str, b: &str) -> (same: bool)
    ensures
        same == (a@ == b@),
{
    proof {
        encode_utf8_decode_utf8(a@);
        encode_utf8_decode_utf8(b@);
    }
    same_bytes(a.as_bytes(), b.as_bytes())
}

/// The ASCII digit for a value under ten.
pub open spec fn digit(d: int) -> u8
    recommends
        0 <= d < 10,
{
    (48 + d) as u8
}

/// The decimal digits of a natural number, without leading zeros.
pub open spec fn digits(n: nat) -> Seq<u8>
    decreases n,
{
    if n < 10 {
        seq![digit(n as int)]
    } else {
        digits(n / 10).push(digit((n % 10) as int))
    }
}

/// The decimal form of an integer: its digits, after a minus sign where it
/// is negative.
pub open spec fn decimal(v: int) -> Seq<u8> {
    if v < 0 {
        seq![45u8] + digits((-v) as nat)
    } else {
        digits(v as nat)
    }
}

/// A decimal form holds ASCII bytes only.
pub proof fn lemma_decimal_is_ascii(v: int)
    ensures
        is_ascii_bytes(decimal(v)),
        decimal(v).len() >= 1,
{
    if v < 0 {
        lemma_digits_are_ascii((-v) as nat);
    } else {
        lemma_digits_are_ascii(v as nat);
    }
}

proof fn lemma_digits_are_ascii(n: nat)
    ensures
        is_ascii_bytes(digits(n)),
        digits(n).len() >= 1,
    decreases n,
{
    if n >= 10 {
        lemma_digits_are_ascii(n / 10);
    }
}

/// The decimal digits of a natural number, as bytes.
fn digits_of(n: u64) -> (out: Vec<u8>)
    ensures
        out@ == digits(n as nat),
{
    let mut low: Vec<u8> = Vec::new();
    let mut rest: u64 = n;
    while rest >= 10
        invariant
            digits(n as nat) == digits(rest as nat) + low@.reverse(),
        decreases rest,
    {
        let d: u8 = (rest % 10) as u8;
        proof {
            let before = low@;
            let after = low@.push((48 + d) as u8);
            assert(after.reverse() =~= seq![(48 + d) as u8] + before.reverse());
            assert(digits(rest as nat) == digits((rest / 10) as nat).push(digit((rest % 10) as int)));
            assert(digits((rest / 10) as nat).push((48 + d) as u8) + before.reverse() =~= digits(
                (rest / 10) as nat,
            ) + after.reverse());
        }
        low.push(48 + d);
        rest = rest / 10;
    }
    let mut out: Vec<u8> = Vec::new();
    out.push(48 + (rest as u8));
    assert(out@ =~= digits(rest as nat));
    let mut i: usize = low.len();
    while i > 0
        invariant
            i <= low@.len(),
            out@ == digits(rest as nat) + low@.reverse().subrange(0, low@.len() - i),
        decreases i,
    {
        i = i - 1;
        proof {
            let r = low@.reverse();
            let k = low@.len() - i - 1;
            assert(r[k] == low@[i as int]);
            assert(r.subrange(0, k + 1) =~= r.subrange(0, k).push(low@[i as int]));
            assert((digits(rest as nat) + r.subrange(0, k)).push(low@[i as int]) =~= digits(
                rest as nat,
            ) + r.subrange(0, k + 1));
        }
        out.push(low[i]);
    }
    assert(low@.reverse().subrange(0, low@.len() as int) =~= low@.reverse());
    out
}

/// The decimal form of an integer, as bytes.
pub fn decimal_bytes(v: i64) -> (out: Vec<u8>)
    ensures
        out@ == decimal(v as int),
{
    if v < 0 {
        let magnitude: u64 = if v == i64::MIN {
            9_223_372_036_854_775_808
        } else {
            (-v) as u64
        };
        let tail = digits_of(magnitude);
        let mut out: Vec<u8> = Vec::new();
        out.push(45);
        let mut i: usize = 0;
        while i < tail.len()
            invariant
                i <= tail@.len(),
                out@ == seq![45u8] + tail@.subrange(0, i as int),
            decreases tail@.len() - i,
        {
            proof {
                assert(tail@.subrange(0, i + 1) =~= tail@.subrange(0, i as int).push(tail@[i as int]));
                assert((seq![45u8] + tail@.subrange(0, i as int)).push(tail@[i as int]) =~= seq![
                    45u8,
                ] + tail@.subrange(0, i + 1));
            }
            out.push(tail[i]);
            i = i + 1;
        }
        assert(tail@.subrange(0, tail@.len() as int) =~= tail@);
        out
    } else {
        digits_of(v as u64)
    }
}

/// The number that a row of decimal digits stands for, `None` where the row
/// is empty or holds anything but digits.
pub open spec fn digits_value(bytes: Seq<u8>) -> Option<nat>
    decreases bytes.len(),
{
    if bytes.len() == 0 || !(48 <= bytes.last() <= 57) {
        None
    } else if bytes.len() == 1 {
        Some((bytes.last() - 48) as nat)
    } else {
        match digits_value(bytes.drop_last()) {
            Some(value) => Some((value * 10 + (bytes.last() - 48)) as nat),
            None => None,
        }
    }
}

/// Where a row of digits stands for a number, each of its beginnings
/// stands for a number that is not higher.
proof fn lemma_digits_prefix(bytes: Seq<u8>, i: int)
    requires
        1 <= i <= bytes.len(),
        digits_value(bytes) is Some,
    ensures
        digits_value(bytes.take(i)) is Some,
        digits_value(bytes.take(i))->Some_0 <= digits_value(bytes)->Some_0,
    decreases bytes.len() - i,
{
    if i == bytes.len() {
        assert(bytes.take(i) =~= bytes);
    } else {
        assert(bytes.drop_last().take(i) =~= bytes.take(i));
        lemma_digits_prefix(bytes.drop_last(), i);
    }
}

/// The digits of a number stand for that number.
pub proof fn lemma_digits_value(n: nat)
    ensures
        digits_value(digits(n)) == Some(n),
    decreases n,
{
    if n >= 10 {
        lemma_digits_value(n / 10);
        lemma_digits_are_ascii(n / 10);
        assert(digits(n).drop_last() =~= digits(n / 10));
    }
}

/// Reads a number that is written in decimal digits. Refused are the empty
/// text, a text with anything but digits in it, and a number above the
/// highest that 64 bits hold.
pub fn parse_unsigned(text: &[u8]) -> (number: Option<u64>)
    ensures
        number == match digits_value(text@) {
            Some(value) => if value <= u64::MAX {
                Some(value as u64)
            } else {
                None
            },
            None => None,
        },
{
    let n: usize = text.len();
    if n == 0 {
        return None;
    }
    let mut value: u64 = 0;
    let mut i: usize = 0;
    while i < n
        invariant
            n == text@.len(),
            i <= n,
            i > 0 ==> digits_value(text@.take(i as int)) == Some(value as nat),
            i == 0 ==> value == 0,
        decreases n - i,
    {
        let byte: u8 = text[i];
        proof {
            assert(text@.take(i + 1).drop_last() =~= text@.take(i as int));
            assert(text@.take(i + 1).last() == byte);
            if digits_value(text@) is Some {
                lemma_digits_prefix(text@, i + 1);
            }
        }
        if byte < 48 || byte > 57 {
            return None;
        }
        let digit: u64 = (byte - 48) as u64;
        if value > (u64::MAX - digit) / 10 {
            return None;
        }
        value = value * 10 + digit;
        i = i + 1;
    }
    assert(text@.take(n as int) =~= text@);
    Some(value)
}

/// The decimal form of a natural number, as a string.
pub fn unsigned_string(v: u64) -> (s: String)
    ensures
        s@ == ascii_text(decimal(v as int)),
{
    let bytes = digits_of(v);
    proof {
        lemma_decimal_is_ascii(v as int);
    }
    ascii_string(bytes.as_slice())
}

/// The decimal form of an integer, as a string.
pub fn decimal_string(v: i64) -> (s: String)
    ensures
        s@ == ascii_text(decimal(v as int)),
{
    let bytes = decimal_bytes(v);
    proof {
        lemma_decimal_is_ascii(v as int);
    }
    ascii_string(bytes.as_slice())
}

} // verus!
