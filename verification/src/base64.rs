//! Base64 with the standard alphabet and `=` padding, on bytes.
//!
//! The encoded text is described position by position: the four symbols of
//! group `g` stand for the input bytes `3g`, `3g + 1` and `3g + 2`, and a
//! group that runs past the end of the input is filled up with padding.

use vstd::prelude::*;

verus! {

/// The padding symbol, `=`.
pub const PAD: u8 = 61;

/// The symbol for a six-bit value: `A`-`Z`, `a`-`z`, `0`-`9`, `+`, `/`.
pub open spec fn symbol(v: int) -> u8
    recommends
        0 <= v < 64,
{
    if v < 26 {
        (65 + v) as u8
    } else if v < 52 {
        (71 + v) as u8
    } else if v < 62 {
        (v - 4) as u8
    } else if v == 62 {
        43
    } else {
        47
    }
}

/// The six-bit value that a symbol stands for, `None` for a byte outside
/// the alphabet (the padding symbol among them).
pub open spec fn sextet(c: u8) -> Option<int> {
    if 65 <= c <= 90 {
        Some(c - 65)
    } else if 97 <= c <= 122 {
        Some(c - 71)
    } else if 48 <= c <= 57 {
        Some(c + 4)
    } else if c == 43 {
        Some(62int)
    } else if c == 47 {
        Some(63int)
    } else {
        None
    }
}

/// The byte at position `i`, and zero past the end.
pub open spec fn byte_or_zero(data: Seq<u8>, i: int) -> int {
    if 0 <= i < data.len() {
        data[i] as int
    } else {
        0
    }
}

/// The length of the encoding of `n` bytes.
pub open spec fn encoded_len(n: nat) -> nat {
    (4 * ((n + 2) / 3)) as nat
}

/// The symbol at position `j` of the encoding of `data`.
pub open spec fn encoded_at(data: Seq<u8>, j: int) -> u8 {
    let g = j / 4;
    let d0 = byte_or_zero(data, 3 * g);
    let d1 = byte_or_zero(data, 3 * g + 1);
    let d2 = byte_or_zero(data, 3 * g + 2);
    if j % 4 == 0 {
        symbol(d0 / 4)
    } else if j % 4 == 1 {
        symbol((d0 % 4) * 16 + d1 / 16)
    } else if j % 4 == 2 {
        if 3 * g + 1 < data.len() {
            symbol((d1 % 16) * 4 + d2 / 64)
        } else {
            PAD
        }
    } else {
        if 3 * g + 2 < data.len() {
            symbol(d2 % 64)
        } else {
            PAD
        }
    }
}

/// The encoding of `data`.
pub open spec fn encoded(data: Seq<u8>) -> Seq<u8> {
    Seq::new(encoded_len(data.len()), |j: int| encoded_at(data, j))
}

/// The number of padding symbols that end a text: two, one or none.
pub open spec fn padding(text: Seq<u8>) -> int {
    if text.len() >= 4 && text[text.len() - 1] == PAD {
        if text[text.len() - 2] == PAD {
            2
        } else {
            1
        }
    } else {
        0
    }
}

/// The value of the symbol at position `j`, and zero for anything else.
pub open spec fn sextet_or_zero(text: Seq<u8>, j: int) -> int {
    if 0 <= j < text.len() && sextet(text[j]) is Some {
        sextet(text[j])->Some_0
    } else {
        0
    }
}

/// Whether a text is the encoding of some bytes: whole groups of four,
/// symbols of the alphabet up to the padding, and no bit set in the last
/// symbol that the padding cuts off.
pub open spec fn well_formed(text: Seq<u8>) -> bool {
    &&& text.len() % 4 == 0
    &&& forall|j: int| 0 <= j < text.len() - padding(text) ==> (#[trigger] sextet(text[j])) is Some
    &&& padding(text) == 1 ==> sextet_or_zero(text, text.len() - 2) % 4 == 0
    &&& padding(text) == 2 ==> sextet_or_zero(text, text.len() - 3) % 16 == 0
}

/// The number of bytes that a well-formed text stands for.
pub open spec fn decoded_len(text: Seq<u8>) -> int {
    3 * (text.len() / 4) - padding(text)
}

/// The byte at position `k` of what a well-formed text stands for.
pub open spec fn decoded_at(text: Seq<u8>, k: int) -> u8 {
    let g = k / 3;
    let s0 = sextet_or_zero(text, 4 * g);
    let s1 = sextet_or_zero(text, 4 * g + 1);
    let s2 = sextet_or_zero(text, 4 * g + 2);
    let s3 = sextet_or_zero(text, 4 * g + 3);
    if k % 3 == 0 {
        (s0 * 4 + s1 / 16) as u8
    } else if k % 3 == 1 {
        ((s1 % 16) * 16 + s2 / 4) as u8
    } else {
        ((s2 % 4) * 64 + s3) as u8
    }
}

/// The bytes that a text stands for, `None` where it is not well formed.
pub open spec fn decoded(text: Seq<u8>) -> Option<Seq<u8>> {
    if well_formed(text) {
        Some(Seq::new(decoded_len(text) as nat, |k: int| decoded_at(text, k)))
    } else {
        None
    }
}

/// Every symbol is an ASCII byte other than the padding symbol, and stands
/// for the value it was made from.
pub proof fn lemma_symbol_value(v: int)
    requires
        0 <= v < 64,
    ensures
        sextet(symbol(v)) == Some(v),
        symbol(v) != PAD,
        symbol(v) < 128,
{
}

/// The four symbols of group `g` of an encoding, and their values.
proof fn lemma_group(data: Seq<u8>, g: int)
    requires
        0 <= g,
        3 * g < data.len(),
    ensures
        4 * g + 3 < encoded(data).len(),
        encoded(data).len() == 4 * ((data.len() + 2) / 3),
        encoded(data)[4 * g] < 128,
        encoded(data)[4 * g + 1] < 128,
        encoded(data)[4 * g + 2] < 128,
        encoded(data)[4 * g + 3] < 128,
        sextet(encoded(data)[4 * g]) == Some(byte_or_zero(data, 3 * g) / 4),
        sextet(encoded(data)[4 * g + 1]) == Some(
            (byte_or_zero(data, 3 * g) % 4) * 16 + byte_or_zero(data, 3 * g + 1) / 16,
        ),
        3 * g + 1 < data.len() ==> sextet(encoded(data)[4 * g + 2]) == Some(
            (byte_or_zero(data, 3 * g + 1) % 16) * 4 + byte_or_zero(data, 3 * g + 2) / 64,
        ),
        3 * g + 1 >= data.len() ==> encoded(data)[4 * g + 2] == PAD,
        3 * g + 2 < data.len() ==> sextet(encoded(data)[4 * g + 3]) == Some(
            byte_or_zero(data, 3 * g + 2) % 64,
        ),
        3 * g + 2 >= data.len() ==> encoded(data)[4 * g + 3] == PAD,
{
    let d0 = byte_or_zero(data, 3 * g);
    let d1 = byte_or_zero(data, 3 * g + 1);
    let d2 = byte_or_zero(data, 3 * g + 2);
    lemma_symbol_value(d0 / 4);
    lemma_symbol_value((d0 % 4) * 16 + d1 / 16);
    lemma_symbol_value((d1 % 16) * 4 + d2 / 64);
    lemma_symbol_value(d2 % 64);
    assert((4 * g) / 4 == g && (4 * g) % 4 == 0);
    assert((4 * g + 1) / 4 == g && (4 * g + 1) % 4 == 1);
    assert((4 * g + 2) / 4 == g && (4 * g + 2) % 4 == 2);
    assert((4 * g + 3) / 4 == g && (4 * g + 3) % 4 == 3);
    assert(encoded(data)[4 * g] == encoded_at(data, 4 * g));
    assert(encoded(data)[4 * g + 1] == encoded_at(data, 4 * g + 1));
    assert(encoded(data)[4 * g + 2] == encoded_at(data, 4 * g + 2));
    assert(encoded(data)[4 * g + 3] == encoded_at(data, 4 * g + 3));
}

/// The encoding holds ASCII bytes only.
pub proof fn lemma_encoded_is_ascii(data: Seq<u8>)
    ensures
        forall|j: int| 0 <= j < encoded(data).len() ==> #[trigger] encoded(data)[j] < 128,
{
    assert forall|j: int| 0 <= j < encoded(data).len() implies #[trigger] encoded(data)[j]
        < 128 by {
        let g = j / 4;
        assert(j == 4 * g + j % 4);
        lemma_group(data, g);
    }
}

/// An encoding ends in as many padding symbols as its last group lacks
/// input bytes.
proof fn lemma_padding_of_encoded(data: Seq<u8>)
    ensures
        padding(encoded(data)) == 3 * (encoded(data).len() / 4) - data.len(),
        encoded(data).len() % 4 == 0,
{
    let n = data.len() as int;
    if n > 0 {
        let g = (n - 1) / 3;
        lemma_group(data, g);
        assert(encoded(data).len() == 4 * g + 4);
    }
}

/// An encoding is well formed.
proof fn lemma_encoded_well_formed(data: Seq<u8>)
    ensures
        well_formed(encoded(data)),
{
    let text = encoded(data);
    let n = data.len() as int;
    let m = text.len() as int;
    lemma_padding_of_encoded(data);
    assert forall|j: int| 0 <= j < m - padding(text) implies (#[trigger] sextet(text[j])) is Some by {
        let g = j / 4;
        assert(j == 4 * g + j % 4);
        lemma_group(data, g);
    }
    if n > 0 {
        let g = (n - 1) / 3;
        lemma_group(data, g);
        assert(m == 4 * g + 4);
    }
}

/// The byte at position `k` of what an encoding stands for is the byte at
/// position `k` of the input.
proof fn lemma_decoded_byte(data: Seq<u8>, k: int)
    requires
        0 <= k < data.len(),
    ensures
        decoded_at(encoded(data), k) == data[k],
{
    let g = k / 3;
    assert(k == 3 * g + k % 3);
    lemma_group(data, g);
}

/// Decoding an encoding gives the bytes back.
pub proof fn lemma_round_trip(data: Seq<u8>)
    ensures
        decoded(encoded(data)) == Some(data),
{
    let text = encoded(data);
    lemma_padding_of_encoded(data);
    lemma_encoded_well_formed(data);
    let back = decoded(text)->Some_0;
    assert(back.len() == data.len());
    assert forall|k: int| 0 <= k < data.len() implies back[k] == data[k] by {
        lemma_decoded_byte(data, k);
    }
    assert(back =~= data);
}

/// Every byte of the alphabet is the symbol of the value it stands for.
pub proof fn lemma_sextet_symbol(c: u8)
    requires
        sextet(c) is Some,
    ensures
        0 <= sextet(c)->Some_0 < 64,
        symbol(sextet(c)->Some_0) == c,
        c != PAD,
{
}

/// The bytes that group `g` of a well-formed text stands for, in terms of
/// the values of its symbols.
#[verifier::rlimit(40)]
proof fn lemma_decoded_group(text: Seq<u8>, g: int)
    requires
        well_formed(text),
        0 <= g,
        4 * g < text.len(),
    ensures
        4 * g + 3 < text.len(),
        3 * g < decoded_len(text),
        sextet(text[4 * g]) is Some,
        sextet(text[4 * g + 1]) is Some,
        3 * g + 1 < decoded_len(text) <==> sextet(text[4 * g + 2]) is Some,
        3 * g + 2 < decoded_len(text) <==> sextet(text[4 * g + 3]) is Some,
        3 * g + 1 >= decoded_len(text) ==> text[4 * g + 2] == PAD && text[4 * g + 3] == PAD
            && sextet_or_zero(text, 4 * g + 1) % 16 == 0,
        3 * g + 2 >= decoded_len(text) ==> text[4 * g + 3] == PAD && sextet_or_zero(
            text,
            4 * g + 2,
        ) % 4 == 0,
        byte_or_zero(decoded(text)->Some_0, 3 * g) == sextet_or_zero(text, 4 * g) * 4
            + sextet_or_zero(text, 4 * g + 1) / 16,
        byte_or_zero(decoded(text)->Some_0, 3 * g + 1) == (if 3 * g + 1 < decoded_len(text) {
            (sextet_or_zero(text, 4 * g + 1) % 16) * 16 + sextet_or_zero(text, 4 * g + 2) / 4
        } else {
            0
        }),
        byte_or_zero(decoded(text)->Some_0, 3 * g + 2) == (if 3 * g + 2 < decoded_len(text) {
            (sextet_or_zero(text, 4 * g + 2) % 4) * 64 + sextet_or_zero(text, 4 * g + 3)
        } else {
            0
        }),
{
    let m = text.len() as int;
    let data = decoded(text)->Some_0;
    assert(m % 4 == 0);
    assert(4 * g + 3 < m);
    if 4 * g + 4 < m {
        assert(sextet(text[4 * g]) is Some);
        assert(sextet(text[4 * g + 1]) is Some);
        assert(sextet(text[4 * g + 2]) is Some);
        assert(sextet(text[4 * g + 3]) is Some);
    } else {
        assert(m == 4 * g + 4);
        assert(sextet(text[4 * g]) is Some);
        assert(sextet(text[4 * g + 1]) is Some);
        if padding(text) < 2 {
            assert(sextet(text[4 * g + 2]) is Some);
        }
        if padding(text) < 1 {
            assert(sextet(text[4 * g + 3]) is Some);
        }
    }
    lemma_sextet_symbol(text[4 * g]);
    lemma_sextet_symbol(text[4 * g + 1]);
    assert((3 * g) / 3 == g && (3 * g) % 3 == 0);
    assert((3 * g + 1) / 3 == g && (3 * g + 1) % 3 == 1);
    assert((3 * g + 2) / 3 == g && (3 * g + 2) % 3 == 2);
    if 3 * g < data.len() {
        assert(data[3 * g] == decoded_at(text, 3 * g));
    }
    if 3 * g + 1 < data.len() {
        lemma_sextet_symbol(text[4 * g + 2]);
        assert(data[3 * g + 1] == decoded_at(text, 3 * g + 1));
    }
    if 3 * g + 2 < data.len() {
        lemma_sextet_symbol(text[4 * g + 3]);
        assert(data[3 * g + 2] == decoded_at(text, 3 * g + 2));
    }
}

/// The symbol at position `j` of the encoding of what a well-formed text
/// stands for is the symbol at position `j` of the text.
#[verifier::rlimit(40)]
proof fn lemma_recoded_at(text: Seq<u8>, j: int)
    requires
        well_formed(text),
        0 <= j < text.len(),
    ensures
        encoded_at(decoded(text)->Some_0, j) == text[j],
{
    let data = decoded(text)->Some_0;
    let g = j / 4;
    assert(j == 4 * g + j % 4);
    lemma_decoded_group(text, g);
    let s0 = sextet_or_zero(text, 4 * g);
    let s1 = sextet_or_zero(text, 4 * g + 1);
    let s2 = sextet_or_zero(text, 4 * g + 2);
    let s3 = sextet_or_zero(text, 4 * g + 3);
    let d0 = byte_or_zero(data, 3 * g);
    let d1 = byte_or_zero(data, 3 * g + 1);
    let d2 = byte_or_zero(data, 3 * g + 2);
    lemma_sextet_symbol(text[4 * g]);
    lemma_sextet_symbol(text[4 * g + 1]);
    assert(0 <= s0 < 64 && 0 <= s1 < 64 && 0 <= s2 < 64 && 0 <= s3 < 64) by {
        if sextet(text[4 * g + 2]) is Some {
            lemma_sextet_symbol(text[4 * g + 2]);
        }
        if sextet(text[4 * g + 3]) is Some {
            lemma_sextet_symbol(text[4 * g + 3]);
        }
    }
    assert(data.len() == decoded_len(text));
    if j % 4 == 0 {
        assert(d0 / 4 == s0);
    } else if j % 4 == 1 {
        assert((d0 % 4) * 16 + d1 / 16 == s1);
    } else if j % 4 == 2 {
        if 3 * g + 1 < data.len() {
            lemma_sextet_symbol(text[4 * g + 2]);
            assert((d1 % 16) * 4 + d2 / 64 == s2);
        }
    } else {
        if 3 * g + 2 < data.len() {
            lemma_sextet_symbol(text[4 * g + 3]);
            assert(d2 % 64 == s3);
        }
    }
}

/// A well-formed text is the encoding of the bytes it stands for: no two
/// texts stand for the same bytes.
pub proof fn lemma_decoded_is_canonical(text: Seq<u8>)
    requires
        well_formed(text),
    ensures
        encoded(decoded(text)->Some_0) == text,
{
    let data = decoded(text)->Some_0;
    let m = text.len() as int;
    assert(data.len() == decoded_len(text));
    assert(encoded(data).len() == m) by {
        if m > 0 {
            lemma_decoded_group(text, m / 4 - 1);
        }
    }
    assert forall|j: int| 0 <= j < m implies encoded(data)[j] == text[j] by {
        lemma_recoded_at(text, j);
    }
    assert(encoded(data) =~= text);
}

/// The symbol for a six-bit value.
fn symbol_for(v: u8) -> (c: u8)
    requires
        v < 64,
    ensures
        c == symbol(v as int),
{
    if v < 26 {
        65 + v
    } else if v < 52 {
        71 + v
    } else if v < 62 {
        v - 4
    } else if v == 62 {
        43
    } else {
        47
    }
}

/// The six-bit value of a symbol.
fn sextet_of(c: u8) -> (v: Option<u8>)
    ensures
        v is Some <==> sextet(c) is Some,
        v matches Some(s) ==> sextet(c) == Some(s as int) && s < 64,
{
    if 65 <= c && c <= 90 {
        Some(c - 65)
    } else if 97 <= c && c <= 122 {
        Some(c - 71)
    } else if 48 <= c && c <= 57 {
        Some(c + 4)
    } else if c == 43 {
        Some(62)
    } else if c == 47 {
        Some(63)
    } else {
        None
    }
}

/// Encodes bytes as base64 text.
pub fn encode(data: &[u8]) -> (text: Vec<u8>)
    ensures
        text@ == encoded(data@),
{
    let n: usize = data.len();
    let mut text: Vec<u8> = Vec::new();
    let mut i: usize = 0;
    while n - i >= 3
        invariant
            n == data@.len(),
            i <= n,
            i % 3 == 0,
            text@.len() == 4 * (i / 3),
            forall|j: int| 0 <= j < text@.len() ==> text@[j] == encoded_at(data@, j),
        decreases n - i,
    {
        let d0: u8 = data[i];
        let d1: u8 = data[i + 1];
        let d2: u8 = data[i + 2];
        text.push(symbol_for(d0 / 4));
        text.push(symbol_for((d0 % 4) * 16 + d1 / 16));
        text.push(symbol_for((d1 % 16) * 4 + d2 / 64));
        text.push(symbol_for(d2 % 64));
        i = i + 3;
    }
    if n - i == 1 {
        let d0: u8 = data[i];
        text.push(symbol_for(d0 / 4));
        text.push(symbol_for((d0 % 4) * 16));
        text.push(PAD);
        text.push(PAD);
    } else if n - i == 2 {
        let d0: u8 = data[i];
        let d1: u8 = data[i + 1];
        text.push(symbol_for(d0 / 4));
        text.push(symbol_for((d0 % 4) * 16 + d1 / 16));
        text.push(symbol_for((d1 % 16) * 4));
        text.push(PAD);
    }
    assert(text@ =~= encoded(data@));
    text
}

/// Decodes base64 text, and refuses whatever is not the encoding of some
/// bytes.
#[verifier::rlimit(40)]
pub fn decode(text: &[u8]) -> (data: Option<Vec<u8>>)
    ensures
        data is Some <==> well_formed(text@),
        data matches Some(bytes) ==> Some(bytes@) == decoded(text@),
{
    let m: usize = text.len();
    if m % 4 != 0 {
        return None;
    }
    let pad: usize = if m >= 4 && text[m - 1] == PAD {
        if text[m - 2] == PAD {
            2
        } else {
            1
        }
    } else {
        0
    };
    let whole: usize = if pad == 0 {
        m
    } else {
        m - 4
    };
    let mut data: Vec<u8> = Vec::new();
    let mut j: usize = 0;
    while j < whole
        invariant
            m == text@.len(),
            m % 4 == 0,
            pad == padding(text@),
            whole == (if pad == 0 { m } else { (m - 4) as usize }),
            j <= whole,
            j % 4 == 0,
            data@.len() == 3 * (j / 4),
            forall|i: int| 0 <= i < j ==> (#[trigger] sextet(text@[i])) is Some,
            forall|k: int| 0 <= k < data@.len() ==> data@[k] == decoded_at(text@, k),
        decreases whole - j,
    {
        let s0 = sextet_of(text[j]);
        let s1 = sextet_of(text[j + 1]);
        let s2 = sextet_of(text[j + 2]);
        let s3 = sextet_of(text[j + 3]);
        match (s0, s1, s2, s3) {
            (Some(a), Some(b), Some(c), Some(d)) => {
                data.push(a * 4 + b / 16);
                data.push((b % 16) * 16 + c / 4);
                data.push((c % 4) * 64 + d);
            },
            _ => {
                assert(!well_formed(text@)) by {
                    assert(sextet(text@[j as int]) is None || sextet(text@[j + 1]) is None
                        || sextet(text@[j + 2]) is None || sextet(text@[j + 3]) is None);
                }
                return None;
            },
        }
        j = j + 4;
    }
    if pad == 1 {
        let s0 = sextet_of(text[j]);
        let s1 = sextet_of(text[j + 1]);
        let s2 = sextet_of(text[j + 2]);
        match (s0, s1, s2) {
            (Some(a), Some(b), Some(c)) => {
                if c % 4 != 0 {
                    return None;
                }
                data.push(a * 4 + b / 16);
                data.push((b % 16) * 16 + c / 4);
            },
            _ => {
                assert(!well_formed(text@)) by {
                    assert(sextet(text@[j as int]) is None || sextet(text@[j + 1]) is None
                        || sextet(text@[j + 2]) is None);
                }
                return None;
            },
        }
    } else if pad == 2 {
        let s0 = sextet_of(text[j]);
        let s1 = sextet_of(text[j + 1]);
        match (s0, s1) {
            (Some(a), Some(b)) => {
                if b % 16 != 0 {
                    return None;
                }
                data.push(a * 4 + b / 16);
            },
            _ => {
                assert(!well_formed(text@)) by {
                    assert(sextet(text@[j as int]) is None || sextet(text@[j + 1]) is None);
                }
                return None;
            },
        }
    }
    proof {
        assert forall|i: int| 0 <= i < m - padding(text@) implies (#[trigger] sextet(
            text@[i],
        )) is Some by {}
        assert(well_formed(text@));
        assert(data@ =~= decoded(text@)->Some_0);
    }
    Some(data)
}

} // verus!
