//! Hexadecimal text: digests are written as 40 hexadecimal characters and
//! stored in tree entries as 20 raw bytes.

use vstd::prelude::*;
use vstd::utf8::is_ascii_chars;
use vstd::utf8::is_ascii_chars_encode_utf8;
use crate::error::StoreError;

verus! {

/// Whether `c` is one of `0-9`, `a-f`, `A-F`.
pub open spec fn is_hex_digit(c: char) -> bool {
    ('0' <= c <= '9') || ('a' <= c <= 'f') || ('A' <= c <= 'F')
}

/// Whether `c` is one of `0-9`, `a-f`.
pub open spec fn is_lower_hex_digit(c: char) -> bool {
    ('0' <= c <= '9') || ('a' <= c <= 'f')
}

/// The number that a hexadecimal digit stands for.
pub open spec fn hex_value(c: char) -> int {
    if '0' <= c <= '9' {
        c as int - 48
    } else if 'a' <= c <= 'f' {
        c as int - 87
    } else {
        c as int - 55
    }
}

/// The lower-case digit for a number below 16.
pub open spec fn hex_digit(v: int) -> char {
    if v < 10 {
        ((48 + v) as u8) as char
    } else {
        ((87 + v) as u8) as char
    }
}

/// Whether `s` is a digest in text form: exactly 40 hexadecimal characters.
pub open spec fn is_hex_sha(s: Seq<char>) -> bool {
    s.len() == 40 && forall|i: int| 0 <= i < s.len() ==> is_hex_digit(#[trigger] s[i])
}

/// Whether every character of `s` is a lower-case hexadecimal digit.
pub open spec fn is_lower_hex(s: Seq<char>) -> bool {
    forall|i: int| 0 <= i < s.len() ==> is_lower_hex_digit(#[trigger] s[i])
}

/// Two lower-case hexadecimal digits for each byte, the high half first.
pub open spec fn hex_lower(bytes: Seq<u8>) -> Seq<char> {
    Seq::new(
        2 * bytes.len(),
        |i: int|
            if i % 2 == 0 {
                hex_digit(bytes[i / 2] as int / 16)
            } else {
                hex_digit(bytes[i / 2] as int % 16)
            },
    )
}

/// The bytes that a hexadecimal text stands for, two digits to a byte.
pub open spec fn hex_decode(s: Seq<char>) -> Seq<u8> {
    Seq::new(
        s.len() / 2,
        |i: int| (16 * hex_value(s[2 * i]) + hex_value(s[2 * i + 1])) as u8,
    )
}

/// The hexadecimal text of `bytes` has two lower-case digits for each byte.
pub proof fn lemma_hex_lower_shape(bytes: Seq<u8>)
    ensures
        hex_lower(bytes).len() == 2 * bytes.len(),
        is_lower_hex(hex_lower(bytes)),
        bytes.len() == 20 ==> is_hex_sha(hex_lower(bytes)),
{
    assert forall|i: int| 0 <= i < hex_lower(bytes).len() implies is_lower_hex_digit(
        #[trigger] hex_lower(bytes)[i],
    ) by {
        lemma_hex_digit(bytes[i / 2] as int / 16);
        lemma_hex_digit(bytes[i / 2] as int % 16);
    }
}

/// The two digits of a byte stand for that byte.
pub proof fn lemma_byte_round_trip(b: u8)
    ensures
        (16 * hex_value(hex_digit(b as int / 16)) + hex_value(hex_digit(b as int % 16))) as u8 == b,
{
    lemma_hex_digit(b as int / 16);
    lemma_hex_digit(b as int % 16);
}

/// Decoding the hexadecimal text of `bytes` gives `bytes` back.
pub proof fn lemma_hex_round_trip(bytes: Seq<u8>)
    ensures
        hex_decode(hex_lower(bytes)) == bytes,
{
    let text = hex_lower(bytes);
    assert forall|i: int| 0 <= i < bytes.len() implies hex_decode(text)[i] == bytes[i] by {
        lemma_byte_round_trip(bytes[i]);
        assert(text[2 * i] == hex_digit(bytes[i] as int / 16));
        assert(text[2 * i + 1] == hex_digit(bytes[i] as int % 16));
    }
    assert(hex_decode(text) =~= bytes);
}

/// A lower-case digit stands for a number below 16, whose digit it is.
pub proof fn lemma_lower_digit_value(c: char)
    requires
        is_lower_hex_digit(c),
    ensures
        0 <= hex_value(c) < 16,
        hex_digit(hex_value(c)) == c,
{
}

/// The byte that two lower-case digits stand for has those two digits.
pub proof fn lemma_pair_round_trip(high: char, low: char)
    requires
        is_lower_hex_digit(high),
        is_lower_hex_digit(low),
    ensures
        hex_digit(((16 * hex_value(high) + hex_value(low)) as u8) as int / 16) == high,
        hex_digit(((16 * hex_value(high) + hex_value(low)) as u8) as int % 16) == low,
{
    lemma_lower_digit_value(high);
    lemma_lower_digit_value(low);
    let h = hex_value(high);
    let l = hex_value(low);
    assert(((16 * h + l) as u8) as int == 16 * h + l);
    assert((16 * h + l) / 16 == h && (16 * h + l) % 16 == l);
}

/// A lower-case hexadecimal text of even length is the text of the bytes
/// that it stands for.
pub proof fn lemma_hex_text_round_trip(s: Seq<char>)
    requires
        is_lower_hex(s),
        s.len() % 2 == 0,
    ensures
        hex_lower(hex_decode(s)) == s,
{
    let bytes = hex_decode(s);
    let text = hex_lower(bytes);
    assert(text.len() == s.len());
    assert forall|i: int| 0 <= i < s.len() implies text[i] == s[i] by {
        let k = i / 2;
        assert(0 <= k < bytes.len());
        assert(is_lower_hex_digit(s[2 * k]));
        assert(is_lower_hex_digit(s[2 * k + 1]));
        lemma_pair_round_trip(s[2 * k], s[2 * k + 1]);
        assert(bytes[k] == (16 * hex_value(s[2 * k]) + hex_value(s[2 * k + 1])) as u8);
        if i % 2 == 0 {
            assert(i == 2 * k);
            assert(text[i] == hex_digit(bytes[k] as int / 16));
        } else {
            assert(i == 2 * k + 1);
            assert(text[i] == hex_digit(bytes[k] as int % 16));
        }
    }
    assert(text =~= s);
}

/// A number below 16 has a lower-case digit, which stands for that number.
pub proof fn lemma_hex_digit(v: int)
    requires
        0 <= v < 16,
    ensures
        is_lower_hex_digit(hex_digit(v)),
        is_hex_digit(hex_digit(v)),
        hex_value(hex_digit(v)) == v,
        hex_digit(v) as int == if v < 10 { 48 + v } else { 87 + v },
{
}

/// The value of the hexadecimal digit that the ASCII byte `b` writes, if it
/// writes one.
fn digit_value(b: u8) -> (v: Option<u8>)
    ensures
        match v {
            Some(d) => is_hex_digit(b as char) && d == hex_value(b as char),
            None => !is_hex_digit(b as char),
        },
{
    if 48 <= b && b <= 57 {
        Some(b - 48)
    } else if 97 <= b && b <= 102 {
        Some(b - 87)
    } else if 65 <= b && b <= 70 {
        Some(b - 55)
    } else {
        None
    }
}

/// Whether `sha` is a digest in text form: exactly 40 hexadecimal characters.
pub fn is_valid_hex_sha(sha: &str) -> (valid: bool)
    ensures
        valid == is_hex_sha(sha@),
{
    proof {
        lemma_hex_is_ascii(sha@);
        if is_ascii_chars(sha@) {
            is_ascii_chars_encode_utf8(sha@);
        }
    }
    let raw = sha.as_bytes();
    if raw.len() != 40 || !sha.is_ascii() {
        return false;
    }
    let mut i: usize = 0;
    while i < 40
        invariant
            i <= 40,
            raw@.len() == 40,
            sha@.len() == 40,
            is_ascii_chars(sha@),
            forall|j: int| 0 <= j < 40 ==> sha@[j] as u8 == #[trigger] raw@[j],
            forall|j: int| 0 <= j < i ==> is_hex_digit(#[trigger] sha@[j]),
        decreases 40 - i,
    {
        let b = raw[i];
        proof {
            lemma_ascii_char_of_byte(sha@[i as int]);
        }
        if digit_value(b).is_none() {
            return false;
        }
        i += 1;
    }
    true
}

/// A hexadecimal text is an ASCII text.
pub proof fn lemma_hex_is_ascii(s: Seq<char>)
    ensures
        (forall|i: int| 0 <= i < s.len() ==> is_hex_digit(#[trigger] s[i])) ==> is_ascii_chars(s),
{
    if forall|i: int| 0 <= i < s.len() ==> is_hex_digit(#[trigger] s[i]) {
        assert forall|i: int| 0 <= i < s.len() implies '\0' <= #[trigger] s[i] <= '\u{7f}' by {
            assert(is_hex_digit(s[i]));
        }
    }
}

/// An ASCII character is the character of its own byte.
pub proof fn lemma_ascii_char_of_byte(c: char)
    requires
        '\0' <= c <= '\u{7f}',
    ensures
        (c as u8) as char == c,
        c as u8 == c as int,
{
}

/// The 20 raw bytes of a digest given in text form; `InvalidDigest` where the
/// text is not 40 hexadecimal characters.
pub fn hex_to_20_bytes(sha_hex: &str) -> (out: Result<[u8; 20], StoreError>)
    ensures
        match out {
            Ok(raw) => is_hex_sha(sha_hex@) && raw@ == hex_decode(sha_hex@),
            Err(e) => !is_hex_sha(sha_hex@) && e == StoreError::InvalidDigest,
        },
{
    if !is_valid_hex_sha(sha_hex) {
        return Err(StoreError::InvalidDigest);
    }
    proof {
        lemma_hex_is_ascii(sha_hex@);
        is_ascii_chars_encode_utf8(sha_hex@);
    }
    let text = sha_hex.as_bytes();
    let mut out: [u8; 20] = [0u8; 20];
    let mut i: usize = 0;
    while i < 20
        invariant
            i <= 20,
            text@.len() == 40,
            is_hex_sha(sha_hex@),
            forall|j: int| 0 <= j < 40 ==> sha_hex@[j] as u8 == #[trigger] text@[j],
            forall|j: int| 0 <= j < i ==> #[trigger] out@[j] == hex_decode(sha_hex@)[j],
        decreases 20 - i,
    {
        proof {
            assert(is_hex_digit(sha_hex@[2 * i]));
            assert(is_hex_digit(sha_hex@[2 * i + 1]));
            lemma_ascii_char_of_byte(sha_hex@[2 * i]);
            lemma_ascii_char_of_byte(sha_hex@[2 * i + 1]);
        }
        let high = digit_value(text[2 * i]);
        let low = digit_value(text[2 * i + 1]);
        match (high, low) {
            (Some(h), Some(l)) => {
                out[i] = 16 * h + l;
            },
            _ => {
                assert(false);
            },
        }
        i += 1;
    }
    assert(out@ =~= hex_decode(sha_hex@));
    Ok(out)
}

/// The lower-case digit for a number below 16.
fn lower_digit(v: u8) -> (c: char)
    requires
        v < 16,
    ensures
        c == hex_digit(v as int),
{
    if v < 10 {
        (48u8 + v) as char
    } else {
        (87u8 + v) as char
    }
}

/// The hexadecimal text of `bytes`, in lower case.
pub fn to_hex(bytes: &[u8]) -> (text: String)
    ensures
        text@ == hex_lower(bytes@),
{
    let mut text = String::new();
    let n = bytes.len();
    let mut i: usize = 0;
    while i < n
        invariant
            n == bytes@.len(),
            i <= n,
            text@ == hex_lower(bytes@.take(i as int)),
        decreases n - i,
    {
        let b = bytes[i];
        text.push(lower_digit(b / 16));
        text.push(lower_digit(b % 16));
        assert(text@ =~= hex_lower(bytes@.take(i + 1)));
        i += 1;
    }
    assert(bytes@.take(n as int) =~= bytes@);
    text
}

/// `String::push` of the standard library: the character is added at the end
/// and nothing else changes.
pub assume_specification[ String::push ](s: &mut String, c: char)
    ensures
        final(s)@ == old(s)@.push(c),
;

} // verus!
