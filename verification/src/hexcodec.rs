//! Hexadecimal text of identity hashes, through the `hex` crate, and the
//! identity hashes of configuration values.

use vstd::prelude::*;
use vstd::utf8::encode_utf8;

use crate::text::{is_white_space, lemma_encode_utf8_low_bytes, trim, trimmed};

verus! {

/// The value of the hexadecimal digit `c` (either case), or `-1` when `c`
/// is no hexadecimal digit.
pub open spec fn hex_digit_value(c: u8) -> int {
    if 0x30 <= c <= 0x39 {
        c - 0x30
    } else if 0x61 <= c <= 0x66 {
        c - 0x61 + 10
    } else if 0x41 <= c <= 0x46 {
        c - 0x41 + 10
    } else {
        -1
    }
}

/// `text` is hexadecimal: of even length, and made of digits only.
pub open spec fn is_hex_text(text: Seq<u8>) -> bool {
    &&& text.len() % 2 == 0
    &&& forall|i: int| 0 <= i < text.len() ==> hex_digit_value(#[trigger] text[i]) >= 0
}

/// The bytes that the hexadecimal `text` spells, two digits per byte, the
/// high half first.
pub open spec fn hex_decoded(text: Seq<u8>) -> Seq<u8> {
    Seq::new(
        text.len() / 2,
        |i: int| (hex_digit_value(text[2 * i]) * 16 + hex_digit_value(text[2 * i + 1])) as u8,
    )
}

/// Calls `hex::decode`. Trusted: it accepts exactly the hexadecimal texts
/// (even length, digits of either case) and gives the bytes they spell.
#[verifier::external_body]
fn hex_decode(text: &str) -> (r: Option<Vec<u8>>)
    ensures
        match r {
            Some(bytes) => is_hex_text(encode_utf8(text@)) && bytes@ == hex_decoded(encode_utf8(text@)),
            None => !is_hex_text(encode_utf8(text@)),
        },
{
    hex::decode(text).ok()
}

/// The lower-case hexadecimal digit for `d < 16`.
pub open spec fn hex_digit_char(d: int) -> char {
    if d < 10 {
        (0x30 + d) as char
    } else {
        (0x61 + d - 10) as char
    }
}

/// The lower-case hexadecimal text of `bytes`, two digits per byte, the
/// high half first.
pub open spec fn hex_text(bytes: Seq<u8>) -> Seq<char> {
    Seq::new(
        2 * bytes.len(),
        |i: int|
            if i % 2 == 0 {
                hex_digit_char(bytes[i / 2] as int / 16)
            } else {
                hex_digit_char(bytes[i / 2] as int % 16)
            },
    )
}

/// Calls `hex::encode`. Trusted: the result is the lower-case hexadecimal
/// text of `bytes`.
#[verifier::external_body]
fn hex_encode(bytes: &[u8]) -> (r: String)
    ensures
        r@ == hex_text(bytes@),
{
    hex::encode(bytes)
}

/// The lower-case hexadecimal text of an identity hash.
pub fn identity_hex(hash: &[u8; 16]) -> (r: String)
    ensures
        r@ == hex_text(hash@),
{
    hex_encode(hash.as_slice())
}

/// An ASCII letter or digit.
pub open spec fn is_ascii_alphanumeric(c: char) -> bool {
    ('0' <= c <= '9') || ('a' <= c <= 'z') || ('A' <= c <= 'Z')
}

/// A hexadecimal digit character, of either case.
pub open spec fn is_hex_digit_char(c: char) -> bool {
    ('0' <= c <= '9') || ('a' <= c <= 'f') || ('A' <= c <= 'F')
}

/// The identity hash that the already trimmed text `text` spells, when it
/// is valid hexadecimal for exactly 16 bytes.
pub open spec fn identity_hash_of_trimmed(text: Seq<char>) -> Option<Seq<u8>> {
    let bytes = encode_utf8(text);
    if is_hex_text(bytes) && hex_decoded(bytes).len() == 16 {
        Some(hex_decoded(bytes))
    } else {
        None
    }
}

/// The identity hash that the configuration text `s` holds: `s` trimmed,
/// read as hexadecimal, when that gives exactly 16 bytes.
pub open spec fn identity_hash_of(s: Seq<char>) -> Option<Seq<u8>> {
    identity_hash_of_trimmed(trimmed(s))
}

/// Reads `text` (already trimmed) as the hexadecimal text of an identity
/// hash; `None` unless it is exactly 16 bytes of valid hexadecimal.
pub fn parse_trimmed_identity_hash(text: &str) -> (r: Option<[u8; 16]>)
    ensures
        match r {
            Some(h) => identity_hash_of_trimmed(text@) == Some(h@),
            None => identity_hash_of_trimmed(text@) is None,
        },
{
    let bytes = match hex_decode(text) {
        Some(b) => b,
        None => return None,
    };
    if bytes.len() != 16 {
        return None;
    }
    let mut out = [0u8; 16];
    let mut i: usize = 0;
    while i < 16
        invariant
            i <= 16,
            bytes@.len() == 16,
            out@.len() == 16,
            forall|k: int| 0 <= k < i ==> out@[k] == bytes@[k],
        decreases 16 - i,
    {
        out[i] = bytes[i];
        i = i + 1;
    }
    assert(out@ =~= bytes@);
    Some(out)
}

/// Reads an identity hash written in hexadecimal, ignoring surrounding
/// whitespace; `None` unless it is exactly 16 bytes of valid hexadecimal.
pub fn parse_identity_hash(s: &str) -> (r: Option<[u8; 16]>)
    ensures
        match r {
            Some(h) => identity_hash_of(s@) == Some(h@),
            None => identity_hash_of(s@) is None,
        },
{
    parse_trimmed_identity_hash(trim(s))
}

/// Text that neither starts nor ends with white space is its own trimmed
/// text.
pub proof fn lemma_trimmed_unchanged(s: Seq<char>)
    requires
        s.len() == 0 || (!is_white_space(s[0]) && !is_white_space(s.last())),
    ensures
        trimmed(s) == s,
{
}

/// Reading an identity hash succeeds exactly on 32 hexadecimal digits (of
/// either case) once trimmed.
pub proof fn lemma_identity_hash_iff_32_hex_digits(text: Seq<char>)
    ensures
        identity_hash_of_trimmed(text) is Some <==> (text.len() == 32 && forall|k: int|
            0 <= k < text.len() ==> is_hex_digit_char(#[trigger] text[k])),
{
    let b = encode_utf8(text);
    if text.len() == 32 && forall|k: int| 0 <= k < text.len() ==> is_hex_digit_char(#[trigger] text[k]) {
        assert(vstd::utf8::is_ascii_chars(text)) by {
            assert forall|k: int| 0 <= k < text.len() implies '\0' <= #[trigger] text[k] <= '\u{7f}' by {
                assert(is_hex_digit_char(text[k]));
            }
        }
        vstd::utf8::is_ascii_chars_encode_utf8(text);
        assert forall|k: int| 0 <= k < b.len() implies hex_digit_value(#[trigger] b[k]) >= 0 by {
            assert(b[k] == text[k] as u8);
            assert(is_hex_digit_char(text[k]));
        }
    }
    if identity_hash_of_trimmed(text) is Some {
        assert forall|k: int| 0 <= k < b.len() implies #[trigger] b[k] < 0x80 by {
            assert(hex_digit_value(b[k]) >= 0);
        }
        lemma_encode_utf8_low_bytes(text);
        vstd::utf8::is_ascii_chars_encode_utf8(text);
        assert forall|k: int| 0 <= k < text.len() implies is_hex_digit_char(#[trigger] text[k]) by {
            assert(b[k] == text[k] as u8);
            assert(hex_digit_value(b[k]) >= 0);
            assert('\0' <= text[k] <= '\u{7f}');
        }
    }
}

/// Hexadecimal text of any bytes reads back as those bytes, and starts and
/// ends with a digit or letter (so trimming keeps it whole): an identity
/// printed by `hex::encode` can be written into the allow-list as it is.
pub proof fn lemma_hex_round_trip(h: Seq<u8>)
    requires
        h.len() > 0,
    ensures
        is_hex_text(encode_utf8(hex_text(h))),
        hex_decoded(encode_utf8(hex_text(h))) == h,
        is_ascii_alphanumeric(hex_text(h)[0]),
        is_ascii_alphanumeric(hex_text(h).last()),
        h.len() == 16 ==> identity_hash_of(hex_text(h)) == Some(h),
{
    let t = hex_text(h);
    assert forall|i: int| 0 <= i < t.len() implies ('0' <= #[trigger] t[i] <= 'f') && (t[i] as u8
        == t[i] as int) && hex_digit_value(t[i] as u8) == (if i % 2 == 0 {
        h[i / 2] as int / 16
    } else {
        h[i / 2] as int % 16
    }) && is_ascii_alphanumeric(t[i]) by {
        let d: int = if i % 2 == 0 { h[i / 2] as int / 16 } else { h[i / 2] as int % 16 };
        assert(0 <= d < 16);
        assert(t[i] == hex_digit_char(d));
    }
    assert(vstd::utf8::is_ascii_chars(t));
    vstd::utf8::is_ascii_chars_encode_utf8(t);
    let b = encode_utf8(t);
    assert forall|i: int| 0 <= i < b.len() implies hex_digit_value(#[trigger] b[i]) >= 0 by {
        assert(b[i] == t[i] as u8);
    }
    assert forall|k: int| 0 <= k < h.len() implies #[trigger] hex_decoded(b)[k] == h[k] by {
        assert(b[2 * k] == t[2 * k] as u8);
        assert(b[2 * k + 1] == t[2 * k + 1] as u8);
        assert((2 * k) % 2 == 0 && (2 * k) / 2 == k);
        assert((2 * k + 1) % 2 == 1 && (2 * k + 1) / 2 == k);
        let v = h[k];
        assert((v / 16) * 16 + v % 16 == v);
    }
    assert(hex_decoded(b) =~= h);
    assert(!is_white_space(t[0]) && !is_white_space(t.last()));
    lemma_trimmed_unchanged(t);
}

} // verus!
