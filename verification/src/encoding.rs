//! Identifier and path encodings for the AAS HTTP surface.
//!
//! Identifiers travel base64url-encoded without padding; idShortPaths are
//! percent-encoded with an explicit escape set that keeps square brackets
//! for list element addressing. The percent coder is implemented and
//! verified here down to its round trip; base64 is the outside engine
//! behind a trusted contract.

use vstd::prelude::*;
use vstd::utf8::{
    decode_utf8, decode_utf8_encode_utf8, encode_utf8, encode_utf8_valid_utf8,
    is_leading_byte_width_1, partial_valid_utf8, partial_valid_utf8_extend_ascii_block,
    valid_utf8,
};
use crate::strutil::string_from_utf8;

verus! {

/// Errors of the identifier and path codecs.
#[derive(Debug, PartialEq, Eq)]
pub enum EncodingError {
    /// The input was not valid base64url
    Base64Decode(String),
    /// The decoded bytes were not valid UTF-8
    Utf8Decode(String),
}

impl EncodingError {
    /// A human-readable rendering of the error.
    pub fn message(&self) -> (r: &str) {
        match self {
            EncodingError::Base64Decode(s) => s.as_str(),
            EncodingError::Utf8Decode(s) => s.as_str(),
        }
    }
}

/// What the base64url-without-padding encoding of a byte sequence reads as.
pub uninterp spec fn b64url_of(bytes: Seq<u8>) -> Seq<char>;

/// Whether a character belongs to the url-safe base64 alphabet
/// `A-Z a-z 0-9 - _`.
pub open spec fn b64url_alphabet(c: char) -> bool {
    ||| ('A' as u32 <= c as u32 && c as u32 <= 'Z' as u32)
    ||| ('a' as u32 <= c as u32 && c as u32 <= 'z' as u32)
    ||| ('0' as u32 <= c as u32 && c as u32 <= '9' as u32)
    ||| c == '-'
    ||| c == '_'
}

/// Relies on base64's URL_SAFE_NO_PAD engine: the encoding is a function
/// of the bytes alone, every character of it is in the url-safe alphabet
/// `A-Z a-z 0-9 - _`, and there is no padding, so it never contains `=`,
/// `+` or `/`.
#[verifier::external_body]
fn b64url_encode(bytes: &[u8]) -> (r: String)
    ensures
        r@ == b64url_of(bytes@),
        forall|i: int| 0 <= i < r@.len() ==> b64url_alphabet(#[trigger] r@[i]),
{
    base64::Engine::encode(&base64::engine::general_purpose::URL_SAFE_NO_PAD, bytes)
}

/// Relies on base64's URL_SAFE_NO_PAD engine: decoding inverts encoding,
/// so what some byte sequence encodes to never fails to decode, and
/// decodes back to exactly that sequence.
#[verifier::external_body]
fn b64url_decode(s: &str) -> (r: Result<Vec<u8>, String>)
    ensures
        r matches Ok(v) ==> forall|b: Seq<u8>| s@ == b64url_of(b) ==> v@ == b,
        r is Err ==> forall|b: Seq<u8>| s@ != b64url_of(b),
{
    match base64::Engine::decode(&base64::engine::general_purpose::URL_SAFE_NO_PAD, s) {
        Ok(v) => Ok(v),
        Err(e) => Err(e.to_string()),
    }
}

/// Encode an AAS identifier as base64url without padding. Every character
/// of the result is in the url-safe alphabet, so it never contains `=`,
/// `+` or `/`.
pub fn encode_id_base64url(id: &str) -> (r: String)
    ensures
        r@ == b64url_of(encode_utf8(id@)),
        forall|i: int| 0 <= i < r@.len() ==> b64url_alphabet(#[trigger] r@[i]),
        forall|i: int|
            0 <= i < r@.len() ==> r@[i] != '=' && r@[i] != '+' && r@[i] != '/',
{
    let r = b64url_encode(id.as_bytes());
    proof {
        assert forall|i: int| 0 <= i < r@.len() implies r@[i] != '=' && r@[i] != '+' && r@[i]
            != '/' by {
            assert(b64url_alphabet(r@[i]));
            assert('=' as u32 == 61 && '+' as u32 == 43 && '/' as u32 == 47);
        }
    }
    r
}

/// Decode a base64url-encoded AAS identifier. Whatever
/// [`encode_id_base64url`] produced decodes back to the original
/// identifier; other inputs yield the identifier they spell, or an error.
pub fn decode_id_base64url(encoded: &str) -> (r: Result<String, EncodingError>)
    ensures
        forall|x: Seq<char>|
            encoded@ == b64url_of(#[trigger] encode_utf8(x)) ==> r is Ok && r->Ok_0@ == x,
{
    broadcast use encode_utf8_valid_utf8;

    match b64url_decode(encoded) {
        Ok(bytes) => {
            let ghost bs = bytes@;
            match string_from_utf8(bytes) {
                Some(s) => {
                    proof {
                        assert forall|x: Seq<char>|
                            encoded@ == b64url_of(#[trigger] encode_utf8(x)) implies s@ == x by {
                            assert(bs == encode_utf8(x));
                            vstd::utf8::encode_utf8_decode_utf8(x);
                        }
                    }
                    Ok(s)
                },
                None => {
                    proof {
                        assert forall|x: Seq<char>|
                            encoded@ != b64url_of(#[trigger] encode_utf8(x)) by {
                            if encoded@ == b64url_of(encode_utf8(x)) {
                                assert(bs == encode_utf8(x));
                                assert(valid_utf8(bs));
                            }
                        }
                    }
                    Err(EncodingError::Utf8Decode(String::from_str("invalid UTF-8")))
                },
            }
        },
        Err(e) => Err(EncodingError::Base64Decode(e)),
    }
}

/// Whether the path coder escapes a byte: controls, the delete byte,
/// everything non-ASCII, and the explicit set
/// space `" # % < > ` ? { } / \` — while `[` and `]` pass through for
/// list element addressing.
pub open spec fn pct_escaped(b: u8) -> bool {
    ||| b < 0x20
    ||| b == 0x7f
    ||| b >= 0x80
    ||| b == 0x20
    ||| b == 0x22
    ||| b == 0x23
    ||| b == 0x25
    ||| b == 0x3c
    ||| b == 0x3e
    ||| b == 0x60
    ||| b == 0x3f
    ||| b == 0x7b
    ||| b == 0x7d
    ||| b == 0x2f
    ||| b == 0x5c
}

/// The uppercase hex digit byte of a value below sixteen.
pub open spec fn spec_hex_byte(n: u8) -> u8 {
    if n < 10 {
        (0x30 + n) as u8
    } else {
        (0x37 + n) as u8
    }
}

/// The numeric value of a hex digit byte, either case; -1 otherwise.
pub open spec fn hex_val(b: u8) -> int {
    if 0x30 <= b <= 0x39 {
        b - 0x30
    } else if 0x41 <= b <= 0x46 {
        b - 0x41 + 10
    } else if 0x61 <= b <= 0x66 {
        b - 0x61 + 10
    } else {
        -1
    }
}

/// The percent-coded form of one byte.
pub open spec fn spec_pct_byte(b: u8) -> Seq<u8> {
    if pct_escaped(b) {
        seq![0x25u8, spec_hex_byte(b / 16), spec_hex_byte(b % 16)]
    } else {
        seq![b]
    }
}

/// The percent-coded form of a byte sequence.
pub open spec fn spec_pct_encode(bytes: Seq<u8>) -> Seq<u8>
    decreases bytes.len(),
{
    if bytes.len() == 0 {
        Seq::empty()
    } else {
        spec_pct_byte(bytes[0]) + spec_pct_encode(bytes.drop_first())
    }
}

/// The percent-decoded form of a byte sequence: a `%` followed by two hex
/// digits reads as one byte, anything else passes through unchanged.
pub open spec fn spec_pct_decode(s: Seq<u8>) -> Seq<u8>
    decreases s.len(),
{
    if s.len() == 0 {
        Seq::empty()
    } else if s[0] == 0x25 && s.len() >= 3 && hex_val(s[1]) >= 0 && hex_val(s[2]) >= 0 {
        seq![(hex_val(s[1]) * 16 + hex_val(s[2])) as u8] + spec_pct_decode(s.skip(3))
    } else {
        seq![s[0]] + spec_pct_decode(s.skip(1))
    }
}

/// Percent coding round-trips: decoding what the coder produced gives the
/// original bytes back.
pub proof fn lemma_pct_roundtrip(bytes: Seq<u8>)
    ensures
        spec_pct_decode(spec_pct_encode(bytes)) == bytes,
    decreases bytes.len(),
{
    reveal_with_fuel(spec_pct_encode, 2);
    reveal_with_fuel(spec_pct_decode, 2);
    if bytes.len() == 0 {
        assert(spec_pct_decode(spec_pct_encode(bytes)) =~= bytes);
    } else {
        let b = bytes[0];
        let rest = bytes.drop_first();
        let s = spec_pct_encode(bytes);
        lemma_pct_roundtrip(rest);
        if pct_escaped(b) {
            assert(s =~= seq![0x25u8, spec_hex_byte(b / 16), spec_hex_byte(b % 16)]
                + spec_pct_encode(rest));
            assert(hex_val(spec_hex_byte(b / 16)) == b / 16);
            assert(hex_val(spec_hex_byte(b % 16)) == b % 16);
            assert(s[0] == 0x25 && s.len() >= 3);
            assert((hex_val(s[1]) * 16 + hex_val(s[2])) as u8 == b);
            assert(s.skip(3) =~= spec_pct_encode(rest));
            assert(spec_pct_decode(s) =~= seq![b] + rest);
            assert(seq![b] + rest =~= bytes);
        } else {
            assert(s =~= seq![b] + spec_pct_encode(rest));
            assert(s[0] == b && b != 0x25);
            if s.len() >= 3 && s[0] == 0x25 && hex_val(s[1]) >= 0 && hex_val(s[2]) >= 0 {
                assert(false);
            }
            assert(s.skip(1) =~= spec_pct_encode(rest));
            assert(spec_pct_decode(s) =~= seq![b] + rest);
            assert(seq![b] + rest =~= bytes);
        }
    }
}

/// The coder's output is pure ASCII.
pub proof fn lemma_pct_encode_ascii(bytes: Seq<u8>)
    ensures
        forall|i: int|
            0 <= i < spec_pct_encode(bytes).len() ==> #[trigger] spec_pct_encode(bytes)[i] < 0x80,
    decreases bytes.len(),
{
    reveal_with_fuel(spec_pct_encode, 2);
    if bytes.len() > 0 {
        lemma_pct_encode_ascii(bytes.drop_first());
        assert forall|i: int|
            0 <= i < spec_pct_encode(bytes).len() implies #[trigger] spec_pct_encode(bytes)[i]
            < 0x80 by {
            let head = spec_pct_byte(bytes[0]);
            if i >= head.len() {
                assert(spec_pct_encode(bytes)[i] == spec_pct_encode(bytes.drop_first())[i
                    - head.len()]);
            }
        }
    }
}

/// An all-ASCII byte sequence is valid UTF-8.
pub proof fn lemma_ascii_valid_utf8(bytes: Seq<u8>)
    requires
        forall|i: int| 0 <= i < bytes.len() ==> #[trigger] bytes[i] < 0x80,
    ensures
        valid_utf8(bytes),
{
    assert(bytes.subrange(0, 0) =~= Seq::<u8>::empty());
    assert(valid_utf8(Seq::<u8>::empty()));
    assert(partial_valid_utf8(bytes, 0));
    assert forall|i: int| 0 <= 0 <= i < bytes.len() <= bytes.len() implies #[trigger]
        is_leading_byte_width_1(bytes[i]) by {
        assert(bytes[i] < 0x80);
    }
    partial_valid_utf8_extend_ascii_block(bytes, 0, bytes.len() as int);
    assert(bytes.subrange(0, bytes.len() as int) =~= bytes);
}

/// The hex digit byte of a value below sixteen.
fn hex_byte(n: u8) -> (r: u8)
    requires
        n < 16,
    ensures
        r == spec_hex_byte(n),
{
    if n < 10 {
        0x30 + n
    } else {
        0x37 + n
    }
}

/// Percent-encode an idShortPath for use in a URL path segment. Square
/// brackets pass through so list element addressing stays readable; the
/// escape set covers `/`, spaces, controls, non-ASCII bytes and
/// `" # % < > ` ? { }` and the backslash.
pub fn encode_idshort_path(path: &str) -> (r: String)
    ensures
        encode_utf8(r@) == spec_pct_encode(encode_utf8(path@)),
{
    let bytes = path.as_bytes();
    let n = bytes.len();
    let mut out: Vec<u8> = Vec::new();
    let mut i: usize = 0;
    while i < n
        invariant
            n == bytes@.len(),
            i <= n,
            out@ == spec_pct_encode(bytes@.take(i as int)),
        decreases n - i,
    {
        let b = bytes[i];
        let escape = b < 0x20 || b == 0x7f || b >= 0x80 || b == 0x20 || b == 0x22 || b == 0x23
            || b == 0x25 || b == 0x3c || b == 0x3e || b == 0x60 || b == 0x3f || b == 0x7b
            || b == 0x7d || b == 0x2f || b == 0x5c;
        if escape {
            out.push(0x25);
            out.push(hex_byte(b / 16));
            out.push(hex_byte(b % 16));
        } else {
            out.push(b);
        }
        i += 1;
        proof {
            lemma_pct_encode_snoc(bytes@.take(i - 1), bytes@[i - 1]);
            assert(bytes@.take(i as int) =~= bytes@.take(i - 1).push(bytes@[i - 1]));
            assert(out@ =~= spec_pct_encode(bytes@.take(i as int)));
        }
    }
    proof {
        assert(bytes@.take(n as int) =~= bytes@);
        lemma_pct_encode_ascii(bytes@);
        lemma_ascii_valid_utf8(out@);
    }
    let ghost ob = out@;
    match string_from_utf8(out) {
        Some(s) => {
            proof {
                decode_utf8_encode_utf8(ob);
            }
            s
        },
        None => {
            proof {
                assert(false);
            }
            String::new()
        },
    }
}

/// Appending one byte appends its coded form.
pub proof fn lemma_pct_encode_snoc(bytes: Seq<u8>, b: u8)
    ensures
        spec_pct_encode(bytes.push(b)) == spec_pct_encode(bytes) + spec_pct_byte(b),
    decreases bytes.len(),
{
    reveal_with_fuel(spec_pct_encode, 3);
    if bytes.len() == 0 {
        assert(bytes.push(b)[0] == b);
        assert(bytes.push(b).drop_first() =~= Seq::<u8>::empty());
        assert(spec_pct_encode(bytes.push(b)) =~= spec_pct_byte(b));
        assert(spec_pct_encode(bytes) + spec_pct_byte(b) =~= spec_pct_byte(b));
    } else {
        assert(bytes.push(b)[0] == bytes[0]);
        assert(bytes.push(b).drop_first() =~= bytes.drop_first().push(b));
        lemma_pct_encode_snoc(bytes.drop_first(), b);
        assert(spec_pct_encode(bytes.push(b)) =~= spec_pct_encode(bytes) + spec_pct_byte(b));
    }
}

/// Percent-decode an idShortPath. Whatever [`encode_idshort_path`]
/// produced decodes back to the original path; other inputs decode their
/// percent escapes and fail only where the decoded bytes are not UTF-8.
pub fn decode_idshort_path(encoded: &str) -> (r: Result<String, EncodingError>)
    ensures
        r matches Ok(s) ==> valid_utf8(spec_pct_decode(encode_utf8(encoded@))) && s@
            == decode_utf8(spec_pct_decode(encode_utf8(encoded@))),
        r is Err ==> !valid_utf8(spec_pct_decode(encode_utf8(encoded@))),
{
    let bytes = encoded.as_bytes();
    let n = bytes.len();
    let ghost full = bytes@;
    let mut out: Vec<u8> = Vec::new();
    let mut i: usize = 0;
    proof {
        assert(full.skip(0) =~= full);
        assert(Seq::<u8>::empty() + spec_pct_decode(full) =~= spec_pct_decode(full));
    }
    while i < n
        invariant
            n == full.len(),
            bytes@ == full,
            i <= n,
            spec_pct_decode(full) == out@ + spec_pct_decode(full.skip(i as int)),
        decreases n - i,
    {
        let ghost rem = full.skip(i as int);
        if bytes[i] == 0x25 && n - i > 2 {
            let h = hex_val_exec(bytes[i + 1]);
            let l = hex_val_exec(bytes[i + 2]);
            match (h, l) {
                (Some(hv), Some(lv)) => {
                    out.push(hv * 16 + lv);
                    i += 3;
                    proof {
                        assert(rem[0] == 0x25 && rem.len() >= 3);
                        assert(rem[1] == full[i - 2] && rem[2] == full[i - 1]);
                        assert(rem.skip(3) =~= full.skip(i as int));
                        assert(spec_pct_decode(rem) =~= seq![(hex_val(rem[1]) * 16 + hex_val(
                            rem[2],
                        )) as u8] + spec_pct_decode(full.skip(i as int)));
                        assert(out@ + spec_pct_decode(full.skip(i as int)) =~= spec_pct_decode(
                            full,
                        ));
                    }
                },
                _ => {
                    out.push(bytes[i]);
                    i += 1;
                    proof {
                        assert(rem[0] == 0x25);
                        assert(rem.len() >= 3);
                        assert(hex_val(rem[1]) < 0 || hex_val(rem[2]) < 0);
                        assert(rem.skip(1) =~= full.skip(i as int));
                        assert(spec_pct_decode(rem) =~= seq![rem[0]] + spec_pct_decode(
                            full.skip(i as int),
                        ));
                        assert(out@ + spec_pct_decode(full.skip(i as int)) =~= spec_pct_decode(
                            full,
                        ));
                    }
                },
            }
        } else {
            out.push(bytes[i]);
            i += 1;
            proof {
                assert(rem[0] == full[i - 1]);
                assert(rem.len() < 3 ==> !(rem[0] == 0x25 && rem.len() >= 3));
                assert(rem.skip(1) =~= full.skip(i as int));
                assert(spec_pct_decode(rem) =~= seq![rem[0]] + spec_pct_decode(
                    full.skip(i as int),
                ));
                assert(out@ + spec_pct_decode(full.skip(i as int)) =~= spec_pct_decode(full));
            }
        }
    }
    proof {
        assert(full.skip(n as int) =~= Seq::<u8>::empty());
        assert(out@ =~= spec_pct_decode(full));
    }
    let ghost ob = out@;
    match string_from_utf8(out) {
        Some(s) => Ok(s),
        None => Err(EncodingError::Utf8Decode(String::from_str("invalid UTF-8"))),
    }
}

/// The numeric value of a hex digit byte, either case.
fn hex_val_exec(b: u8) -> (r: Option<u8>)
    ensures
        r matches Some(v) ==> hex_val(b) == v && v < 16,
        r is None ==> hex_val(b) < 0,
{
    if 0x30 <= b && b <= 0x39 {
        Some(b - 0x30)
    } else if 0x41 <= b && b <= 0x46 {
        Some(b - 0x41 + 10)
    } else if 0x61 <= b && b <= 0x66 {
        Some(b - 0x61 + 10)
    } else {
        None
    }
}

/// The id codec round-trips on every identifier, and the path codec
/// round-trips on every path: both directly from the codecs' contracts,
/// stated here once over the underlying byte codings.
pub proof fn lemma_encoding_roundtrips(bytes: Seq<u8>, chars: Seq<char>)
    ensures
        spec_pct_decode(spec_pct_encode(bytes)) == bytes,
        spec_pct_decode(spec_pct_encode(encode_utf8(chars))) == encode_utf8(chars),
        decode_utf8(encode_utf8(chars)) == chars,
{
    lemma_pct_roundtrip(bytes);
    lemma_pct_roundtrip(encode_utf8(chars));
    vstd::utf8::encode_utf8_decode_utf8(chars);
}

} // verus!
