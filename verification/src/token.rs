//! Continuation tokens: the last returned key of a page, in URL-safe base64.
//!
//! A token is not authenticated. It reveals the last returned key to anyone, and any string
//! encodes to a valid one. It exists for pagination continuity alone.

use crate::text::lemma_encode_injective;
use base64::engine::general_purpose::{STANDARD, URL_SAFE_NO_PAD};
use base64::Engine;
use vstd::prelude::*;
use vstd::utf8::{encode_utf8, encode_utf8_valid_utf8, valid_utf8};

verus! {

// ---------------------------------------------------------------------------------------
// Base64
// ---------------------------------------------------------------------------------------

/// A base64 variant: with `-` and `_` for the last two symbols and no padding, or with `+`
/// and `/` and padded to a multiple of four.
#[derive(Debug, Clone, Copy, PartialEq, Eq, Structural)]
pub enum Base64 {
    UrlSafe,
    Standard,
}

/// The ASCII code of the symbol for the six bits `v`.
pub open spec fn symbol(kind: Base64, v: int) -> u8 {
    if v < 26 {
        (v + 65) as u8
    } else if v < 52 {
        (v + 71) as u8
    } else if v < 62 {
        (v - 4) as u8
    } else if kind == Base64::UrlSafe {
        if v == 62 {
            45u8
        } else {
            95u8
        }
    } else {
        if v == 62 {
            43u8
        } else {
            47u8
        }
    }
}

/// `n` padding characters, where the variant has any.
pub open spec fn padding(kind: Base64, n: nat) -> Seq<u8> {
    if kind == Base64::Standard {
        Seq::new(n, |i: int| 61u8)
    } else {
        Seq::empty()
    }
}

/// The base64 text of `b`: four symbols for each three bytes, the rest filled up with zero
/// bits.
pub open spec fn base64_of(kind: Base64, b: Seq<u8>) -> Seq<u8>
    decreases b.len(),
{
    if b.len() == 0 {
        Seq::empty()
    } else if b.len() == 1 {
        seq![symbol(kind, b[0] as int / 4), symbol(kind, b[0] as int % 4 * 16)] + padding(kind, 2)
    } else if b.len() == 2 {
        seq![
            symbol(kind, b[0] as int / 4),
            symbol(kind, b[0] as int % 4 * 16 + b[1] as int / 16),
            symbol(kind, b[1] as int % 16 * 4),
        ] + padding(kind, 1)
    } else {
        seq![
            symbol(kind, b[0] as int / 4),
            symbol(kind, b[0] as int % 4 * 16 + b[1] as int / 16),
            symbol(kind, b[1] as int % 16 * 4 + b[2] as int / 64),
            symbol(kind, b[2] as int % 64),
        ] + base64_of(kind, b.skip(3))
    }
}

/// `text` is the base64 text of some bytes.
pub open spec fn is_base64(kind: Base64, text: Seq<u8>) -> bool {
    exists|b: Seq<u8>| text == #[trigger] base64_of(kind, b)
}

/// The bytes that `text` is the base64 text of.
pub open spec fn bytes_of(kind: Base64, text: Seq<u8>) -> Option<Seq<u8>> {
    if is_base64(kind, text) {
        Some(choose|b: Seq<u8>| text == #[trigger] base64_of(kind, b))
    } else {
        None
    }
}

/// Encode with `base64::engine::general_purpose::URL_SAFE_NO_PAD`: the text is the URL-safe,
/// unpadded base64 form of the bytes.
#[verifier::external_body]
fn url_safe_encode(bytes: &[u8]) -> (text: String)
    ensures
        encode_utf8(text@) == base64_of(Base64::UrlSafe, bytes@),
{
    URL_SAFE_NO_PAD.encode(bytes)
}

/// Decode with `base64::engine::general_purpose::URL_SAFE_NO_PAD`. It takes exactly the texts
/// that encoding yields: padding, other symbols, a lone last symbol and non-zero trailing bits
/// are all refused.
#[verifier::external_body]
fn url_safe_decode(text: &str) -> (bytes: Option<Vec<u8>>)
    ensures
        match bytes {
            Some(b) => encode_utf8(text@) == base64_of(Base64::UrlSafe, b@),
            None => !is_base64(Base64::UrlSafe, encode_utf8(text@)),
        },
{
    URL_SAFE_NO_PAD.decode(text).ok()
}

/// Decode with `base64::engine::general_purpose::STANDARD`. It takes exactly the texts that
/// encoding yields: missing padding, other symbols and non-zero trailing bits are all refused.
#[verifier::external_body]
fn standard_decode(text: &str) -> (bytes: Option<Vec<u8>>)
    ensures
        match bytes {
            Some(b) => encode_utf8(text@) == base64_of(Base64::Standard, b@),
            None => !is_base64(Base64::Standard, encode_utf8(text@)),
        },
{
    STANDARD.decode(text).ok()
}

/// Convert with `std::string::String::from_utf8`: the string of these UTF-8 bytes, or `None`
/// if they are not valid UTF-8.
#[verifier::external_body]
pub(crate) fn string_from_utf8(bytes: Vec<u8>) -> (s: Option<String>)
    ensures
        match s {
            Some(t) => encode_utf8(t@) == bytes@,
            None => !valid_utf8(bytes@),
        },
{
    String::from_utf8(bytes).ok()
}

/// Which six bits a symbol stands for does not depend on the variant, and padding is no
/// symbol.
proof fn lemma_symbol(k1: Base64, v1: int, k2: Base64, v2: int)
    requires
        0 <= v1 < 64,
        0 <= v2 < 64,
    ensures
        symbol(k1, v1) == symbol(k2, v2) ==> v1 == v2,
        symbol(k1, v1) != 61u8,
{
}

/// The length of a base64 text.
proof fn lemma_base64_len(kind: Base64, b: Seq<u8>)
    ensures
        b.len() == 0 ==> base64_of(kind, b).len() == 0,
        b.len() == 1 ==> base64_of(kind, b).len() == if kind == Base64::Standard {
            4nat
        } else {
            2nat
        },
        b.len() == 2 ==> base64_of(kind, b).len() == if kind == Base64::Standard {
            4nat
        } else {
            3nat
        },
        b.len() >= 3 ==> base64_of(kind, b).len() >= 4,
{
}

/// A base64 text determines its bytes, also across the variants.
pub proof fn lemma_base64_determines(k1: Base64, b1: Seq<u8>, k2: Base64, b2: Seq<u8>)
    requires
        base64_of(k1, b1) == base64_of(k2, b2),
    ensures
        b1 == b2,
    decreases b1.len(),
{
    let t1 = base64_of(k1, b1);
    let t2 = base64_of(k2, b2);
    lemma_base64_len(k1, b1);
    lemma_base64_len(k2, b2);
    if b1.len() == 0 || b2.len() == 0 {
        assert(b1 =~= b2);
    } else {
        assert(t1[0] == t2[0] && t1[1] == t2[1]);
        lemma_symbol(k1, b1[0] as int / 4, k2, b2[0] as int / 4);
        let x1 = if b1.len() == 1 {
            0
        } else {
            b1[1] as int / 16
        };
        let x2 = if b2.len() == 1 {
            0
        } else {
            b2[1] as int / 16
        };
        assert(t1[1] == symbol(k1, b1[0] as int % 4 * 16 + x1));
        assert(t2[1] == symbol(k2, b2[0] as int % 4 * 16 + x2));
        lemma_symbol(k1, b1[0] as int % 4 * 16 + x1, k2, b2[0] as int % 4 * 16 + x2);
        assert(b1[0] == b2[0]);
        if b1.len() == 1 || b2.len() == 1 {
            lemma_third(k1, b1, k2, b2);
            lemma_third(k2, b2, k1, b1);
            assert(b1 =~= b2);
        } else {
            assert(t1[2] == t2[2]);
            let y1 = if b1.len() == 2 {
                0
            } else {
                b1[2] as int / 64
            };
            let y2 = if b2.len() == 2 {
                0
            } else {
                b2[2] as int / 64
            };
            assert(t1[2] == symbol(k1, b1[1] as int % 16 * 4 + y1));
            assert(t2[2] == symbol(k2, b2[1] as int % 16 * 4 + y2));
            lemma_symbol(k1, b1[1] as int % 16 * 4 + y1, k2, b2[1] as int % 16 * 4 + y2);
            assert(b1[1] == b2[1]);
            if b1.len() == 2 || b2.len() == 2 {
                lemma_fourth(k1, b1, k2, b2);
                lemma_fourth(k2, b2, k1, b1);
                assert(b1 =~= b2);
            } else {
                assert(t1[3] == t2[3]);
                lemma_symbol(k1, b1[2] as int % 64, k2, b2[2] as int % 64);
                assert(t1.skip(4) =~= base64_of(k1, b1.skip(3)));
                assert(t2.skip(4) =~= base64_of(k2, b2.skip(3)));
                lemma_base64_determines(k1, b1.skip(3), k2, b2.skip(3));
                assert(b1 =~= seq![b1[0], b1[1], b1[2]] + b1.skip(3));
                assert(b2 =~= seq![b2[0], b2[1], b2[2]] + b2.skip(3));
            }
        }
    }
}

/// After the symbols of a single byte comes no third symbol.
proof fn lemma_third(k1: Base64, b1: Seq<u8>, k2: Base64, b2: Seq<u8>)
    requires
        base64_of(k1, b1) == base64_of(k2, b2),
    ensures
        b1.len() == 1 ==> b2.len() <= 1,
{
    let t1 = base64_of(k1, b1);
    let t2 = base64_of(k2, b2);
    lemma_base64_len(k1, b1);
    lemma_base64_len(k2, b2);
    if b1.len() == 1 && b2.len() >= 2 {
        let y2 = if b2.len() == 2 {
            0
        } else {
            b2[2] as int / 64
        };
        assert(t2[2] == symbol(k2, b2[1] as int % 16 * 4 + y2));
        lemma_symbol(k2, b2[1] as int % 16 * 4 + y2, k2, 0);
        if k1 == Base64::Standard {
            assert(t1[2] == 61u8);
        }
    }
}

/// After the symbols of two bytes comes no fourth symbol.
proof fn lemma_fourth(k1: Base64, b1: Seq<u8>, k2: Base64, b2: Seq<u8>)
    requires
        base64_of(k1, b1) == base64_of(k2, b2),
    ensures
        b1.len() == 2 ==> b2.len() <= 2,
{
    let t1 = base64_of(k1, b1);
    let t2 = base64_of(k2, b2);
    lemma_base64_len(k1, b1);
    lemma_base64_len(k2, b2);
    if b1.len() == 2 && b2.len() >= 3 {
        assert(t2[3] == symbol(k2, b2[2] as int % 64));
        lemma_symbol(k2, b2[2] as int % 64, k2, 0);
        if k1 == Base64::Standard {
            assert(t1[3] == 61u8);
        }
    }
}

/// The bytes of a text are the ones it was encoded from.
proof fn lemma_bytes_of(kind: Base64, b: Seq<u8>)
    ensures
        bytes_of(kind, base64_of(kind, b)) == Some(b),
{
    let text = base64_of(kind, b);
    assert(is_base64(kind, text));
    let c = choose|c: Seq<u8>| text == #[trigger] base64_of(kind, c);
    lemma_base64_determines(kind, c, kind, b);
}

// ---------------------------------------------------------------------------------------
// Tokens
// ---------------------------------------------------------------------------------------

/// `token` is the continuation token of `key`.
pub open spec fn is_token_of(key: Seq<char>, token: Seq<char>) -> bool {
    encode_utf8(token) == base64_of(Base64::UrlSafe, encode_utf8(key))
}

/// The bytes that a token stands for: read as URL-safe base64, else as standard base64.
pub open spec fn token_bytes(token: Seq<char>) -> Option<Seq<u8>> {
    match bytes_of(Base64::UrlSafe, encode_utf8(token)) {
        Some(b) => Some(b),
        None => bytes_of(Base64::Standard, encode_utf8(token)),
    }
}

/// A token decodes to the key whose UTF-8 bytes it stands for.
pub open spec fn decodes_to(token: Seq<char>, key: Seq<char>) -> bool {
    token_bytes(token) == Some(encode_utf8(key))
}

/// Encode a continuation token: URL-safe base64 (no padding) of the last returned key.
pub fn encode_token(last_key: &str) -> (token: String)
    ensures
        is_token_of(last_key@, token@),
{
    url_safe_encode(last_key.as_bytes())
}

/// Decode a continuation token back into the resume key.
///
/// Accepts both the URL-safe unpadded form and standard padded base64. `None` for anything
/// that is neither, or that does not decode to UTF-8.
pub fn decode_token(token: &str) -> (r: Option<String>)
    ensures
        match r {
            Some(key) => decodes_to(token@, key@),
            None => token_bytes(token@) matches Some(b) ==> !valid_utf8(b),
        },
{
    let ghost text = encode_utf8(token@);
    let bytes = match url_safe_decode(token) {
        Some(b) => {
            proof {
                lemma_bytes_of(Base64::UrlSafe, b@);
            }
            b
        },
        None => match standard_decode(token) {
            Some(b) => {
                proof {
                    lemma_bytes_of(Base64::Standard, b@);
                }
                b
            },
            None => {
                return None;
            },
        },
    };
    string_from_utf8(bytes)
}

/// A token decodes to one key only, and not at all just when its bytes are not UTF-8 or there
/// are none.
pub proof fn law_token_decodes_uniquely(token: Seq<char>, a: Seq<char>, b: Seq<char>)
    requires
        decodes_to(token, a),
    ensures
        decodes_to(token, b) ==> a == b,
        token_bytes(token) matches Some(x) && valid_utf8(x),
{
    encode_utf8_valid_utf8(a);
    if decodes_to(token, b) {
        lemma_encode_injective(a, b);
    }
}

/// Round trip: the token of a key decodes to that key.
pub proof fn law_token_round_trip(key: Seq<char>, token: Seq<char>)
    requires
        is_token_of(key, token),
    ensures
        decodes_to(token, key),
{
    lemma_bytes_of(Base64::UrlSafe, encode_utf8(key));
}

/// Tokens in standard, padded base64 decode too.
pub proof fn law_standard_token_decodes(key: Seq<char>, token: Seq<char>)
    requires
        encode_utf8(token) == base64_of(Base64::Standard, encode_utf8(key)),
    ensures
        decodes_to(token, key),
{
    let text = encode_utf8(token);
    lemma_bytes_of(Base64::Standard, encode_utf8(key));
    if is_base64(Base64::UrlSafe, text) {
        let b = choose|b: Seq<u8>| text == #[trigger] base64_of(Base64::UrlSafe, b);
        lemma_base64_determines(Base64::UrlSafe, b, Base64::Standard, encode_utf8(key));
    }
}

/// A byte that needs no escaping in a URL: a letter, a digit, `-` or `_`.
pub open spec fn is_url_safe(c: u8) -> bool {
    65 <= c <= 90 || 97 <= c <= 122 || 48 <= c <= 57 || c == 45 || c == 95
}

/// URL-safe base64 is made of URL-safe bytes.
proof fn lemma_url_safe(b: Seq<u8>)
    ensures
        forall|i: int|
            0 <= i < base64_of(Base64::UrlSafe, b).len() ==> is_url_safe(
                #[trigger] base64_of(Base64::UrlSafe, b)[i],
            ),
    decreases b.len(),
{
    if b.len() >= 3 {
        lemma_url_safe(b.skip(3));
        let t = base64_of(Base64::UrlSafe, b);
        let rest = base64_of(Base64::UrlSafe, b.skip(3));
        assert forall|i: int| 0 <= i < t.len() implies is_url_safe(#[trigger] t[i]) by {
            if i >= 4 {
                assert(t[i] == rest[i - 4]);
            }
        }
    }
}

/// Tokens are safe in URLs, query strings and XML: no `+`, `/`, `=` or any other byte that
/// would have to be escaped.
pub proof fn law_token_url_safe(key: Seq<char>, token: Seq<char>)
    requires
        is_token_of(key, token),
    ensures
        forall|i: int|
            0 <= i < encode_utf8(token).len() ==> is_url_safe(#[trigger] encode_utf8(token)[i]),
{
    lemma_url_safe(encode_utf8(key));
}

/// A client that hands a token back resumes at the key that the token was made for.
pub proof fn law_tokens_give_their_key_back(
    key: &str,
    token: String,
    handed: &str,
    r: Option<String>,
)
    requires
        call_ensures(encode_token, (key,), token),
        handed@ == token@,
        call_ensures(decode_token, (handed,), r),
    ensures
        r matches Some(k) && k@ == key@,
{
    law_token_round_trip(key@, token@);
    law_token_decodes_uniquely(token@, key@, key@);
    if let Some(k) = r {
        law_token_decodes_uniquely(token@, key@, k@);
    }
}

/// A token is taken if it is the URL-safe or the standard base64 form of a key, and then for that
/// key; nothing else is.
pub proof fn law_tokens_taken(token: &str, r: Option<String>, key: Seq<char>)
    requires
        call_ensures(decode_token, (token,), r),
    ensures
        encode_utf8(token@) == base64_of(Base64::UrlSafe, encode_utf8(key)) ==> (r matches Some(k)
            && k@ == key),
        encode_utf8(token@) == base64_of(Base64::Standard, encode_utf8(key)) ==> (r matches Some(k)
            && k@ == key),
        r matches Some(k) ==> {
            ||| encode_utf8(token@) == base64_of(Base64::UrlSafe, encode_utf8(k@))
            ||| encode_utf8(token@) == base64_of(Base64::Standard, encode_utf8(k@))
        },
{
    let text = encode_utf8(token@);
    if text == base64_of(Base64::UrlSafe, encode_utf8(key)) {
        law_token_round_trip(key, token@);
        law_token_decodes_uniquely(token@, key, key);
        if let Some(k) = r {
            law_token_decodes_uniquely(token@, key, k@);
        }
    }
    if text == base64_of(Base64::Standard, encode_utf8(key)) {
        law_standard_token_decodes(key, token@);
        law_token_decodes_uniquely(token@, key, key);
        if let Some(k) = r {
            law_token_decodes_uniquely(token@, key, k@);
        }
    }
    if r is Some {
        if is_base64(Base64::UrlSafe, text) {
            let b = choose|b: Seq<u8>| text == #[trigger] base64_of(Base64::UrlSafe, b);
        } else {
            let b = choose|b: Seq<u8>| text == #[trigger] base64_of(Base64::Standard, b);
        }
    }
}

} // verus!
