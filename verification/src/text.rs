//! Text helpers: UTF-8 decoding and bytes of strings.

use crate::path::same_bytes;
use vstd::prelude::*;
use vstd::utf8::*;

verus! {

/// The characters that `bytes` encodes in UTF-8, or `None` if `bytes` is not UTF-8.
pub open spec fn utf8_chars(bytes: Seq<u8>) -> Option<Seq<char>> {
    if valid_utf8(bytes) {
        Some(decode_utf8(bytes))
    } else {
        None
    }
}

/// Calls `std::str::from_utf8`: it succeeds exactly on valid UTF-8, and the string it returns has
/// the given bytes as its encoding.
#[verifier::external_body]
fn std_from_utf8(bytes: &[u8]) -> (r: Option<&str>)
    ensures
        r is Some <==> valid_utf8(bytes@),
        r matches Some(s) ==> encode_utf8(s@) == bytes@,
{
    std::str::from_utf8(bytes).ok()
}

/// The string that `bytes` encodes in UTF-8, if it is valid.
pub fn utf8_text(bytes: &[u8]) -> (r: Option<&str>)
    ensures
        r is Some <==> utf8_chars(bytes@) is Some,
        r matches Some(s) ==> utf8_chars(bytes@) == Some(s@) && encode_utf8(s@) == bytes@,
{
    let r = std_from_utf8(bytes);
    proof {
        if let Some(s) = r {
            encode_utf8_decode_utf8(s@);
        }
    }
    r
}

/// Strings with the same UTF-8 encoding are the same.
pub proof fn encode_utf8_injective(a: Seq<char>, b: Seq<char>)
    requires
        encode_utf8(a) == encode_utf8(b),
    ensures
        a == b,
{
    encode_utf8_decode_utf8(a);
    encode_utf8_decode_utf8(b);
}

/// Whether two strings are the same.
pub fn same_text(a: &str, b: &str) -> (r: bool)
    ensures
        r == (a@ == b@),
{
    let r = same_bytes(a.as_bytes(), b.as_bytes());
    proof {
        if r {
            encode_utf8_injective(a@, b@);
        }
    }
    r
}

/// The characters of each string of a sequence.
pub open spec fn text_views(texts: Seq<String>) -> Seq<Seq<char>> {
    texts.map_values(|t: String| t@)
}

/// The text of a byte string is the text that it encodes, and every text is that of its encoding.
pub proof fn text_of_encoding(bytes: Seq<u8>, t: Seq<char>)
    ensures
        utf8_chars(encode_utf8(t)) == Some(t),
        utf8_chars(bytes) == Some(t) <==> encode_utf8(t) == bytes,
        utf8_chars(bytes) is None <==> !valid_utf8(bytes),
{
    encode_utf8_valid_utf8(t);
    encode_utf8_decode_utf8(t);
    if valid_utf8(bytes) {
        decode_utf8_encode_utf8(bytes);
    }
}

/// The characters of strings are those of each string.
pub proof fn text_views_are_pointwise(texts: Seq<String>)
    ensures
        text_views(texts).len() == texts.len(),
        forall|i: int| 0 <= i < texts.len() ==> #[trigger] text_views(texts)[i] == texts[i]@,
{
}

} // verus!
