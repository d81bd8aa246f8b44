use vstd::prelude::*;
use base64::engine::general_purpose::URL_SAFE_NO_PAD;
use base64::Engine;

verus! {

/// The URL-safe, unpadded base64 text (as ASCII bytes) of a byte string.
/// It is a function of its input alone.
pub uninterp spec fn b64url_of(b: Seq<u8>) -> Seq<u8>;

/// What a base64url text decodes to: `Some` exactly when some byte string
/// encodes to `t`. Decoding is strict, so only canonical encodings are
/// accepted and the decoded bytes re-encode to the input.
pub open spec fn b64url_dec(t: Seq<u8>) -> Option<Seq<u8>> {
    if exists|b: Seq<u8>| t == b64url_of(b) {
        Some(choose|b: Seq<u8>| t == b64url_of(b))
    } else {
        None
    }
}

/// Relies on base64's `URL_SAFE_NO_PAD` engine: the encoding is a function
/// of the input alone, four text bytes for each three input bytes (two or
/// three for a trailing one or two).
#[verifier::external_body]
pub(crate) fn b64url_encode(bytes: &[u8]) -> (r: Vec<u8>)
    ensures
        r@ == b64url_of(bytes@),
        r@.len() == (bytes@.len() * 4 + 2) / 3,
{
    URL_SAFE_NO_PAD.encode(bytes).into_bytes()
}

/// Relies on base64's `URL_SAFE_NO_PAD` engine's strict decode: it rejects
/// padding, foreign characters and non-zero trailing bits, so it succeeds
/// exactly on canonical encodings and inverts the encode there.
#[verifier::external_body]
pub(crate) fn b64url_decode(text: &[u8]) -> (r: Option<Vec<u8>>)
    ensures
        r is Some ==> b64url_of(r.unwrap()@) == text@,
        forall|b: Seq<u8>| text@ == b64url_of(b) ==> r is Some && r.unwrap()@ == b,
{
    URL_SAFE_NO_PAD.decode(text).ok()
}

/// Decode pinned to the specification-level decode: callers reason about
/// `b64url_dec` alone.
pub fn b64url_parse(text: &[u8]) -> (r: Option<Vec<u8>>)
    ensures
        r is Some <==> b64url_dec(text@) is Some,
        r is Some ==> r.unwrap()@ == b64url_dec(text@).unwrap(),
{
    let r = b64url_decode(text);
    proof {
        if r is Some {
            assert(text@ == b64url_of(r.unwrap()@));
        }
        if b64url_dec(text@) is Some {
            let b0 = choose|b: Seq<u8>| text@ == b64url_of(b);
            assert(text@ == b64url_of(b0));
        }
    }
    r
}

} // verus!
