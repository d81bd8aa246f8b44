use vstd::prelude::*;
use hmac::{Hmac, KeyInit, Mac};
use sha2::Sha256;

verus! {

/// The digest that the keyed message-authentication function assigns to a
/// (key, data) pair. It is a function of its two arguments alone; nothing
/// else is assumed of its values.
pub uninterp spec fn hmac_of(key: Seq<u8>, data: Seq<u8>) -> Seq<u8>;

/// Relies on hmac's `Hmac<Sha256>` (the `Mac` trait of digest): the tag is a
/// pure function of key and data and is 32 bytes for SHA-256. HMAC accepts
/// keys of any length, so `new_from_slice` cannot fail here.
#[verifier::external_body]
pub fn hmac_hash(server_secret: &[u8], token: &[u8]) -> (r: Vec<u8>)
    ensures
        r@ == hmac_of(server_secret@, token@),
        r@.len() == 32,
{
    let mut mac = <Hmac<Sha256> as KeyInit>::new_from_slice(server_secret).expect("HMAC key");
    mac.update(token);
    mac.finalize().into_bytes().to_vec()
}

/// Relies on `Mac::verify_slice`: a constant-time comparison that succeeds
/// exactly when the candidate tag equals the digest of (key, data).
#[verifier::external_body]
pub(crate) fn hmac_verify(server_secret: &[u8], data: &[u8], tag: &[u8]) -> (r: bool)
    ensures
        r == (tag@ == hmac_of(server_secret@, data@)),
{
    let mut mac = <Hmac<Sha256> as KeyInit>::new_from_slice(server_secret).expect("HMAC key");
    mac.update(data);
    mac.verify_slice(tag).is_ok()
}

/// Relies on rand's `fill` (the thread-local generator): it fills the buffer
/// in place. Nothing is assumed of the drawn values, only the length.
#[verifier::external_body]
pub(crate) fn random_bytes(n: usize) -> (r: Vec<u8>)
    ensures
        r@.len() == n,
{
    let mut buf = vec![0u8; n];
    rand::fill(&mut buf[..]);
    buf
}

} // verus!
