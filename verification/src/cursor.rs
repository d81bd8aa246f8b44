use vstd::prelude::*;
use vstd::bytes::{
    lemma_auto_spec_u64_to_from_le_bytes, spec_u64_from_le_bytes, spec_u64_to_le_bytes,
    u64_from_le_bytes, u64_to_le_bytes,
};
use vstd::slice::slice_subrange;
use crate::b64::{b64url_decode, b64url_encode, b64url_of};
use crate::crypto::{hmac_hash, hmac_of, hmac_verify};
use crate::errors::ApiError;
use crate::support::push_all;

verus! {

/// The bytes the cursor tag authenticates: a fixed domain-separation prefix,
/// the mailbox id, then the watermark bytes. Binding the mailbox id into the
/// tag is what stops a cursor minted for one mailbox from being replayed
/// against another.
pub open spec fn cursor_msg(mailbox_id: Seq<u8>, last_bytes: Seq<u8>) -> Seq<u8> {
    seq![99u8, 117u8, 114u8, 115u8, 111u8, 114u8] + mailbox_id + last_bytes
}

/// The raw cursor: the watermark as 8 little-endian bytes, then the 32-byte
/// tag over `cursor_msg`.
pub open spec fn cursor_raw(secret: Seq<u8>, mailbox_id: Seq<u8>, last_id: i64) -> Seq<u8>
    recommends
        0 <= last_id,
{
    let lb = spec_u64_to_le_bytes(last_id as u64);
    lb + hmac_of(secret, cursor_msg(mailbox_id, lb))
}

/// The cursor as it travels: the raw cursor, base64url-encoded.
pub open spec fn cursor_text(secret: Seq<u8>, mailbox_id: Seq<u8>, last_id: i64) -> Seq<u8> {
    b64url_of(cursor_raw(secret, mailbox_id, last_id))
}

/// Encodes a pagination watermark as an opaque, authenticated cursor bound
/// to `mailbox_id`.
pub fn cursor_encode(server_secret: &[u8], mailbox_id: &[u8], last_id: i64) -> (r: Vec<u8>)
    requires
        0 <= last_id,
    ensures
        r@ == cursor_text(server_secret@, mailbox_id@, last_id),
        r@.len() > 0,
{
    proof {
        lemma_auto_spec_u64_to_from_le_bytes();
    }
    let last = u64_to_le_bytes(last_id as u64);
    let mut msg: Vec<u8> = Vec::new();
    msg.push(99u8);
    msg.push(117u8);
    msg.push(114u8);
    msg.push(115u8);
    msg.push(111u8);
    msg.push(114u8);
    push_all(&mut msg, mailbox_id);
    push_all(&mut msg, last.as_slice());
    proof {
        assert(msg@ =~= cursor_msg(mailbox_id@, last@));
    }
    let tag = hmac_hash(server_secret, msg.as_slice());
    let mut out = last;
    push_all(&mut out, tag.as_slice());
    proof {
        assert(out@ =~= cursor_raw(server_secret@, mailbox_id@, last_id));
    }
    b64url_encode(out.as_slice())
}

/// What acceptance of a cursor text at a mailbox means: the text is the
/// encoding of a correctly tagged watermark `w` bound to this mailbox.
pub open spec fn cursor_accepts(secret: Seq<u8>, mailbox_id: Seq<u8>, text: Seq<u8>, w: i64) -> bool {
    exists|raw: Seq<u8>|
        {
            &&& text == b64url_of(raw)
            &&& raw.len() >= 8
            &&& raw.skip(8) == hmac_of(secret, cursor_msg(mailbox_id, raw.take(8)))
            &&& spec_u64_from_le_bytes(raw.take(8)) <= i64::MAX as u64
            &&& w == spec_u64_from_le_bytes(raw.take(8)) as i64
        }
}

/// Decodes a cursor presented against `mailbox_id`, recomputing the tag over
/// the mailbox being polled, so the watermark only comes back if the cursor
/// was minted for this very mailbox. Any decode failure, length mismatch or
/// tag mismatch is one uniform rejection.
pub fn cursor_decode(server_secret: &[u8], mailbox_id: &[u8], cursor: &[u8]) -> (r: Result<
    i64,
    ApiError,
>)
    ensures
        r is Err ==> r == Err::<i64, ApiError>(ApiError::InvalidInput),
        r is Ok ==> 0 <= r.unwrap(),
        // soundness: an accepted cursor is a correctly tagged watermark for
        // this very mailbox
        r matches Ok(w) ==> cursor_accepts(server_secret@, mailbox_id@, cursor@, w),
        // a cursor minted for this mailbox is accepted and yields its watermark
        forall|id: i64|
            0 <= id && cursor@ == cursor_text(server_secret@, mailbox_id@, id) ==> r == Ok::<
                i64,
                ApiError,
            >(id),
        // a cursor minted for another mailbox is rejected whenever the two
        // tags differ
        forall|other: Seq<u8>, id: i64|
            0 <= id && cursor@ == cursor_text(server_secret@, other, id) && hmac_of(
                server_secret@,
                cursor_msg(other, spec_u64_to_le_bytes(id as u64)),
            ) != hmac_of(
                server_secret@,
                cursor_msg(mailbox_id@, spec_u64_to_le_bytes(id as u64)),
            ) ==> r is Err,
{
    proof {
        lemma_auto_spec_u64_to_from_le_bytes();
    }
    let decoded = b64url_decode(cursor);
    let raw = match decoded {
        None => {
            proof {
                assert forall|id: i64|
                    0 <= id && cursor@ == cursor_text(
                        server_secret@,
                        mailbox_id@,
                        id,
                    ) implies false by {
                    assert(cursor@ == b64url_of(cursor_raw(server_secret@, mailbox_id@, id)));
                };
            }
            return Err(ApiError::InvalidInput);
        },
        Some(v) => v,
    };
    if raw.len() < 8 {
        proof {
            assert forall|id: i64|
                0 <= id && cursor@ == cursor_text(server_secret@, mailbox_id@, id) implies false by {
                assert(cursor@ == b64url_of(cursor_raw(server_secret@, mailbox_id@, id)));
                assert(raw@ == cursor_raw(server_secret@, mailbox_id@, id));
                assert(raw@.len() >= 8);
            };
        }
        return Err(ApiError::InvalidInput);
    }
    let last_bytes = slice_subrange(raw.as_slice(), 0, 8);
    let mut msg: Vec<u8> = Vec::new();
    msg.push(99u8);
    msg.push(117u8);
    msg.push(114u8);
    msg.push(115u8);
    msg.push(111u8);
    msg.push(114u8);
    push_all(&mut msg, mailbox_id);
    push_all(&mut msg, last_bytes);
    proof {
        assert(msg@ =~= cursor_msg(mailbox_id@, raw@.take(8)));
    }
    let recomputed = hmac_hash(server_secret, msg.as_slice());
    if raw.len() != 8 + recomputed.len() {
        proof {
            assert forall|id: i64|
                0 <= id && cursor@ == cursor_text(server_secret@, mailbox_id@, id) implies false by {
                assert(cursor@ == b64url_of(cursor_raw(server_secret@, mailbox_id@, id)));
                assert(raw@ == cursor_raw(server_secret@, mailbox_id@, id));
                let lb = spec_u64_to_le_bytes(id as u64);
                assert(raw@.take(8) =~= lb);
                assert(raw@.len() == 8 + hmac_of(
                    server_secret@,
                    cursor_msg(mailbox_id@, lb),
                ).len());
            };
        }
        return Err(ApiError::InvalidInput);
    }
    let tag = slice_subrange(raw.as_slice(), 8, raw.len());
    proof {
        assert(tag@ =~= raw@.skip(8));
    }
    if !hmac_verify(server_secret, msg.as_slice(), tag) {
        proof {
            assert forall|id: i64|
                0 <= id && cursor@ == cursor_text(server_secret@, mailbox_id@, id) implies false by {
                assert(cursor@ == b64url_of(cursor_raw(server_secret@, mailbox_id@, id)));
                assert(raw@ == cursor_raw(server_secret@, mailbox_id@, id));
                let lb = spec_u64_to_le_bytes(id as u64);
                assert(raw@.take(8) =~= lb);
                assert(raw@.skip(8) =~= hmac_of(server_secret@, cursor_msg(mailbox_id@, lb)));
            };
        }
        return Err(ApiError::InvalidInput);
    }
    let v = u64_from_le_bytes(last_bytes);
    if v > i64::MAX as u64 {
        proof {
            assert forall|id: i64|
                0 <= id && cursor@ == cursor_text(server_secret@, mailbox_id@, id) implies false by {
                assert(cursor@ == b64url_of(cursor_raw(server_secret@, mailbox_id@, id)));
                assert(raw@ == cursor_raw(server_secret@, mailbox_id@, id));
                assert(raw@.take(8) =~= spec_u64_to_le_bytes(id as u64));
                assert(v == id as u64);
            };
        }
        return Err(ApiError::InvalidInput);
    }
    let out = v as i64;
    proof {
        assert(cursor@ == b64url_of(raw@));
        assert forall|id: i64|
            0 <= id && cursor@ == cursor_text(server_secret@, mailbox_id@, id) implies out
            == id by {
            assert(cursor@ == b64url_of(cursor_raw(server_secret@, mailbox_id@, id)));
            assert(raw@ == cursor_raw(server_secret@, mailbox_id@, id));
            assert(raw@.take(8) =~= spec_u64_to_le_bytes(id as u64));
            assert(v == id as u64);
        };
        assert forall|other: Seq<u8>, id: i64|
            0 <= id && cursor@ == cursor_text(server_secret@, other, id) && hmac_of(
                server_secret@,
                cursor_msg(other, spec_u64_to_le_bytes(id as u64)),
            ) != hmac_of(
                server_secret@,
                cursor_msg(mailbox_id@, spec_u64_to_le_bytes(id as u64)),
            ) implies false by {
            assert(cursor@ == b64url_of(cursor_raw(server_secret@, other, id)));
            assert(raw@ == cursor_raw(server_secret@, other, id));
            let lb = spec_u64_to_le_bytes(id as u64);
            assert(raw@.take(8) =~= lb);
            assert(raw@.skip(8) =~= hmac_of(server_secret@, cursor_msg(other, lb)));
            assert(raw@.skip(8) == hmac_of(server_secret@, cursor_msg(mailbox_id@, raw@.take(8))));
        };
    }
    Ok(out)
}

} // verus!
