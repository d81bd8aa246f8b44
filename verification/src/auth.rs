use vstd::prelude::*;
use vstd::slice::slice_subrange;
use crate::b64::{b64url_dec, b64url_parse};
use crate::crypto::{hmac_hash, hmac_of};
use crate::errors::ApiError;
use crate::support::copy_bytes;

verus! {

// ---------------------------------------------------------------------------
// Bearer credential extraction
// ---------------------------------------------------------------------------

/// ASCII whitespace, the separators of an authorization header value.
pub open spec fn is_ws(b: u8) -> bool {
    b == 32 || b == 9 || b == 10 || b == 11 || b == 12 || b == 13
}

/// Length of the whitespace-free word at the head of `s` (0 at whitespace
/// or at the end).
pub open spec fn word_len(s: Seq<u8>) -> int
    decreases s.len(),
{
    if s.len() == 0 || is_ws(s[0]) {
        0
    } else {
        1 + word_len(s.drop_first())
    }
}

pub proof fn lemma_word_len(s: Seq<u8>)
    ensures
        0 <= word_len(s) <= s.len(),
        s.len() > 0 && !is_ws(s[0]) ==> 1 <= word_len(s),
    decreases s.len(),
{
    if s.len() == 0 || is_ws(s[0]) {
    } else {
        lemma_word_len(s.drop_first());
    }
}

/// The whitespace-separated words of `s`, in order.
pub open spec fn split_ws(s: Seq<u8>) -> Seq<Seq<u8>>
    decreases s.len(),
    via split_ws_decreases
{
    if s.len() == 0 {
        Seq::empty()
    } else if is_ws(s[0]) {
        split_ws(s.drop_first())
    } else {
        seq![s.take(word_len(s))] + split_ws(s.skip(word_len(s)))
    }
}

#[via_fn]
proof fn split_ws_decreases(s: Seq<u8>) {
    lemma_word_len(s);
}

/// ASCII lowercasing, the case folding the scheme comparison uses.
pub open spec fn lower_byte(b: u8) -> u8 {
    if 65 <= b <= 90 {
        (b + 32) as u8
    } else {
        b
    }
}

/// The bytes of the expected scheme word, "bearer".
pub open spec fn bearer_seq() -> Seq<u8> {
    seq![98u8, 101u8, 97u8, 114u8, 101u8, 114u8]
}

/// The credential carried by an authorization header value: present exactly
/// when the value is two words, the first being "bearer" up to ASCII case.
pub open spec fn bearer_token_of(auth: Option<Seq<u8>>) -> Option<Seq<u8>> {
    match auth {
        None => None,
        Some(s) => {
            let parts = split_ws(s);
            if parts.len() == 2 && parts[0].map_values(|b: u8| lower_byte(b)) == bearer_seq() {
                Some(parts[1])
            } else {
                None
            }
        },
    }
}

/// If `s[a..b]` is a maximal whitespace-free run, the head word of
/// `s.skip(a)` is exactly that run.
proof fn lemma_word_len_window(s: Seq<u8>, a: int, b: int)
    requires
        0 <= a <= b <= s.len(),
        forall|k: int| a <= k < b ==> !is_ws(#[trigger] s[k]),
        b == s.len() || is_ws(s[b]),
    ensures
        word_len(s.skip(a)) == b - a,
    decreases b - a,
{
    if a == b {
        if a < s.len() {
            assert(is_ws(s.skip(a)[0]));
        }
    } else {
        assert(!is_ws(s.skip(a)[0]));
        assert(s.skip(a).drop_first() =~= s.skip(a + 1));
        lemma_word_len_window(s, a + 1, b);
    }
}

fn ws_exec(b: u8) -> (r: bool)
    ensures
        r == is_ws(b),
{
    b == 32 || b == 9 || b == 10 || b == 11 || b == 12 || b == 13
}

fn lower_exec(b: u8) -> (r: u8)
    ensures
        r == lower_byte(b),
{
    if 65 <= b && b <= 90 {
        b + 32
    } else {
        b
    }
}

/// Extracts the bearer credential from an authorization header value:
/// absent or structurally malformed material is `Unauthorized`.
#[verifier::rlimit(60)]
pub fn bearer_token(auth: Option<&Vec<u8>>) -> (r: Result<Vec<u8>, ApiError>)
    ensures
        r is Err ==> r == Err::<Vec<u8>, ApiError>(ApiError::Unauthorized),
        r is Ok <==> bearer_token_of(hdr_view(auth)) is Some,
        r matches Ok(t) ==> t@ == bearer_token_of(hdr_view(auth)).unwrap(),
{
    let s = match auth {
        None => {
            return Err(ApiError::Unauthorized);
        },
        Some(v) => v,
    };
    let n = s.len();
    let mut i: usize = 0;
    proof {
        assert(s@.skip(0) =~= s@);
    }
    // leading whitespace
    while i < n && ws_exec(s[i])
        invariant
            n == s@.len(),
            i <= n,
            split_ws(s@) == split_ws(s@.skip(i as int)),
        decreases n - i,
    {
        proof {
            assert(s@.skip(i as int).drop_first() =~= s@.skip(i + 1));
        }
        i += 1;
    }
    if i == n {
        proof {
            assert(s@.skip(n as int) =~= Seq::<u8>::empty());
        }
        return Err(ApiError::Unauthorized);
    }
    // first word
    let start1 = i;
    while i < n && !ws_exec(s[i])
        invariant
            n == s@.len(),
            start1 <= i <= n,
            forall|k: int| start1 <= k < i ==> !is_ws(#[trigger] s@[k]),
        decreases n - i,
    {
        i += 1;
    }
    let end1 = i;
    proof {
        lemma_word_len_window(s@, start1 as int, end1 as int);
        assert(s@.skip(start1 as int).take(word_len(s@.skip(start1 as int))) =~= s@.subrange(
            start1 as int,
            end1 as int,
        ));
        assert(s@.skip(start1 as int).skip(end1 - start1 as int) =~= s@.skip(end1 as int));
        assert(split_ws(s@) == seq![s@.subrange(start1 as int, end1 as int)] + split_ws(
            s@.skip(end1 as int),
        ));
    }
    // whitespace between the words
    while i < n && ws_exec(s[i])
        invariant
            n == s@.len(),
            i <= n,
            split_ws(s@.skip(end1 as int)) == split_ws(s@.skip(i as int)),
            end1 <= i,
        decreases n - i,
    {
        proof {
            assert(s@.skip(i as int).drop_first() =~= s@.skip(i + 1));
        }
        i += 1;
    }
    if i == n {
        proof {
            assert(s@.skip(n as int) =~= Seq::<u8>::empty());
            assert(split_ws(s@).len() == 1);
        }
        return Err(ApiError::Unauthorized);
    }
    // second word
    let start2 = i;
    while i < n && !ws_exec(s[i])
        invariant
            n == s@.len(),
            start2 <= i <= n,
            forall|k: int| start2 <= k < i ==> !is_ws(#[trigger] s@[k]),
        decreases n - i,
    {
        i += 1;
    }
    let end2 = i;
    proof {
        lemma_word_len_window(s@, start2 as int, end2 as int);
        assert(s@.skip(start2 as int).take(word_len(s@.skip(start2 as int))) =~= s@.subrange(
            start2 as int,
            end2 as int,
        ));
        assert(s@.skip(start2 as int).skip(end2 - start2 as int) =~= s@.skip(end2 as int));
        assert(split_ws(s@) == seq![
            s@.subrange(start1 as int, end1 as int),
            s@.subrange(start2 as int, end2 as int),
        ] + split_ws(s@.skip(end2 as int)));
    }
    // trailing whitespace
    while i < n && ws_exec(s[i])
        invariant
            n == s@.len(),
            i <= n,
            split_ws(s@.skip(end2 as int)) == split_ws(s@.skip(i as int)),
            end2 <= i,
        decreases n - i,
    {
        proof {
            assert(s@.skip(i as int).drop_first() =~= s@.skip(i + 1));
        }
        i += 1;
    }
    if i != n {
        // a third word starts here
        proof {
            assert(!is_ws(s@.skip(i as int)[0]));
            assert(split_ws(s@.skip(i as int)).len() >= 1);
            assert(split_ws(s@).len() >= 3);
        }
        return Err(ApiError::Unauthorized);
    }
    proof {
        assert(s@.skip(n as int) =~= Seq::<u8>::empty());
        assert(split_ws(s@) =~= seq![
            s@.subrange(start1 as int, end1 as int),
            s@.subrange(start2 as int, end2 as int),
        ]);
    }
    // the scheme word must be "bearer" up to ASCII case
    let scheme_ok = end1 - start1 == 6 && lower_exec(s[start1]) == 98 && lower_exec(
        s[start1 + 1],
    ) == 101 && lower_exec(s[start1 + 2]) == 97 && lower_exec(s[start1 + 3]) == 114 && lower_exec(
        s[start1 + 4],
    ) == 101 && lower_exec(s[start1 + 5]) == 114;
    proof {
        let w1 = s@.subrange(start1 as int, end1 as int);
        let folded = w1.map_values(|b: u8| lower_byte(b));
        if scheme_ok {
            assert(folded =~= bearer_seq());
        } else {
            if folded == bearer_seq() {
                assert(folded.len() == w1.len());
                assert(bearer_seq().len() == 6);
                assert(w1.len() == 6);
                assert(folded[0] == lower_byte(s@[start1 as int]));
                assert(folded[1] == lower_byte(s@[start1 + 1]));
                assert(folded[2] == lower_byte(s@[start1 + 2]));
                assert(folded[3] == lower_byte(s@[start1 + 3]));
                assert(folded[4] == lower_byte(s@[start1 + 4]));
                assert(folded[5] == lower_byte(s@[start1 + 5]));
            }
        }
    }
    if !scheme_ok {
        return Err(ApiError::Unauthorized);
    }
    let token = copy_bytes(slice_subrange(s.as_slice(), start2, end2));
    Ok(token)
}

/// The header value as the specification sees it.
pub open spec fn hdr_view(auth: Option<&Vec<u8>>) -> Option<Seq<u8>> {
    match auth {
        None => None,
        Some(v) => Some(v@),
    }
}

// ---------------------------------------------------------------------------
// Credential digestion
// ---------------------------------------------------------------------------

/// What authenticating a bearer header yields: the keyed digest of the raw
/// 32-byte credential, or `Unauthorized` when no credential was presented
/// correctly (absent header, wrong shape, undecodable text, wrong length).
pub open spec fn auth_digest_of(secret: Seq<u8>, auth: Option<Seq<u8>>) -> Result<
    Seq<u8>,
    ApiError,
> {
    match bearer_token_of(auth) {
        None => Err(ApiError::Unauthorized),
        Some(tok) => match b64url_dec(tok) {
            None => Err(ApiError::Unauthorized),
            Some(raw) => if raw.len() == 32 {
                Ok(hmac_of(secret, raw))
            } else {
                Err(ApiError::Unauthorized)
            },
        },
    }
}

/// Authenticates a bearer header down to the digest that the store keeps.
pub fn auth_digest(server_secret: &[u8], auth: Option<&Vec<u8>>) -> (r: Result<Vec<u8>, ApiError>)
    ensures
        r is Ok <==> auth_digest_of(server_secret@, hdr_view(auth)) is Ok,
        r matches Ok(d) ==> d@ == auth_digest_of(server_secret@, hdr_view(auth)).unwrap(),
        r matches Err(e) ==> Err::<Seq<u8>, ApiError>(e) == auth_digest_of(
            server_secret@,
            hdr_view(auth),
        ),
{
    let tok = match bearer_token(auth) {
        Err(e) => {
            return Err(e);
        },
        Ok(t) => t,
    };
    let raw = match b64url_parse(tok.as_slice()) {
        None => {
            return Err(ApiError::Unauthorized);
        },
        Some(v) => v,
    };
    if raw.len() != 32 {
        return Err(ApiError::Unauthorized);
    }
    Ok(hmac_hash(server_secret, raw.as_slice()))
}

} // verus!
