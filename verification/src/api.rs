use vstd::prelude::*;
use crate::auth::{auth_digest, auth_digest_of, hdr_view};
use crate::b64::{b64url_dec, b64url_encode, b64url_of, b64url_parse};
use crate::config::{now_ok, Config};
use crate::crypto::{hmac_hash, hmac_of, random_bytes};
use crate::cursor::{cursor_accepts, cursor_decode, cursor_encode, cursor_text};
use crate::errors::ApiError;
use crate::store::{
    has_mailbox, has_token, lemma_mailbox_at, lemma_mailbox_bytes_nonneg, lemma_token_at,
    keep_live, lemma_keep_live_wf, lemma_msg_index, lemma_remove_wf, mailbox_at, mailbox_bytes,
    msg_present, page_of, remove_msg, token_at, token_index, token_live, DepositTokenRow,
    MailboxRow, MailboxView, MessageRow, MessageView, Store, StoreView, TokenView,
};
use crate::support::{bytes_eq, copy_bytes};

verus! {

// ---------------------------------------------------------------------------
// Owner (poll token) authentication
// ---------------------------------------------------------------------------

/// Outcome of authenticating an owner request: the bearer digest must match
/// the mailbox's poll hash. `None` means the request is authenticated.
pub open spec fn poll_auth(
    sv: StoreView,
    secret: Seq<u8>,
    mb: Seq<u8>,
    auth: Option<Seq<u8>>,
) -> Option<ApiError> {
    match auth_digest_of(secret, auth) {
        Err(e) => Some(e),
        Ok(d) => if !has_mailbox(sv.mailboxes, mb) {
            Some(ApiError::NotFound)
        } else if mailbox_at(sv.mailboxes, mb).poll_hash != d {
            Some(ApiError::Forbidden)
        } else {
            None
        },
    }
}

/// Authenticates an owner request against the store.
fn check_poll_auth(cfg: &Config, store: &Store, mailbox_id: &Vec<u8>, auth: Option<&Vec<u8>>) -> (r:
    Result<(), ApiError>)
    requires
        store@.wf(),
    ensures
        r is Ok <==> poll_auth(store@, cfg.server_secret@, mailbox_id@, hdr_view(auth)) is None,
        r matches Err(e) ==> Some(e) == poll_auth(
            store@,
            cfg.server_secret@,
            mailbox_id@,
            hdr_view(auth),
        ),
{
    let digest = match auth_digest(cfg.server_secret.as_slice(), auth) {
        Err(e) => {
            return Err(e);
        },
        Ok(d) => d,
    };
    let idx = match store.find_mailbox(mailbox_id.as_slice()) {
        None => {
            return Err(ApiError::NotFound);
        },
        Some(i) => i,
    };
    proof {
        lemma_mailbox_at(store@.mailboxes, mailbox_id@, idx as int);
    }
    if !bytes_eq(store.mailboxes[idx].poll_hash.as_slice(), digest.as_slice()) {
        return Err(ApiError::Forbidden);
    }
    Ok(())
}

// ---------------------------------------------------------------------------
// Mailbox creation
// ---------------------------------------------------------------------------

/// The limits echoed back to a mailbox creator.
#[derive(Debug)]
pub struct Limits {
    pub max_msg_bytes: usize,
    pub max_queue_bytes: i64,
    pub ttl_days: i64,
}

/// What creating a mailbox yields. The raw poll token appears exactly once,
/// and only when the service generated it; it cannot be recovered later.
#[derive(Debug)]
pub struct CreateMailboxOutcome {
    pub mailbox_id: Vec<u8>,
    pub poll_token: Option<Vec<u8>>,
    pub limits: Limits,
}

/// Creates a mailbox. An optional caller-supplied raw poll token (base64url,
/// exactly 32 bytes once decoded) supports delegated ownership; otherwise a
/// token is drawn at random and returned exactly once. Only the keyed digest
/// of the token is stored.
pub fn create_mailbox(
    cfg: &Config,
    store: &mut Store,
    now: i64,
    poll_token_override: Option<&Vec<u8>>,
) -> (r: Result<CreateMailboxOutcome, ApiError>)
    requires
        old(store)@.wf(),
        cfg.wf(),
        now_ok(now),
    ensures
        final(store)@.wf(),
        r is Err ==> final(store)@ == old(store)@,
        (match hdr_view(poll_token_override) {
            Some(t) => b64url_dec(t) is None || b64url_dec(t).unwrap().len() != 32,
            None => false,
        }) <==> r == Err::<CreateMailboxOutcome, ApiError>(ApiError::InvalidInput),
        r is Err ==> r == Err::<CreateMailboxOutcome, ApiError>(ApiError::InvalidInput) || r
            == Err::<CreateMailboxOutcome, ApiError>(ApiError::ServerError),
        // the storage failure happens only when the freshly drawn identifier
        // collides with a mailbox that already exists; on a store where no
        // such collision is possible, a valid request succeeds
        r == Err::<CreateMailboxOutcome, ApiError>(ApiError::ServerError) ==> exists|b: Seq<u8>|
            b.len() == 24 && has_mailbox(old(store)@.mailboxes, b64url_of(b)),
        r matches Ok(out) ==> {
            &&& !has_mailbox(old(store)@.mailboxes, out.mailbox_id@)
            &&& exists|mb_raw: Seq<u8>| mb_raw.len() == 24 && out.mailbox_id@ == b64url_of(mb_raw)
            &&& exists|raw_tok: Seq<u8>|
                {
                    &&& raw_tok.len() == 32
                    &&& final(store)@.mailboxes == old(store)@.mailboxes.push(
                        MailboxView {
                            mailbox_id: out.mailbox_id@,
                            poll_hash: hmac_of(cfg.server_secret@, raw_tok),
                            created_at: now,
                        },
                    )
                    &&& match hdr_view(poll_token_override) {
                        Some(t) => out.poll_token is None && Some(raw_tok) == b64url_dec(t),
                        None => out.poll_token matches Some(pt) && pt@ == b64url_of(raw_tok),
                    }
                }
            &&& final(store)@.tokens == old(store)@.tokens
            &&& final(store)@.messages == old(store)@.messages
            &&& final(store)@.next_seq == old(store)@.next_seq
            &&& out.limits.max_msg_bytes == cfg.max_msg_bytes
            &&& out.limits.max_queue_bytes == cfg.max_queue_bytes
            &&& out.limits.ttl_days == cfg.default_ttl_days
        },
{
    let mb_raw = random_bytes(24);
    let mailbox_id = b64url_encode(mb_raw.as_slice());

    let (poll_token, poll_hash): (Option<Vec<u8>>, Vec<u8>) = match poll_token_override {
        Some(t) => {
            let raw = match b64url_parse(t.as_slice()) {
                None => {
                    return Err(ApiError::InvalidInput);
                },
                Some(v) => v,
            };
            if raw.len() != 32 {
                return Err(ApiError::InvalidInput);
            }
            (None, hmac_hash(cfg.server_secret.as_slice(), raw.as_slice()))
        },
        None => {
            let raw = random_bytes(32);
            let token_text = b64url_encode(raw.as_slice());
            (Some(token_text), hmac_hash(cfg.server_secret.as_slice(), raw.as_slice()))
        },
    };

    // the random identifier is assumed fresh; a collision surfaces exactly
    // as the unique-key violation would
    if store.find_mailbox(mailbox_id.as_slice()).is_some() {
        proof {
            assert(mb_raw@.len() == 24 && has_mailbox(store@.mailboxes, b64url_of(mb_raw@)));
        }
        return Err(ApiError::ServerError);
    }

    let row = MailboxRow { mailbox_id: copy_bytes(mailbox_id.as_slice()), poll_hash, created_at: now };
    let ghost old_view = store@;
    let ghost row_view = row@;
    store.mailboxes.push(row);
    proof {
        assert(store@.mailboxes =~= old_view.mailboxes.push(row_view));
        assert(store@.tokens =~= old_view.tokens);
        assert(store@.messages =~= old_view.messages);
        assert forall|a: int, b: int|
            #![trigger store@.mailboxes[a], store@.mailboxes[b]]
            0 <= a < b < store@.mailboxes.len() implies store@.mailboxes[a].mailbox_id
            != store@.mailboxes[b].mailbox_id by {
            if b == store@.mailboxes.len() - 1 {
                assert(store@.mailboxes[a] == old_view.mailboxes[a]);
                assert(!has_mailbox(old_view.mailboxes, row_view.mailbox_id) ==> old_view.mailboxes[a].mailbox_id != row_view.mailbox_id);
            } else {
                assert(store@.mailboxes[a] == old_view.mailboxes[a]);
                assert(store@.mailboxes[b] == old_view.mailboxes[b]);
            }
        }
    }
    Ok(
        CreateMailboxOutcome {
            mailbox_id,
            poll_token,
            limits: Limits {
                max_msg_bytes: cfg.max_msg_bytes,
                max_queue_bytes: cfg.max_queue_bytes,
                ttl_days: cfg.default_ttl_days,
            },
        },
    )
}

// ---------------------------------------------------------------------------
// Deposit-token registration
// ---------------------------------------------------------------------------

/// The token table, count of newly added digests, and success flag after
/// registering a batch of raw tokens in order. A token that fails to decode
/// or has the wrong length aborts the batch; earlier insertions stay.
pub open spec fn register_fold(
    ts: Seq<TokenView>,
    mb: Seq<u8>,
    items: Seq<Seq<u8>>,
    secret: Seq<u8>,
    now: i64,
) -> (Seq<TokenView>, int, bool)
    decreases items.len(),
{
    if items.len() == 0 {
        (ts, 0, true)
    } else {
        match b64url_dec(items[0]) {
            None => (ts, 0, false),
            Some(raw) => if raw.len() != 32 {
                (ts, 0, false)
            } else {
                let h = hmac_of(secret, raw);
                if has_token(ts, mb, h) {
                    register_fold(ts, mb, items.drop_first(), secret, now)
                } else {
                    let rec = register_fold(
                        ts.push(
                            TokenView { mailbox_id: mb, dep_hash: h, revoked: false, created_at: now },
                        ),
                        mb,
                        items.drop_first(),
                        secret,
                        now,
                    );
                    (rec.0, rec.1 + 1, rec.2)
                }
            },
        }
    }
}

/// Registers a batch of raw deposit tokens (1 to 5000) for a mailbox,
/// storing only their digests, ignoring ones already present, and reporting
/// how many were newly added. Requires the poll token.
pub fn register_deposit_tokens(
    cfg: &Config,
    store: &mut Store,
    now: i64,
    mailbox_id: &Vec<u8>,
    auth: Option<&Vec<u8>>,
    tokens_in: &Vec<Vec<u8>>,
) -> (r: Result<u64, ApiError>)
    requires
        old(store)@.wf(),
        cfg.wf(),
        now_ok(now),
    ensures
        final(store)@.wf(),
        final(store)@.mailboxes == old(store)@.mailboxes,
        final(store)@.messages == old(store)@.messages,
        final(store)@.next_seq == old(store)@.next_seq,
        ({
            let a = poll_auth(old(store)@, cfg.server_secret@, mailbox_id@, hdr_view(auth));
            match a {
                Some(e) => r == Err::<u64, ApiError>(e) && final(store)@ == old(store)@,
                None => if !(1 <= tokens_in@.len() <= 5000) {
                    r == Err::<u64, ApiError>(ApiError::InvalidInput) && final(store)@ == old(
                        store,
                    )@
                } else {
                    let f = register_fold(
                        old(store)@.tokens,
                        mailbox_id@,
                        tokens_in.deep_view(),
                        cfg.server_secret@,
                        now,
                    );
                    &&& final(store)@.tokens == f.0
                    &&& f.2 ==> r == Ok::<u64, ApiError>(f.1 as u64)
                    &&& !f.2 ==> r == Err::<u64, ApiError>(ApiError::InvalidInput)
                },
            }
        }),
{
    if let Err(e) = check_poll_auth(cfg, store, mailbox_id, auth) {
        return Err(e);
    }
    let count = tokens_in.len();
    if count == 0 || count > 5000 {
        return Err(ApiError::InvalidInput);
    }
    let ghost items = tokens_in.deep_view();
    let ghost f_total = register_fold(
        old(store)@.tokens,
        mailbox_id@,
        items,
        cfg.server_secret@,
        now,
    );
    let mut added: u64 = 0;
    let mut idx: usize = 0;
    proof {
        assert(items.skip(0) =~= items);
    }
    while idx < count
        invariant
            store@.wf(),
            store@.mailboxes == old(store)@.mailboxes,
            store@.messages == old(store)@.messages,
            store@.next_seq == old(store)@.next_seq,
            count == tokens_in@.len(),
            1 <= count <= 5000,
            idx <= count,
            added <= idx,
            poll_auth(old(store)@, cfg.server_secret@, mailbox_id@, hdr_view(auth)) is None,
            items == tokens_in.deep_view(),
            f_total == register_fold(
                old(store)@.tokens,
                mailbox_id@,
                items,
                cfg.server_secret@,
                now,
            ),
            ({
                let g = register_fold(
                    store@.tokens,
                    mailbox_id@,
                    items.skip(idx as int),
                    cfg.server_secret@,
                    now,
                );
                f_total.0 == g.0 && f_total.1 == added + g.1 && f_total.2 == g.2
            }),
        decreases count - idx,
    {
        proof {
            assert(items[idx as int] == tokens_in@[idx as int]@);
            assert(items.skip(idx as int)[0] == items[idx as int]);
            assert(items.skip(idx as int).drop_first() =~= items.skip(idx + 1));
        }
        let raw = match b64url_parse(tokens_in[idx].as_slice()) {
            None => {
                proof {
                    let g = register_fold(
                        store@.tokens,
                        mailbox_id@,
                        items.skip(idx as int),
                        cfg.server_secret@,
                        now,
                    );
                    assert(b64url_dec(items.skip(idx as int)[0]) is None);
                    assert(g.0 == store@.tokens && g.2 == false);
                }
                return Err(ApiError::InvalidInput);
            },
            Some(v) => v,
        };
        if raw.len() != 32 {
            proof {
                let g = register_fold(
                    store@.tokens,
                    mailbox_id@,
                    items.skip(idx as int),
                    cfg.server_secret@,
                    now,
                );
                assert(b64url_dec(items.skip(idx as int)[0]).unwrap().len() != 32);
                assert(g.0 == store@.tokens && g.2 == false);
            }
            return Err(ApiError::InvalidInput);
        }
        let h = hmac_hash(cfg.server_secret.as_slice(), raw.as_slice());
        if store.find_token(mailbox_id.as_slice(), h.as_slice()).is_none() {
            let row = DepositTokenRow {
                mailbox_id: copy_bytes(mailbox_id.as_slice()),
                dep_hash: h,
                revoked: false,
                created_at: now,
            };
            let ghost pre = store@;
            let ghost row_view = row@;
            store.deposit_tokens.push(row);
            proof {
                assert(store@.tokens =~= pre.tokens.push(row_view));
                assert(store@.mailboxes =~= pre.mailboxes);
                assert(store@.messages =~= pre.messages);
                assert forall|a: int, b: int|
                    #![trigger store@.tokens[a], store@.tokens[b]]
                    0 <= a < b < store@.tokens.len() implies !(store@.tokens[a].mailbox_id
                    == store@.tokens[b].mailbox_id && store@.tokens[a].dep_hash
                    == store@.tokens[b].dep_hash) by {
                    if b == store@.tokens.len() - 1 {
                        assert(store@.tokens[a] == pre.tokens[a]);
                        assert(!has_token(pre.tokens, row_view.mailbox_id, row_view.dep_hash));
                    } else {
                        assert(store@.tokens[a] == pre.tokens[a]);
                        assert(store@.tokens[b] == pre.tokens[b]);
                    }
                }
            }
            added += 1;
        }
        idx += 1;
    }
    proof {
        assert(items.skip(count as int) =~= Seq::<Seq<u8>>::empty());
    }
    Ok(added)
}

// ---------------------------------------------------------------------------
// Deposit
// ---------------------------------------------------------------------------

/// Outcome of authenticating a depositor: the bearer digest must be a
/// registered, unrevoked deposit token of the mailbox. `None` means the
/// request is authenticated.
pub open spec fn dep_check(
    sv: StoreView,
    secret: Seq<u8>,
    mb: Seq<u8>,
    auth: Option<Seq<u8>>,
) -> Option<ApiError> {
    match auth_digest_of(secret, auth) {
        Err(e) => Some(e),
        Ok(d) => if !has_mailbox(sv.mailboxes, mb) {
            Some(ApiError::NotFound)
        } else if !token_live(sv.tokens, mb, d) {
            Some(ApiError::Forbidden)
        } else {
            None
        },
    }
}

/// The effective expiry of a deposit: the requested timestamp (or now plus
/// the default TTL) clamped from above to now plus the maximum TTL.
pub open spec fn clamped_expiry(cfg: Config, now: i64, requested: Option<i64>) -> int {
    let e0: int = match requested {
        None => now + cfg.default_ttl_days * 86400,
        Some(e) => e as int,
    };
    let emax: int = now + cfg.max_ttl_days * 86400;
    if e0 > emax {
        emax
    } else {
        e0
    }
}

/// The first stage of the deposit pipeline that rejects the request, if any:
/// size, authentication, expiry, quota, message id, idempotency, in that
/// order. `None` means the deposit is admitted.
pub open spec fn deposit_error(
    cfg: Config,
    sv: StoreView,
    now: i64,
    mb: Seq<u8>,
    auth: Option<Seq<u8>>,
    msg_id_hdr: Option<Seq<u8>>,
    requested: Option<i64>,
    body_len: int,
) -> Option<ApiError> {
    if body_len > cfg.max_msg_bytes {
        Some(ApiError::PayloadTooLarge)
    } else {
        match dep_check(sv, cfg.server_secret@, mb, auth) {
            Some(e) => Some(e),
            None => if clamped_expiry(cfg, now, requested) <= now {
                Some(ApiError::InvalidInput)
            } else if mailbox_bytes(sv.messages, mb) + body_len > cfg.max_queue_bytes {
                Some(ApiError::RateLimited)
            } else {
                match msg_id_hdr {
                    None => Some(ApiError::InvalidInput),
                    Some(t) => match b64url_dec(t) {
                        None => Some(ApiError::InvalidInput),
                        Some(raw) => if !(16 <= raw.len() <= 32) {
                            Some(ApiError::InvalidInput)
                        } else if msg_present(sv.messages, mb, raw) {
                            Some(ApiError::Conflict)
                        } else if sv.next_seq == i64::MAX {
                            Some(ApiError::ServerError)
                        } else {
                            None
                        },
                    },
                }
            },
        }
    }
}

/// Whether admitting `incoming` more bytes would push the mailbox past its
/// byte quota.
fn quota_exceeded(store: &Store, mb: &[u8], incoming: usize, quota: i64) -> (r: bool)
    requires
        quota >= 0,
    ensures
        r == (mailbox_bytes(store@.messages, mb@) + incoming > quota),
{
    let n = store.messages.len();
    let ghost ms = store@.messages;
    let mut acc: i128 = 0;
    let mut i: usize = 0;
    proof {
        assert(ms.skip(0) =~= ms);
    }
    while i < n
        invariant
            n == store.messages@.len(),
            ms == store@.messages,
            ms.len() == n,
            i <= n,
            0 <= acc <= quota,
            mailbox_bytes(ms, mb@) == acc + mailbox_bytes(ms.skip(i as int), mb@),
        decreases n - i,
    {
        proof {
            assert(ms.skip(i as int)[0] == ms[i as int]);
            assert(ms.skip(i as int).drop_first() =~= ms.skip(i + 1));
        }
        if bytes_eq(store.messages[i].mailbox_id.as_slice(), mb) {
            acc = acc + store.messages[i].blob.len() as i128;
            if acc > quota as i128 {
                proof {
                    lemma_mailbox_bytes_nonneg(ms.skip(i + 1), mb@);
                }
                return true;
            }
        }
        i += 1;
    }
    proof {
        assert(ms.skip(n as int) =~= Seq::<MessageView>::empty());
    }
    acc + (incoming as i128) > (quota as i128)
}

/// What an accepted deposit reports: the (re-encoded) message id and the
/// effective expiry.
#[derive(Debug)]
pub struct DepositOutcome {
    pub stored: bool,
    pub msg_id: Vec<u8>,
    pub expires_at: i64,
}

/// Admits one message into a mailbox. The stages short-circuit in pipeline
/// order; acceptance appends exactly one row, stamped with the next
/// store-wide sequence id, and has no other effect.
pub fn deposit(
    cfg: &Config,
    store: &mut Store,
    now: i64,
    mailbox_id: &Vec<u8>,
    auth: Option<&Vec<u8>>,
    msg_id_hdr: Option<&Vec<u8>>,
    requested_expiry: Option<i64>,
    body: &Vec<u8>,
) -> (r: Result<DepositOutcome, ApiError>)
    requires
        old(store)@.wf(),
        cfg.wf(),
        now_ok(now),
    ensures
        final(store)@.wf(),
        final(store)@.mailboxes == old(store)@.mailboxes,
        final(store)@.tokens == old(store)@.tokens,
        ({
            let de = deposit_error(
                *cfg,
                old(store)@,
                now,
                mailbox_id@,
                hdr_view(auth),
                hdr_view(msg_id_hdr),
                requested_expiry,
                body@.len() as int,
            );
            match de {
                Some(e) => r == Err::<DepositOutcome, ApiError>(e) && final(store)@ == old(
                    store,
                )@,
                None => r matches Ok(out) && {
                    let raw = b64url_dec(hdr_view(msg_id_hdr).unwrap()).unwrap();
                    &&& out.stored == true
                    &&& out.msg_id@ == b64url_of(raw)
                    &&& out.expires_at == clamped_expiry(*cfg, now, requested_expiry)
                    &&& final(store)@.messages == old(store)@.messages.push(
                        MessageView {
                            seq_id: old(store)@.next_seq,
                            mailbox_id: mailbox_id@,
                            msg_id: raw,
                            blob: body@,
                            received_at: now,
                            expires_at: out.expires_at,
                        },
                    )
                    &&& final(store)@.next_seq == old(store)@.next_seq + 1
                },
            }
        }),
{
    if body.len() > cfg.max_msg_bytes {
        return Err(ApiError::PayloadTooLarge);
    }
    // authenticate the write capability
    let digest = match auth_digest(cfg.server_secret.as_slice(), auth) {
        Err(e) => {
            return Err(e);
        },
        Ok(d) => d,
    };
    if store.find_mailbox(mailbox_id.as_slice()).is_none() {
        return Err(ApiError::NotFound);
    }
    let tok_idx = match store.find_token(mailbox_id.as_slice(), digest.as_slice()) {
        None => {
            return Err(ApiError::Forbidden);
        },
        Some(i) => i,
    };
    proof {
        lemma_token_at(store@.tokens, mailbox_id@, digest@, tok_idx as int);
    }
    if store.deposit_tokens[tok_idx].revoked {
        return Err(ApiError::Forbidden);
    }
    // expiry, clamped into (now, now + max TTL]
    let default_exp = now + cfg.default_ttl_days * 86400;
    let mut expires_at = match requested_expiry {
        Some(e) => e,
        None => default_exp,
    };
    let max_expires = now + cfg.max_ttl_days * 86400;
    if expires_at > max_expires {
        expires_at = max_expires;
    }
    if expires_at <= now {
        return Err(ApiError::InvalidInput);
    }
    // best-effort byte quota
    if quota_exceeded(store, mailbox_id.as_slice(), body.len(), cfg.max_queue_bytes) {
        return Err(ApiError::RateLimited);
    }
    // the idempotency key
    let msg_id_text = match msg_id_hdr {
        None => {
            return Err(ApiError::InvalidInput);
        },
        Some(t) => t,
    };
    let raw = match b64url_parse(msg_id_text.as_slice()) {
        None => {
            return Err(ApiError::InvalidInput);
        },
        Some(v) => v,
    };
    if raw.len() < 16 || raw.len() > 32 {
        return Err(ApiError::InvalidInput);
    }
    if store.find_message(mailbox_id.as_slice(), raw.as_slice()).is_some() {
        return Err(ApiError::Conflict);
    }
    if store.next_seq == i64::MAX {
        return Err(ApiError::ServerError);
    }
    let msg_id_b64 = b64url_encode(raw.as_slice());
    let row = MessageRow {
        seq_id: store.next_seq,
        mailbox_id: copy_bytes(mailbox_id.as_slice()),
        msg_id: raw,
        blob: copy_bytes(body.as_slice()),
        received_at: now,
        expires_at,
    };
    let ghost pre = store@;
    let ghost row_view = row@;
    store.messages.push(row);
    store.next_seq = store.next_seq + 1;
    proof {
        assert(store@.messages =~= pre.messages.push(row_view));
        assert(store@.mailboxes =~= pre.mailboxes);
        assert(store@.tokens =~= pre.tokens);
        let ms = store@.messages;
        assert forall|a: int, b: int|
            #![trigger ms[a], ms[b]]
            0 <= a < b < ms.len() implies ms[a].seq_id < ms[b].seq_id && !(ms[a].mailbox_id
            == ms[b].mailbox_id && ms[a].msg_id == ms[b].msg_id) by {
            if b == ms.len() - 1 {
                assert(ms[a] == pre.messages[a]);
                assert(!msg_present(pre.messages, row_view.mailbox_id, row_view.msg_id));
            } else {
                assert(ms[a] == pre.messages[a]);
                assert(ms[b] == pre.messages[b]);
            }
        }
        assert forall|a: int| 0 <= a < ms.len() implies 1 <= (#[trigger] ms[a]).seq_id
            < store@.next_seq && ms[a].received_at < ms[a].expires_at by {
            if a < ms.len() - 1 {
                assert(ms[a] == pre.messages[a]);
            }
        }
    }
    Ok(DepositOutcome { stored: true, msg_id: msg_id_b64, expires_at })
}

// ---------------------------------------------------------------------------
// Poll
// ---------------------------------------------------------------------------

/// One delivered message: the re-encoded id, timestamps, and the blob.
#[derive(Debug)]
pub struct PollMessage {
    pub msg_id: Vec<u8>,
    pub received_at: i64,
    pub expires_at: i64,
    pub blob: Vec<u8>,
}

/// A page of messages and the cursor to resume after it.
#[derive(Debug)]
pub struct PollOutcome {
    pub cursor: Vec<u8>,
    pub messages: Vec<PollMessage>,
}

/// The page size a poll uses: the requested limit (or the default) clamped
/// into [1, maximum].
pub open spec fn effective_limit(cfg: Config, requested: Option<i64>) -> int {
    let l: int = match requested {
        None => cfg.poll_limit_default as int,
        Some(v) => v as int,
    };
    if l < 1 {
        1
    } else if l > cfg.poll_limit_max {
        cfg.poll_limit_max as int
    } else {
        l
    }
}

/// What a successful poll at watermark `w` delivers: exactly the page of
/// `page_of`, in order, with each message re-encoded, under the cursor of
/// the last delivered sequence id (the unchanged watermark for an empty
/// page).
pub open spec fn poll_ok(
    out: PollOutcome,
    sv: StoreView,
    secret: Seq<u8>,
    mb: Seq<u8>,
    now: i64,
    w: i64,
    limit: int,
) -> bool {
    let page = page_of(sv.messages, mb, w, now, limit);
    &&& out.messages@.len() == page.len()
    &&& forall|i: int|
        0 <= i < page.len() ==> {
            &&& (#[trigger] out.messages@[i]).msg_id@ == b64url_of(page[i].msg_id)
            &&& out.messages@[i].received_at == page[i].received_at
            &&& out.messages@[i].expires_at == page[i].expires_at
            &&& out.messages@[i].blob@ == page[i].blob
        }
    &&& out.cursor@ == cursor_text(
        secret,
        mb,
        if page.len() == 0 {
            w
        } else {
            page.last().seq_id
        },
    )
}

/// Returns the next page of unexpired messages past the cursor's watermark,
/// in strict arrival (sequence) order, plus the cursor to resume after it.
/// Polling is non-destructive: the store is not touched.
pub fn poll(
    cfg: &Config,
    store: &Store,
    now: i64,
    mailbox_id: &Vec<u8>,
    auth: Option<&Vec<u8>>,
    cursor_in: Option<&Vec<u8>>,
    limit: Option<i64>,
) -> (r: Result<PollOutcome, ApiError>)
    requires
        store@.wf(),
        cfg.wf(),
        now_ok(now),
    ensures
        ({
            let a = poll_auth(store@, cfg.server_secret@, mailbox_id@, hdr_view(auth));
            &&& a matches Some(e) ==> r == Err::<PollOutcome, ApiError>(e)
            &&& a is None && cursor_in is None ==> (r matches Ok(out) && poll_ok(
                out,
                store@,
                cfg.server_secret@,
                mailbox_id@,
                now,
                0,
                effective_limit(*cfg, limit),
            ))
            &&& a is None ==> (cursor_in matches Some(c) ==> ({
                &&& r is Err ==> r == Err::<PollOutcome, ApiError>(ApiError::InvalidInput)
                &&& forall|w: i64|
                    0 <= w && c@ == cursor_text(cfg.server_secret@, mailbox_id@, w) ==> r is Ok
                &&& r matches Ok(out) ==> exists|w: i64|
                    {
                        &&& 0 <= w
                        &&& cursor_accepts(cfg.server_secret@, mailbox_id@, c@, w)
                        &&& poll_ok(
                            out,
                            store@,
                            cfg.server_secret@,
                            mailbox_id@,
                            now,
                            w,
                            effective_limit(*cfg, limit),
                        )
                    }
            }))
        }),
        // nothing expired at request time is ever delivered
        r matches Ok(out) ==> forall|i: int|
            0 <= i < out.messages@.len() ==> (#[trigger] out.messages@[i]).expires_at > now,
{
    if let Err(e) = check_poll_auth(cfg, store, mailbox_id, auth) {
        return Err(e);
    }
    let watermark: i64 = match cursor_in {
        None => 0,
        Some(c) => match cursor_decode(
            cfg.server_secret.as_slice(),
            mailbox_id.as_slice(),
            c.as_slice(),
        ) {
            Err(e) => {
                return Err(e);
            },
            Ok(w) => w,
        },
    };
    let lim_req = match limit {
        None => cfg.poll_limit_default,
        Some(v) => v,
    };
    let lim: i64 = if lim_req < 1 {
        1
    } else if lim_req > cfg.poll_limit_max {
        cfg.poll_limit_max
    } else {
        lim_req
    };
    proof {
        assert(lim as int == effective_limit(*cfg, limit));
    }
    let n = store.messages.len();
    let ghost ms = store@.messages;
    let ghost total_page = page_of(ms, mailbox_id@, watermark, now, lim as int);
    let mut out_msgs: Vec<PollMessage> = Vec::new();
    let ghost mut page_acc = Seq::<MessageView>::empty();
    let mut new_last: i64 = watermark;
    let mut taken: i64 = 0;
    let mut i: usize = 0;
    proof {
        assert(ms.skip(0) =~= ms);
    }
    while i < n && taken < lim
        invariant
            store@.wf(),
            n == store.messages@.len(),
            ms == store@.messages,
            ms.len() == n,
            0 <= watermark,
            1 <= lim,
            i <= n,
            0 <= taken <= lim,
            taken == page_acc.len(),
            out_msgs@.len() == page_acc.len(),
            forall|k: int|
                0 <= k < page_acc.len() ==> {
                    &&& (#[trigger] out_msgs@[k]).msg_id@ == b64url_of(page_acc[k].msg_id)
                    &&& out_msgs@[k].received_at == page_acc[k].received_at
                    &&& out_msgs@[k].expires_at == page_acc[k].expires_at
                    &&& out_msgs@[k].blob@ == page_acc[k].blob
                },
            forall|k: int|
                0 <= k < page_acc.len() ==> (#[trigger] page_acc[k]).expires_at > now,
            total_page == page_of(ms, mailbox_id@, watermark, now, lim as int),
            page_acc + page_of(ms.skip(i as int), mailbox_id@, watermark, now, lim - taken)
                == total_page,
            new_last == if page_acc.len() == 0 {
                watermark
            } else {
                page_acc.last().seq_id
            },
            0 <= new_last,
        decreases n - i,
    {
        proof {
            assert(ms.skip(i as int)[0] == ms[i as int]);
            assert(ms.skip(i as int).drop_first() =~= ms.skip(i + 1));
        }
        let row = &store.messages[i];
        proof {
            assert(ms[i as int] == store.messages@[i as int]@);
        }
        if bytes_eq(row.mailbox_id.as_slice(), mailbox_id.as_slice()) && row.seq_id > watermark
            && row.expires_at > now {
            let pm = PollMessage {
                msg_id: b64url_encode(row.msg_id.as_slice()),
                received_at: row.received_at,
                expires_at: row.expires_at,
                blob: copy_bytes(row.blob.as_slice()),
            };
            out_msgs.push(pm);
            new_last = row.seq_id;
            taken += 1;
            proof {
                page_acc = page_acc.push(ms[i as int]);
                assert(page_acc + page_of(
                    ms.skip(i + 1),
                    mailbox_id@,
                    watermark,
                    now,
                    lim - taken,
                ) =~= total_page);
            }
        }
        i += 1;
    }
    proof {
        if i == n {
            assert(ms.skip(n as int) =~= Seq::<MessageView>::empty());
        }
        assert(page_acc =~= total_page);
    }
    let cursor_out = cursor_encode(cfg.server_secret.as_slice(), mailbox_id.as_slice(), new_last);
    Ok(PollOutcome { cursor: cursor_out, messages: out_msgs })
}

// ---------------------------------------------------------------------------
// Ack
// ---------------------------------------------------------------------------

/// The message table, deletion count and success flag after acknowledging a
/// batch of message ids in order. Absent ids are silent no-ops; an id that
/// fails to decode aborts the batch, earlier deletions staying committed.
pub open spec fn ack_fold(ms: Seq<MessageView>, mb: Seq<u8>, items: Seq<Seq<u8>>) -> (
    Seq<MessageView>,
    int,
    bool,
)
    decreases items.len(),
{
    if items.len() == 0 {
        (ms, 0, true)
    } else {
        match b64url_dec(items[0]) {
            None => (ms, 0, false),
            Some(raw) => {
                let rec = ack_fold(remove_msg(ms, mb, raw), mb, items.drop_first());
                (
                    rec.0,
                    rec.1 + if msg_present(ms, mb, raw) {
                        1int
                    } else {
                        0int
                    },
                    rec.2,
                )
            },
        }
    }
}

/// Acknowledges (deletes) a batch of 1 to 2000 message ids for a mailbox and
/// reports how many rows were actually deleted. Idempotent per id: absent or
/// already-deleted ids count zero and never error. Requires the poll token.
pub fn ack(
    cfg: &Config,
    store: &mut Store,
    mailbox_id: &Vec<u8>,
    auth: Option<&Vec<u8>>,
    msg_ids: &Vec<Vec<u8>>,
) -> (r: Result<u64, ApiError>)
    requires
        old(store)@.wf(),
        cfg.wf(),
    ensures
        final(store)@.wf(),
        final(store)@.mailboxes == old(store)@.mailboxes,
        final(store)@.tokens == old(store)@.tokens,
        final(store)@.next_seq == old(store)@.next_seq,
        ({
            let a = poll_auth(old(store)@, cfg.server_secret@, mailbox_id@, hdr_view(auth));
            match a {
                Some(e) => r == Err::<u64, ApiError>(e) && final(store)@ == old(store)@,
                None => if !(1 <= msg_ids@.len() <= 2000) {
                    r == Err::<u64, ApiError>(ApiError::InvalidInput) && final(store)@ == old(
                        store,
                    )@
                } else {
                    let f = ack_fold(old(store)@.messages, mailbox_id@, msg_ids.deep_view());
                    &&& final(store)@.messages == f.0
                    &&& f.2 ==> r == Ok::<u64, ApiError>(f.1 as u64)
                    &&& !f.2 ==> r == Err::<u64, ApiError>(ApiError::InvalidInput)
                },
            }
        }),
{
    if let Err(e) = check_poll_auth(cfg, store, mailbox_id, auth) {
        return Err(e);
    }
    let count = msg_ids.len();
    if count == 0 || count > 2000 {
        return Err(ApiError::InvalidInput);
    }
    let ghost items = msg_ids.deep_view();
    let ghost f_total = ack_fold(old(store)@.messages, mailbox_id@, items);
    let mut deleted: u64 = 0;
    let mut idx: usize = 0;
    proof {
        assert(items.skip(0) =~= items);
    }
    while idx < count
        invariant
            store@.wf(),
            store@.mailboxes == old(store)@.mailboxes,
            store@.tokens == old(store)@.tokens,
            store@.next_seq == old(store)@.next_seq,
            count == msg_ids@.len(),
            1 <= count <= 2000,
            idx <= count,
            deleted <= idx,
            poll_auth(old(store)@, cfg.server_secret@, mailbox_id@, hdr_view(auth)) is None,
            items == msg_ids.deep_view(),
            f_total == ack_fold(old(store)@.messages, mailbox_id@, items),
            ({
                let g = ack_fold(store@.messages, mailbox_id@, items.skip(idx as int));
                f_total.0 == g.0 && f_total.1 == deleted + g.1 && f_total.2 == g.2
            }),
        decreases count - idx,
    {
        proof {
            assert(items[idx as int] == msg_ids@[idx as int]@);
            assert(items.skip(idx as int)[0] == items[idx as int]);
            assert(items.skip(idx as int).drop_first() =~= items.skip(idx + 1));
        }
        let raw = match b64url_parse(msg_ids[idx].as_slice()) {
            None => {
                proof {
                    let g = ack_fold(store@.messages, mailbox_id@, items.skip(idx as int));
                    assert(b64url_dec(items.skip(idx as int)[0]) is None);
                    assert(g.0 == store@.messages && g.2 == false);
                }
                return Err(ApiError::InvalidInput);
            },
            Some(v) => v,
        };
        match store.find_message(mailbox_id.as_slice(), raw.as_slice()) {
            None => {
                proof {
                    assert(!msg_present(store@.messages, mailbox_id@, raw@));
                    assert(remove_msg(store@.messages, mailbox_id@, raw@) == store@.messages);
                }
            },
            Some(i) => {
                proof {
                    lemma_msg_index(store@.messages, mailbox_id@, raw@, i as int);
                    lemma_remove_wf(store@.messages, i as int, store@.next_seq);
                }
                let ghost pre = store@;
                let _ = store.messages.remove(i);
                proof {
                    assert(store@.messages =~= pre.messages.remove(i as int));
                    assert(store@.mailboxes =~= pre.mailboxes);
                    assert(store@.tokens =~= pre.tokens);
                    assert(store@.messages == remove_msg(pre.messages, mailbox_id@, raw@));
                }
                deleted += 1;
            },
        }
        idx += 1;
    }
    proof {
        assert(items.skip(count as int) =~= Seq::<Seq<u8>>::empty());
    }
    Ok(deleted)
}

// ---------------------------------------------------------------------------
// Revoke
// ---------------------------------------------------------------------------

/// The token table, count of rows actually flipped from unrevoked to
/// revoked, and success flag after revoking a batch of digest values in
/// order. A digest that is absent, or whose row is already revoked, counts
/// zero. An entry that fails to decode or has the wrong length aborts the
/// batch, earlier revocations staying committed.
pub open spec fn revoke_fold(ts: Seq<TokenView>, mb: Seq<u8>, items: Seq<Seq<u8>>) -> (
    Seq<TokenView>,
    int,
    bool,
)
    decreases items.len(),
{
    if items.len() == 0 {
        (ts, 0, true)
    } else {
        match b64url_dec(items[0]) {
            None => (ts, 0, false),
            Some(h) => if h.len() != 32 {
                (ts, 0, false)
            } else if has_token(ts, mb, h) {
                let i = token_index(ts, mb, h);
                let rec = revoke_fold(
                    ts.update(i, TokenView { revoked: true, ..ts[i] }),
                    mb,
                    items.drop_first(),
                );
                (
                    rec.0,
                    rec.1 + if ts[i].revoked {
                        0int
                    } else {
                        1int
                    },
                    rec.2,
                )
            } else {
                revoke_fold(ts, mb, items.drop_first())
            },
        }
    }
}

/// Revokes a batch of 1 to 1000 deposit-token digest values (already-hashed,
/// not raw tokens — the deliberate asymmetry with registration) and reports
/// how many rows were actually flipped to revoked; a digest already revoked
/// counts zero. Requires the poll token.
pub fn revoke(
    cfg: &Config,
    store: &mut Store,
    mailbox_id: &Vec<u8>,
    auth: Option<&Vec<u8>>,
    dep_hashes: &Vec<Vec<u8>>,
) -> (r: Result<u64, ApiError>)
    requires
        old(store)@.wf(),
        cfg.wf(),
    ensures
        final(store)@.wf(),
        final(store)@.mailboxes == old(store)@.mailboxes,
        final(store)@.messages == old(store)@.messages,
        final(store)@.next_seq == old(store)@.next_seq,
        ({
            let a = poll_auth(old(store)@, cfg.server_secret@, mailbox_id@, hdr_view(auth));
            match a {
                Some(e) => r == Err::<u64, ApiError>(e) && final(store)@ == old(store)@,
                None => if !(1 <= dep_hashes@.len() <= 1000) {
                    r == Err::<u64, ApiError>(ApiError::InvalidInput) && final(store)@ == old(
                        store,
                    )@
                } else {
                    let f = revoke_fold(old(store)@.tokens, mailbox_id@, dep_hashes.deep_view());
                    &&& final(store)@.tokens == f.0
                    &&& f.2 ==> r == Ok::<u64, ApiError>(f.1 as u64)
                    &&& !f.2 ==> r == Err::<u64, ApiError>(ApiError::InvalidInput)
                },
            }
        }),
{
    if let Err(e) = check_poll_auth(cfg, store, mailbox_id, auth) {
        return Err(e);
    }
    let count = dep_hashes.len();
    if count == 0 || count > 1000 {
        return Err(ApiError::InvalidInput);
    }
    let ghost items = dep_hashes.deep_view();
    let ghost f_total = revoke_fold(old(store)@.tokens, mailbox_id@, items);
    let mut revoked: u64 = 0;
    let mut idx: usize = 0;
    proof {
        assert(items.skip(0) =~= items);
    }
    while idx < count
        invariant
            store@.wf(),
            store@.mailboxes == old(store)@.mailboxes,
            store@.messages == old(store)@.messages,
            store@.next_seq == old(store)@.next_seq,
            count == dep_hashes@.len(),
            1 <= count <= 1000,
            idx <= count,
            revoked <= idx,
            poll_auth(old(store)@, cfg.server_secret@, mailbox_id@, hdr_view(auth)) is None,
            items == dep_hashes.deep_view(),
            f_total == revoke_fold(old(store)@.tokens, mailbox_id@, items),
            ({
                let g = revoke_fold(store@.tokens, mailbox_id@, items.skip(idx as int));
                f_total.0 == g.0 && f_total.1 == revoked + g.1 && f_total.2 == g.2
            }),
        decreases count - idx,
    {
        proof {
            assert(items[idx as int] == dep_hashes@[idx as int]@);
            assert(items.skip(idx as int)[0] == items[idx as int]);
            assert(items.skip(idx as int).drop_first() =~= items.skip(idx + 1));
        }
        let raw = match b64url_parse(dep_hashes[idx].as_slice()) {
            None => {
                proof {
                    let g = revoke_fold(store@.tokens, mailbox_id@, items.skip(idx as int));
                    assert(b64url_dec(items.skip(idx as int)[0]) is None);
                    assert(g.0 == store@.tokens && g.2 == false);
                }
                return Err(ApiError::InvalidInput);
            },
            Some(v) => v,
        };
        if raw.len() != 32 {
            proof {
                let g = revoke_fold(store@.tokens, mailbox_id@, items.skip(idx as int));
                assert(b64url_dec(items.skip(idx as int)[0]).unwrap().len() != 32);
                assert(g.0 == store@.tokens && g.2 == false);
            }
            return Err(ApiError::InvalidInput);
        }
        match store.find_token(mailbox_id.as_slice(), raw.as_slice()) {
            None => {
                proof {
                    assert(!has_token(store@.tokens, mailbox_id@, raw@));
                }
            },
            Some(i) => {
                proof {
                    lemma_token_at(store@.tokens, mailbox_id@, raw@, i as int);
                }
                let ghost pre = store@;
                let row = store.deposit_tokens.remove(i);
                let was_revoked = row.revoked;
                let new_row = DepositTokenRow {
                    mailbox_id: row.mailbox_id,
                    dep_hash: row.dep_hash,
                    revoked: true,
                    created_at: row.created_at,
                };
                store.deposit_tokens.insert(i, new_row);
                proof {
                    assert(store@.tokens =~= pre.tokens.update(
                        i as int,
                        TokenView { revoked: true, ..pre.tokens[i as int] },
                    ));
                    assert(store@.mailboxes =~= pre.mailboxes);
                    assert(store@.messages =~= pre.messages);
                    let ts = store@.tokens;
                    assert forall|a: int, b: int|
                        #![trigger ts[a], ts[b]]
                        0 <= a < b < ts.len() implies !(ts[a].mailbox_id == ts[b].mailbox_id
                        && ts[a].dep_hash == ts[b].dep_hash) by {
                        assert(ts[a].mailbox_id == pre.tokens[a].mailbox_id && ts[a].dep_hash
                            == pre.tokens[a].dep_hash);
                        assert(ts[b].mailbox_id == pre.tokens[b].mailbox_id && ts[b].dep_hash
                            == pre.tokens[b].dep_hash);
                    }
                }
                if !was_revoked {
                    revoked += 1;
                }
            },
        }
        idx += 1;
    }
    proof {
        assert(items.skip(count as int) =~= Seq::<Seq<u8>>::empty());
    }
    Ok(revoked)
}

// ---------------------------------------------------------------------------
// Expiry reaper
// ---------------------------------------------------------------------------

/// One pass of the background purge: deletes every message expired at `now`,
/// across all mailboxes, and reports how many rows went. Visibility never
/// depends on this: the poll pipeline filters on expiry independently.
pub fn reap(store: &mut Store, now: i64) -> (purged: u64)
    requires
        old(store)@.wf(),
    ensures
        final(store)@.wf(),
        final(store)@.mailboxes == old(store)@.mailboxes,
        final(store)@.tokens == old(store)@.tokens,
        final(store)@.next_seq == old(store)@.next_seq,
        final(store)@.messages == keep_live(old(store)@.messages, now),
        purged == old(store)@.messages.len() - final(store)@.messages.len(),
{
    let ghost orig = store@.messages;
    let n = store.messages.len();
    let mut kept: Vec<MessageRow> = Vec::new();
    let mut i: usize = 0;
    proof {
        assert(orig.skip(0) =~= orig);
        assert(kept@.map_values(|r: MessageRow| r@) =~= Seq::<MessageView>::empty());
    }
    while i < n
        invariant
            n == store.messages@.len(),
            orig == store@.messages,
            orig.len() == n,
            i <= n,
            kept@.len() <= i,
            keep_live(orig, now) == kept@.map_values(|r: MessageRow| r@) + keep_live(
                orig.skip(i as int),
                now,
            ),
        decreases n - i,
    {
        proof {
            assert(orig.skip(i as int)[0] == orig[i as int]);
            assert(orig.skip(i as int).drop_first() =~= orig.skip(i + 1));
        }
        let row = &store.messages[i];
        proof {
            assert(orig[i as int] == store.messages@[i as int]@);
        }
        if row.expires_at > now {
            let ghost pre_kept = kept@.map_values(|r: MessageRow| r@);
            kept.push(
                MessageRow {
                    seq_id: row.seq_id,
                    mailbox_id: copy_bytes(row.mailbox_id.as_slice()),
                    msg_id: copy_bytes(row.msg_id.as_slice()),
                    blob: copy_bytes(row.blob.as_slice()),
                    received_at: row.received_at,
                    expires_at: row.expires_at,
                },
            );
            proof {
                assert(kept@.map_values(|r: MessageRow| r@) =~= pre_kept.push(orig[i as int]));
            }
        }
        i += 1;
    }
    proof {
        assert(orig.skip(n as int) =~= Seq::<MessageView>::empty());
        lemma_keep_live_wf(orig, now, store@.next_seq);
    }
    let kept_len = kept.len();
    let ghost pre = store@;
    store.messages = kept;
    proof {
        assert(store@.messages =~= keep_live(orig, now));
        assert(store@.mailboxes =~= pre.mailboxes);
        assert(store@.tokens =~= pre.tokens);
    }
    (n - kept_len) as u64
}

} // verus!
