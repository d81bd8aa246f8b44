use base64::engine::general_purpose::URL_SAFE_NO_PAD;
use base64::Engine;
use deaddrop::api::{ack, create_mailbox, deposit, poll, reap, register_deposit_tokens, revoke};
use deaddrop::config::Config;
use deaddrop::crypto::hmac_hash;
use deaddrop::errors::ApiError;
use deaddrop::store::Store;

const NOW: i64 = 1_700_000_000;
const SECRET: &[u8] = b"test-server-secret-0123456789abc";

fn cfg() -> Config {
    Config::standard(SECRET.to_vec())
}

fn bearer(token_text: &[u8]) -> Vec<u8> {
    let mut v = b"bearer ".to_vec();
    v.extend_from_slice(token_text);
    v
}

fn b64(raw: &[u8]) -> Vec<u8> {
    URL_SAFE_NO_PAD.encode(raw).into_bytes()
}

fn setup_mailbox(store: &mut Store) -> (Vec<u8>, Vec<u8>) {
    let out = create_mailbox(&cfg(), store, NOW, None).expect("create");
    let poll_token = out.poll_token.expect("generated token");
    (out.mailbox_id, poll_token)
}

fn register_one(store: &mut Store, mailbox_id: &Vec<u8>, poll_token: &Vec<u8>) -> Vec<u8> {
    let raw: Vec<u8> = (0u8..32u8).collect();
    let tok_text = b64(&raw);
    let auth = bearer(poll_token);
    let added = register_deposit_tokens(
        &cfg(),
        store,
        NOW,
        mailbox_id,
        Some(&auth),
        &vec![tok_text.clone()],
    )
    .expect("register");
    assert_eq!(added, 1);
    tok_text
}

#[test]
fn scenario_full_lifecycle() {
    let config = cfg();
    let mut store = Store::new();

    // create a mailbox with no override: id and a one-time poll token come back
    let out = create_mailbox(&config, &mut store, NOW, None).expect("create");
    let mailbox_id = out.mailbox_id.clone();
    let poll_token = out.poll_token.clone().expect("poll token present");
    assert_eq!(out.limits.max_msg_bytes, 16384);
    assert_eq!(out.limits.ttl_days, 7);
    // the identifiers are canonical base64url of 24 and 32 random bytes
    assert_eq!(URL_SAFE_NO_PAD.decode(&mailbox_id).unwrap().len(), 24);
    assert_eq!(URL_SAFE_NO_PAD.decode(&poll_token).unwrap().len(), 32);

    // register one deposit token
    let dep_token_text = register_one(&mut store, &mailbox_id, &poll_token);

    // deposit a 10-byte blob under a fresh 16-byte message id, no expiry given
    let msg_id_text = b64(&[7u8; 16]);
    let body = b"ten bytes!".to_vec();
    let dep_auth = bearer(&dep_token_text);
    let dep = deposit(
        &config,
        &mut store,
        NOW,
        &mailbox_id,
        Some(&dep_auth),
        Some(&msg_id_text),
        None,
        &body,
    )
    .expect("deposit");
    assert!(dep.stored);
    assert_eq!(dep.msg_id, msg_id_text);
    assert_eq!(dep.expires_at, NOW + 7 * 86400);

    // poll with no cursor, limit 10: exactly the one message, non-empty cursor
    let poll_auth_hdr = bearer(&poll_token);
    let page = poll(
        &config,
        &store,
        NOW,
        &mailbox_id,
        Some(&poll_auth_hdr),
        None,
        Some(10),
    )
    .expect("poll");
    assert_eq!(page.messages.len(), 1);
    assert_eq!(page.messages[0].msg_id, msg_id_text);
    assert_eq!(page.messages[0].blob, body);
    assert_eq!(page.messages[0].received_at, NOW);
    assert_eq!(page.messages[0].expires_at, NOW + 7 * 86400);
    assert!(!page.cursor.is_empty());

    // poll again with the returned cursor: empty page, same cursor value
    let page2 = poll(
        &config,
        &store,
        NOW,
        &mailbox_id,
        Some(&poll_auth_hdr),
        Some(&page.cursor),
        Some(10),
    )
    .expect("poll 2");
    assert_eq!(page2.messages.len(), 0);
    assert_eq!(page2.cursor, page.cursor);

    // ack the message: one row deleted
    let deleted = ack(
        &config,
        &mut store,
        &mailbox_id,
        Some(&poll_auth_hdr),
        &vec![msg_id_text.clone()],
    )
    .expect("ack");
    assert_eq!(deleted, 1);

    // the original cursor still yields nothing
    let page3 = poll(
        &config,
        &store,
        NOW,
        &mailbox_id,
        Some(&poll_auth_hdr),
        Some(&page.cursor),
        Some(10),
    )
    .expect("poll 3");
    assert_eq!(page3.messages.len(), 0);
}

#[test]
fn oversized_deposit_rejected_without_a_row() {
    let config = cfg();
    let mut store = Store::new();
    let (mailbox_id, poll_token) = setup_mailbox(&mut store);
    let dep_token_text = register_one(&mut store, &mailbox_id, &poll_token);
    let dep_auth = bearer(&dep_token_text);
    let big = vec![0u8; 16385];
    let r = deposit(
        &config,
        &mut store,
        NOW,
        &mailbox_id,
        Some(&dep_auth),
        Some(&b64(&[1u8; 16])),
        None,
        &big,
    );
    assert_eq!(r.unwrap_err(), ApiError::PayloadTooLarge);
    assert_eq!(store.messages.len(), 0);
}

#[test]
fn duplicate_message_id_conflicts_exactly_once() {
    let config = cfg();
    let mut store = Store::new();
    let (mailbox_id, poll_token) = setup_mailbox(&mut store);
    let dep_token_text = register_one(&mut store, &mailbox_id, &poll_token);
    let dep_auth = bearer(&dep_token_text);
    let msg_id_text = b64(&[9u8; 20]);

    let first = deposit(
        &config,
        &mut store,
        NOW,
        &mailbox_id,
        Some(&dep_auth),
        Some(&msg_id_text),
        None,
        &b"payload one".to_vec(),
    );
    assert!(first.unwrap().stored);

    // a different blob, a later clock: still Conflict, nothing overwritten
    let second = deposit(
        &config,
        &mut store,
        NOW + 5,
        &mailbox_id,
        Some(&dep_auth),
        Some(&msg_id_text),
        None,
        &b"different payload".to_vec(),
    );
    assert_eq!(second.unwrap_err(), ApiError::Conflict);
    assert_eq!(store.messages.len(), 1);
    assert_eq!(store.messages[0].blob, b"payload one".to_vec());
}

#[test]
fn cursor_bound_to_its_mailbox() {
    let config = cfg();
    let mut store = Store::new();
    let (mailbox_a, poll_a) = setup_mailbox(&mut store);
    let (mailbox_b, poll_b) = setup_mailbox(&mut store);

    let auth_a = bearer(&poll_a);
    let page_a = poll(&config, &store, NOW, &mailbox_a, Some(&auth_a), None, None).expect("poll a");

    // the cursor minted for mailbox A is rejected at mailbox B
    let auth_b = bearer(&poll_b);
    let r = poll(
        &config,
        &store,
        NOW,
        &mailbox_b,
        Some(&auth_b),
        Some(&page_a.cursor),
        None,
    );
    assert_eq!(r.unwrap_err(), ApiError::InvalidInput);
}

#[test]
fn poll_orders_by_arrival_and_skips_expired() {
    let config = cfg();
    let mut store = Store::new();
    let (mailbox_id, poll_token) = setup_mailbox(&mut store);
    let dep_token_text = register_one(&mut store, &mailbox_id, &poll_token);
    let dep_auth = bearer(&dep_token_text);

    for (i, expiry) in [(1u8, None), (2u8, Some(NOW + 5)), (3u8, None)] {
        deposit(
            &config,
            &mut store,
            NOW,
            &mailbox_id,
            Some(&dep_auth),
            Some(&b64(&[i; 16])),
            expiry,
            &vec![i],
        )
        .expect("deposit");
    }

    // at NOW + 10 the second message is expired and must not surface
    let auth = bearer(&poll_token);
    let page = poll(
        &config,
        &store,
        NOW + 10,
        &mailbox_id,
        Some(&auth),
        None,
        Some(10),
    )
    .expect("poll");
    assert_eq!(page.messages.len(), 2);
    assert_eq!(page.messages[0].msg_id, b64(&[1u8; 16]));
    assert_eq!(page.messages[1].msg_id, b64(&[3u8; 16]));

    // a limit of 1 truncates to the earliest
    let one = poll(
        &config,
        &store,
        NOW + 10,
        &mailbox_id,
        Some(&auth),
        None,
        Some(1),
    )
    .expect("poll limit 1");
    assert_eq!(one.messages.len(), 1);
    assert_eq!(one.messages[0].msg_id, b64(&[1u8; 16]));

    // resuming from that cursor delivers the next live message
    let rest = poll(
        &config,
        &store,
        NOW + 10,
        &mailbox_id,
        Some(&auth),
        Some(&one.cursor),
        Some(10),
    )
    .expect("poll rest");
    assert_eq!(rest.messages.len(), 1);
    assert_eq!(rest.messages[0].msg_id, b64(&[3u8; 16]));
}

#[test]
fn ack_idempotent_one_then_zero() {
    let config = cfg();
    let mut store = Store::new();
    let (mailbox_id, poll_token) = setup_mailbox(&mut store);
    let dep_token_text = register_one(&mut store, &mailbox_id, &poll_token);
    let dep_auth = bearer(&dep_token_text);
    let msg_id_text = b64(&[4u8; 16]);
    deposit(
        &config,
        &mut store,
        NOW,
        &mailbox_id,
        Some(&dep_auth),
        Some(&msg_id_text),
        None,
        &b"x".to_vec(),
    )
    .expect("deposit");

    let auth = bearer(&poll_token);
    let first = ack(
        &config,
        &mut store,
        &mailbox_id,
        Some(&auth),
        &vec![msg_id_text.clone()],
    )
    .expect("ack 1");
    assert_eq!(first, 1);
    let second = ack(
        &config,
        &mut store,
        &mailbox_id,
        Some(&auth),
        &vec![msg_id_text.clone()],
    )
    .expect("ack 2");
    assert_eq!(second, 0);
}

#[test]
fn revoked_token_can_no_longer_deposit() {
    let config = cfg();
    let mut store = Store::new();
    let (mailbox_id, poll_token) = setup_mailbox(&mut store);
    let dep_token_text = register_one(&mut store, &mailbox_id, &poll_token);
    let dep_auth = bearer(&dep_token_text);

    // the token works before revocation
    deposit(
        &config,
        &mut store,
        NOW,
        &mailbox_id,
        Some(&dep_auth),
        Some(&b64(&[5u8; 16])),
        None,
        &b"before".to_vec(),
    )
    .expect("deposit before revocation");

    // revocation takes the digest value, not the raw token
    let raw: Vec<u8> = (0u8..32u8).collect();
    let digest = hmac_hash(SECRET, &raw);
    let auth = bearer(&poll_token);
    let revoked = revoke(
        &config,
        &mut store,
        &mailbox_id,
        Some(&auth),
        &vec![b64(&digest)],
    )
    .expect("revoke");
    assert_eq!(revoked, 1);

    let r = deposit(
        &config,
        &mut store,
        NOW,
        &mailbox_id,
        Some(&dep_auth),
        Some(&b64(&[6u8; 16])),
        None,
        &b"after".to_vec(),
    );
    assert_eq!(r.unwrap_err(), ApiError::Forbidden);

    // revoking again flips nothing: the count reports actual flips only
    let again = revoke(
        &config,
        &mut store,
        &mailbox_id,
        Some(&auth),
        &vec![b64(&digest)],
    )
    .expect("revoke again");
    assert_eq!(again, 0);
}

#[test]
fn register_ignores_already_present_tokens() {
    let config = cfg();
    let mut store = Store::new();
    let (mailbox_id, poll_token) = setup_mailbox(&mut store);
    let auth = bearer(&poll_token);
    let t1 = b64(&[11u8; 32]);
    let t2 = b64(&[22u8; 32]);
    // a duplicate inside one batch counts once
    let added = register_deposit_tokens(
        &config,
        &mut store,
        NOW,
        &mailbox_id,
        Some(&auth),
        &vec![t1.clone(), t2.clone(), t1.clone()],
    )
    .expect("register");
    assert_eq!(added, 2);
    // re-registering later adds nothing
    let again = register_deposit_tokens(
        &config,
        &mut store,
        NOW,
        &mailbox_id,
        Some(&auth),
        &vec![t1.clone()],
    )
    .expect("register again");
    assert_eq!(again, 0);
}

#[test]
fn mid_batch_failure_keeps_earlier_mutations() {
    let config = cfg();
    let mut store = Store::new();
    let (mailbox_id, poll_token) = setup_mailbox(&mut store);
    let auth = bearer(&poll_token);
    let good = b64(&[33u8; 32]);
    let bad = b"not!valid*base64~".to_vec();
    let r = register_deposit_tokens(
        &config,
        &mut store,
        NOW,
        &mailbox_id,
        Some(&auth),
        &vec![good.clone(), bad],
    );
    assert_eq!(r.unwrap_err(), ApiError::InvalidInput);
    // the first token was committed before the batch aborted
    assert_eq!(store.deposit_tokens.len(), 1);
}

#[test]
fn reaper_purges_expired_rows_only() {
    let config = cfg();
    let mut store = Store::new();
    let (mailbox_id, poll_token) = setup_mailbox(&mut store);
    let dep_token_text = register_one(&mut store, &mailbox_id, &poll_token);
    let dep_auth = bearer(&dep_token_text);
    deposit(
        &config,
        &mut store,
        NOW,
        &mailbox_id,
        Some(&dep_auth),
        Some(&b64(&[41u8; 16])),
        Some(NOW + 5),
        &b"short".to_vec(),
    )
    .expect("deposit short");
    deposit(
        &config,
        &mut store,
        NOW,
        &mailbox_id,
        Some(&dep_auth),
        Some(&b64(&[42u8; 16])),
        None,
        &b"long".to_vec(),
    )
    .expect("deposit long");

    let purged = reap(&mut store, NOW + 10);
    assert_eq!(purged, 1);
    assert_eq!(store.messages.len(), 1);
    assert_eq!(store.messages[0].msg_id, vec![42u8; 16]);
}
