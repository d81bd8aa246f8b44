use base64::engine::general_purpose::URL_SAFE_NO_PAD;
use base64::Engine;
use deaddrop::api::{ack, create_mailbox, deposit, poll, register_deposit_tokens};
use deaddrop::config::Config;
use deaddrop::crypto::hmac_hash;
use deaddrop::cursor::cursor_encode;
use deaddrop::errors::ApiError;
use deaddrop::store::Store;

const NOW: i64 = 1_700_000_000;
const SECRET: &[u8] = b"unit-secret";

fn cfg() -> Config {
    Config::standard(SECRET.to_vec())
}

fn bearer(token_text: &[u8]) -> Vec<u8> {
    let mut v = b"Bearer ".to_vec();
    v.extend_from_slice(token_text);
    v
}

fn b64(raw: &[u8]) -> Vec<u8> {
    URL_SAFE_NO_PAD.encode(raw).into_bytes()
}

fn setup(store: &mut Store) -> (Vec<u8>, Vec<u8>, Vec<u8>) {
    let out = create_mailbox(&cfg(), store, NOW, None).expect("create");
    let poll_token = out.poll_token.expect("token");
    let raw: Vec<u8> = (100u8..132u8).collect();
    let tok_text = b64(&raw);
    let auth = bearer(&poll_token);
    register_deposit_tokens(
        &cfg(),
        store,
        NOW,
        &out.mailbox_id,
        Some(&auth),
        &vec![tok_text.clone()],
    )
    .expect("register");
    (out.mailbox_id, poll_token, tok_text)
}

#[test]
fn hmac_matches_published_test_vector() {
    // RFC 4231, test case 2
    let digest = hmac_hash(b"Jefe", b"what do ya want for nothing?");
    let expected = [
        0x5bu8, 0xdc, 0xc1, 0x46, 0xbf, 0x60, 0x75, 0x4e, 0x6a, 0x04, 0x24, 0x26, 0x08, 0x95,
        0x75, 0xc7, 0x5a, 0x00, 0x3f, 0x08, 0x9d, 0x27, 0x39, 0x83, 0x9d, 0xec, 0x58, 0xb9, 0x64,
        0xec, 0x38, 0x43,
    ];
    assert_eq!(digest, expected.to_vec());
}

#[test]
fn cursor_encode_is_authenticated_and_deterministic() {
    let mb = b"some-mailbox".to_vec();
    let c1 = cursor_encode(SECRET, &mb, 7);
    let c2 = cursor_encode(SECRET, &mb, 7);
    assert_eq!(c1, c2);
    // 8 watermark bytes plus a 32-byte tag, base64url without padding
    let raw = URL_SAFE_NO_PAD.decode(&c1).expect("canonical base64url");
    assert_eq!(raw.len(), 40);
    assert_eq!(&raw[0..8], 7u64.to_le_bytes());
    // the tag depends on the secret and on the mailbox
    assert_ne!(cursor_encode(b"other-secret", &mb, 7), c1);
    assert_ne!(cursor_encode(SECRET, &b"other-mailbox".to_vec(), 7), c1);
}

#[test]
fn tampered_cursor_rejected() {
    let config = cfg();
    let mut store = Store::new();
    let (mailbox_id, poll_token, _) = setup(&mut store);
    let auth = bearer(&poll_token);
    let page = poll(&config, &store, NOW, &mailbox_id, Some(&auth), None, None).expect("poll");

    let mut bytes = URL_SAFE_NO_PAD.decode(&page.cursor).unwrap();
    bytes[0] ^= 1;
    let tampered = b64(&bytes);
    let r = poll(
        &config,
        &store,
        NOW,
        &mailbox_id,
        Some(&auth),
        Some(&tampered),
        None,
    );
    assert_eq!(r.unwrap_err(), ApiError::InvalidInput);

    // truncated and undecodable cursors fall the same way
    let r2 = poll(
        &config,
        &store,
        NOW,
        &mailbox_id,
        Some(&auth),
        Some(&b64(b"short")),
        None,
    );
    assert_eq!(r2.unwrap_err(), ApiError::InvalidInput);
}

#[test]
fn bearer_shapes() {
    let config = cfg();
    let mut store = Store::new();
    let (mailbox_id, poll_token, _) = setup(&mut store);

    // missing header
    let r = poll(&config, &store, NOW, &mailbox_id, None, None, None);
    assert_eq!(r.unwrap_err(), ApiError::Unauthorized);

    // scheme casing is accepted, surrounding whitespace tolerated
    let mut hdr = b"  BEARER   ".to_vec();
    hdr.extend_from_slice(&poll_token);
    hdr.extend_from_slice(b"  ");
    assert!(poll(&config, &store, NOW, &mailbox_id, Some(&hdr), None, None).is_ok());

    // wrong scheme
    let mut basic = b"basic ".to_vec();
    basic.extend_from_slice(&poll_token);
    let r = poll(&config, &store, NOW, &mailbox_id, Some(&basic), None, None);
    assert_eq!(r.unwrap_err(), ApiError::Unauthorized);

    // three words
    let mut extra = bearer(&poll_token);
    extra.extend_from_slice(b" more");
    let r = poll(&config, &store, NOW, &mailbox_id, Some(&extra), None, None);
    assert_eq!(r.unwrap_err(), ApiError::Unauthorized);

    // credential of the wrong decoded length
    let short = bearer(&b64(&[1u8; 8]));
    let r = poll(&config, &store, NOW, &mailbox_id, Some(&short), None, None);
    assert_eq!(r.unwrap_err(), ApiError::Unauthorized);
}

#[test]
fn auth_outcomes_not_found_and_forbidden() {
    let config = cfg();
    let mut store = Store::new();
    let (mailbox_id, poll_token, _) = setup(&mut store);

    // unknown mailbox
    let auth = bearer(&poll_token);
    let unknown = b"no-such-mailbox".to_vec();
    let r = poll(&config, &store, NOW, &unknown, Some(&auth), None, None);
    assert_eq!(r.unwrap_err(), ApiError::NotFound);

    // well-formed credential that is not the mailbox's poll token
    let wrong = bearer(&b64(&[8u8; 32]));
    let r = poll(&config, &store, NOW, &mailbox_id, Some(&wrong), None, None);
    assert_eq!(r.unwrap_err(), ApiError::Forbidden);

    // a deposit with an unregistered (but well-formed) token
    let r = deposit(
        &config,
        &mut store,
        NOW,
        &mailbox_id,
        Some(&wrong),
        Some(&b64(&[1u8; 16])),
        None,
        &b"x".to_vec(),
    );
    assert_eq!(r.unwrap_err(), ApiError::Forbidden);
}

#[test]
fn invalid_inputs() {
    let config = cfg();
    let mut store = Store::new();
    let (mailbox_id, poll_token, dep_token) = setup(&mut store);
    let dep_auth = bearer(&dep_token);
    let auth = bearer(&poll_token);

    // message id too short (under 16 bytes decoded)
    let r = deposit(
        &config,
        &mut store,
        NOW,
        &mailbox_id,
        Some(&dep_auth),
        Some(&b64(&[1u8; 8])),
        None,
        &b"x".to_vec(),
    );
    assert_eq!(r.unwrap_err(), ApiError::InvalidInput);

    // missing message id header
    let r = deposit(
        &config,
        &mut store,
        NOW,
        &mailbox_id,
        Some(&dep_auth),
        None,
        None,
        &b"x".to_vec(),
    );
    assert_eq!(r.unwrap_err(), ApiError::InvalidInput);

    // requested expiry in the past
    let r = deposit(
        &config,
        &mut store,
        NOW,
        &mailbox_id,
        Some(&dep_auth),
        Some(&b64(&[1u8; 16])),
        Some(NOW - 1),
        &b"x".to_vec(),
    );
    assert_eq!(r.unwrap_err(), ApiError::InvalidInput);

    // empty ack batch
    let r = ack(&config, &mut store, &mailbox_id, Some(&auth), &vec![]);
    assert_eq!(r.unwrap_err(), ApiError::InvalidInput);

    // oversized register batch
    let many: Vec<Vec<u8>> = (0..5001).map(|_| b64(&[2u8; 32])).collect();
    let r = register_deposit_tokens(&config, &mut store, NOW, &mailbox_id, Some(&auth), &many);
    assert_eq!(r.unwrap_err(), ApiError::InvalidInput);

    // a caller-supplied poll token of the wrong length
    let r = create_mailbox(&config, &mut store, NOW, Some(&b64(&[3u8; 16])));
    assert_eq!(r.unwrap_err(), ApiError::InvalidInput);
    assert_eq!(store.messages.len(), 0);
}

#[test]
fn expiry_clamped_to_maximum() {
    let config = cfg();
    let mut store = Store::new();
    let (mailbox_id, _, dep_token) = setup(&mut store);
    let dep_auth = bearer(&dep_token);
    let out = deposit(
        &config,
        &mut store,
        NOW,
        &mailbox_id,
        Some(&dep_auth),
        Some(&b64(&[1u8; 16])),
        Some(NOW + 365 * 86400),
        &b"x".to_vec(),
    )
    .expect("deposit");
    assert_eq!(out.expires_at, NOW + 14 * 86400);
}

#[test]
fn quota_rate_limits() {
    let mut config = cfg();
    config.max_queue_bytes = 10;
    let mut store = Store::new();
    let out = create_mailbox(&config, &mut store, NOW, None).expect("create");
    let poll_token = out.poll_token.expect("token");
    let auth = bearer(&poll_token);
    let raw: Vec<u8> = (200u8..232u8).collect();
    let tok_text = b64(&raw);
    register_deposit_tokens(
        &config,
        &mut store,
        NOW,
        &out.mailbox_id,
        Some(&auth),
        &vec![tok_text.clone()],
    )
    .expect("register");
    let dep_auth = bearer(&tok_text);
    deposit(
        &config,
        &mut store,
        NOW,
        &out.mailbox_id,
        Some(&dep_auth),
        Some(&b64(&[1u8; 16])),
        None,
        &b"eightbyt".to_vec(),
    )
    .expect("first fits");
    let r = deposit(
        &config,
        &mut store,
        NOW,
        &out.mailbox_id,
        Some(&dep_auth),
        Some(&b64(&[2u8; 16])),
        None,
        &b"three".to_vec(),
    );
    assert_eq!(r.unwrap_err(), ApiError::RateLimited);
}

#[test]
fn sequence_exhaustion_is_a_server_error() {
    let config = cfg();
    let mut store = Store::new();
    let (mailbox_id, _, dep_token) = setup(&mut store);
    let dep_auth = bearer(&dep_token);
    store.next_seq = i64::MAX;
    let r = deposit(
        &config,
        &mut store,
        NOW,
        &mailbox_id,
        Some(&dep_auth),
        Some(&b64(&[1u8; 16])),
        None,
        &b"x".to_vec(),
    );
    assert_eq!(r.unwrap_err(), ApiError::ServerError);
}

#[test]
fn ack_does_not_validate_id_length() {
    let config = cfg();
    let mut store = Store::new();
    let (mailbox_id, poll_token, _) = setup(&mut store);
    let auth = bearer(&poll_token);
    // a 1-byte id can never match a stored row; it is a silent no-op
    let deleted = ack(
        &config,
        &mut store,
        &mailbox_id,
        Some(&auth),
        &vec![b64(&[1u8])],
    )
    .expect("ack");
    assert_eq!(deleted, 0);
}

#[test]
fn status_codes_cover_the_taxonomy() {
    assert_eq!(ApiError::Unauthorized.status_code(), 401);
    assert_eq!(ApiError::Forbidden.status_code(), 403);
    assert_eq!(ApiError::NotFound.status_code(), 404);
    assert_eq!(ApiError::InvalidInput.status_code(), 400);
    assert_eq!(ApiError::PayloadTooLarge.status_code(), 413);
    assert_eq!(ApiError::RateLimited.status_code(), 429);
    assert_eq!(ApiError::Conflict.status_code(), 409);
    assert_eq!(ApiError::ServerError.status_code(), 500);
}

#[test]
fn delegated_poll_token_is_not_echoed() {
    let config = cfg();
    let mut store = Store::new();
    let supplied = b64(&[77u8; 32]);
    let out = create_mailbox(&config, &mut store, NOW, Some(&supplied)).expect("create");
    assert!(out.poll_token.is_none());
    // the supplied token authenticates
    let auth = bearer(&supplied);
    assert!(poll(&config, &store, NOW, &out.mailbox_id, Some(&auth), None, None).is_ok());
}
