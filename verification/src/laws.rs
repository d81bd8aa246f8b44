use vstd::prelude::*;
use crate::api::{ack_fold, clamped_expiry, dep_check, deposit_error, revoke_fold};
use crate::auth::auth_digest_of;
use crate::b64::b64url_dec;
use crate::config::Config;
use crate::errors::ApiError;
use crate::store::{
    has_mailbox, has_token, mailbox_bytes, msg_index, msg_present, msgs_sorted, msgs_unique,
    page_of, page_pred, remove_msg, token_at, token_index, token_live, tokens_unique, MessageView,
    StoreView, TokenView,
};

verus! {

/// A freshly deposited message is retrievable: polling past a watermark that
/// covers every earlier message, with any positive limit, delivers exactly
/// the new message while it is unexpired and not yet acknowledged.
pub proof fn lemma_deposited_message_polled(
    ms: Seq<MessageView>,
    row: MessageView,
    w: i64,
    later: i64,
    limit: int,
)
    requires
        forall|i: int| 0 <= i < ms.len() ==> (#[trigger] ms[i]).seq_id <= w,
        row.seq_id > w,
        row.expires_at > later,
        limit >= 1,
    ensures
        page_of(ms.push(row), row.mailbox_id, w, later, limit) == seq![row],
    decreases ms.len(),
{
    if ms.len() == 0 {
        assert(ms.push(row)[0] == row);
        assert(page_pred(row, row.mailbox_id, w, later));
        assert(ms.push(row).drop_first() =~= Seq::<MessageView>::empty());
        assert(page_of(Seq::<MessageView>::empty(), row.mailbox_id, w, later, limit - 1)
            =~= Seq::<MessageView>::empty());
        assert(page_of(ms.push(row), row.mailbox_id, w, later, limit) == seq![row]
            + page_of(Seq::<MessageView>::empty(), row.mailbox_id, w, later, limit - 1));
        assert(page_of(ms.push(row), row.mailbox_id, w, later, limit) =~= seq![row]);
    } else {
        assert(ms.push(row)[0] == ms[0]);
        assert(!page_pred(ms[0], row.mailbox_id, w, later));
        assert(ms.push(row).drop_first() =~= ms.drop_first().push(row));
        assert forall|i: int| 0 <= i < ms.drop_first().len() implies (#[trigger] ms.drop_first()[
            i
        ]).seq_id <= w by {
            assert(ms.drop_first()[i] == ms[i + 1]);
        }
        lemma_deposited_message_polled(ms.drop_first(), row, w, later, limit);
    }
}

/// How many of the first `upto` table rows a poll at (mailbox, watermark,
/// time) would match.
pub open spec fn matches_before(
    ms: Seq<MessageView>,
    mb: Seq<u8>,
    w: i64,
    now: i64,
    upto: int,
) -> int
    decreases upto,
{
    if upto <= 0 || ms.len() == 0 {
        0
    } else {
        (if page_pred(ms[0], mb, w, now) {
            1int
        } else {
            0int
        }) + matches_before(ms.drop_first(), mb, w, now, upto - 1)
    }
}

/// General retrievability: a live message past the watermark is delivered
/// by a poll whenever fewer than `limit` matching messages precede it in
/// the table — it is among the `limit` smallest matching sequence ids.
pub proof fn lemma_live_message_in_page(
    ms: Seq<MessageView>,
    mb: Seq<u8>,
    w: i64,
    now: i64,
    limit: int,
    i: int,
)
    requires
        0 <= i < ms.len(),
        page_pred(ms[i], mb, w, now),
        matches_before(ms, mb, w, now, i) < limit,
    ensures
        page_of(ms, mb, w, now, limit).contains(ms[i]),
    decreases ms.len(),
{
    let page = page_of(ms, mb, w, now, limit);
    if i == 0 {
        assert(matches_before(ms, mb, w, now, 0) == 0);
        assert(page == seq![ms[0]] + page_of(ms.drop_first(), mb, w, now, limit - 1));
        assert(page[0] == ms[0]);
    } else {
        let rest = ms.drop_first();
        assert(rest[i - 1] == ms[i]);
        assert(matches_before(ms, mb, w, now, i) == (if page_pred(ms[0], mb, w, now) {
            1int
        } else {
            0int
        }) + matches_before(rest, mb, w, now, i - 1));
        if page_pred(ms[0], mb, w, now) {
            lemma_live_message_in_page(rest, mb, w, now, limit - 1, i - 1);
            let pr = page_of(rest, mb, w, now, limit - 1);
            let k = choose|k: int| 0 <= k < pr.len() && pr[k] == ms[i];
            assert(page == seq![ms[0]] + pr);
            assert(page[k + 1] == ms[i]);
        } else {
            lemma_live_message_in_page(rest, mb, w, now, limit, i - 1);
            assert(page == page_of(rest, mb, w, now, limit));
        }
    }
}

/// Re-depositing an identical (mailbox, message id) pair always yields
/// Conflict, whatever the blob or the time, once the earlier pipeline
/// stages pass.
pub proof fn lemma_redeposit_conflict(
    cfg: Config,
    sv: StoreView,
    now: i64,
    mb: Seq<u8>,
    auth: Option<Seq<u8>>,
    msg_id_hdr: Option<Seq<u8>>,
    requested: Option<i64>,
    body_len: int,
)
    requires
        body_len <= cfg.max_msg_bytes,
        dep_check(sv, cfg.server_secret@, mb, auth) is None,
        clamped_expiry(cfg, now, requested) > now,
        mailbox_bytes(sv.messages, mb) + body_len <= cfg.max_queue_bytes,
        msg_id_hdr is Some,
        b64url_dec(msg_id_hdr.unwrap()) is Some,
        16 <= b64url_dec(msg_id_hdr.unwrap()).unwrap().len() <= 32,
        msg_present(sv.messages, mb, b64url_dec(msg_id_hdr.unwrap()).unwrap()),
    ensures
        deposit_error(cfg, sv, now, mb, auth, msg_id_hdr, requested, body_len) == Some(
            ApiError::Conflict,
        ),
{
}

/// Every page a poll computes is strictly increasing in sequence order,
/// contains only rows of the table that match the watermark, the mailbox and
/// the expiry filter, and never exceeds the limit.
pub proof fn lemma_page_properties(ms: Seq<MessageView>, mb: Seq<u8>, w: i64, now: i64, limit: int)
    requires
        msgs_sorted(ms),
    ensures
        ({
            let page = page_of(ms, mb, w, now, limit);
            &&& limit >= 0 ==> page.len() <= limit
            &&& forall|i: int| 0 <= i < page.len() ==> page_pred(#[trigger] page[i], mb, w, now)
            &&& forall|i: int, j: int|
                #![trigger page[i], page[j]]
                0 <= i < j < page.len() ==> page[i].seq_id < page[j].seq_id
            &&& forall|x: MessageView| #[trigger] page.contains(x) ==> ms.contains(x)
        }),
    decreases ms.len(),
{
    let page = page_of(ms, mb, w, now, limit);
    if ms.len() == 0 || limit <= 0 {
    } else {
        let rest = ms.drop_first();
        assert forall|a: int, b: int|
            #![trigger rest[a], rest[b]]
            0 <= a < b < rest.len() implies rest[a].seq_id < rest[b].seq_id by {
            assert(rest[a] == ms[a + 1]);
            assert(rest[b] == ms[b + 1]);
        }
        if page_pred(ms[0], mb, w, now) {
            lemma_page_properties(rest, mb, w, now, limit - 1);
            let pr = page_of(rest, mb, w, now, limit - 1);
            assert(page == seq![ms[0]] + pr);
            assert forall|x: MessageView| #[trigger] page.contains(x) implies ms.contains(x) by {
                let k = choose|k: int| 0 <= k < page.len() && page[k] == x;
                if k == 0 {
                    assert(ms[0] == x);
                } else {
                    assert(pr[k - 1] == x);
                    assert(pr.contains(x));
                    let k3 = choose|k3: int| 0 <= k3 < rest.len() && rest[k3] == x;
                    assert(ms[k3 + 1] == x);
                }
            }
            assert forall|i: int, j: int|
                #![trigger page[i], page[j]]
                0 <= i < j < page.len() implies page[i].seq_id < page[j].seq_id by {
                if i == 0 {
                    assert(page[j] == pr[j - 1]);
                    assert(pr.contains(pr[j - 1]));
                    assert(rest.contains(page[j]));
                    let k3 = choose|k3: int| 0 <= k3 < rest.len() && rest[k3] == page[j];
                    assert(ms[k3 + 1] == page[j]);
                    assert(ms[0].seq_id < ms[k3 + 1].seq_id);
                } else {
                    assert(page[i] == pr[i - 1]);
                    assert(page[j] == pr[j - 1]);
                }
            }
            assert forall|i: int| 0 <= i < page.len() implies page_pred(
                #[trigger] page[i],
                mb,
                w,
                now,
            ) by {
                if i > 0 {
                    assert(page[i] == pr[i - 1]);
                }
            }
        } else {
            lemma_page_properties(rest, mb, w, now, limit);
            assert(page == page_of(rest, mb, w, now, limit));
            assert forall|x: MessageView| #[trigger] page.contains(x) implies ms.contains(x) by {
                let k3 = choose|k3: int| 0 <= k3 < rest.len() && rest[k3] == x;
                assert(ms[k3 + 1] == x);
            }
        }
    }
}

/// Deleting the unique (mailbox, message id) row leaves no row with that
/// pair behind.
pub proof fn lemma_remove_clears(ms: Seq<MessageView>, mb: Seq<u8>, id: Seq<u8>)
    requires
        msgs_unique(ms),
        msg_present(ms, mb, id),
    ensures
        !msg_present(remove_msg(ms, mb, id), mb, id),
{
    let i = msg_index(ms, mb, id);
    let r = ms.remove(i);
    assert(0 <= i < ms.len() && ms[i].mailbox_id == mb && ms[i].msg_id == id);
    assert forall|k: int| 0 <= k < r.len() implies !((#[trigger] r[k]).mailbox_id == mb && r[k].msg_id
        == id) by {
        let k0 = if k < i {
            k
        } else {
            k + 1
        };
        assert(r[k] == ms[k0]);
        if k0 != i && ms[k0].mailbox_id == mb && ms[k0].msg_id == id {
            if k0 < i {
                assert(!(ms[k0].mailbox_id == ms[i].mailbox_id && ms[k0].msg_id == ms[i].msg_id));
            } else {
                assert(!(ms[i].mailbox_id == ms[k0].mailbox_id && ms[i].msg_id == ms[k0].msg_id));
            }
        }
    }
}

/// Acknowledging is idempotent: acking a present message id deletes exactly
/// one row; acking the same id again deletes nothing and still succeeds.
pub proof fn lemma_ack_idempotent(ms: Seq<MessageView>, mb: Seq<u8>, id_text: Seq<u8>, raw: Seq<u8>)
    requires
        msgs_unique(ms),
        b64url_dec(id_text) == Some(raw),
        msg_present(ms, mb, raw),
    ensures
        ({
            let once = ack_fold(ms, mb, seq![id_text]);
            let twice = ack_fold(once.0, mb, seq![id_text]);
            &&& once.2 && once.1 == 1
            &&& once.0 == remove_msg(ms, mb, raw)
            &&& !msg_present(once.0, mb, raw)
            &&& twice.2 && twice.1 == 0
            &&& twice.0 == once.0
        }),
{
    let items = seq![id_text];
    assert(items[0] == id_text);
    assert(items.drop_first() =~= Seq::<Seq<u8>>::empty());
    lemma_remove_clears(ms, mb, raw);
    let rec = ack_fold(remove_msg(ms, mb, raw), mb, Seq::<Seq<u8>>::empty());
    assert(rec.0 == remove_msg(ms, mb, raw) && rec.1 == 0 && rec.2);
    assert(items.drop_first() == Seq::<Seq<u8>>::empty());
    let once = ack_fold(ms, mb, items);
    assert(once.0 == remove_msg(ms, mb, raw) && once.1 == 1 && once.2);
    assert(remove_msg(once.0, mb, raw) == once.0);
    let rec2 = ack_fold(once.0, mb, Seq::<Seq<u8>>::empty());
    assert(rec2.0 == once.0 && rec2.1 == 0 && rec2.2);
}

/// Revoking a live (registered, unrevoked) digest flips its row to revoked
/// and reports one flipped row; the digest stays present (revocation never
/// deletes), and revoking it a second time flips nothing and counts zero.
pub proof fn lemma_revoke_marks_revoked(
    ts: Seq<TokenView>,
    mb: Seq<u8>,
    h_text: Seq<u8>,
    h: Seq<u8>,
)
    requires
        tokens_unique(ts),
        b64url_dec(h_text) == Some(h),
        h.len() == 32,
        token_live(ts, mb, h),
    ensures
        ({
            let f = revoke_fold(ts, mb, seq![h_text]);
            &&& f.2 && f.1 == 1
            &&& has_token(f.0, mb, h)
            &&& token_at(f.0, mb, h).revoked
            &&& tokens_unique(f.0)
            &&& ({
                let g = revoke_fold(f.0, mb, seq![h_text]);
                g.2 && g.1 == 0 && g.0 == f.0
            })
        }),
{
    let items = seq![h_text];
    assert(items[0] == h_text);
    assert(items.drop_first() =~= Seq::<Seq<u8>>::empty());
    let i = token_index(ts, mb, h);
    assert(0 <= i < ts.len() && ts[i].mailbox_id == mb && ts[i].dep_hash == h);
    let upd = ts.update(i, TokenView { revoked: true, ..ts[i] });
    assert forall|a: int, b: int|
        #![trigger upd[a], upd[b]]
        0 <= a < b < upd.len() implies !(upd[a].mailbox_id == upd[b].mailbox_id && upd[a].dep_hash
        == upd[b].dep_hash) by {
        assert(upd[a].mailbox_id == ts[a].mailbox_id && upd[a].dep_hash == ts[a].dep_hash);
        assert(upd[b].mailbox_id == ts[b].mailbox_id && upd[b].dep_hash == ts[b].dep_hash);
    }
    assert(upd[i].mailbox_id == mb && upd[i].dep_hash == h);
    assert(has_token(upd, mb, h));
    let j = choose|j: int|
        0 <= j < upd.len() && (#[trigger] upd[j]).mailbox_id == mb && upd[j].dep_hash == h;
    if i != j {
        assert(!(upd[i].mailbox_id == upd[j].mailbox_id && upd[i].dep_hash == upd[j].dep_hash));
    }
    assert(token_at(upd, mb, h) == upd[i]);
    assert(token_at(ts, mb, h) == ts[i]);
    assert(!ts[i].revoked);
    let rec = revoke_fold(upd, mb, Seq::<Seq<u8>>::empty());
    assert(rec.0 == upd && rec.1 == 0 && rec.2);
    assert(items.drop_first() == Seq::<Seq<u8>>::empty());
    let f = revoke_fold(ts, mb, items);
    assert(f.0 == upd && f.1 == 1 && f.2);
    // the second revocation matches the same (now revoked) row: the update
    // rewrites it unchanged and the flip count stays zero
    assert(token_index(upd, mb, h) == i);
    let upd2 = upd.update(i, TokenView { revoked: true, ..upd[i] });
    assert(upd2 =~= upd);
    let g = revoke_fold(upd, mb, items);
    assert(g.0 == upd && g.1 == 0 && g.2);
}

/// A revoked deposit token can no longer deposit: once the mailbox's row
/// for the presented credential's digest is revoked (or gone), a deposit
/// that passes the size check and authenticates is rejected as Forbidden,
/// however valid the token was earlier.
pub proof fn lemma_revoked_cannot_deposit(
    cfg: Config,
    sv: StoreView,
    now: i64,
    mb: Seq<u8>,
    auth: Option<Seq<u8>>,
    msg_id_hdr: Option<Seq<u8>>,
    requested: Option<i64>,
    body_len: int,
    d: Seq<u8>,
)
    requires
        body_len <= cfg.max_msg_bytes,
        auth_digest_of(cfg.server_secret@, auth) == Ok::<Seq<u8>, ApiError>(d),
        has_mailbox(sv.mailboxes, mb),
        has_token(sv.tokens, mb, d) ==> token_at(sv.tokens, mb, d).revoked,
    ensures
        deposit_error(cfg, sv, now, mb, auth, msg_id_hdr, requested, body_len) == Some(
            ApiError::Forbidden,
        ),
{
}

} // verus!
