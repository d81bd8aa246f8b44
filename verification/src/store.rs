use vstd::prelude::*;
use crate::support::bytes_eq;

verus! {

// ---------------------------------------------------------------------------
// Rows and their mathematical views
// ---------------------------------------------------------------------------

/// A mailbox: an opaque identifier owning one poll capability digest.
pub struct MailboxRow {
    pub mailbox_id: Vec<u8>,
    pub poll_hash: Vec<u8>,
    pub created_at: i64,
}

/// A registered write capability: only the keyed digest is kept, never the
/// raw token. `revoked` moves from false to true and never back.
pub struct DepositTokenRow {
    pub mailbox_id: Vec<u8>,
    pub dep_hash: Vec<u8>,
    pub revoked: bool,
    pub created_at: i64,
}

/// A deposited message. `seq_id` is the store-wide pagination watermark.
pub struct MessageRow {
    pub seq_id: i64,
    pub mailbox_id: Vec<u8>,
    pub msg_id: Vec<u8>,
    pub blob: Vec<u8>,
    pub received_at: i64,
    pub expires_at: i64,
}

pub struct MailboxView {
    pub mailbox_id: Seq<u8>,
    pub poll_hash: Seq<u8>,
    pub created_at: i64,
}

pub struct TokenView {
    pub mailbox_id: Seq<u8>,
    pub dep_hash: Seq<u8>,
    pub revoked: bool,
    pub created_at: i64,
}

pub struct MessageView {
    pub seq_id: i64,
    pub mailbox_id: Seq<u8>,
    pub msg_id: Seq<u8>,
    pub blob: Seq<u8>,
    pub received_at: i64,
    pub expires_at: i64,
}

impl View for MailboxRow {
    type V = MailboxView;

    open spec fn view(&self) -> MailboxView {
        MailboxView {
            mailbox_id: self.mailbox_id@,
            poll_hash: self.poll_hash@,
            created_at: self.created_at,
        }
    }
}

impl View for DepositTokenRow {
    type V = TokenView;

    open spec fn view(&self) -> TokenView {
        TokenView {
            mailbox_id: self.mailbox_id@,
            dep_hash: self.dep_hash@,
            revoked: self.revoked,
            created_at: self.created_at,
        }
    }
}

impl View for MessageRow {
    type V = MessageView;

    open spec fn view(&self) -> MessageView {
        MessageView {
            seq_id: self.seq_id,
            mailbox_id: self.mailbox_id@,
            msg_id: self.msg_id@,
            blob: self.blob@,
            received_at: self.received_at,
            expires_at: self.expires_at,
        }
    }
}

// ---------------------------------------------------------------------------
// Predicates over table views
// ---------------------------------------------------------------------------

pub open spec fn has_mailbox(mbs: Seq<MailboxView>, id: Seq<u8>) -> bool {
    exists|i: int| 0 <= i < mbs.len() && (#[trigger] mbs[i]).mailbox_id == id
}

/// The unique mailbox row with this id (well defined under `mailboxes_unique`).
pub open spec fn mailbox_at(mbs: Seq<MailboxView>, id: Seq<u8>) -> MailboxView {
    mbs[choose|i: int| 0 <= i < mbs.len() && (#[trigger] mbs[i]).mailbox_id == id]
}

pub open spec fn has_token(ts: Seq<TokenView>, mb: Seq<u8>, h: Seq<u8>) -> bool {
    exists|i: int|
        0 <= i < ts.len() && (#[trigger] ts[i]).mailbox_id == mb && ts[i].dep_hash == h
}

/// The unique token row with this (mailbox, digest) pair.
pub open spec fn token_at(ts: Seq<TokenView>, mb: Seq<u8>, h: Seq<u8>) -> TokenView {
    ts[choose|i: int|
        0 <= i < ts.len() && (#[trigger] ts[i]).mailbox_id == mb && ts[i].dep_hash == h]
}

/// The index of the unique token row with this (mailbox, digest) pair.
pub open spec fn token_index(ts: Seq<TokenView>, mb: Seq<u8>, h: Seq<u8>) -> int {
    choose|i: int|
        0 <= i < ts.len() && (#[trigger] ts[i]).mailbox_id == mb && ts[i].dep_hash == h
}

/// A digest that is registered for the mailbox and not revoked.
pub open spec fn token_live(ts: Seq<TokenView>, mb: Seq<u8>, h: Seq<u8>) -> bool {
    has_token(ts, mb, h) && !token_at(ts, mb, h).revoked
}

pub open spec fn msg_present(ms: Seq<MessageView>, mb: Seq<u8>, id: Seq<u8>) -> bool {
    exists|i: int|
        0 <= i < ms.len() && (#[trigger] ms[i]).mailbox_id == mb && ms[i].msg_id == id
}

pub open spec fn msg_index(ms: Seq<MessageView>, mb: Seq<u8>, id: Seq<u8>) -> int {
    choose|i: int| 0 <= i < ms.len() && (#[trigger] ms[i]).mailbox_id == mb && ms[i].msg_id == id
}

/// The message table after deleting the (at most one) row with this
/// (mailbox, message id) pair.
pub open spec fn remove_msg(ms: Seq<MessageView>, mb: Seq<u8>, id: Seq<u8>) -> Seq<MessageView> {
    if msg_present(ms, mb, id) {
        ms.remove(msg_index(ms, mb, id))
    } else {
        ms
    }
}

/// The message table after purging everything expired at `now`.
pub open spec fn keep_live(ms: Seq<MessageView>, now: i64) -> Seq<MessageView>
    decreases ms.len(),
{
    if ms.len() == 0 {
        Seq::empty()
    } else if ms[0].expires_at > now {
        seq![ms[0]] + keep_live(ms.drop_first(), now)
    } else {
        keep_live(ms.drop_first(), now)
    }
}

/// The live bytes a mailbox holds: the sum of its blob sizes.
pub open spec fn mailbox_bytes(ms: Seq<MessageView>, mb: Seq<u8>) -> int
    decreases ms.len(),
{
    if ms.len() == 0 {
        0
    } else {
        (if ms[0].mailbox_id == mb {
            ms[0].blob.len() as int
        } else {
            0
        }) + mailbox_bytes(ms.drop_first(), mb)
    }
}

/// Whether a message is part of the page a poll at watermark `w`, time `now`
/// would consider for mailbox `mb`.
pub open spec fn page_pred(m: MessageView, mb: Seq<u8>, w: i64, now: i64) -> bool {
    m.mailbox_id == mb && m.seq_id > w && m.expires_at > now
}

/// The page a poll returns: the first `limit` matching, unexpired messages
/// past the watermark, in table (sequence) order.
pub open spec fn page_of(ms: Seq<MessageView>, mb: Seq<u8>, w: i64, now: i64, limit: int) -> Seq<
    MessageView,
>
    decreases ms.len(),
{
    if ms.len() == 0 || limit <= 0 {
        Seq::empty()
    } else if page_pred(ms[0], mb, w, now) {
        seq![ms[0]] + page_of(ms.drop_first(), mb, w, now, limit - 1)
    } else {
        page_of(ms.drop_first(), mb, w, now, limit)
    }
}

pub open spec fn mailboxes_unique(mbs: Seq<MailboxView>) -> bool {
    forall|i: int, j: int|
        #![trigger mbs[i], mbs[j]]
        0 <= i < j < mbs.len() ==> mbs[i].mailbox_id != mbs[j].mailbox_id
}

pub open spec fn tokens_unique(ts: Seq<TokenView>) -> bool {
    forall|i: int, j: int|
        #![trigger ts[i], ts[j]]
        0 <= i < j < ts.len() ==> !(ts[i].mailbox_id == ts[j].mailbox_id && ts[i].dep_hash
            == ts[j].dep_hash)
}

pub open spec fn msgs_sorted(ms: Seq<MessageView>) -> bool {
    forall|i: int, j: int|
        #![trigger ms[i], ms[j]]
        0 <= i < j < ms.len() ==> ms[i].seq_id < ms[j].seq_id
}

pub open spec fn msgs_unique(ms: Seq<MessageView>) -> bool {
    forall|i: int, j: int|
        #![trigger ms[i], ms[j]]
        0 <= i < j < ms.len() ==> !(ms[i].mailbox_id == ms[j].mailbox_id && ms[i].msg_id
            == ms[j].msg_id)
}

pub open spec fn msgs_in_range(ms: Seq<MessageView>, next_seq: i64) -> bool {
    forall|i: int|
        0 <= i < ms.len() ==> 1 <= (#[trigger] ms[i]).seq_id < next_seq && ms[i].received_at
            < ms[i].expires_at
}

// ---------------------------------------------------------------------------
// The store
// ---------------------------------------------------------------------------

pub struct StoreView {
    pub mailboxes: Seq<MailboxView>,
    pub tokens: Seq<TokenView>,
    pub messages: Seq<MessageView>,
    pub next_seq: i64,
}

impl StoreView {
    /// The invariants the durable schema enforces: unique mailbox ids,
    /// unique (mailbox, digest) and (mailbox, message id) pairs, sequence
    /// ids strictly increasing in table order and never reused, expiry
    /// strictly after arrival.
    pub open spec fn wf(self) -> bool {
        &&& 1 <= self.next_seq
        &&& mailboxes_unique(self.mailboxes)
        &&& tokens_unique(self.tokens)
        &&& msgs_sorted(self.messages)
        &&& msgs_unique(self.messages)
        &&& msgs_in_range(self.messages, self.next_seq)
    }
}

/// The durable relational store, modelled in memory: three tables and the
/// sequence counter behind the message watermark.
pub struct Store {
    pub mailboxes: Vec<MailboxRow>,
    pub deposit_tokens: Vec<DepositTokenRow>,
    pub messages: Vec<MessageRow>,
    pub next_seq: i64,
}

impl View for Store {
    type V = StoreView;

    open spec fn view(&self) -> StoreView {
        StoreView {
            mailboxes: self.mailboxes@.map_values(|r: MailboxRow| r@),
            tokens: self.deposit_tokens@.map_values(|r: DepositTokenRow| r@),
            messages: self.messages@.map_values(|r: MessageRow| r@),
            next_seq: self.next_seq,
        }
    }
}

impl Store {
    /// A fresh, empty store.
    pub fn new() -> (s: Store)
        ensures
            s@.mailboxes.len() == 0,
            s@.tokens.len() == 0,
            s@.messages.len() == 0,
            s@.next_seq == 1,
            s@.wf(),
    {
        let s = Store {
            mailboxes: Vec::new(),
            deposit_tokens: Vec::new(),
            messages: Vec::new(),
            next_seq: 1,
        };
        proof {
            assert(s@.mailboxes =~= Seq::<MailboxView>::empty());
            assert(s@.tokens =~= Seq::<TokenView>::empty());
            assert(s@.messages =~= Seq::<MessageView>::empty());
        }
        s
    }

    pub fn find_mailbox(&self, id: &[u8]) -> (r: Option<usize>)
        ensures
            r is Some <==> has_mailbox(self@.mailboxes, id@),
            r matches Some(i) ==> i < self@.mailboxes.len() && self@.mailboxes[i as int].mailbox_id
                == id@,
    {
        let n = self.mailboxes.len();
        let mut i: usize = 0;
        while i < n
            invariant
                n == self.mailboxes@.len(),
                i <= n,
                self@.mailboxes.len() == n,
                forall|k: int| 0 <= k < i ==> (#[trigger] self@.mailboxes[k]).mailbox_id != id@,
            decreases n - i,
        {
            if bytes_eq(self.mailboxes[i].mailbox_id.as_slice(), id) {
                assert((#[trigger] self@.mailboxes[i as int]).mailbox_id == id@);
                return Some(i);
            }
            i += 1;
        }
        None
    }

    pub fn find_token(&self, mb: &[u8], h: &[u8]) -> (r: Option<usize>)
        ensures
            r is Some <==> has_token(self@.tokens, mb@, h@),
            r matches Some(i) ==> i < self@.tokens.len() && self@.tokens[i as int].mailbox_id == mb@
                && self@.tokens[i as int].dep_hash == h@,
    {
        let n = self.deposit_tokens.len();
        let mut i: usize = 0;
        while i < n
            invariant
                n == self.deposit_tokens@.len(),
                i <= n,
                self@.tokens.len() == n,
                forall|k: int|
                    0 <= k < i ==> !((#[trigger] self@.tokens[k]).mailbox_id == mb@
                        && self@.tokens[k].dep_hash == h@),
            decreases n - i,
        {
            if bytes_eq(self.deposit_tokens[i].mailbox_id.as_slice(), mb) && bytes_eq(
                self.deposit_tokens[i].dep_hash.as_slice(),
                h,
            ) {
                assert((#[trigger] self@.tokens[i as int]).mailbox_id == mb@
                    && self@.tokens[i as int].dep_hash == h@);
                return Some(i);
            }
            i += 1;
        }
        None
    }

    pub fn find_message(&self, mb: &[u8], id: &[u8]) -> (r: Option<usize>)
        ensures
            r is Some <==> msg_present(self@.messages, mb@, id@),
            r matches Some(i) ==> i < self@.messages.len() && self@.messages[i as int].mailbox_id
                == mb@ && self@.messages[i as int].msg_id == id@,
    {
        let n = self.messages.len();
        let mut i: usize = 0;
        while i < n
            invariant
                n == self.messages@.len(),
                i <= n,
                self@.messages.len() == n,
                forall|k: int|
                    0 <= k < i ==> !((#[trigger] self@.messages[k]).mailbox_id == mb@
                        && self@.messages[k].msg_id == id@),
            decreases n - i,
        {
            if bytes_eq(self.messages[i].mailbox_id.as_slice(), mb) && bytes_eq(
                self.messages[i].msg_id.as_slice(),
                id,
            ) {
                assert((#[trigger] self@.messages[i as int]).mailbox_id == mb@
                    && self@.messages[i as int].msg_id == id@);
                return Some(i);
            }
            i += 1;
        }
        None
    }
}

// ---------------------------------------------------------------------------
// Lemmas connecting lookups to the choose-based selectors
// ---------------------------------------------------------------------------

/// Deleting one row keeps the table sorted, unique and in range.
pub proof fn lemma_remove_wf(ms: Seq<MessageView>, i: int, next_seq: i64)
    requires
        msgs_sorted(ms),
        msgs_unique(ms),
        msgs_in_range(ms, next_seq),
        0 <= i < ms.len(),
    ensures
        msgs_sorted(ms.remove(i)),
        msgs_unique(ms.remove(i)),
        msgs_in_range(ms.remove(i), next_seq),
{
    let r = ms.remove(i);
    assert forall|a: int, b: int|
        #![trigger r[a], r[b]]
        0 <= a < b < r.len() implies r[a].seq_id < r[b].seq_id && !(r[a].mailbox_id
        == r[b].mailbox_id && r[a].msg_id == r[b].msg_id) by {
        let a0 = if a < i { a } else { a + 1 };
        let b0 = if b < i { b } else { b + 1 };
        assert(r[a] == ms[a0]);
        assert(r[b] == ms[b0]);
    }
    assert forall|a: int| 0 <= a < r.len() implies 1 <= (#[trigger] r[a]).seq_id < next_seq
        && r[a].received_at < r[a].expires_at by {
        let a0 = if a < i { a } else { a + 1 };
        assert(r[a] == ms[a0]);
    }
}

/// Purging expired rows yields a subsequence: every kept row is a row of the
/// original table, and the well-formedness predicates survive.
pub proof fn lemma_keep_live_wf(ms: Seq<MessageView>, now: i64, next_seq: i64)
    requires
        msgs_sorted(ms),
        msgs_unique(ms),
        msgs_in_range(ms, next_seq),
    ensures
        msgs_sorted(keep_live(ms, now)),
        msgs_unique(keep_live(ms, now)),
        msgs_in_range(keep_live(ms, now), next_seq),
        forall|x: MessageView| #[trigger] keep_live(ms, now).contains(x) ==> ms.contains(x),
        keep_live(ms, now).len() <= ms.len(),
        forall|x: MessageView| #[trigger]
            keep_live(ms, now).contains(x) ==> x.expires_at > now,
    decreases ms.len(),
{
    if ms.len() == 0 {
    } else {
        let rest = ms.drop_first();
        assert forall|a: int, b: int|
            #![trigger rest[a], rest[b]]
            0 <= a < b < rest.len() implies rest[a].seq_id < rest[b].seq_id && !(rest[a].mailbox_id
            == rest[b].mailbox_id && rest[a].msg_id == rest[b].msg_id) by {
            assert(rest[a] == ms[a + 1]);
            assert(rest[b] == ms[b + 1]);
        }
        assert forall|a: int| 0 <= a < rest.len() implies 1 <= (#[trigger] rest[a]).seq_id
            < next_seq && rest[a].received_at < rest[a].expires_at by {
            assert(rest[a] == ms[a + 1]);
        }
        lemma_keep_live_wf(rest, now, next_seq);
        let kl = keep_live(ms, now);
        let klr = keep_live(rest, now);
        if ms[0].expires_at > now {
            assert(kl == seq![ms[0]] + klr);
            assert forall|x: MessageView| #[trigger] kl.contains(x) implies ms.contains(x) by {
                let k = choose|k: int| 0 <= k < kl.len() && kl[k] == x;
                if k == 0 {
                    assert(ms[0] == x);
                } else {
                    assert(klr[k - 1] == x);
                    assert(klr.contains(x));
                    let k2 = choose|k2: int| 0 <= k2 < klr.len() && klr[k2] == x;
                    let k3 = choose|k3: int| 0 <= k3 < rest.len() && rest[k3] == x;
                    assert(ms[k3 + 1] == x);
                }
            }
            assert forall|a: int, b: int|
                #![trigger kl[a], kl[b]]
                0 <= a < b < kl.len() implies kl[a].seq_id < kl[b].seq_id && !(kl[a].mailbox_id
                == kl[b].mailbox_id && kl[a].msg_id == kl[b].msg_id) by {
                if a == 0 {
                    assert(kl[b] == klr[b - 1]);
                    assert(klr.contains(klr[b - 1]));
                    assert(rest.contains(kl[b]));
                    let k3 = choose|k3: int| 0 <= k3 < rest.len() && rest[k3] == kl[b];
                    assert(ms[k3 + 1] == kl[b]);
                    assert(ms[0].seq_id < ms[k3 + 1].seq_id);
                } else {
                    assert(kl[a] == klr[a - 1]);
                    assert(kl[b] == klr[b - 1]);
                }
            }
            assert forall|a: int| 0 <= a < kl.len() implies 1 <= (#[trigger] kl[a]).seq_id
                < next_seq && kl[a].received_at < kl[a].expires_at by {
                if a == 0 {
                } else {
                    assert(kl[a] == klr[a - 1]);
                    assert(klr.contains(klr[a - 1]));
                    assert(rest.contains(kl[a]));
                    let k3 = choose|k3: int| 0 <= k3 < rest.len() && rest[k3] == kl[a];
                    assert(ms[k3 + 1] == kl[a]);
                }
            }
        } else {
            assert(kl == klr);
            assert forall|x: MessageView| #[trigger] kl.contains(x) implies ms.contains(x) by {
                assert(klr.contains(x));
                let k3 = choose|k3: int| 0 <= k3 < rest.len() && rest[k3] == x;
                assert(ms[k3 + 1] == x);
            }
        }
        assert forall|x: MessageView| #[trigger]
            keep_live(ms, now).contains(x) implies x.expires_at > now by {
            let k = choose|k: int| 0 <= k < kl.len() && kl[k] == x;
            if ms[0].expires_at > now {
                if k != 0 {
                    assert(klr[k - 1] == x);
                    assert(klr.contains(x));
                }
            } else {
                assert(klr.contains(x));
            }
        }
    }
}

/// The live bytes of a mailbox are never negative.
pub proof fn lemma_mailbox_bytes_nonneg(ms: Seq<MessageView>, mb: Seq<u8>)
    ensures
        0 <= mailbox_bytes(ms, mb),
    decreases ms.len(),
{
    if ms.len() > 0 {
        lemma_mailbox_bytes_nonneg(ms.drop_first(), mb);
    }
}

pub proof fn lemma_mailbox_at(mbs: Seq<MailboxView>, id: Seq<u8>, i: int)
    requires
        mailboxes_unique(mbs),
        0 <= i < mbs.len(),
        mbs[i].mailbox_id == id,
    ensures
        has_mailbox(mbs, id),
        mailbox_at(mbs, id) == mbs[i],
{
    assert(has_mailbox(mbs, id));
    let j = choose|j: int| 0 <= j < mbs.len() && (#[trigger] mbs[j]).mailbox_id == id;
    if i != j {
        assert(mbs[i].mailbox_id != mbs[j].mailbox_id);
    }
}

pub proof fn lemma_token_at(ts: Seq<TokenView>, mb: Seq<u8>, h: Seq<u8>, i: int)
    requires
        tokens_unique(ts),
        0 <= i < ts.len(),
        ts[i].mailbox_id == mb,
        ts[i].dep_hash == h,
    ensures
        has_token(ts, mb, h),
        token_at(ts, mb, h) == ts[i],
        token_index(ts, mb, h) == i,
{
    assert(has_token(ts, mb, h));
    let j = choose|j: int|
        0 <= j < ts.len() && (#[trigger] ts[j]).mailbox_id == mb && ts[j].dep_hash == h;
    if i != j {
        assert(!(ts[i].mailbox_id == ts[j].mailbox_id && ts[i].dep_hash == ts[j].dep_hash));
    }
}

pub proof fn lemma_msg_index(ms: Seq<MessageView>, mb: Seq<u8>, id: Seq<u8>, i: int)
    requires
        msgs_unique(ms),
        0 <= i < ms.len(),
        ms[i].mailbox_id == mb,
        ms[i].msg_id == id,
    ensures
        msg_present(ms, mb, id),
        msg_index(ms, mb, id) == i,
{
    assert(msg_present(ms, mb, id));
    let j = choose|j: int|
        0 <= j < ms.len() && (#[trigger] ms[j]).mailbox_id == mb && ms[j].msg_id == id;
    if i != j {
        assert(!(ms[i].mailbox_id == ms[j].mailbox_id && ms[i].msg_id == ms[j].msg_id));
    }
}

} // verus!
