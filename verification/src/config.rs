use vstd::prelude::*;

verus! {

/// Latest instant the pipelines accept as "now". Keeping `now` under this
/// bound (with TTLs capped by `Config::wf`) rules out overflow when an
/// expiry deadline is computed.
pub const NOW_MAX: i64 = 0x4000_0000_0000_0000;

/// Whether a caller-supplied clock reading is one the pipelines accept.
pub open spec fn now_ok(now: i64) -> bool {
    0 <= now <= NOW_MAX
}

/// The immutable process-wide configuration: the keyed-digest secret and
/// the service limits. Built once at startup and passed to every pipeline;
/// the secret never reaches the store.
pub struct Config {
    pub server_secret: Vec<u8>,
    pub default_ttl_days: i64,
    pub max_ttl_days: i64,
    pub max_msg_bytes: usize,
    pub max_queue_bytes: i64,
    pub poll_limit_default: i64,
    pub poll_limit_max: i64,
}

impl Config {
    /// Sane limits: TTLs positive, capped to a century of days, and the
    /// poll page size positive.
    pub open spec fn wf(self) -> bool {
        &&& 1 <= self.default_ttl_days <= self.max_ttl_days <= 36500
        &&& 0 <= self.max_queue_bytes
        &&& 1 <= self.poll_limit_default
        &&& 1 <= self.poll_limit_max
    }

    /// The stock limits of the service, with the given secret.
    pub fn standard(server_secret: Vec<u8>) -> (c: Config)
        ensures
            c.wf(),
            c.server_secret@ == server_secret@,
            c.default_ttl_days == 7,
            c.max_ttl_days == 14,
            c.max_msg_bytes == 16384,
            c.max_queue_bytes == 10485760,
            c.poll_limit_default == 20,
            c.poll_limit_max == 50,
    {
        Config {
            server_secret,
            default_ttl_days: 7,
            max_ttl_days: 14,
            max_msg_bytes: 16384,
            max_queue_bytes: 10485760,
            poll_limit_default: 20,
            poll_limit_max: 50,
        }
    }
}

} // verus!
