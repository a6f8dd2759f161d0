//! Per-client throttling: a milli-token bucket per client, a sliding window
//! of message instants per client, and a hard connection cap per address.
//!
//! The bucket holds `burst_capacity * 1000` milli-tokens, refills at
//! `messages_per_second` milli-tokens per millisecond (the same rate in
//! whole tokens per second), and each accepted message costs 1000.  The
//! window keeps the instants of accepted messages no older than the
//! configured span; a full window flags flooding.

use vstd::prelude::*;
use crate::config::FloodConfig;
use crate::config::RateLimitConfig;
use crate::types::ChatError;

verus! {

/// A token bucket, in milli-tokens.
#[derive(Clone, Copy, Debug, PartialEq, Eq, Structural)]
pub struct Bucket {
    pub tokens_milli: u64,
    pub last_ms: u64,
}

/// The mathematical state of a bucket.
pub struct BucketModel {
    pub tokens_milli: nat,
    pub last_ms: nat,
}

pub open spec fn model_of(b: Bucket) -> BucketModel {
    BucketModel { tokens_milli: b.tokens_milli as nat, last_ms: b.last_ms as nat }
}

/// Milli-tokens available at `now`: refill for the elapsed time, capped at
/// the capacity.  A clock that stands or runs backwards refills nothing.
pub open spec fn spec_avail(m: BucketModel, cap: nat, rate: nat, now: nat) -> nat {
    let elapsed: nat = if now > m.last_ms { (now - m.last_ms) as nat } else { 0 };
    let filled = m.tokens_milli + elapsed * rate;
    if filled >= cap { cap } else { filled }
}

/// One rate check: succeed and spend 1000 milli-tokens exactly when at
/// least that much is available.
pub open spec fn rate_step(m: BucketModel, cap: nat, rate: nat, now: nat) -> (bool, BucketModel) {
    let avail = spec_avail(m, cap, rate, now);
    let newlast: nat = if now > m.last_ms { now } else { m.last_ms };
    if avail >= 1000 {
        (true, BucketModel { tokens_milli: (avail - 1000) as nat, last_ms: newlast })
    } else {
        (false, BucketModel { tokens_milli: avail, last_ms: newlast })
    }
}

/// `n` rate checks in a row, all at the instant `now`.
pub open spec fn rate_steps(m: BucketModel, cap: nat, rate: nat, now: nat, n: nat) -> BucketModel
    decreases n,
{
    if n == 0 {
        m
    } else {
        rate_step(rate_steps(m, cap, rate, now, (n - 1) as nat), cap, rate, now).1
    }
}

/// The burst law: from a full bucket, `n` checks at one instant all succeed
/// while `n` does not exceed the capacity in whole tokens, and the check
/// after the capacity's worth fails.
pub proof fn lemma_token_bucket_burst(cap: nat, rate: nat, t: nat, n: nat)
    requires
        n * 1000 <= cap,
    ensures
        rate_steps(BucketModel { tokens_milli: cap, last_ms: t }, cap, rate, t, n).tokens_milli
            == cap - n * 1000,
        rate_steps(BucketModel { tokens_milli: cap, last_ms: t }, cap, rate, t, n).last_ms == t,
        n >= 1 ==> rate_step(
            rate_steps(BucketModel { tokens_milli: cap, last_ms: t }, cap, rate, t, (n - 1) as nat),
            cap,
            rate,
            t,
        ).0,
        cap < n * 1000 + 1000 ==> !rate_step(
            rate_steps(BucketModel { tokens_milli: cap, last_ms: t }, cap, rate, t, n),
            cap,
            rate,
            t,
        ).0,
    decreases n,
{
    let m0 = BucketModel { tokens_milli: cap, last_ms: t };
    if n == 0 {
        assert(rate_steps(m0, cap, rate, t, 0) == m0);
    } else {
        assert((n - 1) * 1000 <= cap) by (nonlinear_arith)
            requires n * 1000 <= cap && n >= 1;
        lemma_token_bucket_burst(cap, rate, t, (n - 1) as nat);
        let prev = rate_steps(m0, cap, rate, t, (n - 1) as nat);
        assert(prev.tokens_milli == cap - (n - 1) * 1000);
        assert(prev.last_ms == t);
        assert(spec_avail(prev, cap, rate, t) == prev.tokens_milli);
        assert((n - 1) * 1000 + 1000 == n * 1000) by (nonlinear_arith);
        assert(prev.tokens_milli >= 1000);
        let cur = rate_steps(m0, cap, rate, t, n);
        assert(cur == rate_step(prev, cap, rate, t).1);
        assert(cur.tokens_milli == cap - n * 1000);
        assert(cur.last_ms == t);
        if cap < n * 1000 + 1000 {
            assert(spec_avail(cur, cap, rate, t) == cur.tokens_milli);
            assert(cur.tokens_milli < 1000);
        }
    }
}

/// Stale instants at the window's front: strictly older than the span.
pub open spec fn is_stale(ts: u64, now: u64, window_ms: u64) -> bool {
    ts < now && now - ts > window_ms
}

/// The window after shedding its stale prefix.
pub open spec fn drop_stale_prefix(s: Seq<u64>, now: u64, window_ms: u64) -> Seq<u64>
    decreases s.len(),
{
    if s.len() > 0 && is_stale(s[0], now, window_ms) {
        drop_stale_prefix(s.drop_first(), now, window_ms)
    } else {
        s
    }
}

/// A window none of whose instants is stale sheds nothing.
pub proof fn lemma_fresh_window_kept(s: Seq<u64>, now: u64, window_ms: u64)
    requires
        forall|i: int| 0 <= i < s.len() ==> !is_stale(#[trigger] s[i], now, window_ms),
    ensures
        drop_stale_prefix(s, now, window_ms) == s,
{
    if s.len() > 0 {
        assert(!is_stale(s[0], now, window_ms));
    }
}

/// A window all of whose instants are stale sheds everything.
pub proof fn lemma_stale_window_cleared(s: Seq<u64>, now: u64, window_ms: u64)
    requires
        forall|i: int| 0 <= i < s.len() ==> is_stale(#[trigger] s[i], now, window_ms),
    ensures
        drop_stale_prefix(s, now, window_ms) =~= Seq::<u64>::empty(),
    decreases s.len(),
{
    if s.len() > 0 {
        let s0 = s.drop_first();
        assert forall|i: int| 0 <= i < s0.len() implies is_stale(#[trigger] s0[i], now, window_ms)
            by {
            assert(s0[i] == s[i + 1]);
        }
        lemma_stale_window_cleared(s0, now, window_ms);
    }
}

/// The sliding-window law: a window already holding the permitted number
/// of fresh instants sheds nothing, so the next check finds it full and
/// refuses; and once every instant is stale the window sheds everything,
/// so the next check succeeds whenever one message is permitted at all.
pub proof fn lemma_flood_window_law(w: Seq<u64>, now: u64, window_ms: u64, max: usize)
    ensures
        (forall|i: int| 0 <= i < w.len() ==> !is_stale(#[trigger] w[i], now, window_ms))
            && w.len() >= max ==> drop_stale_prefix(w, now, window_ms).len() >= max,
        (forall|i: int| 0 <= i < w.len() ==> is_stale(#[trigger] w[i], now, window_ms)) && max >= 1
            ==> drop_stale_prefix(w, now, window_ms).len() < max,
{
    if forall|i: int| 0 <= i < w.len() ==> !is_stale(#[trigger] w[i], now, window_ms) {
        lemma_fresh_window_kept(w, now, window_ms);
    }
    if forall|i: int| 0 <= i < w.len() ==> is_stale(#[trigger] w[i], now, window_ms) {
        lemma_stale_window_cleared(w, now, window_ms);
    }
}

/// One client's throttling state.
pub struct ClientEntry {
    pub id: u128,
    pub ip: u128,
    pub bucket: Bucket,
    pub window: Vec<u64>,
}

/// How many registered clients connect from `ip`.
pub open spec fn count_ip(s: Seq<ClientEntry>, ip: u128) -> nat
    decreases s.len(),
{
    if s.len() == 0 {
        0
    } else {
        count_ip(s.drop_last(), ip) + if s.last().ip == ip { 1nat } else { 0nat }
    }
}

pub open spec fn has_id(s: Seq<ClientEntry>, id: u128) -> bool {
    exists|i: int| 0 <= i < s.len() && (#[trigger] s[i]).id == id
}

/// The per-client rate limiter, flood detector and per-address cap.
pub struct RateLimiter {
    rate_config: RateLimitConfig,
    flood_config: FloodConfig,
    clients: Vec<ClientEntry>,
}

impl View for RateLimiter {
    type V = Seq<ClientEntry>;

    closed spec fn view(&self) -> Seq<ClientEntry> {
        self.clients@
    }
}

impl RateLimiter {
    /// The bucket's capacity in milli-tokens; at least one whole token.
    pub open spec fn spec_cap(&self) -> nat {
        (if self.spec_rate_config().burst_capacity >= 1 {
            self.spec_rate_config().burst_capacity as nat
        } else {
            1
        }) * 1000
    }

    /// The refill rate in milli-tokens per millisecond; at least one.
    pub open spec fn spec_rate(&self) -> nat {
        if self.spec_rate_config().messages_per_second >= 1 {
            self.spec_rate_config().messages_per_second as nat
        } else {
            1
        }
    }

    pub closed spec fn spec_rate_config(&self) -> RateLimitConfig {
        self.rate_config
    }

    pub closed spec fn spec_flood_config(&self) -> FloodConfig {
        self.flood_config
    }

    /// The window span in milliseconds, saturated.
    pub open spec fn spec_window_ms(&self) -> u64 {
        crate::types::sat_u64(self.spec_flood_config().window_seconds * 1000)
    }

    /// Client identifiers are pairwise distinct and no bucket overflows its
    /// capacity.
    pub open spec fn wf(&self) -> bool {
        &&& forall|i: int, j: int|
            0 <= i < j < self@.len() ==> (#[trigger] self@[i]).id != (#[trigger] self@[j]).id
        &&& forall|i: int|
            0 <= i < self@.len() ==> (#[trigger] self@[i]).bucket.tokens_milli <= self.spec_cap()
    }

    pub fn new(rate_config: RateLimitConfig, flood_config: FloodConfig) -> (r: RateLimiter)
        ensures
            r.wf(),
            r@.len() == 0,
            r.spec_rate_config() == rate_config,
            r.spec_flood_config() == flood_config,
    {
        RateLimiter { rate_config, flood_config, clients: Vec::new() }
    }

    /// The capacity in milli-tokens as a machine word.
    fn cap_milli(&self) -> (r: u64)
        ensures
            r == self.spec_cap(),
    {
        let b = if self.rate_config.burst_capacity >= 1 {
            self.rate_config.burst_capacity
        } else {
            1
        };
        (b as u64) * 1000
    }

    fn rate_milli(&self) -> (r: u64)
        ensures
            r == self.spec_rate(),
    {
        if self.rate_config.messages_per_second >= 1 {
            self.rate_config.messages_per_second as u64
        } else {
            1
        }
    }

    fn window_ms(&self) -> (r: u64)
        ensures
            r == self.spec_window_ms(),
    {
        crate::types::mul_sat(self.flood_config.window_seconds, 1000)
    }

    /// The position of the entry for `id`, if one is registered.
    fn find_index(&self, id: u128) -> (r: Option<usize>)
        ensures
            match r {
                Some(k) => k < self@.len() && self@[k as int].id == id,
                None => !has_id(self@, id),
            },
    {
        let mut i: usize = 0;
        while i < self.clients.len()
            invariant
                i <= self@.len(),
                forall|j: int| 0 <= j < i ==> (#[trigger] self@[j]).id != id,
            decreases self@.len() - i,
        {
            if self.clients[i].id == id {
                return Some(i);
            }
            i = i + 1;
        }
        None
    }

    /// How many registered clients connect from `ip`.
    pub fn get_connection_count(&self, ip: u128) -> (r: usize)
        ensures
            r == count_ip(self@, ip),
    {
        let mut i: usize = 0;
        let mut cnt: usize = 0;
        while i < self.clients.len()
            invariant
                i <= self@.len(),
                cnt == count_ip(self@.subrange(0, i as int), ip),
                cnt <= i,
            decreases self@.len() - i,
        {
            proof {
                assert(self@.subrange(0, i + 1).drop_last() =~= self@.subrange(0, i as int));
                assert(self@.subrange(0, i + 1).last() == self@[i as int]);
            }
            if self.clients[i].ip == ip {
                cnt = cnt + 1;
            }
            i = i + 1;
        }
        proof {
            assert(self@.subrange(0, self@.len() as int) =~= self@);
        }
        cnt
    }

    /// Admits a new client unless its address already holds the configured
    /// number of connections or the identifier is already registered.  A new
    /// client starts with a full bucket and an empty window.
    pub fn register_client(&mut self, client_id: u128, ip: u128) -> (r: Result<(), ChatError>)
        requires
            old(self).wf(),
        ensures
            final(self).wf(),
            final(self).spec_rate_config() == old(self).spec_rate_config(),
            final(self).spec_flood_config() == old(self).spec_flood_config(),
            (r is Ok) == (count_ip(old(self)@, ip) < old(self).spec_flood_config()
                .max_connections_per_ip && !has_id(old(self)@, client_id)),
            count_ip(old(self)@, ip) >= old(self).spec_flood_config().max_connections_per_ip
                ==> r == Err::<(), ChatError>(
                ChatError::TooManyConnections(
                    old(self).spec_flood_config().max_connections_per_ip,
                ),
            ) && final(self)@ == old(self)@,
            r is Ok ==> {
                &&& final(self)@.len() == old(self)@.len() + 1
                &&& final(self)@[old(self)@.len() as int].id == client_id
                &&& final(self)@[old(self)@.len() as int].ip == ip
                &&& model_of(final(self)@[old(self)@.len() as int].bucket) == (BucketModel {
                    tokens_milli: old(self).spec_cap(),
                    last_ms: 0,
                })
                &&& final(self)@[old(self)@.len() as int].window@ =~= Seq::<u64>::empty()
                &&& forall|j: int|
                    0 <= j < old(self)@.len() ==> final(self)@[j] == #[trigger] old(self)@[j]
            },
            !(r is Ok) ==> final(self)@ == old(self)@,
    {
        let n = self.get_connection_count(ip);
        if n >= self.flood_config.max_connections_per_ip {
            return Err(ChatError::TooManyConnections(self.flood_config.max_connections_per_ip));
        }
        if let Some(_k) = self.find_index(client_id) {
            return Err(ChatError::Other(String::from_str("client already registered")));
        }
        let ghost olds = self@;
        let cap = self.cap_milli();
        let entry = ClientEntry {
            id: client_id,
            ip,
            bucket: Bucket { tokens_milli: cap, last_ms: 0 },
            window: Vec::new(),
        };
        self.clients.push(entry);
        proof {
            assert(self@[olds.len() as int].window@ =~= Seq::<u64>::empty());
            assert forall|i: int, j: int| 0 <= i < j < self@.len() implies (#[trigger] self@[i]).id
                != (#[trigger] self@[j]).id by {
                if j < olds.len() {
                    assert(olds[i].id != olds[j].id);
                } else {
                    assert(self@[j].id == client_id);
                    assert(olds[i].id != client_id);
                }
            }
        }
        Ok(())
    }

    /// Removes the client's state, if registered.
    pub fn unregister_client(&mut self, client_id: u128, ip: u128)
        requires
            old(self).wf(),
        ensures
            final(self).wf(),
            final(self).spec_rate_config() == old(self).spec_rate_config(),
            final(self).spec_flood_config() == old(self).spec_flood_config(),
            !has_id(final(self)@, client_id),
            has_id(old(self)@, client_id) ==> exists|k: int|
                0 <= k < old(self)@.len() && (#[trigger] old(self)@[k]).id == client_id
                    && final(self)@ =~= old(self)@.remove(k),
            !has_id(old(self)@, client_id) ==> final(self)@ == old(self)@,
    {
        let _ = ip;
        let ghost olds = self@;
        match self.find_index(client_id) {
            None => {},
            Some(k) => {
                self.clients.remove(k);
                proof {
                    assert(self@ =~= olds.remove(k as int));
                    assert forall|i: int, j: int|
                        0 <= i < j < self@.len() implies (#[trigger] self@[i]).id
                        != (#[trigger] self@[j]).id by {
                        let i0 = if i < k { i } else { i + 1 };
                        let j0 = if j < k { j } else { j + 1 };
                        assert(self@[i] == olds[i0] && self@[j] == olds[j0]);
                        assert(olds[i0].id != olds[j0].id);
                    }
                    assert forall|i: int|
                        0 <= i < self@.len() implies (#[trigger] self@[i]).id != client_id by {
                        let i0 = if i < k { i } else { i + 1 };
                        assert(self@[i] == olds[i0]);
                        if i0 != k {
                            assert(olds[i0].id != olds[k as int].id);
                        }
                    }
                }
            },
        }
    }

    /// Consumes one token from the client's bucket: the outcome and the new
    /// bucket are exactly one `rate_step` of the model at `now_ms`.
    pub fn check_rate_limit(&mut self, client_id: u128, now_ms: u64) -> (r: Result<(), ChatError>)
        requires
            old(self).wf(),
        ensures
            final(self).wf(),
            final(self).spec_rate_config() == old(self).spec_rate_config(),
            final(self).spec_flood_config() == old(self).spec_flood_config(),
            !has_id(old(self)@, client_id) ==> final(self)@ == old(self)@ && (r matches Err(e)
                && e matches ChatError::Other(_)),
            has_id(old(self)@, client_id) ==> exists|k: int|
                {
                    let step = rate_step(
                        model_of(old(self)@[k].bucket),
                        old(self).spec_cap(),
                        old(self).spec_rate(),
                        now_ms as nat,
                    );
                    &&& 0 <= k < old(self)@.len()
                    &&& (#[trigger] old(self)@[k]).id == client_id
                    &&& (r is Ok) == step.0
                    &&& !step.0 ==> r == Err::<(), ChatError>(ChatError::RateLimited)
                    &&& final(self)@.len() == old(self)@.len()
                    &&& model_of(final(self)@[k].bucket) == step.1
                    &&& final(self)@[k].id == client_id
                    &&& final(self)@[k].ip == old(self)@[k].ip
                    &&& final(self)@[k].window == old(self)@[k].window
                    &&& forall|j: int|
                        0 <= j < old(self)@.len() && j != k
                            ==> final(self)@[j] == #[trigger] old(self)@[j]
                },
    {
        let ghost olds = self@;
        let ghost gcap = self.spec_cap();
        let ghost grate = self.spec_rate();
        let k = match self.find_index(client_id) {
            None => {
                return Err(ChatError::Other(String::from_str("client not registered")));
            },
            Some(k) => k,
        };
        let cap = self.cap_milli();
        let rate = self.rate_milli();
        let mut e = self.clients.remove(k);
        let ghost olde = olds[k as int];
        let tokens = e.bucket.tokens_milli;
        let last = e.bucket.last_ms;
        let elapsed: u64 = if now_ms > last {
            now_ms - last
        } else {
            0
        };
        proof {
            assert((elapsed as u128) * (rate as u128) <= 0xFFFFFFFFFFFFFFFFu128
                * 0xFFFFFFFFu128) by (nonlinear_arith)
                requires
                    (elapsed as u128) <= 0xFFFFFFFFFFFFFFFFu128,
                    (rate as u128) <= 0xFFFFFFFFu128,
            ;
        }
        let filled_wide: u128 = (tokens as u128) + (elapsed as u128) * (rate as u128);
        let avail: u64 = if filled_wide >= cap as u128 {
            cap
        } else {
            filled_wide as u64
        };
        proof {
            let m = model_of(olde.bucket);
            assert(avail as nat == spec_avail(m, cap as nat, rate as nat, now_ms as nat));
        }
        let newlast: u64 = if now_ms > last {
            now_ms
        } else {
            last
        };
        let ok = avail >= 1000;
        if ok {
            e.bucket = Bucket { tokens_milli: avail - 1000, last_ms: newlast };
        } else {
            e.bucket = Bucket { tokens_milli: avail, last_ms: newlast };
        }
        self.clients.insert(k, e);
        proof {
            let step = rate_step(model_of(olde.bucket), gcap, grate, now_ms as nat);
            assert(self@.len() == olds.len());
            assert(model_of(self@[k as int].bucket) == step.1);
            assert forall|j: int| 0 <= j < olds.len() && j != k implies self@[j] == #[trigger] olds[j]
                by {
                if j < k {
                    assert(self@[j] == olds.remove(k as int)[j]);
                } else {
                    assert(self@[j] == olds.remove(k as int)[j - 1]);
                }
            }
            assert forall|i: int, j: int| 0 <= i < j < self@.len() implies (#[trigger] self@[i]).id
                != (#[trigger] self@[j]).id by {
                assert(olds[i].id != olds[j].id);
                assert(self@[i].id == olds[i].id && self@[j].id == olds[j].id);
            }
        }
        if ok {
            Ok(())
        } else {
            Err(ChatError::RateLimited)
        }
    }

    /// Sheds stale instants from the front of the client's window, then
    /// refuses a full window and otherwise records `now_ms`.
    pub fn check_flood(&mut self, client_id: u128, now_ms: u64) -> (r: Result<(), ChatError>)
        requires
            old(self).wf(),
        ensures
            final(self).wf(),
            final(self).spec_rate_config() == old(self).spec_rate_config(),
            final(self).spec_flood_config() == old(self).spec_flood_config(),
            !has_id(old(self)@, client_id) ==> final(self)@ == old(self)@ && (r matches Err(e)
                && e matches ChatError::Other(_)),
            has_id(old(self)@, client_id) ==> exists|k: int|
                {
                    let kept = drop_stale_prefix(
                        old(self)@[k].window@,
                        now_ms,
                        old(self).spec_window_ms(),
                    );
                    &&& 0 <= k < old(self)@.len()
                    &&& (#[trigger] old(self)@[k]).id == client_id
                    &&& (r is Ok) == (kept.len() < old(self).spec_flood_config()
                        .max_messages_in_window)
                    &&& !(r is Ok) ==> r == Err::<(), ChatError>(ChatError::Flooding)
                        && final(self)@[k].window@ == kept
                    &&& r is Ok ==> final(self)@[k].window@ == kept.push(now_ms)
                    &&& final(self)@.len() == old(self)@.len()
                    &&& final(self)@[k].id == client_id
                    &&& final(self)@[k].ip == old(self)@[k].ip
                    &&& final(self)@[k].bucket == old(self)@[k].bucket
                    &&& forall|j: int|
                        0 <= j < old(self)@.len() && j != k
                            ==> final(self)@[j] == #[trigger] old(self)@[j]
                },
    {
        let ghost olds = self@;
        let k = match self.find_index(client_id) {
            None => {
                return Err(ChatError::Other(String::from_str("client not registered")));
            },
            Some(k) => k,
        };
        let win = self.window_ms();
        let max = self.flood_config.max_messages_in_window;
        let mut e = self.clients.remove(k);
        let ghost olde = olds[k as int];
        while front_stale(&e.window, now_ms, win)
            invariant
                drop_stale_prefix(olde.window@, now_ms, win) == drop_stale_prefix(
                    e.window@,
                    now_ms,
                    win,
                ),
                e.id == olde.id,
                e.ip == olde.ip,
                e.bucket == olde.bucket,
            decreases e.window@.len(),
        {
            proof {
                assert(is_stale(e.window@[0], now_ms, win));
                assert(e.window@.drop_first() =~= e.window@.subrange(1, e.window@.len() as int));
            }
            let ghost prewin = e.window@;
            e.window.remove(0);
            proof {
                assert(e.window@ =~= prewin.drop_first());
            }
        }
        proof {
            if e.window@.len() > 0 {
                assert(!is_stale(e.window@[0], now_ms, win));
            }
            assert(drop_stale_prefix(e.window@, now_ms, win) == e.window@);
        }
        let full = e.window.len() >= max;
        if !full {
            e.window.push(now_ms);
        }
        self.clients.insert(k, e);
        proof {
            assert(self@.len() == olds.len());
            assert forall|j: int| 0 <= j < olds.len() && j != k implies self@[j] == #[trigger] olds[j]
                by {
                if j < k {
                    assert(self@[j] == olds.remove(k as int)[j]);
                } else {
                    assert(self@[j] == olds.remove(k as int)[j - 1]);
                }
            }
            assert forall|i: int, j: int| 0 <= i < j < self@.len() implies (#[trigger] self@[i]).id
                != (#[trigger] self@[j]).id by {
                assert(olds[i].id != olds[j].id);
                assert(self@[i].id == olds[i].id && self@[j].id == olds[j].id);
            }
        }
        if full {
            Err(ChatError::Flooding)
        } else {
            Ok(())
        }
    }

    /// Drops every client whose window is empty or whose newest instant is
    /// at least the threshold old.
    pub fn cleanup_inactive_clients(&mut self, now_ms: u64, inactive_threshold_ms: u64)
        requires
            old(self).wf(),
        ensures
            final(self).wf(),
            final(self).spec_rate_config() == old(self).spec_rate_config(),
            final(self).spec_flood_config() == old(self).spec_flood_config(),
            final(self)@ == old(self)@.filter(
                |e: ClientEntry|
                    e.window@.len() > 0 && (if now_ms > e.window@.last() {
                        (now_ms - e.window@.last()) as u64
                    } else {
                        0u64
                    }) < inactive_threshold_ms,
            ),
    {
        let ghost olds = self@;
        let ghost grc = self.spec_rate_config();
        let ghost gfc = self.spec_flood_config();
        let ghost gcap = self.spec_cap();
        let ghost pred = |e: ClientEntry|
            e.window@.len() > 0 && (if now_ms > e.window@.last() {
                (now_ms - e.window@.last()) as u64
            } else {
                0u64
            }) < inactive_threshold_ms;
        let mut kept: Vec<ClientEntry> = Vec::new();
        proof {
            reveal(Seq::filter);
            assert(kept@ =~= olds.subrange(0, 0).filter(pred));
        }
        let n = self.clients.len();
        let mut i: usize = 0;
        while i < n
            invariant
                i <= n,
                n == olds.len(),
                self@ =~= olds.subrange(i as int, n as int),
                self.spec_rate_config() == grc,
                self.spec_flood_config() == gfc,
                self.spec_cap() == gcap,
                kept@ == olds.subrange(0, i as int).filter(pred),
                pred == (|e: ClientEntry|
                    e.window@.len() > 0 && (if now_ms > e.window@.last() {
                        (now_ms - e.window@.last()) as u64
                    } else {
                        0u64
                    }) < inactive_threshold_ms),
            decreases n - i,
        {
            let ghost pres = self@;
            let e = self.clients.remove(0);
            proof {
                assert(e == olds[i as int]);
                assert(self@ =~= olds.subrange(i + 1, n as int));
                reveal(Seq::filter);
                assert(olds.subrange(0, i + 1).drop_last() =~= olds.subrange(0, i as int));
                assert(olds.subrange(0, i + 1).last() == olds[i as int]);
            }
            let keep = e.window.len() > 0 && {
                let last = e.window[e.window.len() - 1];
                (if now_ms > last {
                    now_ms - last
                } else {
                    0
                }) < inactive_threshold_ms
            };
            proof {
                if e.window@.len() > 0 {
                    assert(e.window@[e.window@.len() - 1] == e.window@.last());
                }
                assert(keep == pred(olds[i as int]));
            }
            if keep {
                kept.push(e);
            }
            i = i + 1;
        }
        proof {
            assert(olds.subrange(0, n as int) =~= olds);
        }
        self.clients = kept;
        proof {
            lemma_filter_entries_sub(olds, pred);
            lemma_filter_keeps_distinct_ids(olds, pred);
            assert forall|i2: int|
                0 <= i2 < self@.len() implies (#[trigger] self@[i2]).bucket.tokens_milli
                <= self.spec_cap() by {
                assert(olds.contains(olds.filter(pred)[i2]));
                let j = choose|j: int| 0 <= j < olds.len() && olds[j] == olds.filter(pred)[i2];
                assert(olds[j].bucket.tokens_milli <= gcap);
            }
        }
    }
}

/// Whether the window's oldest instant is stale.
fn front_stale(w: &Vec<u64>, now_ms: u64, win: u64) -> (r: bool)
    ensures
        r == (w@.len() > 0 && is_stale(w@[0], now_ms, win)),
{
    if w.len() == 0 {
        false
    } else {
        let ts = w[0];
        ts < now_ms && now_ms - ts > win
    }
}

/// Every element of a filtered sequence stands in the unfiltered one.
proof fn lemma_filter_entries_sub(s: Seq<ClientEntry>, pred: spec_fn(ClientEntry) -> bool)
    ensures
        forall|i: int|
            0 <= i < s.filter(pred).len() ==> s.contains(#[trigger] s.filter(pred)[i]),
    decreases s.len(),
{
    reveal(Seq::filter);
    if s.len() > 0 {
        let s0 = s.drop_last();
        lemma_filter_entries_sub(s0, pred);
        let f = s.filter(pred);
        let f0 = s0.filter(pred);
        assert forall|i: int| 0 <= i < f.len() implies s.contains(#[trigger] f[i]) by {
            if i < f0.len() {
                assert(f[i] == f0[i]);
                assert(s0.contains(f0[i]));
                let j = choose|j: int| 0 <= j < s0.len() && s0[j] == f0[i];
                assert(s[j] == f[i]);
            } else {
                assert(f[i] == s.last());
                assert(s[s.len() - 1] == s.last());
            }
        }
    }
}

/// Filtering keeps the identifiers pairwise distinct.
proof fn lemma_filter_keeps_distinct_ids(s: Seq<ClientEntry>, pred: spec_fn(ClientEntry) -> bool)
    requires
        forall|i: int, j: int|
            0 <= i < j < s.len() ==> (#[trigger] s[i]).id != (#[trigger] s[j]).id,
    ensures
        forall|i: int, j: int|
            0 <= i < j < s.filter(pred).len() ==> (#[trigger] s.filter(pred)[i]).id
                != (#[trigger] s.filter(pred)[j]).id,
    decreases s.len(),
{
    reveal(Seq::filter);
    if s.len() > 0 {
        let s0 = s.drop_last();
        assert forall|i: int, j: int| 0 <= i < j < s0.len() implies (#[trigger] s0[i]).id
            != (#[trigger] s0[j]).id by {
            assert(s[i].id != s[j].id);
        }
        lemma_filter_keeps_distinct_ids(s0, pred);
        lemma_filter_entries_sub(s0, pred);
        let f = s.filter(pred);
        let f0 = s0.filter(pred);
        assert forall|i: int, j: int| 0 <= i < j < f.len() implies (#[trigger] f[i]).id
            != (#[trigger] f[j]).id by {
            if j < f0.len() {
                assert(f[i] == f0[i] && f[j] == f0[j]);
                assert(f0[i].id != f0[j].id);
            } else if pred(s.last()) && j == f.len() - 1 && f.len() == f0.len() + 1 {
                assert(f[i] == f0[i]);
                assert(s0.contains(f0[i]));
                let k = choose|k: int| 0 <= k < s0.len() && s0[k] == f0[i];
                assert(s[k] == f0[i]);
                assert(s[k].id != s[s.len() - 1].id);
                assert(f[j] == s.last());
            }
        }
    }
}

} // verus!
