//! Progressive connection throttling: a per-address violation record drives
//! an exponential pre-handshake delay, a stepped post-check delay, and a
//! challenge gate once violations accumulate.
//!
//! The delay multiplier is carried in thousandths, so `2000` doubles the
//! delay on every attempt.  This module only decides; the caller performs
//! the waiting and the challenge conversation.

use vstd::prelude::*;
use crate::config::AutoBahnConfig;

verus! {

/// Per-address history of violations and connection attempts.
#[derive(Clone, Copy, Debug, PartialEq, Eq, Structural)]
pub struct ViolationRecord {
    pub count: u8,
    pub last_violation_ms: u64,
    pub connection_attempts: u32,
    pub last_connection_attempt_ms: u64,
}

/// A record keyed by its address.
#[derive(Clone, Copy, Debug, PartialEq, Eq, Structural)]
pub struct ViolationEntry {
    pub ip: u128,
    pub rec: ViolationRecord,
}

/// What the admission hook asks of its caller: wait, or put a challenge and
/// refuse.
#[derive(Clone, Copy, Debug, PartialEq, Eq, Structural)]
pub enum ConnectionCheck {
    Proceed { initial_delay_ms: u64, step_delay_ms: u64 },
    Challenge { violation_count: u8 },
}

/// `base` after `k` multiplications by `mult_milli`/1000, each capped at
/// `max`.
pub open spec fn delay_iter(base: nat, mult_milli: nat, max: nat, k: nat) -> nat
    decreases k,
{
    if k == 0 {
        base
    } else {
        let prev = delay_iter(base, mult_milli, max, (k - 1) as nat);
        let next = prev * mult_milli / 1000;
        if next >= max { max } else { next }
    }
}

/// The pre-handshake delay for the `attempts`-th connection attempt: zero
/// for the first, then exponential in the attempt number, capped.
pub open spec fn spec_connection_delay(cfg: AutoBahnConfig, attempts: u32) -> nat {
    if attempts <= 1 {
        0
    } else {
        let d = delay_iter(
            cfg.connection_delay_base_ms as nat,
            cfg.connection_delay_multiplier_milli as nat,
            cfg.connection_delay_max_ms as nat,
            (attempts - 1) as nat,
        );
        if d >= cfg.connection_delay_max_ms as nat {
            cfg.connection_delay_max_ms as nat
        } else {
            d
        }
    }
}

/// The stepped delay after `count` violations.
pub open spec fn spec_step_delay(cfg: AutoBahnConfig, count: u8) -> u64 {
    if count == 0 {
        0
    } else if count == 1 {
        cfg.delay_on_first_violation
    } else if count == 2 {
        cfg.delay_on_second_violation
    } else if count == 3 {
        cfg.delay_on_third_violation
    } else {
        cfg.delay_on_fourth_violation
    }
}

/// `b` to the power `e`.
pub open spec fn powm(b: nat, e: nat) -> nat
    decreases e,
{
    if e == 0 { 1 } else { powm(b, (e - 1) as nat) * b }
}

proof fn lemma_powm_mono_step(b: nat, e: nat)
    requires
        b >= 1,
    ensures
        powm(b, e) <= powm(b, e + 1),
        e >= 1 ==> powm(b, e) >= 1,
    decreases e,
{
    if e == 0 {
        assert(powm(b, 0) == 1);
        assert(powm(b, 1) == powm(b, 0) * b);
        assert(1 * b == b) by (nonlinear_arith);
    } else {
        lemma_powm_mono_step(b, (e - 1) as nat);
        assert(powm(b, e + 1) == powm(b, e) * b);
        assert(powm(b, e) * 1 <= powm(b, e) * b) by (nonlinear_arith)
            requires b >= 1;
        assert(powm(b, e) == powm(b, (e - 1) as nat) * b);
        assert(powm(b, (e - 1) as nat) * b >= 1 * 1) by (nonlinear_arith)
            requires powm(b, (e - 1) as nat) >= 1 && b >= 1;
    }
}

/// The exponential-delay law: for a whole multiplier `m = mult_milli/1000`
/// of at least one, the iterated delay is the capped power
/// `min(base * m^k, max)`.
pub proof fn lemma_delay_formula(base: nat, mult_milli: nat, max: nat, k: nat)
    requires
        mult_milli % 1000 == 0,
        mult_milli >= 1000,
    ensures
        k >= 1 ==> delay_iter(base, mult_milli, max, k) == (if base * powm(mult_milli / 1000, k)
            >= max {
            max
        } else {
            base * powm(mult_milli / 1000, k)
        }),
    decreases k,
{
    let m = mult_milli / 1000;
    assert(m >= 1);
    assert(m * 1000 == mult_milli);
    if k == 1 {
        let next = base * mult_milli / 1000;
        assert(powm(m, 0) == 1);
        assert(powm(m, 1) == powm(m, 0) * m);
        assert(1 * m == m) by (nonlinear_arith);
        assert(powm(m, 1) == m);
        assert(base * mult_milli == (base * m) * 1000) by (nonlinear_arith)
            requires mult_milli == m * 1000;
        assert(base * mult_milli / 1000 == base * m) by (nonlinear_arith)
            requires base * mult_milli == (base * m) * 1000;
        assert(delay_iter(base, mult_milli, max, 0) == base);
        assert(delay_iter(base, mult_milli, max, 1) == (if base * m >= max { max } else { base * m }));
    } else if k > 1 {
        lemma_delay_formula(base, mult_milli, max, (k - 1) as nat);
        lemma_powm_mono_step(m, (k - 1) as nat);
        let prev = delay_iter(base, mult_milli, max, (k - 1) as nat);
        let pk1 = powm(m, (k - 1) as nat);
        let pk = powm(m, k);
        assert(pk == pk1 * m);
        if base * pk1 >= max {
            // Already saturated: one more multiplication keeps the cap.
            assert(prev == max);
            assert(max * mult_milli / 1000 == max * m) by (nonlinear_arith)
                requires mult_milli == m * 1000;
            assert(max * m >= max * 1) by (nonlinear_arith)
                requires m >= 1;
            assert(delay_iter(base, mult_milli, max, k) == max);
            assert(base * pk >= base * pk1) by (nonlinear_arith)
                requires m >= 1 && pk == pk1 * m;
        } else {
            assert(prev == base * pk1);
            assert(prev * mult_milli / 1000 == prev * m) by (nonlinear_arith)
                requires mult_milli == m * 1000;
            assert((base * pk1) * m == base * pk) by (nonlinear_arith)
                requires pk == pk1 * m;
        }
    }
}

/// The two operands of a fresh arithmetic challenge, each a two-digit
/// number.
pub fn challenge_operands() -> (r: (u32, u32))
    ensures
        10 <= r.0 < 100,
        10 <= r.1 < 100,
{
    let a = 10 + crate::entropy::random_below(90);
    let b = 10 + crate::entropy::random_below(90);
    (a, b)
}

/// The throttler.
pub struct AutoBahn {
    config: AutoBahnConfig,
    violations: Vec<ViolationEntry>,
}

impl View for AutoBahn {
    type V = Seq<ViolationEntry>;

    closed spec fn view(&self) -> Seq<ViolationEntry> {
        self.violations@
    }
}

pub open spec fn ab_has_ip(s: Seq<ViolationEntry>, ip: u128) -> bool {
    exists|i: int| 0 <= i < s.len() && (#[trigger] s[i]).ip == ip
}

/// The record an entry list keys under `ip`, if any.
pub open spec fn ab_lookup(s: Seq<ViolationEntry>, ip: u128) -> Option<ViolationRecord> {
    if ab_has_ip(s, ip) {
        let k = choose|k: int| 0 <= k < s.len() && (#[trigger] s[k]).ip == ip;
        Some(s[k].rec)
    } else {
        None
    }
}

/// Lists that agree on every entry keyed away from `ip` answer every other
/// address alike.
proof fn lemma_lookup_frame(olds: Seq<ViolationEntry>, news: Seq<ViolationEntry>, ip: u128)
    requires
        forall|i: int, j: int|
            0 <= i < j < olds.len() ==> (#[trigger] olds[i]).ip != (#[trigger] olds[j]).ip,
        forall|i: int, j: int|
            0 <= i < j < news.len() ==> (#[trigger] news[i]).ip != (#[trigger] news[j]).ip,
        forall|j: int|
            0 <= j < news.len() && (#[trigger] news[j]).ip != ip ==> olds.contains(news[j]),
        forall|j: int|
            0 <= j < olds.len() && (#[trigger] olds[j]).ip != ip ==> news.contains(olds[j]),
    ensures
        forall|ip2: u128| ip2 != ip ==> #[trigger] ab_lookup(news, ip2) == ab_lookup(olds, ip2),
{
    assert forall|ip2: u128| ip2 != ip implies #[trigger] ab_lookup(news, ip2) == ab_lookup(
        olds,
        ip2,
    ) by {
        if ab_has_ip(olds, ip2) {
            let k = choose|k: int| 0 <= k < olds.len() && (#[trigger] olds[k]).ip == ip2;
            assert(news.contains(olds[k]));
            let k2 = choose|k2: int| 0 <= k2 < news.len() && news[k2] == olds[k];
            assert(ab_has_ip(news, ip2));
            let m = choose|m: int| 0 <= m < news.len() && (#[trigger] news[m]).ip == ip2;
            // The entry chosen on the new side also stands in the old list,
            // where addresses are unique.
            assert(olds.contains(news[m]));
            let m2 = choose|m2: int| 0 <= m2 < olds.len() && olds[m2] == news[m];
            if m2 != k {
                assert(olds[m2].ip != olds[k].ip);
            }
            assert(news[m] == olds[k]);
        } else {
            if ab_has_ip(news, ip2) {
                let m = choose|m: int| 0 <= m < news.len() && (#[trigger] news[m]).ip == ip2;
                assert(olds.contains(news[m]));
                let m2 = choose|m2: int| 0 <= m2 < olds.len() && olds[m2] == news[m];
                assert(olds[m2].ip == ip2);
            }
        }
    }
}

impl AutoBahn {
    pub closed spec fn spec_config(&self) -> AutoBahnConfig {
        self.config
    }

    /// Addresses are keyed at most once.
    pub open spec fn wf(&self) -> bool {
        forall|i: int, j: int|
            0 <= i < j < self@.len() ==> (#[trigger] self@[i]).ip != (#[trigger] self@[j]).ip
    }

    pub fn new(config: AutoBahnConfig) -> (r: AutoBahn)
        ensures
            r.wf(),
            r@.len() == 0,
            r.spec_config() == config,
    {
        AutoBahn { config, violations: Vec::new() }
    }

    pub fn is_enabled(&self) -> (r: bool)
        ensures
            r == self.spec_config().enabled,
    {
        self.config.enabled
    }

    fn find_index(&self, ip: u128) -> (r: Option<usize>)
        ensures
            match r {
                Some(k) => k < self@.len() && self@[k as int].ip == ip,
                None => !ab_has_ip(self@, ip),
            },
    {
        let mut i: usize = 0;
        while i < self.violations.len()
            invariant
                i <= self@.len(),
                forall|j: int| 0 <= j < i ==> (#[trigger] self@[j]).ip != ip,
            decreases self@.len() - i,
        {
            if self.violations[i].ip == ip {
                return Some(i);
            }
            i = i + 1;
        }
        None
    }

    /// Replaces or inserts the record for `ip`.
    fn put(&mut self, ip: u128, rec: ViolationRecord)
        requires
            old(self).wf(),
        ensures
            final(self).wf(),
            final(self).spec_config() == old(self).spec_config(),
            final(self)@.len() <= old(self)@.len() + 1,
            exists|k: int|
                0 <= k < final(self)@.len() && #[trigger] final(self)@[k] == (ViolationEntry {
                    ip,
                    rec,
                }),
            forall|j: int|
                0 <= j < final(self)@.len() && (#[trigger] final(self)@[j]).ip != ip
                    ==> old(self)@.contains(final(self)@[j]),
            forall|j: int|
                0 <= j < old(self)@.len() && (#[trigger] old(self)@[j]).ip != ip
                    ==> final(self)@.contains(old(self)@[j]),
            forall|ip2: u128|
                ip2 != ip ==> #[trigger] ab_lookup(final(self)@, ip2) == ab_lookup(
                    old(self)@,
                    ip2,
                ),
    {
        let ghost olds = self@;
        let e = ViolationEntry { ip, rec };
        match self.find_index(ip) {
            Some(k) => {
                self.violations.remove(k);
                self.violations.insert(k, e);
                proof {
                    assert(self@ =~= olds.update(k as int, e));
                    assert(self@[k as int] == e);
                    assert forall|i: int, j: int|
                        0 <= i < j < self@.len() implies (#[trigger] self@[i]).ip
                        != (#[trigger] self@[j]).ip by {
                        assert(olds[i].ip != olds[j].ip);
                    }
                    assert forall|j: int|
                        0 <= j < self@.len() && (#[trigger] self@[j]).ip != ip implies
                        olds.contains(self@[j]) by {
                        assert(self@[j] == olds[j]);
                    }
                    assert forall|j: int|
                        0 <= j < olds.len() && (#[trigger] olds[j]).ip != ip implies self@.contains(
                            olds[j],
                        ) by {
                        assert(self@[j] == olds[j]);
                    }
                    lemma_lookup_frame(olds, self@, ip);
                }
            },
            None => {
                self.violations.push(e);
                proof {
                    assert(self@ =~= olds.push(e));
                    assert(self@[olds.len() as int] == e);
                    assert forall|i: int, j: int|
                        0 <= i < j < self@.len() implies (#[trigger] self@[i]).ip
                        != (#[trigger] self@[j]).ip by {
                        if j < olds.len() {
                            assert(olds[i].ip != olds[j].ip);
                        } else {
                            assert(self@[j] == e);
                            assert(olds[i].ip != ip);
                        }
                    }
                    assert forall|j: int|
                        0 <= j < self@.len() && (#[trigger] self@[j]).ip != ip implies
                        olds.contains(self@[j]) by {
                        assert(self@[j] == olds[j]);
                    }
                    assert forall|j: int|
                        0 <= j < olds.len() && (#[trigger] olds[j]).ip != ip implies self@.contains(
                            olds[j],
                        ) by {
                        assert(self@[j] == olds[j]);
                    }
                    lemma_lookup_frame(olds, self@, ip);
                }
            },
        }
    }

    /// The record for `ip`, if any.
    pub open spec fn spec_lookup(&self, ip: u128) -> Option<ViolationRecord> {
        ab_lookup(self@, ip)
    }

    /// Stamps a violation: the counter is created at one or raised
    /// saturating, and the violation instant set to `now_ms`.  Disabled, the
    /// throttler records nothing.
    pub fn record_violation(&mut self, ip: u128, now_ms: u64)
        requires
            old(self).wf(),
        ensures
            final(self).wf(),
            final(self).spec_config() == old(self).spec_config(),
            !old(self).spec_config().enabled ==> final(self)@ == old(self)@,
            old(self).spec_config().enabled ==> ({
                let rec = match old(self).spec_lookup(ip) {
                    None => ViolationRecord {
                        count: 1,
                        last_violation_ms: now_ms,
                        connection_attempts: 0,
                        last_connection_attempt_ms: now_ms,
                    },
                    Some(r) => ViolationRecord {
                        count: if r.count < 255 { (r.count + 1) as u8 } else { 255u8 },
                        last_violation_ms: now_ms,
                        ..r
                    },
                };
                final(self).spec_lookup(ip) == Some(rec)
            }),
            forall|ip2: u128|
                ip2 != ip ==> #[trigger] final(self).spec_lookup(ip2) == old(self).spec_lookup(
                    ip2,
                ),
    {
        if !self.config.enabled {
            return ;
        }
        let rec = match self.find_index(ip) {
            None => {
                proof {
                    assert(self.spec_lookup(ip) is None);
                }
                ViolationRecord {
                    count: 1,
                    last_violation_ms: now_ms,
                    connection_attempts: 0,
                    last_connection_attempt_ms: now_ms,
                }
            },
            Some(k) => {
                let r = self.violations[k].rec;
                proof {
                    lemma_lookup_at(self, ip, k as int);
                }
                ViolationRecord {
                    count: if r.count < 255 { r.count + 1 } else { 255 },
                    last_violation_ms: now_ms,
                    connection_attempts: r.connection_attempts,
                    last_connection_attempt_ms: r.last_connection_attempt_ms,
                }
            },
        };
        self.put(ip, rec);
        proof {
            lemma_lookup_after_put(self, ip, rec);
        }
    }

    /// Stamps a connection attempt: the attempt counter is created at one
    /// or raised saturating, and the attempt instant set to `now_ms`.
    pub fn record_connection_attempt(&mut self, ip: u128, now_ms: u64)
        requires
            old(self).wf(),
        ensures
            final(self).wf(),
            final(self).spec_config() == old(self).spec_config(),
            !old(self).spec_config().enabled ==> final(self)@ == old(self)@,
            old(self).spec_config().enabled ==> final(self).spec_lookup(ip) == Some(
                attempt_stamped(old(self).spec_lookup(ip), now_ms),
            ),
            forall|ip2: u128|
                ip2 != ip ==> #[trigger] final(self).spec_lookup(ip2) == old(self).spec_lookup(
                    ip2,
                ),
    {
        if !self.config.enabled {
            return ;
        }
        let rec = match self.find_index(ip) {
            None => {
                proof {
                    assert(self.spec_lookup(ip) is None);
                }
                ViolationRecord {
                    count: 0,
                    last_violation_ms: now_ms,
                    connection_attempts: 1,
                    last_connection_attempt_ms: now_ms,
                }
            },
            Some(k) => {
                let r = self.violations[k].rec;
                proof {
                    lemma_lookup_at(self, ip, k as int);
                }
                ViolationRecord {
                    count: r.count,
                    last_violation_ms: r.last_violation_ms,
                    connection_attempts: if r.connection_attempts < 0xFFFF_FFFF {
                        r.connection_attempts + 1
                    } else {
                        0xFFFF_FFFF
                    },
                    last_connection_attempt_ms: now_ms,
                }
            },
        };
        self.put(ip, rec);
        proof {
            lemma_lookup_after_put(self, ip, rec);
        }
    }

    /// The pre-handshake delay for the given attempt count.
    pub fn calculate_connection_delay(&self, attempts: u32) -> (d: u64)
        ensures
            d as nat == spec_connection_delay(self.spec_config(), attempts),
    {
        if attempts <= 1 {
            return 0;
        }
        let base = self.config.connection_delay_base_ms;
        let mult = self.config.connection_delay_multiplier_milli;
        let max = self.config.connection_delay_max_ms;
        let mut k: u32 = 0;
        let mut d: u64 = base;
        while k < attempts - 1
            invariant
                k <= attempts - 1,
                attempts >= 2,
                base == self.spec_config().connection_delay_base_ms,
                mult == self.spec_config().connection_delay_multiplier_milli,
                max == self.spec_config().connection_delay_max_ms,
                d as nat == delay_iter(base as nat, mult as nat, max as nat, k as nat),
                k >= 1 ==> d <= max,
            decreases attempts - k,
    {
            proof {
                assert((d as u128) * (mult as u128)
                    <= 0xFFFFFFFFFFFFFFFFFFFFFFFFFFFFFFFFu128) by (nonlinear_arith)
                    requires
                        (d as u128) <= 0xFFFFFFFFFFFFFFFFu128,
                        (mult as u128) <= 0xFFFFFFFFFFFFFFFFu128,
                ;
            }
            let wide: u128 = (d as u128) * (mult as u128) / 1000;
            proof {
                assert((d as u128) * (mult as u128) / 1000 == (d as nat) * (mult as nat)
                    / 1000) by (nonlinear_arith)
                    requires true;
            }
            let next: u64 = if wide >= max as u128 {
                max
            } else {
                wide as u64
            };
            proof {
                let prev = delay_iter(base as nat, mult as nat, max as nat, k as nat);
                let nn = prev * (mult as nat) / 1000;
                assert(next as nat == (if nn >= max as nat { max as nat } else { nn }));
            }
            d = next;
            k = k + 1;
        }
        if d >= max {
            max
        } else {
            d
        }
    }

    /// The admission hook's decision for a connection from `ip` at
    /// `now_ms`.  Disabled, it proceeds at once.  Otherwise it stamps the
    /// attempt, asks for the exponential delay of the stamped attempt
    /// count, and then either demands a challenge (at or past the
    /// configured violation count) or asks for the stepped delay.
    pub fn check_connection(&mut self, ip: u128, now_ms: u64) -> (d: ConnectionCheck)
        requires
            old(self).wf(),
        ensures
            final(self).wf(),
            final(self).spec_config() == old(self).spec_config(),
            !old(self).spec_config().enabled ==> final(self)@ == old(self)@ && d
                == (ConnectionCheck::Proceed { initial_delay_ms: 0, step_delay_ms: 0 }),
            old(self).spec_config().enabled ==> ({
                let rec = attempt_stamped(old(self).spec_lookup(ip), now_ms);
                let cfg = old(self).spec_config();
                &&& final(self).spec_lookup(ip) == Some(rec)
                &&& (if rec.count >= cfg.challenge_after_violations {
                    d == (ConnectionCheck::Challenge { violation_count: rec.count })
                } else {
                    d == (ConnectionCheck::Proceed {
                        initial_delay_ms: (spec_connection_delay(
                            cfg,
                            rec.connection_attempts,
                        ) as u64),
                        step_delay_ms: spec_step_delay(cfg, rec.count),
                    })
                })
            }),
            forall|ip2: u128|
                ip2 != ip ==> #[trigger] final(self).spec_lookup(ip2) == old(self).spec_lookup(
                    ip2,
                ),
    {
        if !self.config.enabled {
            return ConnectionCheck::Proceed { initial_delay_ms: 0, step_delay_ms: 0 };
        }
        self.record_connection_attempt(ip, now_ms);
        let k = match self.find_index(ip) {
            Some(k) => k,
            None => {
                // The attempt was just stamped, so the record exists.
                proof {
                    assert(ab_has_ip(self@, ip));
                }
                return ConnectionCheck::Proceed { initial_delay_ms: 0, step_delay_ms: 0 };
            },
        };
        let rec = self.violations[k].rec;
        proof {
            lemma_lookup_at(self, ip, k as int);
        }
        let initial = self.calculate_connection_delay(rec.connection_attempts);
        if rec.count >= self.config.challenge_after_violations {
            ConnectionCheck::Challenge { violation_count: rec.count }
        } else {
            let step: u64 = if rec.count == 0 {
                0
            } else if rec.count == 1 {
                self.config.delay_on_first_violation
            } else if rec.count == 2 {
                self.config.delay_on_second_violation
            } else if rec.count == 3 {
                self.config.delay_on_third_violation
            } else {
                self.config.delay_on_fourth_violation
            };
            ConnectionCheck::Proceed { initial_delay_ms: initial, step_delay_ms: step }
        }
    }

    /// The violation count on record for `ip`, zero when none is.
    pub fn get_violation_count(&self, ip: u128) -> (r: u8)
        requires
            self.wf(),
        ensures
            r == (match self.spec_lookup(ip) {
                Some(rec) => rec.count,
                None => 0,
            }),
    {
        match self.find_index(ip) {
            None => 0,
            Some(k) => {
                proof {
                    lemma_lookup_at(self, ip, k as int);
                }
                self.violations[k].rec.count
            },
        }
    }

    /// Forgets the record for `ip`.
    pub fn clear_violations(&mut self, ip: u128)
        requires
            old(self).wf(),
        ensures
            final(self).wf(),
            final(self).spec_config() == old(self).spec_config(),
            final(self).spec_lookup(ip) is None,
            ab_has_ip(old(self)@, ip) ==> exists|k: int|
                0 <= k < old(self)@.len() && (#[trigger] old(self)@[k]).ip == ip
                    && final(self)@ =~= old(self)@.remove(k),
            !ab_has_ip(old(self)@, ip) ==> final(self)@ == old(self)@,
    {
        let ghost olds = self@;
        match self.find_index(ip) {
            None => {},
            Some(k) => {
                self.violations.remove(k);
                proof {
                    assert(self@ =~= olds.remove(k as int));
                    assert forall|i: int, j: int|
                        0 <= i < j < self@.len() implies (#[trigger] self@[i]).ip
                        != (#[trigger] self@[j]).ip by {
                        let i0 = if i < k { i } else { i + 1 };
                        let j0 = if j < k { j } else { j + 1 };
                        assert(self@[i] == olds[i0] && self@[j] == olds[j0]);
                        assert(olds[i0].ip != olds[j0].ip);
                    }
                    assert forall|i: int|
                        0 <= i < self@.len() implies (#[trigger] self@[i]).ip != ip by {
                        let i0 = if i < k { i } else { i + 1 };
                        assert(self@[i] == olds[i0]);
                        if i0 != k {
                            assert(olds[i0].ip != olds[k as int].ip);
                        }
                    }
                }
            },
        }
    }

    /// Drops the records whose last violation is at least `max_age_ms` old.
    pub fn cleanup_old_records(&mut self, max_age_ms: u64, now_ms: u64)
        requires
            old(self).wf(),
        ensures
            final(self).wf(),
            final(self).spec_config() == old(self).spec_config(),
            final(self)@ == old(self)@.filter(
                |e: ViolationEntry|
                    (if now_ms > e.rec.last_violation_ms {
                        (now_ms - e.rec.last_violation_ms) as u64
                    } else {
                        0u64
                    }) < max_age_ms,
            ),
    {
        let ghost olds = self@;
        let ghost gcfg = self.spec_config();
        let ghost pred = |e: ViolationEntry|
            (if now_ms > e.rec.last_violation_ms {
                (now_ms - e.rec.last_violation_ms) as u64
            } else {
                0u64
            }) < max_age_ms;
        let mut kept: Vec<ViolationEntry> = Vec::new();
        proof {
            reveal(Seq::filter);
            assert(kept@ =~= olds.subrange(0, 0).filter(pred));
        }
        let n = self.violations.len();
        let mut i: usize = 0;
        while i < n
            invariant
                i <= n,
                n == olds.len(),
                self@ =~= olds.subrange(i as int, n as int),
                self.spec_config() == gcfg,
                kept@ == olds.subrange(0, i as int).filter(pred),
                pred == (|e: ViolationEntry|
                    (if now_ms > e.rec.last_violation_ms {
                        (now_ms - e.rec.last_violation_ms) as u64
                    } else {
                        0u64
                    }) < max_age_ms),
            decreases n - i,
        {
            let e = self.violations.remove(0);
            proof {
                assert(e == olds[i as int]);
                assert(self@ =~= olds.subrange(i + 1, n as int));
                reveal(Seq::filter);
                assert(olds.subrange(0, i + 1).drop_last() =~= olds.subrange(0, i as int));
                assert(olds.subrange(0, i + 1).last() == olds[i as int]);
            }
            let last = e.rec.last_violation_ms;
            let age: u64 = if now_ms > last {
                now_ms - last
            } else {
                0
            };
            if age < max_age_ms {
                kept.push(e);
            }
            i = i + 1;
        }
        proof {
            assert(olds.subrange(0, n as int) =~= olds);
        }
        self.violations = kept;
        proof {
            lemma_filter_ventries_sub(olds, pred);
            lemma_filter_keeps_distinct_ips(olds, pred);
        }
    }
}

/// The record after stamping one connection attempt at `now_ms`.
pub open spec fn attempt_stamped(prev: Option<ViolationRecord>, now_ms: u64) -> ViolationRecord {
    match prev {
        None => ViolationRecord {
            count: 0,
            last_violation_ms: now_ms,
            connection_attempts: 1,
            last_connection_attempt_ms: now_ms,
        },
        Some(r) => ViolationRecord {
            count: r.count,
            last_violation_ms: r.last_violation_ms,
            connection_attempts: if r.connection_attempts < 0xFFFF_FFFF {
                (r.connection_attempts + 1) as u32
            } else {
                0xFFFF_FFFFu32
            },
            last_connection_attempt_ms: now_ms,
        },
    }
}

/// An entry found at `k` is the one `spec_lookup` answers with.
proof fn lemma_lookup_at(ab: &AutoBahn, ip: u128, k: int)
    requires
        ab.wf(),
        0 <= k < ab@.len(),
        ab@[k].ip == ip,
    ensures
        ab.spec_lookup(ip) == Some(ab@[k].rec),
{
    assert(ab_has_ip(ab@, ip));
    let k2 = choose|k2: int| 0 <= k2 < ab@.len() && (#[trigger] ab@[k2]).ip == ip;
    if k2 != k {
        assert(ab@[k].ip != ab@[k2].ip);
    }
}

/// After `put(ip, rec)`, the lookup answers the stored record.
proof fn lemma_lookup_after_put(ab: &AutoBahn, ip: u128, rec: ViolationRecord)
    requires
        ab.wf(),
        exists|k: int| 0 <= k < ab@.len() && #[trigger] ab@[k] == (ViolationEntry { ip, rec }),
    ensures
        ab.spec_lookup(ip) == Some(rec),
{
    let k = choose|k: int| 0 <= k < ab@.len() && #[trigger] ab@[k] == (ViolationEntry { ip, rec });
    lemma_lookup_at(ab, ip, k);
}

/// Every element of a filtered sequence stands in the unfiltered one.
proof fn lemma_filter_ventries_sub(s: Seq<ViolationEntry>, pred: spec_fn(ViolationEntry) -> bool)
    ensures
        forall|i: int|
            0 <= i < s.filter(pred).len() ==> s.contains(#[trigger] s.filter(pred)[i]),
    decreases s.len(),
{
    reveal(Seq::filter);
    if s.len() > 0 {
        let s0 = s.drop_last();
        lemma_filter_ventries_sub(s0, pred);
        let f = s.filter(pred);
        let f0 = s0.filter(pred);
        assert forall|i: int| 0 <= i < f.len() implies s.contains(#[trigger] f[i]) by {
            if i < f0.len() {
                assert(f[i] == f0[i]);
                assert(s0.contains(f0[i]));
                let j = choose|j: int| 0 <= j < s0.len() && s0[j] == f0[i];
                assert(s[j] == f[i]);
            } else {
                assert(f[i] == s.last());
                assert(s[s.len() - 1] == s.last());
            }
        }
    }
}

/// Filtering keeps the addresses pairwise distinct.
proof fn lemma_filter_keeps_distinct_ips(
    s: Seq<ViolationEntry>,
    pred: spec_fn(ViolationEntry) -> bool,
)
    requires
        forall|i: int, j: int|
            0 <= i < j < s.len() ==> (#[trigger] s[i]).ip != (#[trigger] s[j]).ip,
    ensures
        forall|i: int, j: int|
            0 <= i < j < s.filter(pred).len() ==> (#[trigger] s.filter(pred)[i]).ip
                != (#[trigger] s.filter(pred)[j]).ip,
    decreases s.len(),
{
    reveal(Seq::filter);
    if s.len() > 0 {
        let s0 = s.drop_last();
        assert forall|i: int, j: int| 0 <= i < j < s0.len() implies (#[trigger] s0[i]).ip
            != (#[trigger] s0[j]).ip by {
            assert(s[i].ip != s[j].ip);
        }
        lemma_filter_keeps_distinct_ips(s0, pred);
        lemma_filter_ventries_sub(s0, pred);
        let f = s.filter(pred);
        let f0 = s0.filter(pred);
        assert forall|i: int, j: int| 0 <= i < j < f.len() implies (#[trigger] f[i]).ip
            != (#[trigger] f[j]).ip by {
            if j < f0.len() {
                assert(f[i] == f0[i] && f[j] == f0[j]);
                assert(f0[i].ip != f0[j].ip);
            } else if pred(s.last()) && j == f.len() - 1 && f.len() == f0.len() + 1 {
                assert(f[i] == f0[i]);
                assert(s0.contains(f0[i]));
                let k = choose|k: int| 0 <= k < s0.len() && s0[k] == f0[i];
                assert(s[k] == f0[i]);
                assert(s[k].ip != s[s.len() - 1].ip);
                assert(f[j] == s.last());
            }
        }
    }
}

} // verus!
