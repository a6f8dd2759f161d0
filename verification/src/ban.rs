//! The expiring IP block list.
//!
//! Entries are kept in a vector with pairwise distinct IP codes; a second
//! ban for an address overwrites the first.  An entry is active while it has
//! no expiry or its expiry lies in the future; expired entries answer no
//! query and are swept by [`BanManager::cleanup_expired`].  All instants are
//! milliseconds.

use vstd::prelude::*;
use crate::types::sat_u64;

verus! {

/// One ban: the address, the operator's reason, when it was imposed and
/// when it lapses (`None` for never).
pub struct BanEntry {
    pub ip: u128,
    pub reason: String,
    pub banned_at_ms: u64,
    pub expires_at_ms: Option<u64>,
}

impl BanEntry {
    /// Active: permanent, or not yet expired.
    pub open spec fn spec_active(&self, now_ms: u64) -> bool {
        match self.expires_at_ms {
            None => true,
            Some(e) => now_ms < e,
        }
    }

    pub fn is_active(&self, now_ms: u64) -> (r: bool)
        ensures
            r == self.spec_active(now_ms),
    {
        match self.expires_at_ms {
            None => true,
            Some(e) => now_ms < e,
        }
    }

    pub fn is_expired(&self, now_ms: u64) -> (r: bool)
        ensures
            r == !self.spec_active(now_ms),
    {
        !self.is_active(now_ms)
    }

    /// A field-for-field copy.
    pub fn duplicate(&self) -> (r: BanEntry)
        ensures
            r == *self,
    {
        BanEntry {
            ip: self.ip,
            reason: self.reason.clone(),
            banned_at_ms: self.banned_at_ms,
            expires_at_ms: self.expires_at_ms,
        }
    }
}

/// The block list.
pub struct BanManager {
    entries: Vec<BanEntry>,
}

impl View for BanManager {
    type V = Seq<BanEntry>;

    closed spec fn view(&self) -> Seq<BanEntry> {
        self.entries@
    }
}

/// Entries of a ban list carry pairwise distinct addresses.
pub open spec fn distinct_ips(s: Seq<BanEntry>) -> bool {
    forall|i: int, j: int| 0 <= i < j < s.len() ==> (#[trigger] s[i]).ip != (#[trigger] s[j]).ip
}

impl BanManager {
    /// Every address is keyed at most once.
    pub open spec fn wf(&self) -> bool {
        distinct_ips(self@)
    }

    /// Some entry for `ip` exists, active or not.
    pub open spec fn spec_has(&self, ip: u128) -> bool {
        exists|i: int| 0 <= i < self@.len() && (#[trigger] self@[i]).ip == ip
    }

    /// An active entry for `ip` exists: one whose expiry is absent or still
    /// in the future.
    pub open spec fn spec_is_banned(&self, ip: u128, now_ms: u64) -> bool {
        exists|i: int|
            0 <= i < self@.len() && (#[trigger] self@[i]).ip == ip && self@[i].spec_active(now_ms)
    }

    /// An empty list.
    pub fn new_empty() -> (r: BanManager)
        ensures
            r.wf(),
            r@.len() == 0,
    {
        BanManager { entries: Vec::new() }
    }

    /// The position of the entry for `ip`, if one exists.
    fn find_index(&self, ip: u128) -> (r: Option<usize>)
        ensures
            match r {
                Some(k) => k < self@.len() && self@[k as int].ip == ip,
                None => !self.spec_has(ip),
            },
    {
        let mut i: usize = 0;
        while i < self.entries.len()
            invariant
                i <= self@.len(),
                forall|j: int| 0 <= j < i ==> (#[trigger] self@[j]).ip != ip,
            decreases self@.len() - i,
        {
            if self.entries[i].ip == ip {
                return Some(i);
            }
            i = i + 1;
        }
        None
    }

    /// Inserts or overwrites the entry for `ip`.
    fn put(&mut self, e: BanEntry)
        requires
            old(self).wf(),
        ensures
            final(self).wf(),
            final(self).spec_has(e.ip),
            exists|k: int| 0 <= k < final(self)@.len() && #[trigger] final(self)@[k] == e,
            (exists|k: int|
                0 <= k < old(self)@.len() && (#[trigger] old(self)@[k]).ip == e.ip && final(self)@ =~= old(self)@.update(k, e)) || (!old(self).spec_has(e.ip)
                && final(self)@ =~= old(self)@.push(e)),
    {
        let ghost olds = self@;
        let ghost ge = e;
        match self.find_index(e.ip) {
            Some(k) => {
                let ghost ip = e.ip;
                self.entries.remove(k);
                self.entries.insert(k, e);
                proof {
                    assert(self@ =~= olds.update(k as int, ge));
                    assert(self@[k as int] == ge);
                    assert(self@[k as int].ip == ge.ip);
                    assert forall|i: int, j: int| 0 <= i < j < self@.len() implies (#[trigger] self@[i]).ip
                        != (#[trigger] self@[j]).ip by {
                        assert(olds[i].ip != olds[j].ip);
                    }
                }
            },
            None => {
                let ghost ip = e.ip;
                self.entries.push(e);
                proof {
                    assert(self@ =~= olds.push(ge));
                    assert(self@[olds.len() as int] == ge);
                    assert(self@[olds.len() as int].ip == ge.ip);
                    assert forall|i: int, j: int| 0 <= i < j < self@.len() implies (#[trigger] self@[i]).ip
                        != (#[trigger] self@[j]).ip by {
                        if j < olds.len() {
                            assert(olds[i].ip != olds[j].ip);
                        } else {
                            assert(self@[j] == e);
                            assert(olds[i].ip != ip);
                        }
                    }
                }
            },
        }
    }

    /// Imposes a permanent ban, overwriting any entry for the address.
    pub fn ban_permanent(&mut self, ip: u128, reason: String, now_ms: u64)
        requires
            old(self).wf(),
        ensures
            final(self).wf(),
            ({
                let e = BanEntry { ip, reason, banned_at_ms: now_ms, expires_at_ms: None };
                (exists|k: int|
                    0 <= k < old(self)@.len() && (#[trigger] old(self)@[k]).ip == ip
                    && final(self)@ =~= old(self)@.update(k, e)) || (!old(self).spec_has(ip)
                    && final(self)@ =~= old(self)@.push(e))
            }),
            final(self).spec_is_banned(ip, now_ms),
            forall|t: u64| final(self).spec_is_banned(ip, t),
    {
        let ghost ge = BanEntry { ip, reason, banned_at_ms: now_ms, expires_at_ms: None };
        let e = BanEntry { ip, reason, banned_at_ms: now_ms, expires_at_ms: None };
        self.put(e);
        proof {
            let s = self@;
            let k = choose|k: int| 0 <= k < s.len() && #[trigger] s[k] == ge;
            assert forall|t: u64| final(self).spec_is_banned(ip, t) by {
                assert(s[k].ip == ip);
                assert(s[k].spec_active(t));
            }
        }
    }

    /// Imposes a ban that lapses `duration_ms` milliseconds from `now_ms`
    /// (saturating), overwriting any entry for the address.
    pub fn ban_temporary(&mut self, ip: u128, duration_ms: u64, reason: String, now_ms: u64)
        requires
            old(self).wf(),
        ensures
            final(self).wf(),
            ({
                let e = BanEntry {
                    ip,
                    reason,
                    banned_at_ms: now_ms,
                    expires_at_ms: Some(sat_u64(now_ms + duration_ms)),
                };
                (exists|k: int|
                    0 <= k < old(self)@.len() && (#[trigger] old(self)@[k]).ip == ip
                    && final(self)@ =~= old(self)@.update(k, e)) || (!old(self).spec_has(ip)
                    && final(self)@ =~= old(self)@.push(e))
            }),
            duration_ms > 0 && now_ms < u64::MAX ==> final(self).spec_is_banned(ip, now_ms),
    {
        let expires: u64 = if duration_ms > u64::MAX - now_ms {
            u64::MAX
        } else {
            now_ms + duration_ms
        };
        let ghost ge = BanEntry {
            ip,
            reason,
            banned_at_ms: now_ms,
            expires_at_ms: Some(sat_u64(now_ms + duration_ms)),
        };
        let e = BanEntry { ip, reason, banned_at_ms: now_ms, expires_at_ms: Some(expires) };
        self.put(e);
        proof {
            if duration_ms > 0 && now_ms < u64::MAX {
                let s = self@;
                let k = choose|k: int| 0 <= k < s.len() && #[trigger] s[k] == ge;
                assert(s[k].ip == ip);
                assert(s[k].spec_active(now_ms));
            }
        }
    }

    /// Removes the entry for `ip`, active or not; reports whether one stood.
    pub fn unban(&mut self, ip: u128) -> (removed: bool)
        requires
            old(self).wf(),
        ensures
            final(self).wf(),
            removed == old(self).spec_has(ip),
            !final(self).spec_has(ip),
            removed ==> exists|k: int|
                0 <= k < old(self)@.len() && (#[trigger] old(self)@[k]).ip == ip && final(self)@
                    =~= old(self)@.remove(k),
            !removed ==> final(self)@ == old(self)@,
    {
        let ghost olds = self@;
        match self.find_index(ip) {
            None => false,
            Some(k) => {
                self.entries.remove(k);
                proof {
                    assert(self@ =~= olds.remove(k as int));
                    assert forall|i: int, j: int| 0 <= i < j < self@.len() implies (#[trigger] self@[i]).ip
                        != (#[trigger] self@[j]).ip by {
                        let i0 = if i < k { i } else { i + 1 };
                        let j0 = if j < k { j } else { j + 1 };
                        assert(self@[i] == olds[i0] && self@[j] == olds[j0]);
                        assert(olds[i0].ip != olds[j0].ip);
                    }
                    assert forall|i: int| 0 <= i < self@.len() implies (#[trigger] self@[i]).ip
                        != ip by {
                        let i0 = if i < k { i } else { i + 1 };
                        assert(self@[i] == olds[i0]);
                        if i0 != k {
                            assert(olds[i0].ip != olds[k as int].ip);
                        }
                    }
                }
                true
            },
        }
    }

    /// Whether an active ban stands for `ip` at `now_ms`; expired entries
    /// answer false.
    pub fn is_banned(&self, ip: u128, now_ms: u64) -> (r: bool)
        requires
            self.wf(),
        ensures
            r == self.spec_is_banned(ip, now_ms),
    {
        match self.find_index(ip) {
            None => {
                proof {
                    assert forall|i: int|
                        0 <= i < self@.len() implies !((#[trigger] self@[i]).ip == ip
                        && self@[i].spec_active(now_ms)) by {
                        assert(!self.spec_has(ip));
                    }
                }
                false
            },
            Some(k) => {
                let r = self.entries[k].is_active(now_ms);
                proof {
                    if !r {
                        assert forall|i: int|
                            0 <= i < self@.len() implies !((#[trigger] self@[i]).ip == ip
                            && self@[i].spec_active(now_ms)) by {
                            if i != k {
                                assert(self@[i].ip != self@[k as int].ip);
                            }
                        }
                    }
                }
                r
            },
        }
    }

    /// The active entry for `ip` at `now_ms`, if one stands.
    pub fn check_ban(&self, ip: u128, now_ms: u64) -> (r: Option<BanEntry>)
        requires
            self.wf(),
        ensures
            (r is Some) == self.spec_is_banned(ip, now_ms),
            match r {
                Some(e) => {
                    &&& e.ip == ip
                    &&& e.spec_active(now_ms)
                    &&& exists|k: int| 0 <= k < self@.len() && #[trigger] self@[k] == e
                },
                None => true,
            },
    {
        match self.find_index(ip) {
            None => {
                proof {
                    assert forall|i: int|
                        0 <= i < self@.len() implies !((#[trigger] self@[i]).ip == ip
                        && self@[i].spec_active(now_ms)) by {
                        assert(!self.spec_has(ip));
                    }
                }
                None
            },
            Some(k) => {
                if self.entries[k].is_active(now_ms) {
                    let e = self.entries[k].duplicate();
                    proof {
                        assert(self@[k as int] == e);
                    }
                    Some(e)
                } else {
                    proof {
                        assert forall|i: int|
                            0 <= i < self@.len() implies !((#[trigger] self@[i]).ip == ip
                            && self@[i].spec_active(now_ms)) by {
                            if i != k {
                                assert(self@[i].ip != self@[k as int].ip);
                            }
                        }
                    }
                    None
                }
            },
        }
    }

    /// Sweeps every expired entry and no other: what remains is exactly the
    /// active part of the list, in order.
    pub fn cleanup_expired(&mut self, now_ms: u64)
        requires
            old(self).wf(),
        ensures
            final(self).wf(),
            final(self)@ == old(self)@.filter(|e: BanEntry| e.spec_active(now_ms)),
    {
        let ghost olds = self@;
        let ghost pred = |e: BanEntry| e.spec_active(now_ms);
        let mut kept: Vec<BanEntry> = Vec::new();
        let mut i: usize = 0;
        proof {
            reveal(Seq::filter);
            assert(olds.subrange(0, 0) =~= Seq::<BanEntry>::empty());
            assert(kept@ =~= olds.subrange(0, 0).filter(pred));
        }
        while i < self.entries.len()
            invariant
                i <= self@.len(),
                self@ == olds,
                kept@ == olds.subrange(0, i as int).filter(pred),
                pred == (|e: BanEntry| e.spec_active(now_ms)),
            decreases self@.len() - i,
        {
            let active = self.entries[i].is_active(now_ms);
            proof {
                reveal(Seq::filter);
                assert(olds.subrange(0, i + 1).drop_last() =~= olds.subrange(0, i as int));
                assert(olds.subrange(0, i + 1).last() == olds[i as int]);
            }
            if active {
                let e = self.entries[i].duplicate();
                proof {
                    assert(e == olds[i as int]);
                }
                kept.push(e);
            }
            i = i + 1;
        }
        proof {
            assert(olds.subrange(0, olds.len() as int) =~= olds);
        }
        self.entries = kept;
        proof {
            lemma_filter_sub(olds, pred);
            lemma_filter_keeps_distinct(olds, pred);
        }
    }

    /// Copies of the active entries, in order.
    pub fn get_all_bans(&self, now_ms: u64) -> (r: Vec<BanEntry>)
        requires
            self.wf(),
        ensures
            r@ == self@.filter(|e: BanEntry| e.spec_active(now_ms)),
    {
        let ghost olds = self@;
        let ghost pred = |e: BanEntry| e.spec_active(now_ms);
        let mut kept: Vec<BanEntry> = Vec::new();
        let mut i: usize = 0;
        proof {
            reveal(Seq::filter);
            assert(kept@ =~= olds.subrange(0, 0).filter(pred));
        }
        while i < self.entries.len()
            invariant
                i <= self@.len(),
                self@ == olds,
                kept@ == olds.subrange(0, i as int).filter(pred),
                pred == (|e: BanEntry| e.spec_active(now_ms)),
            decreases self@.len() - i,
        {
            let active = self.entries[i].is_active(now_ms);
            proof {
                reveal(Seq::filter);
                assert(olds.subrange(0, i + 1).drop_last() =~= olds.subrange(0, i as int));
                assert(olds.subrange(0, i + 1).last() == olds[i as int]);
            }
            if active {
                let e = self.entries[i].duplicate();
                proof {
                    assert(e == olds[i as int]);
                }
                kept.push(e);
            }
            i = i + 1;
        }
        proof {
            assert(olds.subrange(0, olds.len() as int) =~= olds);
        }
        kept
    }

    /// How many entries are active at `now_ms`.
    pub fn ban_count(&self, now_ms: u64) -> (r: usize)
        requires
            self.wf(),
        ensures
            r == self@.filter(|e: BanEntry| e.spec_active(now_ms)).len(),
    {
        let all = self.get_all_bans(now_ms);
        all.len()
    }

    /// Copies of all entries, active or not, in order.
    pub fn get_all_entries(&self) -> (r: Vec<BanEntry>)
        ensures
            r@ =~= self@,
    {
        let mut out: Vec<BanEntry> = Vec::new();
        let mut i: usize = 0;
        while i < self.entries.len()
            invariant
                i <= self@.len(),
                out@ =~= self@.subrange(0, i as int),
            decreases self@.len() - i,
        {
            let e = self.entries[i].duplicate();
            out.push(e);
            proof {
                assert(out@ =~= self@.subrange(0, i + 1));
            }
            i = i + 1;
        }
        proof {
            assert(self@.subrange(0, self@.len() as int) =~= self@);
        }
        out
    }

    /// Inserts or overwrites one loaded entry, keyed by its address: the
    /// matching entry is replaced, or the list grows by one, and nothing
    /// else moves.
    pub fn put_loaded(&mut self, e: BanEntry)
        requires
            old(self).wf(),
        ensures
            final(self).wf(),
            final(self).spec_has(e.ip),
            exists|k: int| 0 <= k < final(self)@.len() && #[trigger] final(self)@[k] == e,
            (exists|k: int|
                0 <= k < old(self)@.len() && (#[trigger] old(self)@[k]).ip == e.ip
                    && final(self)@ =~= old(self)@.update(k, e)) || (!old(self).spec_has(e.ip)
                && final(self)@ =~= old(self)@.push(e)),
    {
        self.put(e);
    }

    /// How many entries stand, active or not.
    pub fn entry_count(&self) -> (r: usize)
        ensures
            r == self@.len(),
    {
        self.entries.len()
    }
}

/// Every element of a filtered sequence stands in the unfiltered one.
proof fn lemma_filter_sub<A>(s: Seq<A>, pred: spec_fn(A) -> bool)
    ensures
        forall|i: int|
            0 <= i < s.filter(pred).len() ==> s.contains(#[trigger] s.filter(pred)[i]),
    decreases s.len(),
{
    reveal(Seq::filter);
    if s.len() > 0 {
        let s0 = s.drop_last();
        lemma_filter_sub(s0, pred);
        let f = s.filter(pred);
        let f0 = s0.filter(pred);
        assert forall|i: int| 0 <= i < f.len() implies s.contains(#[trigger] f[i]) by {
            if i < f0.len() {
                assert(f[i] == f0[i]);
                assert(s0.contains(f0[i]));
                let j = choose|j: int| 0 <= j < s0.len() && s0[j] == f0[i];
                assert(s[j] == f[i]);
            } else {
                assert(f[i] == s.last());
                assert(s[s.len() - 1] == s.last());
            }
        }
    }
}

/// Filtering keeps the addresses pairwise distinct.
proof fn lemma_filter_keeps_distinct(s: Seq<BanEntry>, pred: spec_fn(BanEntry) -> bool)
    requires
        distinct_ips(s),
    ensures
        distinct_ips(s.filter(pred)),
    decreases s.len(),
{
    reveal(Seq::filter);
    if s.len() > 0 {
        let s0 = s.drop_last();
        assert(distinct_ips(s0)) by {
            assert forall|i: int, j: int| 0 <= i < j < s0.len() implies (#[trigger] s0[i]).ip
                != (#[trigger] s0[j]).ip by {
                assert(s[i].ip != s[j].ip);
            }
        }
        lemma_filter_keeps_distinct(s0, pred);
        lemma_filter_sub(s0, pred);
        let f = s.filter(pred);
        let f0 = s0.filter(pred);
        assert forall|i: int, j: int| 0 <= i < j < f.len() implies (#[trigger] f[i]).ip
            != (#[trigger] f[j]).ip by {
            if j < f0.len() {
                assert(f[i] == f0[i] && f[j] == f0[j]);
                assert(f0[i].ip != f0[j].ip);
            } else if pred(s.last()) && j == f.len() - 1 && f.len() == f0.len() + 1 {
                assert(f[i] == f0[i]);
                assert(s0.contains(f0[i]));
                let k = choose|k: int| 0 <= k < s0.len() && s0[k] == f0[i];
                assert(s[k] == f0[i]);
                assert(s[k].ip != s[s.len() - 1].ip);
                assert(f[j] == s.last());
            }
        }
    }
}

} // verus!
