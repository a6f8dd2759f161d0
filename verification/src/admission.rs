//! The admission pipeline: ban list, country filter, threat lists, then
//! the progressive throttler, in that fixed order.  The first refusal
//! wins; the caller writes the reason to the socket and closes.

use vstd::prelude::*;
use crate::autobahn::AutoBahn;
use crate::ban::BanEntry;
use crate::autobahn::ConnectionCheck;
use crate::ban::BanManager;
use crate::geoip::GeoIpFilter;
use crate::threats::ThreatListManager;
use crate::threats::ThreatVerdict;

verus! {

/// What admission decided.  On `Proceed` the caller waits the two delays
/// and starts the handshake; on `Challenge` it puts the challenge and
/// refuses; on `Reject` it writes the reason and closes.
pub enum AdmissionDecision {
    Proceed { initial_delay_ms: u64, step_delay_ms: u64 },
    Challenge { violation_count: u8 },
    Reject { reason: String },
}

/// The rejection line for a standing ban: the reason, and for a temporary
/// ban the instant it lapses.
pub open spec fn ban_reject_line(e: BanEntry) -> Seq<char> {
    "Connection rejected: banned: "@ + e.reason@ + (match e.expires_at_ms {
        None => Seq::<char>::empty(),
        Some(x) => "; the ban lapses at "@ + crate::text::dec_digits(x as nat) + " ms"@,
    })
}

/// Runs the four admission checks in order for a connection from `ip`.
/// The ban list refuses first, then the country filter (over the
/// caller-supplied lookup result), then the threat lists; only then does
/// the throttler stamp the attempt and decide.  The throttler's record is
/// untouched when an earlier stage refuses, and other addresses' records
/// are never touched.
pub fn admission_check(
    bans: &BanManager,
    geo: &GeoIpFilter,
    country_code: Option<&str>,
    threats: &ThreatListManager,
    autobahn: &mut AutoBahn,
    ip: u128,
    now_ms: u64,
) -> (d: AdmissionDecision)
    requires
        bans.wf(),
        threats.wf(),
        old(autobahn).wf(),
    ensures
        final(autobahn).wf(),
        forall|ip2: u128|
            ip2 != ip ==> #[trigger] final(autobahn).spec_lookup(ip2) == old(autobahn).spec_lookup(
                ip2,
            ),
        bans.spec_is_banned(ip, now_ms) ==> (d matches AdmissionDecision::Reject { reason }
            && exists|k: int|
            0 <= k < bans@.len() && (#[trigger] bans@[k]).ip == ip && bans@[k].spec_active(now_ms)
                && reason@ == ban_reject_line(bans@[k])) && final(autobahn)@ == old(autobahn)@,
        !bans.spec_is_banned(ip, now_ms) && !geo_passes(geo, country_code) ==> (
        d matches AdmissionDecision::Reject { reason } && (country_code matches Some(code)
            ==> reason@ == "Connection rejected: "@ + geo.spec_config().rejection_message@))
            && final(autobahn)@ == old(autobahn)@,
        !bans.spec_is_banned(ip, now_ms) && geo_passes(geo, country_code) && threat_blocks(
            threats,
            ip,
        ) ==> (d matches AdmissionDecision::Reject { reason } && reason@
            == "Connection rejected: the address is on a threat list"@) && final(autobahn)@ == old(
            autobahn,
        )@,
        !bans.spec_is_banned(ip, now_ms) && geo_passes(geo, country_code) && !threat_blocks(
            threats,
            ip,
        ) ==> !(d is Reject) && ({
            let cfg = old(autobahn).spec_config();
            if !cfg.enabled {
                d == (AdmissionDecision::Proceed { initial_delay_ms: 0, step_delay_ms: 0 })
                    && final(autobahn)@ == old(autobahn)@
            } else {
                let rec = crate::autobahn::attempt_stamped(
                    old(autobahn).spec_lookup(ip),
                    now_ms,
                );
                &&& final(autobahn).spec_lookup(ip) == Some(rec)
                &&& (if rec.count >= cfg.challenge_after_violations {
                    d == (AdmissionDecision::Challenge { violation_count: rec.count })
                } else {
                    d == (AdmissionDecision::Proceed {
                        initial_delay_ms: (crate::autobahn::spec_connection_delay(
                            cfg,
                            rec.connection_attempts,
                        ) as u64),
                        step_delay_ms: crate::autobahn::spec_step_delay(cfg, rec.count),
                    })
                })
            }
        }),
{
    if let Some(entry) = bans.check_ban(ip, now_ms) {
        let mut reason = String::from_str("Connection rejected: banned: ");
        reason.append(entry.reason.as_str());
        match entry.expires_at_ms {
            None => {},
            Some(x) => {
                reason.append("; the ban lapses at ");
                crate::text::push_dec(&mut reason, x);
                reason.append(" ms");
            },
        }
        proof {
            assert(reason@ =~= ban_reject_line(entry));
        }
        return AdmissionDecision::Reject { reason };
    }
    if let Err(m) = geo.check_ip(country_code) {
        let mut reason = String::from_str("Connection rejected: ");
        reason.append(m.as_str());
        return AdmissionDecision::Reject { reason };
    }
    match threats.check_ip(ip) {
        ThreatVerdict::Matched { block } if block => {
            return AdmissionDecision::Reject {
                reason: String::from_str("Connection rejected: the address is on a threat list"),
            };
        },
        _ => {},
    }
    match autobahn.check_connection(ip, now_ms) {
        ConnectionCheck::Proceed { initial_delay_ms, step_delay_ms } => {
            AdmissionDecision::Proceed { initial_delay_ms, step_delay_ms }
        },
        ConnectionCheck::Challenge { violation_count } => {
            AdmissionDecision::Challenge { violation_count }
        },
    }
}

/// The country filter passes the looked-up code.
pub open spec fn geo_passes(geo: &GeoIpFilter, country_code: Option<&str>) -> bool {
    !geo.spec_config().enabled || (country_code matches Some(code)
        && (match geo.spec_config().mode {
        crate::config::GeoIpMode::Blacklist => !crate::geoip::code_listed(
            geo.spec_config().blocked_countries@,
            code@,
        ),
        crate::config::GeoIpMode::Whitelist => crate::geoip::code_listed(
            geo.spec_config().allowed_countries@,
            code@,
        ),
    }))
}

/// The threat lists ask for a refusal: the address is listed and the
/// configured action blocks.
pub open spec fn threat_blocks(threats: &ThreatListManager, ip: u128) -> bool {
    threats.spec_config().enabled && (threats.spec_ips().contains(ip) || exists|i: int|
        0 <= i < threats.spec_cidrs().len() && (#[trigger] threats.spec_cidrs()[i]).spec_contains(
            ip,
        )) && threats.spec_config().action == crate::config::ThreatAction::Block
}

} // verus!
