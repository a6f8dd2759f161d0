//! The country filter.  The database lookup itself happens outside; this
//! module owns the decision over the looked-up ISO code.

use vstd::prelude::*;
use crate::config::GeoIpConfig;
use crate::config::GeoIpMode;
use crate::text::str_eq;

verus! {

/// Membership of a code in a country list, by text.
pub open spec fn code_listed(list: Seq<String>, code: Seq<char>) -> bool {
    exists|i: int| 0 <= i < list.len() && (#[trigger] list[i])@ == code
}

/// The country allow/deny filter.
pub struct GeoIpFilter {
    config: GeoIpConfig,
}

impl GeoIpFilter {
    pub closed spec fn spec_config(&self) -> GeoIpConfig {
        self.config
    }

    pub fn new(config: GeoIpConfig) -> (r: GeoIpFilter)
        ensures
            r.spec_config() == config,
    {
        GeoIpFilter { config }
    }

    pub fn is_enabled(&self) -> (r: bool)
        ensures
            r == self.spec_config().enabled,
    {
        self.config.enabled
    }

    /// Whether the filter admits a connection whose address resolved to
    /// `country_code` (`None` when the database had no code).  Disabled,
    /// everything passes.  Enabled, a missing code is refused; a blacklist
    /// refuses exactly the blocked countries, a whitelist everything but
    /// the allowed ones.  The refusal carries the configured message, or
    /// names the missing code.
    pub fn check_ip(&self, country_code: Option<&str>) -> (r: Result<(), String>)
        ensures
            (r is Ok) == (!self.spec_config().enabled || (country_code matches Some(code)
                && (match self.spec_config().mode {
                GeoIpMode::Blacklist => !code_listed(
                    self.spec_config().blocked_countries@,
                    code@,
                ),
                GeoIpMode::Whitelist => code_listed(self.spec_config().allowed_countries@, code@),
            }))),
            self.spec_config().enabled && (country_code matches Some(code) && (
            match self.spec_config().mode {
                GeoIpMode::Blacklist => code_listed(self.spec_config().blocked_countries@, code@),
                GeoIpMode::Whitelist => !code_listed(self.spec_config().allowed_countries@, code@),
            })) ==> (r matches Err(m) && m@ == self.spec_config().rejection_message@),
    {
        if !self.config.enabled {
            return Ok(());
        }
        let code = match country_code {
            None => {
                return Err(String::from_str("country code not found"));
            },
            Some(c) => c,
        };
        let listed = match self.config.mode {
            GeoIpMode::Blacklist => list_contains(&self.config.blocked_countries, code),
            GeoIpMode::Whitelist => list_contains(&self.config.allowed_countries, code),
        };
        let reject = match self.config.mode {
            GeoIpMode::Blacklist => listed,
            GeoIpMode::Whitelist => !listed,
        };
        if reject {
            Err(self.config.rejection_message.clone())
        } else {
            Ok(())
        }
    }
}

/// Linear scan for a code in a country list.
fn list_contains(list: &Vec<String>, code: &str) -> (r: bool)
    ensures
        r == code_listed(list@, code@),
{
    let mut i: usize = 0;
    while i < list.len()
        invariant
            i <= list@.len(),
            forall|j: int| 0 <= j < i ==> (#[trigger] list@[j])@ != code@,
        decreases list@.len() - i,
    {
        if str_eq(list[i].as_str(), code) {
            return true;
        }
        i = i + 1;
    }
    false
}

} // verus!
