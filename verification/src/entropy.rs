//! The library's only sources of randomness, behind trusted wrappers.

use vstd::prelude::*;
use crate::types::Color;

verus! {

/// Relies on `rand::random_range`: a value drawn uniformly from `0..n`;
/// the range is non-empty, so the call cannot panic.
#[verifier::external_body]
pub(crate) fn random_below(n: u32) -> (r: u32)
    requires
        n > 0,
    ensures
        r < n,
{
    rand::random_range(0..n)
}

/// Relies on `uuid::Uuid::new_v4`: a freshly drawn random 128-bit
/// identifier.  Nothing is promised of its value.
#[verifier::external_body]
pub(crate) fn fresh_client_id() -> (r: u128) {
    uuid::Uuid::new_v4().as_u128()
}

impl Color {
    /// A palette color drawn at random.
    pub fn random() -> (c: Color) {
        let i = random_below(6);
        Color::from_index(i)
    }
}

} // verus!
