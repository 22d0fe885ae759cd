//! The few machine-dependent inputs the library needs: the wall clock,
//! the primary local IPv4 address and the interface MAC addresses.
//! Nothing can be promised of their values, so callers state what holds
//! of every outcome.

use vstd::prelude::*;

verus! {

/// Relies on `std::time::SystemTime::now`: milliseconds since the Unix
/// epoch.  The value depends on the wall clock, so nothing is promised
/// of it.
#[verifier::external_body]
pub fn now_millis() -> u128 {
    std::time::SystemTime::now().duration_since(std::time::UNIX_EPOCH).map(|d| d.as_millis())
        .unwrap_or(0)
}

/// Relies on `local_ip_address::local_ip`: the primary local IP in its
/// dotted form, or nothing when the lookup fails.  The value depends on
/// the machine, so nothing is promised of it.
#[verifier::external_body]
pub fn local_ip_string() -> Option<String> {
    local_ip_address::local_ip().ok().map(|ip| ip.to_string())
}

/// Relies on `mac_address::MacAddressIterator`: the textual form of each
/// interface MAC address, empty when the lookup fails.  The values
/// depend on the machine, so nothing is promised of them.
#[verifier::external_body]
pub fn mac_address_strings() -> Vec<String> {
    match mac_address::MacAddressIterator::new() {
        Ok(iter) => iter.map(|mac| mac.to_string()).collect(),
        Err(_) => Vec::new(),
    }
}

} // verus!
