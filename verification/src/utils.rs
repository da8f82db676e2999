//! The library's external collaborators: the process clock, the random
//! source, the host's network hardware, and the one `String` constructor
//! the codec needs. Everything here is a thin trusted boundary; all logic
//! that reads these values is verified elsewhere.

use std::time::SystemTime;
use std::time::UNIX_EPOCH;
use vstd::prelude::*;

verus! {

/// Relies on `std::time::SystemTime::now`: the current moment, reported as
/// milliseconds since the Unix epoch. Nothing is assumed of the value; a
/// clock before 1970 is reported as 0.
#[verifier::external_body]
pub fn now_timestamp() -> u64 {
    match SystemTime::now().duration_since(UNIX_EPOCH) {
        Ok(d) => d.as_millis() as u64,
        Err(_) => 0,
    }
}

/// Relies on `std::time::SystemTime::now` through [`now_timestamp`]:
/// blocks the caller until the clock reads a millisecond strictly after
/// `ms`, and hands that reading back. The wait cannot be bounded from
/// inside, so the loop stands here, outside the verified code; it never
/// returns early.
#[verifier::external_body]
pub(crate) fn wait_until_after(ms: u64) -> (r: u64)
    ensures
        r > ms,
{
    loop {
        let t = now_timestamp();
        if t > ms {
            return t;
        }
    }
}

/// Relies on `rand::random`: a value drawn from the thread-local
/// cryptographically secure generator. Nothing can be promised of the
/// outcome.
pub assume_specification<T>[ rand::random::<T> ]() -> (r: T)
    where
        rand::distributions::Standard: rand::distributions::Distribution<T>,
;

#[verifier::external_type_specification]
#[verifier::external_body]
pub struct ExMacAddress(mac_address::MacAddress);

/// Relies on `mac_address::get_mac_address`: the MAC address of the first
/// network device of the host, ignoring loopback. The value depends on the
/// machine, so nothing is promised of it; lookup failure and a host
/// without a MAC both yield `None`.
#[verifier::external_body]
pub(crate) fn host_mac() -> Option<mac_address::MacAddress> {
    match mac_address::get_mac_address() {
        Ok(Some(m)) => Some(m),
        Ok(None) => None,
        Err(_) => None,
    }
}

/// Relies on `mac_address::MacAddress::bytes`: the six bytes of the
/// address. The value depends on the machine, so nothing is promised.
pub assume_specification[ mac_address::MacAddress::bytes ](m: mac_address::MacAddress) -> [u8; 6];

/// Relies on `String::from_utf8`: bytes below 128 are ASCII, and decode to
/// the string of exactly those character codes.
#[verifier::external_body]
pub(crate) fn ascii_to_string(bytes: Vec<u8>) -> (r: String)
    requires
        forall|i: int| 0 <= i < bytes@.len() ==> bytes@[i] < 128,
    ensures
        r@.len() == bytes@.len(),
        forall|i: int| 0 <= i < r@.len() ==> r@[i] == bytes@[i] as char,
{
    match String::from_utf8(bytes) {
        Ok(s) => s,
        Err(_) => String::new(),
    }
}

} // verus!
