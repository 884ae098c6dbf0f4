//! IPv4 addresses as plain octets, so that address logic can be verified.

use vstd::prelude::*;

verus! {

/// An IPv4 address held as its four octets.
#[derive(Clone, Copy, PartialEq, Eq, Structural, Debug)]
pub struct Ipv4 {
    pub a: u8,
    pub b: u8,
    pub c: u8,
    pub d: u8,
}

impl Ipv4 {
    /// The "any address" sentinel `0.0.0.0`.
    pub open spec fn spec_is_unspecified(self) -> bool {
        self.a == 0 && self.b == 0 && self.c == 0 && self.d == 0
    }

    #[verifier::when_used_as_spec(spec_is_unspecified)]
    pub fn is_unspecified(self) -> (r: bool)
        ensures
            r == self.spec_is_unspecified(),
    {
        self.a == 0 && self.b == 0 && self.c == 0 && self.d == 0
    }
}

/// The loopback address `127.0.0.1`.
pub open spec fn spec_loopback() -> Ipv4 {
    Ipv4 { a: 127, b: 0, c: 0, d: 1 }
}

/// A peer that announced while bound to the wildcard address `0.0.0.0` is not
/// reachable at that address; substitute the loopback address before sending.
/// Any other address is used as given.
pub fn effective_ip(ip: Ipv4) -> (r: Ipv4)
    ensures
        ip.spec_is_unspecified() ==> r == spec_loopback(),
        !ip.spec_is_unspecified() ==> r == ip,
{
    if ip.is_unspecified() {
        Ipv4 { a: 127, b: 0, c: 0, d: 1 }
    } else {
        ip
    }
}

} // verus!
