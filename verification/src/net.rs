use vstd::prelude::*;

verus! {

/// Address family of an IP address.
#[derive(Clone, Copy, PartialEq, Eq, Structural, Debug)]
pub enum Family {
    V4,
    V6,
}

/// An IP address held as a plain numeric value: an IPv4 address is the
/// 32-bit value of its four octets in network order, an IPv6 address the
/// 128-bit value of its sixteen octets in network order.
#[derive(Clone, Copy, PartialEq, Eq, Structural, Debug)]
pub enum IpAddress {
    V4(u32),
    V6(u128),
}

impl IpAddress {
    pub open spec fn spec_family(self) -> Family {
        match self {
            IpAddress::V4(_) => Family::V4,
            IpAddress::V6(_) => Family::V6,
        }
    }

    pub fn family(&self) -> (f: Family)
        ensures
            f == self.spec_family(),
    {
        match self {
            IpAddress::V4(_) => Family::V4,
            IpAddress::V6(_) => Family::V6,
        }
    }
}

/// A socket endpoint: an IP address and a port.
#[derive(Clone, Copy, PartialEq, Eq, Structural, Debug)]
pub struct Endpoint {
    pub ip: IpAddress,
    pub port: u16,
}

impl Endpoint {
    pub open spec fn spec_family(self) -> Family {
        self.ip.spec_family()
    }

    pub fn family(&self) -> (f: Family)
        ensures
            f == self.spec_family(),
    {
        self.ip.family()
    }
}

} // verus!
