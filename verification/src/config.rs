use vstd::prelude::*;

use crate::net::{Endpoint, IpAddress};
use crate::subnet::Cidr;

verus! {

/// Which stack the proxy runs.
#[derive(Debug, Clone, Copy, PartialEq, Eq, Structural)]
pub enum Protocol {
    Tcp,
    Udp,
}

impl Default for Protocol {
    /// TCP is the default transport.
    fn default() -> (r: Self)
        ensures
            r == Protocol::Tcp,
    {
        Protocol::Tcp
    }
}

/// The proxy's settings, immutable after startup.
pub struct Config {
    /// Endpoint the proxy listens on.
    pub listen_addr: Endpoint,
    /// Backend for IPv4 clients.
    pub ipv4_fwd: Endpoint,
    /// Backend for IPv6 clients.
    pub ipv6_fwd: Endpoint,
    /// Origin filter; `None` admits every origin.
    pub allowed_subnets: Option<Vec<Cidr>>,
    /// Seconds of UDP inactivity before a session is reaped.
    pub close_after_secs: u64,
    /// fwmark set on upstream sockets.
    pub mark: u32,
    /// Number of reuseport listener sockets.
    pub listeners: u32,
    /// TCP or UDP.
    pub protocol: Protocol,
}

impl Config {
    /// Every configured block is well-formed.
    pub open spec fn wf(self) -> bool {
        match self.allowed_subnets {
            Some(v) => forall|i: int| 0 <= i < v@.len() ==> (#[trigger] v@[i]).wf(),
            None => true,
        }
    }
}

impl Default for Config {
    /// The stock settings: listen on 0.0.0.0:8443, forward IPv4 to
    /// 127.0.0.1:443 and IPv6 to [::1]:443, admit every origin, reap
    /// idle UDP sessions after sixty seconds, mark 0, one listener,
    /// TCP.
    fn default() -> (r: Self)
        ensures
            r.listen_addr == (Endpoint { ip: IpAddress::V4(0), port: 8443 }),
            r.ipv4_fwd == (Endpoint { ip: IpAddress::V4(0x7F000001), port: 443 }),
            r.ipv6_fwd == (Endpoint { ip: IpAddress::V6(1), port: 443 }),
            r.allowed_subnets is None,
            r.close_after_secs == 60,
            r.mark == 0,
            r.listeners == 1,
            r.protocol == Protocol::Tcp,
            r.wf(),
    {
        Config {
            listen_addr: Endpoint { ip: IpAddress::V4(0), port: 8443 },
            ipv4_fwd: Endpoint { ip: IpAddress::V4(0x7F000001), port: 443 },
            ipv6_fwd: Endpoint { ip: IpAddress::V6(1), port: 443 },
            allowed_subnets: None,
            close_after_secs: 60,
            mark: 0,
            listeners: 1,
            protocol: Protocol::Tcp,
        }
    }
}

} // verus!
