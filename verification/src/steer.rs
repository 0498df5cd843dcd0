use vstd::prelude::*;

use crate::config::Config;
use crate::header::{spec_parse_header, parse_proxy_protocol_header, HeaderError};
use crate::net::{Endpoint, IpAddress};
use crate::subnet::{check_origin_allowed, spec_origin_allowed};

verus! {

/// How one upstream socket is to be made: the spoofed local bind
/// address, the backend to dial, and the fwmark to set before binding.
#[derive(Debug, Clone, Copy, PartialEq, Eq, Structural)]
pub struct UpstreamPlan {
    pub bind: Endpoint,
    pub target: Endpoint,
    pub mark: u32,
}

/// The bind address: the PROXY-reported source, or the downstream peer
/// when the header carried UNKNOWN/UNSPEC.
pub open spec fn spec_select_source(addrs: Option<(Endpoint, Endpoint)>, peer: Endpoint) -> Endpoint {
    match addrs {
        Some(pair) => pair.0,
        None => peer,
    }
}

/// The backend, chosen by the spoofed source's family.
pub open spec fn spec_select_target(source: Endpoint, cfg: Config) -> Endpoint {
    match source.ip {
        IpAddress::V4(_) => cfg.ipv4_fwd,
        IpAddress::V6(_) => cfg.ipv6_fwd,
    }
}

pub open spec fn spec_upstream_plan(
    addrs: Option<(Endpoint, Endpoint)>,
    peer: Endpoint,
    cfg: Config,
) -> UpstreamPlan {
    UpstreamPlan {
        bind: spec_select_source(addrs, peer),
        target: spec_select_target(spec_select_source(addrs, peer), cfg),
        mark: cfg.mark,
    }
}

/// Plans one upstream socket.  The bind address equals the
/// PROXY-reported source endpoint, or the downstream peer endpoint when
/// the header carried no addresses; the mark equals the configured
/// mark; the target is the backend of the bind address's family.
pub fn upstream_plan(addrs: &Option<(Endpoint, Endpoint)>, peer: Endpoint, cfg: &Config) -> (p:
    UpstreamPlan)
    ensures
        p == spec_upstream_plan(*addrs, peer, *cfg),
        p.bind == spec_select_source(*addrs, peer),
        (match *addrs {
            Some(pair) => p.bind == pair.0,
            None => p.bind == peer,
        }),
        p.mark == cfg.mark,
        p.bind.ip is V4 ==> p.target == cfg.ipv4_fwd,
        p.bind.ip is V6 ==> p.target == cfg.ipv6_fwd,
{
    let bind = match addrs {
        Some(pair) => pair.0,
        None => peer,
    };
    let target = match bind.ip {
        IpAddress::V4(_) => cfg.ipv4_fwd,
        IpAddress::V6(_) => cfg.ipv6_fwd,
    };
    UpstreamPlan { bind, target, mark: cfg.mark }
}

/// Whether the configuration admits this origin: an absent list admits
/// everyone, a configured list admits exactly the addresses inside one
/// of its blocks.
pub open spec fn spec_origin_admitted(cfg: Config, ip: IpAddress) -> bool {
    match cfg.allowed_subnets {
        None => true,
        Some(v) => spec_origin_allowed(ip, v@),
    }
}

/// The origin filter, applied to every connection and datagram before
/// any header parse or upstream work.
pub fn origin_admitted(cfg: &Config, ip: &IpAddress) -> (r: bool)
    requires
        cfg.wf(),
    ensures
        r == spec_origin_admitted(*cfg, *ip),
{
    match &cfg.allowed_subnets {
        None => true,
        Some(v) => check_origin_allowed(ip, v.as_slice()),
    }
}

/// The plan for one TCP session, computed from the first bytes read
/// from the downstream: where the payload starts and how to open the
/// upstream.
#[derive(Debug, Clone, Copy, PartialEq, Eq, Structural)]
pub struct TcpSessionPlan {
    pub plan: UpstreamPlan,
    pub payload_start: usize,
    pub version: u8,
}

/// Decides one accepted TCP connection from its opening bytes: decode
/// the PROXY header, stand the peer in for UNKNOWN/UNSPEC, pick the
/// backend by family.  Fails exactly when the header does.
pub fn tcp_session_plan(buffer: &[u8], peer: Endpoint, cfg: &Config) -> (r: Result<
    TcpSessionPlan,
    HeaderError,
>)
    ensures
        match r {
            Ok(t) => {
                &&& spec_parse_header(buffer@) is Ok
                &&& {
                    let h = spec_parse_header(buffer@)->Ok_0;
                    &&& t.plan == spec_upstream_plan(h.0, peer, *cfg)
                    &&& t.payload_start == h.2
                    &&& t.version == h.1
                    &&& t.payload_start <= buffer@.len()
                }
            },
            Err(e) => spec_parse_header(buffer@) == Err::<
                (Option<(Endpoint, Endpoint)>, int, int),
                _,
            >(e),
        },
{
    match parse_proxy_protocol_header(buffer) {
        Ok(h) => {
            let plan = upstream_plan(&h.addresses, peer, cfg);
            Ok(TcpSessionPlan { plan, payload_start: h.header_len, version: h.version })
        },
        Err(e) => Err(e),
    }
}

/// Why a datagram was refused.
#[derive(Debug, Clone, Copy, PartialEq, Eq, Structural)]
pub enum UdpError {
    /// The datagram's header was refused.
    Header(HeaderError),
    /// The header was a well-formed v1 text header, which UDP cannot
    /// carry: v1 is stream-only.
    V1OverUdp,
}

/// The plan for one UDP datagram: the session key is the downstream
/// peer; the upstream plan as for TCP.
#[derive(Debug, Clone, Copy, PartialEq, Eq, Structural)]
pub struct UdpPlan {
    pub plan: UpstreamPlan,
    pub payload_start: usize,
    pub session_key: Endpoint,
}

/// Decides one received datagram: decode the PROXY header and refuse
/// v1, which is stream-only.  A refused datagram is dropped; no
/// session is created and no upstream socket is made for it.
pub fn udp_datagram_plan(buffer: &[u8], peer: Endpoint, cfg: &Config) -> (r: Result<
    UdpPlan,
    UdpError,
>)
    ensures
        match r {
            Ok(u) => {
                &&& spec_parse_header(buffer@) is Ok
                &&& {
                    let h = spec_parse_header(buffer@)->Ok_0;
                    &&& h.1 == 2
                    &&& u.plan == spec_upstream_plan(h.0, peer, *cfg)
                    &&& u.payload_start == h.2
                    &&& u.payload_start <= buffer@.len()
                    &&& u.session_key == peer
                }
            },
            Err(UdpError::V1OverUdp) => spec_parse_header(buffer@) is Ok && spec_parse_header(
                buffer@,
            )->Ok_0.1 == 1,
            Err(UdpError::Header(e)) => spec_parse_header(buffer@) == Err::<
                (Option<(Endpoint, Endpoint)>, int, int),
                _,
            >(e),
        },
{
    match parse_proxy_protocol_header(buffer) {
        Ok(h) => {
            if h.version < 2 {
                return Err(UdpError::V1OverUdp);
            }
            let plan = upstream_plan(&h.addresses, peer, cfg);
            Ok(UdpPlan { plan, payload_start: h.header_len, session_key: peer })
        },
        Err(e) => Err(UdpError::Header(e)),
    }
}

} // verus!
