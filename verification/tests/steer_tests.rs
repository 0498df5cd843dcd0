use mmproxy::config::{Config, Protocol};
use mmproxy::header::HeaderError;
use mmproxy::net::{Endpoint, IpAddress};
use mmproxy::steer::{tcp_session_plan, udp_datagram_plan, upstream_plan, UdpError};

fn ep4(a: u32, port: u16) -> Endpoint {
    Endpoint { ip: IpAddress::V4(a), port }
}

fn ep6(a: u128, port: u16) -> Endpoint {
    Endpoint { ip: IpAddress::V6(a), port }
}

fn cfg() -> Config {
    Config {
        mark: 123,
        ipv4_fwd: ep4(0x7F000001, 443),
        ipv6_fwd: ep6(1, 443),
        ..Config::default()
    }
}

const CLIENT4: u32 = (198 << 24) | (51 << 16) | (100 << 8) | 7;

#[test]
fn plan_binds_reported_source() {
    let src = ep4(CLIENT4, 51000);
    let dst = ep4(0x7F000001, 443);
    let p = upstream_plan(&Some((src, dst)), ep4(0x0A000005, 9999), &cfg());
    assert_eq!(p.bind, src);
    assert_eq!(p.target, cfg().ipv4_fwd);
    assert_eq!(p.mark, 123);
}

#[test]
fn plan_binds_peer_when_unknown() {
    let peer = ep4(0x0A000005, 33000);
    let p = upstream_plan(&None, peer, &cfg());
    assert_eq!(p.bind, peer);
    assert_eq!(p.target, cfg().ipv4_fwd);
    assert_eq!(p.mark, 123);
}

#[test]
fn plan_picks_backend_by_family() {
    let p6 = upstream_plan(&Some((ep6(7, 1), ep6(8, 2))), ep4(1, 1), &cfg());
    assert_eq!(p6.target, cfg().ipv6_fwd);
    let p4 = upstream_plan(&Some((ep4(7, 1), ep4(8, 2))), ep6(1, 1), &cfg());
    assert_eq!(p4.target, cfg().ipv4_fwd);
}

#[test]
fn tcp_plan_v1_passthrough() {
    // Client 198.51.100.7 announces itself; the backend sees the relay
    // bind that exact endpoint and receives the bytes after the header.
    let input = b"PROXY TCP4 198.51.100.7 203.0.113.9 51000 443\r\nGET / HTTP/1.0\r\n\r\n";
    let t = tcp_session_plan(input, ep4(0x0A000005, 9999), &cfg()).unwrap();
    assert_eq!(t.plan.bind, ep4(CLIENT4, 51000));
    assert_eq!(t.plan.target, cfg().ipv4_fwd);
    assert_eq!(t.plan.mark, 123);
    assert_eq!(t.version, 1);
    assert_eq!(&input[t.payload_start..], b"GET / HTTP/1.0\r\n\r\n");
}

#[test]
fn tcp_plan_unknown_uses_peer() {
    // PROXY UNKNOWN: the downstream peer 10.0.0.5:33000 stands in.
    let input = b"PROXY UNKNOWN\r\npayload";
    let peer = ep4(0x0A000005, 33000);
    let t = tcp_session_plan(input, peer, &cfg()).unwrap();
    assert_eq!(t.plan.bind, peer);
    assert_eq!(&input[t.payload_start..], b"payload");
}

#[test]
fn tcp_plan_mapped_peer_family_from_header() {
    // The listen socket may present a v4 peer as a mapped v6 address;
    // the backend choice follows the PROXY-reported client, not the
    // peer.
    let input = b"PROXY TCP4 198.51.100.7 203.0.113.9 51000 443\r\nx";
    let mapped_peer = ep6(0xFFFF0A000005, 9999);
    let t = tcp_session_plan(input, mapped_peer, &cfg()).unwrap();
    assert_eq!(t.plan.target, cfg().ipv4_fwd);
}

#[test]
fn tcp_plan_propagates_header_error() {
    let r = tcp_session_plan(b"nonsense", ep4(1, 1), &cfg());
    assert_eq!(r.unwrap_err(), HeaderError::NotProxyHeader);
}

const V2_SIG: [u8; 12] = [
    0x0D, 0x0A, 0x0D, 0x0A, 0x00, 0x0D, 0x0A, 0x51, 0x55, 0x49, 0x54, 0x0A,
];

#[test]
fn udp_plan_v2_creates_session_key_from_peer() {
    let mut input = V2_SIG.to_vec();
    input.push(0x21);
    input.push(0x12); // INET, DGRAM
    input.extend_from_slice(&12u16.to_be_bytes());
    input.extend_from_slice(&CLIENT4.to_be_bytes());
    input.extend_from_slice(&0x7F000001u32.to_be_bytes());
    input.extend_from_slice(&51000u16.to_be_bytes());
    input.extend_from_slice(&443u16.to_be_bytes());
    input.extend_from_slice(b"dgram payload");
    let peer = ep4(0x0A000005, 41000);
    let u = udp_datagram_plan(&input, peer, &cfg()).unwrap();
    assert_eq!(u.session_key, peer);
    assert_eq!(u.plan.bind, ep4(CLIENT4, 51000));
    assert_eq!(u.plan.mark, 123);
    assert_eq!(&input[u.payload_start..], b"dgram payload");
}

#[test]
fn udp_rejects_v1_header() {
    // A textual v1 header in a datagram is refused: v1 is stream-only.
    // The datagram is dropped; no plan and no session come of it.
    let input = b"PROXY TCP4 198.51.100.7 203.0.113.9 51000 443\r\ndata";
    let r = udp_datagram_plan(input, ep4(0x0A000005, 41000), &cfg());
    assert_eq!(r.unwrap_err(), UdpError::V1OverUdp);
}

#[test]
fn udp_propagates_header_error() {
    let r = udp_datagram_plan(b"junk datagram", ep4(1, 1), &cfg());
    assert_eq!(r.unwrap_err(), UdpError::Header(HeaderError::NotProxyHeader));
}

#[test]
fn protocol_default_is_tcp() {
    assert_eq!(Protocol::default(), Protocol::Tcp);
}

#[test]
fn config_default_values() {
    let c = Config::default();
    assert_eq!(c.listen_addr, ep4(0, 8443));
    assert_eq!(c.ipv4_fwd, ep4(0x7F000001, 443));
    assert_eq!(c.ipv6_fwd, ep6(1, 443));
    assert!(c.allowed_subnets.is_none());
    assert_eq!(c.close_after_secs, 60);
    assert_eq!(c.mark, 0);
    assert_eq!(c.listeners, 1);
    assert_eq!(c.protocol, Protocol::Tcp);
}

#[test]
fn tcp_plan_v2_ipv6_targets_v6_backend() {
    // Binary v2 header with source [2001:db8::1]:40000 and destination
    // [2001:db8::2]:443, followed by "ABC": the upstream dial targets
    // the configured IPv6 backend, bound to the reported source.
    let mut input = V2_SIG.to_vec();
    input.push(0x21);
    input.push(0x21); // INET6, STREAM
    input.extend_from_slice(&36u16.to_be_bytes());
    input.extend_from_slice(&0x20010DB8000000000000000000000001u128.to_be_bytes());
    input.extend_from_slice(&0x20010DB8000000000000000000000002u128.to_be_bytes());
    input.extend_from_slice(&40000u16.to_be_bytes());
    input.extend_from_slice(&443u16.to_be_bytes());
    input.extend_from_slice(b"ABC");
    let t = tcp_session_plan(&input, ep4(0x0A000005, 9999), &cfg()).unwrap();
    assert_eq!(t.plan.bind, ep6(0x20010DB8000000000000000000000001, 40000));
    assert_eq!(t.plan.target, cfg().ipv6_fwd);
    assert_eq!(t.version, 2);
    assert_eq!(&input[t.payload_start..], b"ABC");
}

#[test]
fn v2_local_command_is_accepted() {
    let mut input = V2_SIG.to_vec();
    input.push(0x20); // version 2, command LOCAL
    input.push(0x12);
    input.extend_from_slice(&12u16.to_be_bytes());
    input.extend_from_slice(&[10, 0, 0, 1]);
    input.extend_from_slice(&[127, 0, 0, 1]);
    input.extend_from_slice(&1000u16.to_be_bytes());
    input.extend_from_slice(&443u16.to_be_bytes());
    let u = udp_datagram_plan(&input, ep4(0x0A000005, 41000), &cfg()).unwrap();
    assert_eq!(u.plan.bind, ep4(0x0A000001, 1000));
}

#[test]
fn port_zero_is_valid_and_leading_zero_is_not() {
    let ok = b"PROXY TCP4 1.2.3.4 5.6.7.8 0 65535\r\n";
    let t = tcp_session_plan(ok, ep4(1, 1), &cfg()).unwrap();
    assert_eq!(t.plan.bind.port, 0);
    let bad = b"PROXY TCP4 1.2.3.4 5.6.7.8 00 443\r\n";
    assert!(tcp_session_plan(bad, ep4(1, 1), &cfg()).is_err());
}
