use mmproxy::config::Config;
use mmproxy::net::IpAddress;
use mmproxy::steer::origin_admitted;
use mmproxy::subnet::{check_origin_allowed, parse_allowed_subnets, parse_cidr, Cidr};

fn cidr(line: &str) -> Cidr {
    parse_cidr(line.as_bytes(), 0, line.len()).unwrap()
}

#[test]
fn parse_cidr_v4() {
    let c = cidr("10.0.0.0/8");
    assert_eq!(c.ip, IpAddress::V4(0x0A000000));
    assert_eq!(c.prefix_len, 8);
}

#[test]
fn parse_cidr_v6() {
    let c = cidr("2001:db8::/32");
    assert_eq!(c.ip, IpAddress::V6(0x20010DB8000000000000000000000000));
    assert_eq!(c.prefix_len, 32);
}

#[test]
fn parse_cidr_host_forms() {
    let c = cidr("192.0.2.1");
    assert_eq!(c.prefix_len, 32);
    let c6 = cidr("::1");
    assert_eq!(c6.ip, IpAddress::V6(1));
    assert_eq!(c6.prefix_len, 128);
}

#[test]
fn parse_cidr_rejects_host_bits() {
    assert!(parse_cidr(b"10.1.2.3/8", 0, 10).is_none());
    assert!(parse_cidr(b"2001:db8::1/32", 0, 14).is_none());
}

#[test]
fn parse_cidr_rejects_bad_prefix() {
    assert!(parse_cidr(b"10.0.0.0/33", 0, 11).is_none());
    assert!(parse_cidr(b"2001:db8::/129", 0, 14).is_none());
    assert!(parse_cidr(b"10.0.0.0/", 0, 9).is_none());
}

#[test]
fn contains_v4() {
    let c = cidr("10.0.0.0/8");
    assert!(c.contains(&IpAddress::V4(0x0A010203)));
    assert!(!c.contains(&IpAddress::V4(0x0B000000)));
    assert!(!c.contains(&IpAddress::V6(0x0A000000)));
}

#[test]
fn contains_v6() {
    let c = cidr("2001:db8::/32");
    assert!(c.contains(&IpAddress::V6(0x20010DB8000000000000000000000001)));
    assert!(!c.contains(&IpAddress::V6(0x20010DB9000000000000000000000000)));
}

#[test]
fn contains_zero_prefix() {
    let any4 = cidr("0.0.0.0/0");
    assert!(any4.contains(&IpAddress::V4(0xFFFFFFFF)));
    let any6 = cidr("::/0");
    assert!(any6.contains(&IpAddress::V6(u128::MAX)));
}

#[test]
fn allowed_subnets_file() {
    let contents = b"10.0.0.0/8\r\n\n2001:db8::/32\n";
    let v = parse_allowed_subnets(contents).unwrap();
    assert_eq!(v.len(), 2);
    assert_eq!(v[0].prefix_len, 8);
    assert_eq!(v[1].prefix_len, 32);
}

#[test]
fn allowed_subnets_file_no_trailing_newline() {
    let v = parse_allowed_subnets(b"192.0.2.0/24").unwrap();
    assert_eq!(v.len(), 1);
    assert_eq!(v[0].ip, IpAddress::V4(0xC0000200));
}

#[test]
fn allowed_subnets_bad_line_is_fatal() {
    assert!(parse_allowed_subnets(b"10.0.0.0/8\nnot a cidr\n").is_none());
}

#[test]
fn allowed_subnets_empty_file() {
    let v = parse_allowed_subnets(b"").unwrap();
    assert!(v.is_empty());
}

#[test]
fn check_origin_allowed_any_match() {
    let list = vec![cidr("10.0.0.0/8"), cidr("192.0.2.0/24")];
    assert!(check_origin_allowed(&IpAddress::V4(0xC0000205), &list));
    assert!(!check_origin_allowed(&IpAddress::V4(0x7F000001), &list));
    assert!(!check_origin_allowed(&IpAddress::V4(1), &[]));
}

#[test]
fn subnet_filter_blocks_outside_peer() {
    // With allowed-subnets 10.0.0.0/8, a connection from 192.0.2.1 is
    // refused before any header work.
    let cfg = Config {
        allowed_subnets: Some(vec![cidr("10.0.0.0/8")]),
        ..Config::default()
    };
    assert!(!origin_admitted(&cfg, &IpAddress::V4(0xC0000201)));
    assert!(origin_admitted(&cfg, &IpAddress::V4(0x0A000001)));
}

#[test]
fn absent_filter_admits_all() {
    let cfg = Config::default();
    assert!(origin_admitted(&cfg, &IpAddress::V4(0xC0000201)));
    assert!(origin_admitted(&cfg, &IpAddress::V6(u128::MAX)));
}
