//! Checks against independent implementations: the proxy-protocol
//! crate for headers and the cidr crate for subnet matching.

use mmproxy::header::{encode_v1, parse_proxy_protocol_header};
use mmproxy::iptext::{format_ipv4, format_ipv6, format_ipv6_compressed, parse_ipv4, parse_ipv6};
use mmproxy::net::{Endpoint, IpAddress};
use mmproxy::subnet::parse_cidr;

use proxy_protocol::{version1, version2, ProxyHeader};

#[test]
fn v1_agrees_with_proxy_protocol_crate() {
    let text = b"PROXY TCP4 198.51.100.7 203.0.113.9 51000 443\r\n";
    let mut buf: &[u8] = text;
    let theirs = proxy_protocol::parse(&mut buf).unwrap();
    let ours = parse_proxy_protocol_header(text).unwrap();
    match theirs {
        ProxyHeader::Version1 {
            addresses: version1::ProxyAddresses::Ipv4 { source, destination },
        } => {
            let (s, d) = ours.addresses.unwrap();
            assert_eq!(source.to_string(), "198.51.100.7:51000");
            assert_eq!(s, Endpoint { ip: IpAddress::V4(0xC6336407), port: 51000 });
            assert_eq!(destination.port(), 443);
            assert_eq!(d.port, 443);
        }
        other => panic!("unexpected parse: {other:?}"),
    }
    // Both consumed the whole header.
    assert_eq!(buf.len(), text.len() - ours.header_len);
}

#[test]
fn v2_agrees_with_proxy_protocol_crate() {
    let mut input = vec![
        0x0D, 0x0A, 0x0D, 0x0A, 0x00, 0x0D, 0x0A, 0x51, 0x55, 0x49, 0x54, 0x0A, 0x21, 0x21,
    ];
    input.extend_from_slice(&36u16.to_be_bytes());
    input.extend_from_slice(&0x20010DB8000000000000000000000001u128.to_be_bytes());
    input.extend_from_slice(&0x20010DB8000000000000000000000002u128.to_be_bytes());
    input.extend_from_slice(&40000u16.to_be_bytes());
    input.extend_from_slice(&443u16.to_be_bytes());
    let mut buf: &[u8] = &input;
    let theirs = proxy_protocol::parse(&mut buf).unwrap();
    let ours = parse_proxy_protocol_header(&input).unwrap();
    match theirs {
        ProxyHeader::Version2 {
            addresses: version2::ProxyAddresses::Ipv6 { source, destination },
            ..
        } => {
            let (s, d) = ours.addresses.unwrap();
            assert_eq!(source.port(), 40000);
            assert_eq!(s.port, 40000);
            assert_eq!(source.ip().to_string(), "2001:db8::1");
            assert_eq!(s.ip, IpAddress::V6(0x20010DB8000000000000000000000001));
            assert_eq!(destination.port(), d.port);
        }
        other => panic!("unexpected parse: {other:?}"),
    }
    assert_eq!(ours.header_len, input.len());
    assert_eq!(buf.len(), 0);
}

#[test]
fn v1_encoding_agrees_with_proxy_protocol_crate() {
    let theirs = proxy_protocol::encode(ProxyHeader::Version1 {
        addresses: version1::ProxyAddresses::Ipv4 {
            source: "198.51.100.7:51000".parse().unwrap(),
            destination: "203.0.113.9:443".parse().unwrap(),
        },
    })
    .unwrap();
    let ours = encode_v1(
        &Endpoint { ip: IpAddress::V4(0xC6336407), port: 51000 },
        &Endpoint { ip: IpAddress::V4(0xCB007109), port: 443 },
    )
    .unwrap();
    assert_eq!(&theirs[..], &ours[..]);
}

#[test]
fn cidr_matching_agrees_with_cidr_crate() {
    let ours = parse_cidr(b"10.0.0.0/8", 0, 10).unwrap();
    let theirs: cidr::IpCidr = "10.0.0.0/8".parse().unwrap();
    for (addr_text, value) in [
        ("10.1.2.3", 0x0A010203u32),
        ("10.255.255.255", 0x0AFFFFFFu32),
        ("11.0.0.0", 0x0B000000u32),
        ("192.0.2.1", 0xC0000201u32),
    ] {
        let theirs_says = theirs.contains(&addr_text.parse().unwrap());
        let ours_says = ours.contains(&IpAddress::V4(value));
        assert_eq!(theirs_says, ours_says, "{addr_text}");
    }
}

#[test]
fn cidr_crate_also_rejects_host_bits() {
    assert!("10.1.2.3/8".parse::<cidr::IpCidr>().is_err());
    assert!(parse_cidr(b"10.1.2.3/8", 0, 10).is_none());
}

#[test]
fn ipv6_text_forms() {
    let cases: &[(&str, u128)] = &[
        ("::", 0),
        ("::1", 1),
        ("2001:db8::1", 0x20010DB8000000000000000000000001),
        ("1:2:3:4:5:6:7:8", 0x00010002000300040005000600070008),
        ("fe80::ffff:1.2.3.4", 0xFE800000000000000000FFFF01020304),
        ("1:2:3:4:5:6:7::", 0x00010002000300040005000600070000),
        ("::ffff:192.0.2.1", 0xFFFFC0000201),
        ("A:B:C:D:E:F:10:11", 0x000A000B000C000D000E000F00100011),
        ("1:2:3:4:5:6:1.2.3.4", 0x00010002000300040005000601020304),
        ("0001:0:0:0:0:0:0:1", 0x00010000000000000000000000000001),
    ];
    for (text, value) in cases {
        let got = parse_ipv6(text.as_bytes(), 0, text.len());
        assert_eq!(got, Some(*value), "{text}");
    }
    for bad in [
        "", ":", ":::", "1:2", "1:2:3:4:5:6:7:8:9", "1::2::3", "12345::", "g::1",
        "1.2.3.4", "::1.2.3.4.5", "1:2:3:4:5:6:7:1.2.3.4", "1:2:3:4:5:6:7:8::",
    ] {
        assert_eq!(parse_ipv6(bad.as_bytes(), 0, bad.len()), None, "{bad}");
    }
}

#[test]
fn ipv4_text_forms() {
    assert_eq!(parse_ipv4(b"0.0.0.0", 0, 7), Some(0));
    assert_eq!(parse_ipv4(b"255.255.255.255", 0, 15), Some(u32::MAX));
    assert_eq!(parse_ipv4(b"198.51.100.7", 0, 12), Some(0xC6336407));
    for bad in ["1.2.3", "1.2.3.4.5", "01.2.3.4", "256.1.1.1", "1.2.3.", "a.b.c.d", ""] {
        assert_eq!(parse_ipv4(bad.as_bytes(), 0, bad.len()), None, "{bad}");
    }
}

#[test]
fn compressed_formatting_matches_usual_notation() {
    let cases: &[(u128, &str)] = &[
        (0, "::"),
        (1, "::1"),
        (0x20010DB8000000000000000000000001, "2001:db8::1"),
        (0x00010002000300040005000600070008, "1:2:3:4:5:6:7:8"),
        (0x00010000000200030004000500060007, "1:0:2:3:4:5:6:7"),
        (0x00010000000000020000000000000003, "1:0:0:2::3"),
        (0x20010DB8000000000005000600070008, "2001:db8::5:6:7:8"),
        (0xFE800000000000000000000000000001, "fe80::1"),
        (0x00010002000300040005000600070000, "1:2:3:4:5:6:7:0"),
    ];
    for (value, text) in cases {
        let got = format_ipv6_compressed(*value);
        assert_eq!(std::str::from_utf8(&got).unwrap(), *text, "{value:#x}");
        assert_eq!(parse_ipv6(&got, 0, got.len()), Some(*value));
    }
}

#[test]
fn v1_ipv6_encoding_agrees_with_proxy_protocol_crate() {
    let theirs = proxy_protocol::encode(ProxyHeader::Version1 {
        addresses: version1::ProxyAddresses::Ipv6 {
            source: "[2001:db8::1]:40000".parse().unwrap(),
            destination: "[2001:db8::2]:443".parse().unwrap(),
        },
    })
    .unwrap();
    let ours = encode_v1(
        &Endpoint { ip: IpAddress::V6(0x20010DB8000000000000000000000001), port: 40000 },
        &Endpoint { ip: IpAddress::V6(0x20010DB8000000000000000000000002), port: 443 },
    )
    .unwrap();
    assert_eq!(&theirs[..], &ours[..]);

    // Two equal zero runs: the earlier one is shortened, as the usual
    // notation demands.
    let theirs = proxy_protocol::encode(ProxyHeader::Version1 {
        addresses: version1::ProxyAddresses::Ipv6 {
            source: "[1:0:0:2:0:0:3:4]:5".parse().unwrap(),
            destination: "[8::9]:10".parse().unwrap(),
        },
    })
    .unwrap();
    let ours = encode_v1(
        &Endpoint { ip: IpAddress::V6(0x00010000000000020000000000030004), port: 5 },
        &Endpoint { ip: IpAddress::V6(0x00080000000000000000000000000009), port: 10 },
    )
    .unwrap();
    assert_eq!(&theirs[..], &ours[..]);
}

#[test]
fn formatting_round_trips() {
    let v4 = format_ipv4(0xC6336407);
    assert_eq!(&v4[..], b"198.51.100.7");
    assert_eq!(parse_ipv4(&v4, 0, v4.len()), Some(0xC6336407));
    let v6 = format_ipv6(0x20010DB8000000000000000000000001);
    assert_eq!(&v6[..], b"2001:db8:0:0:0:0:0:1");
    assert_eq!(parse_ipv6(&v6, 0, v6.len()), Some(0x20010DB8000000000000000000000001));
    let zero = format_ipv6(0);
    assert_eq!(&zero[..], b"0:0:0:0:0:0:0:0");
    assert_eq!(parse_ipv6(&zero, 0, zero.len()), Some(0));
}

#[test]
fn header_acceptance_agrees_on_corpus() {
    // Inputs on which both decoders must agree about acceptance.
    let accepted: &[&[u8]] = &[
        b"PROXY TCP4 0.0.0.0 255.255.255.255 0 65535\r\n",
        b"PROXY TCP6 ::1 fe80::dead:beef 1 2\r\n",
        b"PROXY TCP6 1:2:3:4:5:6:7:8 ::ffff:1.2.3.4 80 81\r\n",
        b"PROXY UNKNOWN\r\n",
    ];
    for input in accepted {
        let mut buf: &[u8] = input;
        assert!(proxy_protocol::parse(&mut buf).is_ok(), "{input:?}");
        assert!(parse_proxy_protocol_header(input).is_ok(), "{input:?}");
    }
    let rejected: &[&[u8]] = &[
        b"",
        b"PROX",
        b"HELLO WORLD\r\n",
        b"PROXY TCP4 1.2.3 4.5.6.7 1 2\r\n",
        b"PROXY TCP4 1.2.3.4 5.6.7.8 1 2",
        b"PROXY TCP4 1.2.3.4 5.6.7.8 99999 2\r\n",
        b"PROXY TCP6 1.2.3.4 5.6.7.8 1 2\r\n",
        b"PROXY TCP4 ::1 ::2 1 2\r\n",
    ];
    for input in rejected {
        let mut buf: &[u8] = input;
        assert!(proxy_protocol::parse(&mut buf).is_err(), "{input:?}");
        assert!(parse_proxy_protocol_header(input).is_err(), "{input:?}");
    }
}

#[test]
fn cidr_matching_agrees_for_ipv6() {
    let ours = parse_cidr(b"2001:db8::/32", 0, 13).unwrap();
    let theirs: cidr::IpCidr = "2001:db8::/32".parse().unwrap();
    for (addr_text, value) in [
        ("2001:db8::1", 0x20010DB8000000000000000000000001u128),
        ("2001:db8:ffff::", 0x20010DB8FFFF00000000000000000000u128),
        ("2001:db9::", 0x20010DB9000000000000000000000000u128),
        ("::1", 1u128),
    ] {
        let theirs_says = theirs.contains(&addr_text.parse().unwrap());
        let ours_says = ours.contains(&IpAddress::V6(value));
        assert_eq!(theirs_says, ours_says, "{addr_text}");
    }
}
