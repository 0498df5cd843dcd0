use mmproxy::header::{encode_v1, encode_v1_unknown, parse_proxy_protocol_header, HeaderError};
use mmproxy::net::{Endpoint, IpAddress};

fn ep4(a: u32, port: u16) -> Endpoint {
    Endpoint { ip: IpAddress::V4(a), port }
}

fn ep6(a: u128, port: u16) -> Endpoint {
    Endpoint { ip: IpAddress::V6(a), port }
}

const CLIENT4: u32 = (198 << 24) | (51 << 16) | (100 << 8) | 7;
const BACKEND4: u32 = (203 << 24) | (0 << 16) | (113 << 8) | 9;

#[test]
fn v1_tcp4_parse() {
    let input = b"PROXY TCP4 198.51.100.7 203.0.113.9 51000 443\r\nGET / HTTP/1.0\r\n\r\n";
    let h = parse_proxy_protocol_header(input).unwrap();
    assert_eq!(h.version, 1);
    let (src, dst) = h.addresses.unwrap();
    assert_eq!(src, ep4(CLIENT4, 51000));
    assert_eq!(dst, ep4(BACKEND4, 443));
    assert_eq!(&input[h.header_len..], b"GET / HTTP/1.0\r\n\r\n");
}

#[test]
fn v1_tcp6_parse() {
    let input = b"PROXY TCP6 2001:db8::1 2001:db8::2 40000 443\r\nABC";
    let h = parse_proxy_protocol_header(input).unwrap();
    assert_eq!(h.version, 1);
    let (src, dst) = h.addresses.unwrap();
    assert_eq!(src, ep6(0x20010DB8000000000000000000000001, 40000));
    assert_eq!(dst, ep6(0x20010DB8000000000000000000000002, 443));
    assert_eq!(&input[h.header_len..], b"ABC");
}

#[test]
fn v1_unknown_parse() {
    let input = b"PROXY UNKNOWN\r\npayload";
    let h = parse_proxy_protocol_header(input).unwrap();
    assert_eq!(h.version, 1);
    assert!(h.addresses.is_none());
    assert_eq!(&input[h.header_len..], b"payload");
}

#[test]
fn v1_unknown_with_extra_fields() {
    let input = b"PROXY UNKNOWN ffff::1 ffff::2 1 2\r\nrest";
    let h = parse_proxy_protocol_header(input).unwrap();
    assert_eq!(h.version, 1);
    assert!(h.addresses.is_none());
    assert_eq!(&input[h.header_len..], b"rest");
}

const V2_SIG: [u8; 12] = [
    0x0D, 0x0A, 0x0D, 0x0A, 0x00, 0x0D, 0x0A, 0x51, 0x55, 0x49, 0x54, 0x0A,
];

fn v2_header(fam_tp: u8, addr_block: &[u8]) -> Vec<u8> {
    let mut v = V2_SIG.to_vec();
    v.push(0x21); // version 2, command PROXY
    v.push(fam_tp);
    let len = addr_block.len() as u16;
    v.push((len >> 8) as u8);
    v.push((len & 0xFF) as u8);
    v.extend_from_slice(addr_block);
    v
}

#[test]
fn v2_ipv6_parse() {
    // Source [2001:db8::1]:40000, destination [2001:db8::2]:443.
    let mut block = Vec::new();
    block.extend_from_slice(&0x20010DB8000000000000000000000001u128.to_be_bytes());
    block.extend_from_slice(&0x20010DB8000000000000000000000002u128.to_be_bytes());
    block.extend_from_slice(&40000u16.to_be_bytes());
    block.extend_from_slice(&443u16.to_be_bytes());
    let mut input = v2_header(0x21, &block); // INET6, STREAM
    input.extend_from_slice(b"ABC");
    let h = parse_proxy_protocol_header(&input).unwrap();
    assert_eq!(h.version, 2);
    let (src, dst) = h.addresses.unwrap();
    assert_eq!(src, ep6(0x20010DB8000000000000000000000001, 40000));
    assert_eq!(dst, ep6(0x20010DB8000000000000000000000002, 443));
    assert_eq!(&input[h.header_len..], b"ABC");
}

#[test]
fn v2_ipv4_parse() {
    let mut block = Vec::new();
    block.extend_from_slice(&CLIENT4.to_be_bytes());
    block.extend_from_slice(&BACKEND4.to_be_bytes());
    block.extend_from_slice(&51000u16.to_be_bytes());
    block.extend_from_slice(&443u16.to_be_bytes());
    let mut input = v2_header(0x12, &block); // INET, DGRAM
    input.extend_from_slice(b"data");
    let h = parse_proxy_protocol_header(&input).unwrap();
    assert_eq!(h.version, 2);
    let (src, dst) = h.addresses.unwrap();
    assert_eq!(src, ep4(CLIENT4, 51000));
    assert_eq!(dst, ep4(BACKEND4, 443));
    assert_eq!(&input[h.header_len..], b"data");
}

#[test]
fn v2_unspec_parse() {
    let input = v2_header(0x00, &[]);
    let h = parse_proxy_protocol_header(&input).unwrap();
    assert_eq!(h.version, 2);
    assert!(h.addresses.is_none());
    assert_eq!(h.header_len, input.len());
}

#[test]
fn v2_skips_tlvs() {
    let mut block = Vec::new();
    block.extend_from_slice(&CLIENT4.to_be_bytes());
    block.extend_from_slice(&BACKEND4.to_be_bytes());
    block.extend_from_slice(&51000u16.to_be_bytes());
    block.extend_from_slice(&443u16.to_be_bytes());
    block.extend_from_slice(&[0x04, 0x00, 0x01, 0xAA]); // one TLV
    let mut input = v2_header(0x11, &block);
    input.extend_from_slice(b"tail");
    let h = parse_proxy_protocol_header(&input).unwrap();
    assert_eq!(h.header_len, 16 + block.len());
    assert_eq!(&input[h.header_len..], b"tail");
}

#[test]
fn v2_unix_rejected() {
    let block = [0u8; 216];
    let input = v2_header(0x31, &block); // UNIX, STREAM
    assert_eq!(
        parse_proxy_protocol_header(&input),
        Err(HeaderError::UnixUnsupported)
    );
}

#[test]
fn v2_bad_version_nibble() {
    let mut input = V2_SIG.to_vec();
    input.push(0x31); // version 3
    input.push(0x00);
    input.extend_from_slice(&[0, 0]);
    assert_eq!(
        parse_proxy_protocol_header(&input),
        Err(HeaderError::InvalidVersion)
    );
}

#[test]
fn v2_truncated_address_block() {
    let mut block = Vec::new();
    block.extend_from_slice(&CLIENT4.to_be_bytes());
    let input = v2_header(0x11, &block); // declares only 4 bytes, needs 12
    assert_eq!(
        parse_proxy_protocol_header(&input),
        Err(HeaderError::Malformed)
    );
}

#[test]
fn not_proxy_header() {
    assert_eq!(
        parse_proxy_protocol_header(b"GET / HTTP/1.0\r\n"),
        Err(HeaderError::NotProxyHeader)
    );
    assert_eq!(
        parse_proxy_protocol_header(b"PR"),
        Err(HeaderError::NotProxyHeader)
    );
}

#[test]
fn v1_malformed_variants() {
    // Bad family tag.
    assert_eq!(
        parse_proxy_protocol_header(b"PROXY TCP9 1.2.3.4 5.6.7.8 1 2\r\n"),
        Err(HeaderError::Malformed)
    );
    // Port with leading zero.
    assert_eq!(
        parse_proxy_protocol_header(b"PROXY TCP4 1.2.3.4 5.6.7.8 080 443\r\n"),
        Err(HeaderError::Malformed)
    );
    // Port out of range.
    assert_eq!(
        parse_proxy_protocol_header(b"PROXY TCP4 1.2.3.4 5.6.7.8 65536 443\r\n"),
        Err(HeaderError::Malformed)
    );
    // Octet out of range.
    assert_eq!(
        parse_proxy_protocol_header(b"PROXY TCP4 1.2.3.400 5.6.7.8 1 2\r\n"),
        Err(HeaderError::Malformed)
    );
    // Missing CRLF.
    assert_eq!(
        parse_proxy_protocol_header(b"PROXY TCP4 1.2.3.4 5.6.7.8 1 2"),
        Err(HeaderError::Malformed)
    );
    // IPv6 text in a TCP4 header.
    assert_eq!(
        parse_proxy_protocol_header(b"PROXY TCP4 2001:db8::1 5.6.7.8 1 2\r\n"),
        Err(HeaderError::Malformed)
    );
}

#[test]
fn v1_encode_then_parse_ipv4() {
    let src = ep4(CLIENT4, 51000);
    let dst = ep4(BACKEND4, 443);
    let text = encode_v1(&src, &dst).unwrap();
    assert_eq!(&text[..], b"PROXY TCP4 198.51.100.7 203.0.113.9 51000 443\r\n");
    let h = parse_proxy_protocol_header(&text).unwrap();
    assert_eq!(h.addresses, Some((src, dst)));
    assert_eq!(h.header_len, text.len());
}

#[test]
fn v1_encode_then_parse_ipv6() {
    let src = ep6(0x20010DB8000000000000000000000001, 40000);
    let dst = ep6(0x20010DB8000000000000000000000002, 443);
    let text = encode_v1(&src, &dst).unwrap();
    let h = parse_proxy_protocol_header(&text).unwrap();
    assert_eq!(h.addresses, Some((src, dst)));
    assert_eq!(h.header_len, text.len());
}

#[test]
fn v1_parse_then_encode_same_text() {
    // A canonical v1 header comes back out byte for byte.
    let text = b"PROXY TCP4 198.51.100.7 203.0.113.9 51000 443\r\n".to_vec();
    let h = parse_proxy_protocol_header(&text).unwrap();
    let (src, dst) = h.addresses.unwrap();
    let again = encode_v1(&src, &dst).unwrap();
    assert_eq!(again, text);
}

#[test]
fn v1_unknown_encode_parse() {
    let text = encode_v1_unknown();
    assert_eq!(&text[..], b"PROXY UNKNOWN\r\n");
    let h = parse_proxy_protocol_header(&text).unwrap();
    assert!(h.addresses.is_none());
    assert_eq!(h.header_len, 15);
}

#[test]
fn v1_mixed_families_have_no_encoding() {
    let src = ep4(CLIENT4, 1);
    let dst = ep6(1, 2);
    assert!(encode_v1(&src, &dst).is_none());
}

#[test]
fn v2_header_tail_reconcat() {
    // Re-concatenating the parsed header bytes with the tail yields the
    // original datagram.
    let mut block = Vec::new();
    block.extend_from_slice(&CLIENT4.to_be_bytes());
    block.extend_from_slice(&BACKEND4.to_be_bytes());
    block.extend_from_slice(&51000u16.to_be_bytes());
    block.extend_from_slice(&443u16.to_be_bytes());
    let mut input = v2_header(0x12, &block);
    input.extend_from_slice(b"payload bytes");
    let h = parse_proxy_protocol_header(&input).unwrap();
    let mut rebuilt = input[..h.header_len].to_vec();
    rebuilt.extend_from_slice(&input[h.header_len..]);
    assert_eq!(rebuilt, input);
    // The header bytes alone parse to the same result.
    let h2 = parse_proxy_protocol_header(&input[..h.header_len]).unwrap();
    assert_eq!(h2.addresses, h.addresses);
    assert_eq!(h2.header_len, h.header_len);
}
