use vstd::prelude::*;

use crate::net::{IpAddress, Endpoint};
use crate::text::{SP, CR, LF, find_from, find_byte, spec_parse_dec_bounded, dec_digits,
    lemma_find_from_exact};
use crate::iptext::{spec_parse_ipv4, spec_parse_ipv6, spec_format_ipv4, spec_format_ipv6_compressed};

verus! {

/// Outcome of decoding a PROXY-protocol header: the reported source and
/// destination endpoints (absent for UNKNOWN/UNSPEC), the protocol
/// version, and the number of header bytes; the payload follows them.
#[derive(Debug, Clone, Copy, PartialEq, Eq)]
pub struct ParsedHeader {
    pub addresses: Option<(Endpoint, Endpoint)>,
    pub version: u8,
    pub header_len: usize,
}

/// Why a header was refused.
#[derive(Debug, Clone, Copy, PartialEq, Eq, Structural)]
pub enum HeaderError {
    /// The input opens with neither the v1 text prefix nor the v2
    /// binary signature.
    NotProxyHeader,
    /// The v2 signature is present but the version nibble is wrong.
    InvalidVersion,
    /// A v2 header carrying Unix-domain addresses, which this proxy
    /// does not serve.
    UnixUnsupported,
    /// Anything else: truncated input or ill-formed fields.
    Malformed,
}

/// "PROXY " — the v1 text prefix.
pub open spec fn v1_prefix() -> Seq<u8> {
    seq![80u8, 82u8, 79u8, 88u8, 89u8, 32u8]
}

/// "UNKNOWN".
pub open spec fn v1_unknown() -> Seq<u8> {
    seq![85u8, 78u8, 75u8, 78u8, 79u8, 87u8, 78u8]
}

/// "TCP4 ".
pub open spec fn v1_tcp4() -> Seq<u8> {
    seq![84u8, 67u8, 80u8, 52u8, 32u8]
}

/// "TCP6 ".
pub open spec fn v1_tcp6() -> Seq<u8> {
    seq![84u8, 67u8, 80u8, 54u8, 32u8]
}

/// The 12-byte v2 binary signature.
pub open spec fn v2_signature() -> Seq<u8> {
    seq![13u8, 10u8, 13u8, 10u8, 0u8, 13u8, 10u8, 81u8, 85u8, 73u8, 84u8, 10u8]
}

/// Smallest index at or after `from` where CR is followed by LF.
pub open spec fn find_crlf_from(s: Seq<u8>, from: int) -> Option<int>
    decreases s.len() - from,
{
    if from < 0 || from + 1 >= s.len() {
        None
    } else if s[from] == CR && s[from + 1] == LF {
        Some(from)
    } else {
        find_crlf_from(s, from + 1)
    }
}

pub proof fn lemma_find_crlf_exact(s: Seq<u8>, from: int, i: int)
    requires
        0 <= from <= i,
        i + 1 < s.len(),
        s[i] == CR && s[i + 1] == LF,
        forall|j: int| from <= j < i ==> !((#[trigger] s[j]) == CR && s[j + 1] == LF),
    ensures
        find_crlf_from(s, from) == Some(i),
    decreases i - from,
{
    if from < i {
        lemma_find_crlf_exact(s, from + 1, i);
    }
}

pub proof fn lemma_find_crlf_none(s: Seq<u8>, from: int)
    requires
        0 <= from,
        forall|j: int| from <= j < s.len() - 1 ==> !((#[trigger] s[j]) == CR && s[j + 1] == LF),
    ensures
        find_crlf_from(s, from) == None::<int>,
    decreases s.len() - from,
{
    if from + 1 < s.len() {
        lemma_find_crlf_none(s, from + 1);
    }
}

/// Big-endian value of a byte string.
pub open spec fn be_value(s: Seq<u8>) -> nat
    decreases s.len(),
{
    if s.len() == 0 {
        0
    } else {
        be_value(s.drop_last()) * 256 + (s.last() as nat)
    }
}

/// 256^k, the weight of a big-endian byte.
pub open spec fn bpow(k: nat) -> nat
    decreases k,
{
    if k == 0 {
        1
    } else {
        256 * bpow((k - 1) as nat)
    }
}

pub proof fn lemma_bpow_values()
    ensures
        bpow(2) == 0x10000,
        bpow(4) == 0x100000000,
        bpow(16) == 0x100000000000000000000000000000000,
{
    assert(bpow(0) == 1);
    assert(bpow(1) == 0x100);
    assert(bpow(2) == 0x10000);
    assert(bpow(3) == 0x1000000);
    assert(bpow(4) == 0x100000000);
    assert(bpow(5) == 0x10000000000);
    assert(bpow(6) == 0x1000000000000);
    assert(bpow(7) == 0x100000000000000);
    assert(bpow(8) == 0x10000000000000000);
    assert(bpow(9) == 0x1000000000000000000);
    assert(bpow(10) == 0x100000000000000000000);
    assert(bpow(11) == 0x10000000000000000000000);
    assert(bpow(12) == 0x1000000000000000000000000);
    assert(bpow(13) == 0x100000000000000000000000000);
    assert(bpow(14) == 0x10000000000000000000000000000);
    assert(bpow(15) == 0x1000000000000000000000000000000);
    assert(bpow(16) == 0x100000000000000000000000000000000);
}

pub proof fn lemma_be_value_bound(s: Seq<u8>)
    ensures
        be_value(s) < bpow(s.len()),
    decreases s.len(),
{
    if s.len() > 0 {
        lemma_be_value_bound(s.drop_last());
    }
}

/// The v1 address fields from position `p0` on: source address, a
/// space, destination address, a space, source port, a space,
/// destination port, then CRLF.
pub open spec fn spec_parse_v1_addrs(s: Seq<u8>, v4: bool) -> Result<
    (Option<(Endpoint, Endpoint)>, int, int),
    HeaderError,
> {
    let p0 = 11;
    match find_from(s, p0, SP) {
        None => Err(HeaderError::Malformed),
        Some(i1) => {
            let src_ip = if v4 {
                match spec_parse_ipv4(s.subrange(p0, i1)) {
                    Some(a) => Some(IpAddress::V4(a)),
                    None => None,
                }
            } else {
                match spec_parse_ipv6(s.subrange(p0, i1)) {
                    Some(a) => Some(IpAddress::V6(a)),
                    None => None,
                }
            };
            match src_ip {
                None => Err(HeaderError::Malformed),
                Some(sip) => match find_from(s, i1 + 1, SP) {
                    None => Err(HeaderError::Malformed),
                    Some(i2) => {
                        let dst_ip = if v4 {
                            match spec_parse_ipv4(s.subrange(i1 + 1, i2)) {
                                Some(a) => Some(IpAddress::V4(a)),
                                None => None,
                            }
                        } else {
                            match spec_parse_ipv6(s.subrange(i1 + 1, i2)) {
                                Some(a) => Some(IpAddress::V6(a)),
                                None => None,
                            }
                        };
                        match dst_ip {
                            None => Err(HeaderError::Malformed),
                            Some(dip) => match find_from(s, i2 + 1, SP) {
                                None => Err(HeaderError::Malformed),
                                Some(i3) => match spec_parse_dec_bounded(
                                    s.subrange(i2 + 1, i3),
                                    65535,
                                ) {
                                    None => Err(HeaderError::Malformed),
                                    Some(sport) => match find_from(s, i3 + 1, CR) {
                                        None => Err(HeaderError::Malformed),
                                        Some(i4) => match spec_parse_dec_bounded(
                                            s.subrange(i3 + 1, i4),
                                            65535,
                                        ) {
                                            None => Err(HeaderError::Malformed),
                                            Some(dport) => {
                                                if i4 + 1 < s.len() && s[i4 + 1] == LF {
                                                    Ok(
                                                        (
                                                            Some(
                                                                (
                                                                    Endpoint {
                                                                        ip: sip,
                                                                        port: sport as u16,
                                                                    },
                                                                    Endpoint {
                                                                        ip: dip,
                                                                        port: dport as u16,
                                                                    },
                                                                ),
                                                            ),
                                                            1,
                                                            i4 + 2,
                                                        ),
                                                    )
                                                } else {
                                                    Err(HeaderError::Malformed)
                                                }
                                            },
                                        },
                                    },
                                },
                            },
                        }
                    },
                },
            }
        },
    }
}

/// The textual v1 header: "PROXY " then "UNKNOWN" with anything up to
/// CRLF, or "TCP4 "/"TCP6 " with the address fields.
pub open spec fn spec_parse_v1(s: Seq<u8>) -> Result<
    (Option<(Endpoint, Endpoint)>, int, int),
    HeaderError,
> {
    if s.len() >= 13 && s.subrange(6, 13) == v1_unknown() {
        match find_crlf_from(s, 13) {
            Some(i) => Ok((None, 1, i + 2)),
            None => Err(HeaderError::Malformed),
        }
    } else if s.len() >= 11 && s.subrange(6, 11) == v1_tcp4() {
        spec_parse_v1_addrs(s, true)
    } else if s.len() >= 11 && s.subrange(6, 11) == v1_tcp6() {
        spec_parse_v1_addrs(s, false)
    } else {
        Err(HeaderError::Malformed)
    }
}

/// The binary v2 header: signature, version and command, family and
/// transport, declared length, then the address block.
pub open spec fn spec_parse_v2(s: Seq<u8>) -> Result<
    (Option<(Endpoint, Endpoint)>, int, int),
    HeaderError,
> {
    let vb = s[12];
    if vb / 16 != 2 {
        Err(HeaderError::InvalidVersion)
    } else if vb % 16 > 1 {
        Err(HeaderError::Malformed)
    } else if s.len() < 16 {
        Err(HeaderError::Malformed)
    } else {
        let fam = s[13] / 16;
        let tp = s[13] % 16;
        if fam > 3 || tp > 2 {
            Err(HeaderError::Malformed)
        } else {
            let dlen = (s[14] as int) * 256 + s[15];
            let total = 16 + dlen;
            if s.len() < total {
                Err(HeaderError::Malformed)
            } else if fam == 0 {
                Ok((None, 2, total))
            } else if fam == 3 {
                Err(HeaderError::UnixUnsupported)
            } else if fam == 1 {
                if dlen < 12 {
                    Err(HeaderError::Malformed)
                } else {
                    let sip = be_value(s.subrange(16, 20)) as u32;
                    let dip = be_value(s.subrange(20, 24)) as u32;
                    let sport = be_value(s.subrange(24, 26)) as u16;
                    let dport = be_value(s.subrange(26, 28)) as u16;
                    Ok(
                        (
                            Some(
                                (
                                    Endpoint { ip: IpAddress::V4(sip), port: sport },
                                    Endpoint { ip: IpAddress::V4(dip), port: dport },
                                ),
                            ),
                            2,
                            total,
                        ),
                    )
                }
            } else {
                if dlen < 36 {
                    Err(HeaderError::Malformed)
                } else {
                    let sip = be_value(s.subrange(16, 32)) as u128;
                    let dip = be_value(s.subrange(32, 48)) as u128;
                    let sport = be_value(s.subrange(48, 50)) as u16;
                    let dport = be_value(s.subrange(50, 52)) as u16;
                    Ok(
                        (
                            Some(
                                (
                                    Endpoint { ip: IpAddress::V6(sip), port: sport },
                                    Endpoint { ip: IpAddress::V6(dip), port: dport },
                                ),
                            ),
                            2,
                            total,
                        ),
                    )
                }
            }
        }
    }
}

/// The PROXY-protocol header grammar: the v1 text form behind the
/// "PROXY " prefix, or the v2 binary form behind its signature.
pub open spec fn spec_parse_header(s: Seq<u8>) -> Result<
    (Option<(Endpoint, Endpoint)>, int, int),
    HeaderError,
> {
    if s.len() >= 6 && s.subrange(0, 6) == v1_prefix() {
        spec_parse_v1(s)
    } else if s.len() >= 13 && s.subrange(0, 12) == v2_signature() {
        spec_parse_v2(s)
    } else {
        Err(HeaderError::NotProxyHeader)
    }
}


/// Big-endian value of `buf[from..to]`, up to sixteen bytes.
fn be_value_exec(buf: &[u8], from: usize, to: usize) -> (r: u128)
    requires
        from <= to <= buf@.len(),
        to - from <= 16,
    ensures
        r as nat == be_value(buf@.subrange(from as int, to as int)),
{
    let ghost s = buf@.subrange(from as int, to as int);
    proof {
        lemma_bpow_values();
        assert(be_value(s.take(0)) == 0);
    }
    let mut acc: u128 = 0;
    let mut i: usize = from;
    while i < to
        invariant
            from <= i <= to <= buf@.len(),
            to - from <= 16,
            s == buf@.subrange(from as int, to as int),
            acc as nat == be_value(s.take(i - from)),
        decreases to - i,
    {
        proof {
            lemma_be_value_bound(s.take(i - from));
            lemma_bpow_values();
            assert(bpow((i - from) as nat) <= bpow(15)) by {
                lemma_bpow_mono((i - from) as nat, 15);
            }
            assert(s.take(i - from + 1).drop_last() =~= s.take(i - from));
            assert(s.take(i - from + 1).last() == s[i - from]);
            assert(s[i - from] == buf@[i as int]);
        }
        acc = acc * 256 + (buf[i] as u128);
        i = i + 1;
    }
    proof {
        assert(s.take(to - from) =~= s);
    }
    acc
}

pub proof fn lemma_bpow_mono(a: nat, b: nat)
    requires
        a <= b,
    ensures
        bpow(a) <= bpow(b),
    decreases b,
{
    if a < b {
        lemma_bpow_mono(a, (b - 1) as nat);
        assert(bpow(b) == 256 * bpow((b - 1) as nat));
        assert(bpow((b - 1) as nat) >= 1) by {
            lemma_bpow_pos((b - 1) as nat);
        }
    }
}

pub proof fn lemma_bpow_pos(k: nat)
    ensures
        bpow(k) >= 1,
    decreases k,
{
    if k > 0 {
        lemma_bpow_pos((k - 1) as nat);
    }
}

/// Whether the input opens with the v1 text prefix.
fn is_v1_prefix(buf: &[u8]) -> (r: bool)
    ensures
        r == (buf@.len() >= 6 && buf@.subrange(0, 6) == v1_prefix()),
{
    if buf.len() < 6 {
        return false;
    }
    let ok = buf[0] == 80 && buf[1] == 82 && buf[2] == 79 && buf[3] == 88 && buf[4] == 89
        && buf[5] == 32;
    proof {
        if ok {
            assert(buf@.subrange(0, 6) =~= v1_prefix());
        } else {
            if buf@.subrange(0, 6) == v1_prefix() {
                assert(forall|k: int| 0 <= k < 6 ==> buf@[k] == #[trigger] v1_prefix()[k]);
                assert(buf@[0] == 80 && buf@[1] == 82 && buf@[2] == 79 && buf@[3] == 88 && buf@[4]
                    == 89 && buf@[5] == 32);
            }
        }
    }
    ok
}

/// Whether the input opens with the twelve-byte v2 signature.
fn is_v2_signature(buf: &[u8]) -> (r: bool)
    ensures
        r == (buf@.len() >= 12 && buf@.subrange(0, 12) == v2_signature()),
{
    if buf.len() < 12 {
        return false;
    }
    let ok = buf[0] == 13 && buf[1] == 10 && buf[2] == 13 && buf[3] == 10 && buf[4] == 0 && buf[5]
        == 13 && buf[6] == 10 && buf[7] == 81 && buf[8] == 85 && buf[9] == 73 && buf[10] == 84
        && buf[11] == 10;
    proof {
        if ok {
            assert(buf@.subrange(0, 12) =~= v2_signature());
        } else {
            if buf@.subrange(0, 12) == v2_signature() {
                assert(forall|k: int| 0 <= k < 12 ==> buf@[k] == #[trigger] v2_signature()[k]);
                assert(buf@[0] == 13 && buf@[1] == 10 && buf@[2] == 13 && buf@[3] == 10 && buf@[4]
                    == 0 && buf@[5] == 13 && buf@[6] == 10 && buf@[7] == 81 && buf@[8] == 85
                    && buf@[9] == 73 && buf@[10] == 84 && buf@[11] == 10);
            }
        }
    }
    ok
}

/// Whether "UNKNOWN" stands at positions 6..13.
fn is_unknown_at6(buf: &[u8]) -> (r: bool)
    requires
        buf@.len() >= 6,
    ensures
        r == (buf@.len() >= 13 && buf@.subrange(6, 13) == v1_unknown()),
{
    if buf.len() < 13 {
        return false;
    }
    let ok = buf[6] == 85 && buf[7] == 78 && buf[8] == 75 && buf[9] == 78 && buf[10] == 79
        && buf[11] == 87 && buf[12] == 78;
    proof {
        if ok {
            assert(buf@.subrange(6, 13) =~= v1_unknown());
        } else {
            if buf@.subrange(6, 13) == v1_unknown() {
                assert(forall|k: int| 0 <= k < 7 ==> buf@[6 + k] == #[trigger] v1_unknown()[k]);
                assert(buf@[6] == 85 && buf@[7] == 78 && buf@[8] == 75 && buf@[9] == 78 && buf@[10]
                    == 79 && buf@[11] == 87 && buf@[12] == 78);
            }
        }
    }
    ok
}

/// Whether "TCP4 " or "TCP6 " stands at positions 6..11; the flag picks
/// which.
fn is_tcp_at6(buf: &[u8], v4: bool) -> (r: bool)
    requires
        buf@.len() >= 6,
    ensures
        v4 ==> r == (buf@.len() >= 11 && buf@.subrange(6, 11) == v1_tcp4()),
        !v4 ==> r == (buf@.len() >= 11 && buf@.subrange(6, 11) == v1_tcp6()),
{
    if buf.len() < 11 {
        return false;
    }
    let digit: u8 = if v4 {
        52
    } else {
        54
    };
    let ok = buf[6] == 84 && buf[7] == 67 && buf[8] == 80 && buf[9] == digit && buf[10] == 32;
    proof {
        if v4 {
            if ok {
                assert(buf@.subrange(6, 11) =~= v1_tcp4());
            } else {
                if buf@.subrange(6, 11) == v1_tcp4() {
                    assert(forall|k: int| 0 <= k < 5 ==> buf@[6 + k] == #[trigger] v1_tcp4()[k]);
                }
            }
        } else {
            if ok {
                assert(buf@.subrange(6, 11) =~= v1_tcp6());
            } else {
                if buf@.subrange(6, 11) == v1_tcp6() {
                    assert(forall|k: int| 0 <= k < 5 ==> buf@[6 + k] == #[trigger] v1_tcp6()[k]);
                }
            }
        }
    }
    ok
}

/// Finds the first CRLF at or after `from`.
fn find_crlf(buf: &[u8], from: usize) -> (r: Option<usize>)
    requires
        from <= buf@.len(),
    ensures
        match r {
            Some(i) => from <= i && i + 1 < buf@.len() && find_crlf_from(buf@, from as int)
                == Some(i as int),
            None => find_crlf_from(buf@, from as int) == None::<int>,
        },
{
    let n = buf.len();
    if n < 2 {
        proof {
            lemma_find_crlf_none(buf@, from as int);
        }
        return None;
    }
    let mut i: usize = from;
    while i < n - 1
        invariant
            from <= i <= n == buf@.len(),
            n >= 2,
            forall|j: int|
                from <= j < i ==> !((#[trigger] buf@[j]) == CR && buf@[j + 1] == LF),
        decreases n - i,
    {
        if buf[i] == 13 && buf[i + 1] == 10 {
            proof {
                lemma_find_crlf_exact(buf@, from as int, i as int);
            }
            return Some(i);
        }
        i = i + 1;
    }
    proof {
        lemma_find_crlf_none(buf@, from as int);
    }
    None
}

/// Finds the first occurrence of `b` at or after `from`, over the whole
/// input.
fn find_abs(buf: &[u8], from: usize, b: u8) -> (r: Option<usize>)
    requires
        from <= buf@.len(),
    ensures
        match r {
            Some(i) => from <= i < buf@.len() && find_from(buf@, from as int, b) == Some(i as int),
            None => find_from(buf@, from as int, b) == None::<int>,
        },
{
    let r = find_byte(buf, from, buf.len(), b);
    proof {
        assert(buf@.take(buf@.len() as int) =~= buf@);
    }
    r
}

/// The v1 address fields, from "TCP4 "/"TCP6 " on.
fn parse_v1_addrs(buf: &[u8], v4: bool) -> (r: Result<ParsedHeader, HeaderError>)
    requires
        buf@.len() >= 11,
    ensures
        match r {
            Ok(h) => spec_parse_v1_addrs(buf@, v4) == Ok::<_, HeaderError>(
                (h.addresses, h.version as int, h.header_len as int),
            ),
            Err(e) => spec_parse_v1_addrs(buf@, v4) == Err::<(Option<(Endpoint, Endpoint)>, int, int), _>(e),
        },
{
    let n = buf.len();
    let i1 = match find_abs(buf, 11, SP) {
        Some(i) => i,
        None => {
            return Err(HeaderError::Malformed);
        },
    };
    let sip: IpAddress = if v4 {
        match crate::iptext::parse_ipv4(buf, 11, i1) {
            Some(a) => IpAddress::V4(a),
            None => {
                return Err(HeaderError::Malformed);
            },
        }
    } else {
        match crate::iptext::parse_ipv6(buf, 11, i1) {
            Some(a) => IpAddress::V6(a),
            None => {
                return Err(HeaderError::Malformed);
            },
        }
    };
    let i2 = match find_abs(buf, i1 + 1, SP) {
        Some(i) => i,
        None => {
            return Err(HeaderError::Malformed);
        },
    };
    let dip: IpAddress = if v4 {
        match crate::iptext::parse_ipv4(buf, i1 + 1, i2) {
            Some(a) => IpAddress::V4(a),
            None => {
                return Err(HeaderError::Malformed);
            },
        }
    } else {
        match crate::iptext::parse_ipv6(buf, i1 + 1, i2) {
            Some(a) => IpAddress::V6(a),
            None => {
                return Err(HeaderError::Malformed);
            },
        }
    };
    let i3 = match find_abs(buf, i2 + 1, SP) {
        Some(i) => i,
        None => {
            return Err(HeaderError::Malformed);
        },
    };
    let sport = match crate::text::parse_dec_bounded(buf, i2 + 1, i3, 65535) {
        Some(p) => p,
        None => {
            return Err(HeaderError::Malformed);
        },
    };
    let i4 = match find_abs(buf, i3 + 1, CR) {
        Some(i) => i,
        None => {
            return Err(HeaderError::Malformed);
        },
    };
    let dport = match crate::text::parse_dec_bounded(buf, i3 + 1, i4, 65535) {
        Some(p) => p,
        None => {
            return Err(HeaderError::Malformed);
        },
    };
    if i4 + 1 < buf.len() && buf[i4 + 1] == 10 {
        Ok(
            ParsedHeader {
                addresses: Some(
                    (
                        Endpoint { ip: sip, port: sport as u16 },
                        Endpoint { ip: dip, port: dport as u16 },
                    ),
                ),
                version: 1,
                header_len: i4 + 2,
            },
        )
    } else {
        Err(HeaderError::Malformed)
    }
}

/// Decodes the PROXY-protocol header at the head of `buffer`.  On
/// success the payload begins at `header_len`; `addresses` is `None`
/// exactly for v1 UNKNOWN and v2 UNSPEC headers.
pub fn parse_proxy_protocol_header(buffer: &[u8]) -> (r: Result<ParsedHeader, HeaderError>)
    ensures
        match r {
            Ok(h) => spec_parse_header(buffer@) == Ok::<_, HeaderError>(
                (h.addresses, h.version as int, h.header_len as int),
            ) && h.header_len <= buffer@.len() && (h.version == 1 || h.version == 2),
            Err(e) => spec_parse_header(buffer@) == Err::<(Option<(Endpoint, Endpoint)>, int, int), _>(e),
        },
{
    if is_v1_prefix(buffer) {
        if is_unknown_at6(buffer) {
            match find_crlf(buffer, 13) {
                Some(i) => Ok(ParsedHeader { addresses: None, version: 1, header_len: i + 2 }),
                None => Err(HeaderError::Malformed),
            }
        } else if is_tcp_at6(buffer, true) {
            parse_v1_addrs(buffer, true)
        } else if is_tcp_at6(buffer, false) {
            parse_v1_addrs(buffer, false)
        } else {
            Err(HeaderError::Malformed)
        }
    } else if buffer.len() >= 13 && is_v2_signature(buffer) {
        let vb = buffer[12];
        if vb / 16 != 2 {
            return Err(HeaderError::InvalidVersion);
        }
        if vb % 16 > 1 {
            return Err(HeaderError::Malformed);
        }
        if buffer.len() < 16 {
            return Err(HeaderError::Malformed);
        }
        let fam = buffer[13] / 16;
        let tp = buffer[13] % 16;
        if fam > 3 || tp > 2 {
            return Err(HeaderError::Malformed);
        }
        let dlen: usize = (buffer[14] as usize) * 256 + (buffer[15] as usize);
        let total: usize = 16 + dlen;
        if buffer.len() < total {
            return Err(HeaderError::Malformed);
        }
        if fam == 0 {
            Ok(ParsedHeader { addresses: None, version: 2, header_len: total })
        } else if fam == 3 {
            Err(HeaderError::UnixUnsupported)
        } else if fam == 1 {
            if dlen < 12 {
                return Err(HeaderError::Malformed);
            }
            proof {
                lemma_be_value_bound(buffer@.subrange(16, 20));
                lemma_be_value_bound(buffer@.subrange(20, 24));
                lemma_be_value_bound(buffer@.subrange(24, 26));
                lemma_be_value_bound(buffer@.subrange(26, 28));
                lemma_bpow_values();
            }
            let sip = be_value_exec(buffer, 16, 20) as u32;
            let dip = be_value_exec(buffer, 20, 24) as u32;
            let sport = be_value_exec(buffer, 24, 26) as u16;
            let dport = be_value_exec(buffer, 26, 28) as u16;
            Ok(
                ParsedHeader {
                    addresses: Some(
                        (
                            Endpoint { ip: IpAddress::V4(sip), port: sport },
                            Endpoint { ip: IpAddress::V4(dip), port: dport },
                        ),
                    ),
                    version: 2,
                    header_len: total,
                },
            )
        } else {
            if dlen < 36 {
                return Err(HeaderError::Malformed);
            }
            proof {
                lemma_be_value_bound(buffer@.subrange(16, 32));
                lemma_be_value_bound(buffer@.subrange(32, 48));
                lemma_be_value_bound(buffer@.subrange(48, 50));
                lemma_be_value_bound(buffer@.subrange(50, 52));
                lemma_bpow_values();
            }
            let sip = be_value_exec(buffer, 16, 32);
            let dip = be_value_exec(buffer, 32, 48);
            let sport = be_value_exec(buffer, 48, 50) as u16;
            let dport = be_value_exec(buffer, 50, 52) as u16;
            Ok(
                ParsedHeader {
                    addresses: Some(
                        (
                            Endpoint { ip: IpAddress::V6(sip), port: sport },
                            Endpoint { ip: IpAddress::V6(dip), port: dport },
                        ),
                    ),
                    version: 2,
                    header_len: total,
                },
            )
        }
    } else {
        Err(HeaderError::NotProxyHeader)
    }
}


/// The canonical v1 text for a pair of endpoints of the same family;
/// empty for a mixed pair, which v1 cannot carry.
pub open spec fn spec_encode_v1(src: Endpoint, dst: Endpoint) -> Seq<u8> {
    match (src.ip, dst.ip) {
        (IpAddress::V4(a), IpAddress::V4(b)) => v1_prefix() + v1_tcp4() + spec_format_ipv4(a)
            + seq![SP] + spec_format_ipv4(b) + seq![SP] + dec_digits(src.port as nat) + seq![SP]
            + dec_digits(dst.port as nat) + seq![CR, LF],
        (IpAddress::V6(a), IpAddress::V6(b)) => v1_prefix() + v1_tcp6()
            + spec_format_ipv6_compressed(a) + seq![SP] + spec_format_ipv6_compressed(b)
            + seq![SP] + dec_digits(src.port as nat) + seq![SP] + dec_digits(dst.port as nat)
            + seq![CR, LF],
        _ => Seq::empty(),
    }
}

/// The canonical v1 text of an UNKNOWN header.
pub open spec fn spec_encode_v1_unknown() -> Seq<u8> {
    v1_prefix() + v1_unknown() + seq![CR, LF]
}

/// The v1 address fields are recovered from their tokens.
proof fn lemma_v1_addrs_tokens(
    s: Seq<u8>,
    v4: bool,
    t1: Seq<u8>,
    t2: Seq<u8>,
    p1: Seq<u8>,
    p2: Seq<u8>,
    sip: IpAddress,
    dip: IpAddress,
    sport: u16,
    dport: u16,
)
    requires
        t1.len() >= 1 && t2.len() >= 1 && p1.len() >= 1 && p2.len() >= 1,
        s.len() == 11 + t1.len() + 1 + t2.len() + 1 + p1.len() + 1 + p2.len() + 2,
        s.subrange(11, 11 + t1.len() as int) == t1,
        s[11 + t1.len() as int] == SP,
        s.subrange(12 + t1.len() as int, 12 + t1.len() + t2.len() as int) == t2,
        s[12 + t1.len() + t2.len() as int] == SP,
        s.subrange(
            13 + t1.len() + t2.len() as int,
            13 + t1.len() + t2.len() + p1.len() as int,
        ) == p1,
        s[13 + t1.len() + t2.len() + p1.len() as int] == SP,
        s.subrange(
            14 + t1.len() + t2.len() + p1.len() as int,
            14 + t1.len() + t2.len() + p1.len() + p2.len() as int,
        ) == p2,
        s[14 + t1.len() + t2.len() + p1.len() + p2.len() as int] == CR,
        s[15 + t1.len() + t2.len() + p1.len() + p2.len() as int] == LF,
        forall|x: int| 0 <= x < t1.len() ==> (#[trigger] t1[x]) != SP && t1[x] != CR,
        forall|x: int| 0 <= x < t2.len() ==> (#[trigger] t2[x]) != SP && t2[x] != CR,
        forall|x: int| 0 <= x < p1.len() ==> (#[trigger] p1[x]) != SP && p1[x] != CR,
        forall|x: int| 0 <= x < p2.len() ==> (#[trigger] p2[x]) != SP && p2[x] != CR,
        v4 ==> sip is V4 && spec_parse_ipv4(t1) == Some(sip->V4_0) && dip is V4
            && spec_parse_ipv4(t2) == Some(dip->V4_0),
        !v4 ==> sip is V6 && spec_parse_ipv6(t1) == Some(sip->V6_0) && dip is V6
            && spec_parse_ipv6(t2) == Some(dip->V6_0),
        spec_parse_dec_bounded(p1, 65535) == Some(sport as nat),
        spec_parse_dec_bounded(p2, 65535) == Some(dport as nat),
    ensures
        spec_parse_v1_addrs(s, v4) == Ok::<_, HeaderError>(
            (
                Some((Endpoint { ip: sip, port: sport }, Endpoint { ip: dip, port: dport })),
                1int,
                s.len() as int,
            ),
        ),
{
    let i1 = 11 + t1.len() as int;
    let i2 = i1 + 1 + t2.len() as int;
    let i3 = i2 + 1 + p1.len() as int;
    let i4 = i3 + 1 + p2.len() as int;
    assert forall|j: int| 11 <= j < i1 implies s[j] != SP by {
        assert(s[j] == s.subrange(11, i1)[j - 11]);
        assert(s[j] == t1[j - 11]);
    }
    lemma_find_from_exact(s, 11, SP, i1);
    assert forall|j: int| i1 + 1 <= j < i2 implies s[j] != SP by {
        assert(s[j] == s.subrange(i1 + 1, i2)[j - i1 - 1]);
        assert(s[j] == t2[j - i1 - 1]);
    }
    lemma_find_from_exact(s, i1 + 1, SP, i2);
    assert forall|j: int| i2 + 1 <= j < i3 implies s[j] != SP by {
        assert(s[j] == s.subrange(i2 + 1, i3)[j - i2 - 1]);
        assert(s[j] == p1[j - i2 - 1]);
    }
    lemma_find_from_exact(s, i2 + 1, SP, i3);
    assert forall|j: int| i3 + 1 <= j < i4 implies s[j] != CR by {
        assert(s[j] == s.subrange(i3 + 1, i4)[j - i3 - 1]);
        assert(s[j] == p2[j - i3 - 1]);
    }
    lemma_find_from_exact(s, i3 + 1, CR, i4);
    assert(s.subrange(11, i1) == t1);
    assert(s.subrange(i1 + 1, i2) == t2);
    assert(s.subrange(i2 + 1, i3) == p1);
    assert(s.subrange(i3 + 1, i4) == p2);
    assert(i4 + 1 < s.len() && s[i4 + 1] == LF);
    assert(s.len() == i4 + 2);
}

/// Parsing the canonical v1 text of a same-family endpoint pair yields
/// the pair, version 1, and the whole text as the header.
pub proof fn lemma_v1_round_trip(src: Endpoint, dst: Endpoint)
    requires
        src.ip is V4 <==> dst.ip is V4,
    ensures
        spec_parse_header(spec_encode_v1(src, dst)) == Ok::<_, HeaderError>(
            (Some((src, dst)), 1int, spec_encode_v1(src, dst).len() as int),
        ),
{
    let s = spec_encode_v1(src, dst);
    let v4 = src.ip is V4;
    let p1 = dec_digits(src.port as nat);
    let p2 = dec_digits(dst.port as nat);
    crate::text::lemma_dec_digits_ok(src.port as nat);
    crate::text::lemma_dec_digits_ok(dst.port as nat);
    if v4 {
        let a = src.ip->V4_0;
        let b = dst.ip->V4_0;
        let t1 = spec_format_ipv4(a);
        let t2 = spec_format_ipv4(b);
        crate::iptext::lemma_ipv4_round_trip(a);
        crate::iptext::lemma_ipv4_round_trip(b);
        crate::iptext::lemma_format_ipv4_chars(a);
        crate::iptext::lemma_format_ipv4_chars(b);
        assert(t1.len() >= 1) by {
            crate::text::lemma_dec_digits_ok((a as nat) / 0x1000000);
        }
        assert(t2.len() >= 1) by {
            crate::text::lemma_dec_digits_ok((b as nat) / 0x1000000);
        }
        lemma_v1_finish(s, true, t1, t2, p1, p2, src, dst);
    } else {
        let a = src.ip->V6_0;
        let b = dst.ip->V6_0;
        let t1 = spec_format_ipv6_compressed(a);
        let t2 = spec_format_ipv6_compressed(b);
        crate::iptext::lemma_ipv6_compressed_round_trip(a);
        crate::iptext::lemma_ipv6_compressed_round_trip(b);
        crate::iptext::lemma_format_ipv6_compressed_chars(a);
        crate::iptext::lemma_format_ipv6_compressed_chars(b);
        lemma_v1_finish(s, false, t1, t2, p1, p2, src, dst);
    }
}

/// Length and prefix bytes of the nine-part v1 text.
#[verifier::rlimit(100)]
proof fn lemma_cat9_prefix(s: Seq<u8>, pfx: Seq<u8>, t1: Seq<u8>, t2: Seq<u8>, p1: Seq<u8>, p2: Seq<u8>)
    requires
        pfx.len() == 11,
        s == pfx + t1 + seq![SP] + t2 + seq![SP] + p1 + seq![SP] + p2 + seq![CR, LF],
    ensures
        s.len() == 11 + t1.len() + 1 + t2.len() + 1 + p1.len() + 1 + p2.len() + 2,
        forall|x: int| 0 <= x < 11 ==> s[x] == pfx[x],
{
    assert forall|x: int| 0 <= x < 11 implies s[x] == pfx[x] by {
        assert(s[x] == (pfx + t1)[x]);
    }
}

/// The first address token and its separator.
#[verifier::rlimit(100)]
proof fn lemma_cat9_t1(s: Seq<u8>, pfx: Seq<u8>, t1: Seq<u8>, t2: Seq<u8>, p1: Seq<u8>, p2: Seq<u8>)
    requires
        pfx.len() == 11,
        s == pfx + t1 + seq![SP] + t2 + seq![SP] + p1 + seq![SP] + p2 + seq![CR, LF],
    ensures
        s.subrange(11, 11 + t1.len() as int) == t1,
        s[11 + t1.len() as int] == SP,
{
    assert forall|x: int| 0 <= x < t1.len() implies s.subrange(11, 11 + t1.len() as int)[x]
        == t1[x] by {
        assert(s[11 + x] == (pfx + t1)[11 + x]);
    }
    assert(s.subrange(11, 11 + t1.len() as int) =~= t1);
    assert(s[11 + t1.len() as int] == (pfx + t1 + seq![SP])[11 + t1.len() as int]);
}

/// The second address token and its separator.
#[verifier::rlimit(100)]
proof fn lemma_cat9_t2(s: Seq<u8>, pfx: Seq<u8>, t1: Seq<u8>, t2: Seq<u8>, p1: Seq<u8>, p2: Seq<u8>)
    requires
        pfx.len() == 11,
        s == pfx + t1 + seq![SP] + t2 + seq![SP] + p1 + seq![SP] + p2 + seq![CR, LF],
    ensures
        s.subrange(12 + t1.len() as int, 12 + t1.len() + t2.len() as int) == t2,
        s[12 + t1.len() + t2.len() as int] == SP,
{
    let b = 12 + t1.len() as int;
    assert forall|x: int| 0 <= x < t2.len() implies s.subrange(b, b + t2.len() as int)[x]
        == t2[x] by {
        assert(s[b + x] == (pfx + t1 + seq![SP] + t2)[b + x]);
    }
    assert(s.subrange(b, b + t2.len() as int) =~= t2);
    assert(s[b + t2.len() as int] == (pfx + t1 + seq![SP] + t2 + seq![SP])[b + t2.len() as int]);
}

/// The first port token and its separator.
#[verifier::rlimit(100)]
proof fn lemma_cat9_p1(s: Seq<u8>, pfx: Seq<u8>, t1: Seq<u8>, t2: Seq<u8>, p1: Seq<u8>, p2: Seq<u8>)
    requires
        pfx.len() == 11,
        s == pfx + t1 + seq![SP] + t2 + seq![SP] + p1 + seq![SP] + p2 + seq![CR, LF],
    ensures
        s.subrange(
            13 + t1.len() + t2.len() as int,
            13 + t1.len() + t2.len() + p1.len() as int,
        ) == p1,
        s[13 + t1.len() + t2.len() + p1.len() as int] == SP,
{
    let b = 13 + t1.len() + t2.len() as int;
    assert forall|x: int| 0 <= x < p1.len() implies s.subrange(b, b + p1.len() as int)[x]
        == p1[x] by {
        assert(s[b + x] == (pfx + t1 + seq![SP] + t2 + seq![SP] + p1)[b + x]);
    }
    assert(s.subrange(b, b + p1.len() as int) =~= p1);
    assert(s[b + p1.len() as int] == (pfx + t1 + seq![SP] + t2 + seq![SP] + p1 + seq![SP])[b
        + p1.len() as int]);
}

/// The second port token and the closing CRLF.
#[verifier::rlimit(100)]
proof fn lemma_cat9_p2(s: Seq<u8>, pfx: Seq<u8>, t1: Seq<u8>, t2: Seq<u8>, p1: Seq<u8>, p2: Seq<u8>)
    requires
        pfx.len() == 11,
        s == pfx + t1 + seq![SP] + t2 + seq![SP] + p1 + seq![SP] + p2 + seq![CR, LF],
    ensures
        s.subrange(
            14 + t1.len() + t2.len() + p1.len() as int,
            14 + t1.len() + t2.len() + p1.len() + p2.len() as int,
        ) == p2,
        s[14 + t1.len() + t2.len() + p1.len() + p2.len() as int] == CR,
        s[15 + t1.len() + t2.len() + p1.len() + p2.len() as int] == LF,
{
    let b = 14 + t1.len() + t2.len() + p1.len() as int;
    assert forall|x: int| 0 <= x < p2.len() implies s.subrange(b, b + p2.len() as int)[x]
        == p2[x] by {
        assert(s[b + x] == (pfx + t1 + seq![SP] + t2 + seq![SP] + p1 + seq![SP] + p2)[b + x]);
    }
    assert(s.subrange(b, b + p2.len() as int) =~= p2);
    assert(s[b + p2.len() as int] == seq![CR, LF][0]);
    assert(s[b + p2.len() + 1] == seq![CR, LF][1]);
}

/// Shared tail of the v1 round trip: the text splits into its tokens
/// and the header parser takes the TCP branch.
#[verifier::rlimit(100)]
proof fn lemma_v1_finish(
    s: Seq<u8>,
    v4: bool,
    t1: Seq<u8>,
    t2: Seq<u8>,
    p1: Seq<u8>,
    p2: Seq<u8>,
    src: Endpoint,
    dst: Endpoint,
)
    requires
        t1.len() >= 1 && t2.len() >= 1 && p1.len() >= 1 && p2.len() >= 1,
        v4 ==> src.ip is V4 && dst.ip is V4 && s == v1_prefix() + v1_tcp4() + t1 + seq![SP] + t2
            + seq![SP] + p1 + seq![SP] + p2 + seq![CR, LF],
        !v4 ==> src.ip is V6 && dst.ip is V6 && s == v1_prefix() + v1_tcp6() + t1 + seq![SP] + t2
            + seq![SP] + p1 + seq![SP] + p2 + seq![CR, LF],
        v4 ==> spec_parse_ipv4(t1) == Some(src.ip->V4_0) && spec_parse_ipv4(t2) == Some(
            dst.ip->V4_0,
        ),
        !v4 ==> spec_parse_ipv6(t1) == Some(src.ip->V6_0) && spec_parse_ipv6(t2) == Some(
            dst.ip->V6_0,
        ),
        forall|x: int| 0 <= x < t1.len() ==> (#[trigger] t1[x]) != SP && t1[x] != CR,
        forall|x: int| 0 <= x < t2.len() ==> (#[trigger] t2[x]) != SP && t2[x] != CR,
        forall|x: int| 0 <= x < p1.len() ==> (#[trigger] p1[x]) != SP && p1[x] != CR,
        forall|x: int| 0 <= x < p2.len() ==> (#[trigger] p2[x]) != SP && p2[x] != CR,
        crate::text::canonical_dec(p1) && crate::text::dec_value(p1) == src.port as nat,
        crate::text::canonical_dec(p2) && crate::text::dec_value(p2) == dst.port as nat,
    ensures
        spec_parse_header(s) == Ok::<_, HeaderError>(
            (Some((src, dst)), 1int, s.len() as int),
        ),
{
    let pfx = if v4 {
        v1_prefix() + v1_tcp4()
    } else {
        v1_prefix() + v1_tcp6()
    };
    assert(pfx.len() == 11);
    lemma_cat9_prefix(s, pfx, t1, t2, p1, p2);
    lemma_cat9_t1(s, pfx, t1, t2, p1, p2);
    lemma_cat9_t2(s, pfx, t1, t2, p1, p2);
    lemma_cat9_p1(s, pfx, t1, t2, p1, p2);
    lemma_cat9_p2(s, pfx, t1, t2, p1, p2);
    assert(s.len() >= 19);
    assert(s.subrange(0, 6) =~= v1_prefix());
    if v4 {
        assert(s.subrange(6, 11) =~= v1_tcp4());
    } else {
        assert(s.subrange(6, 11) =~= v1_tcp6());
    }
    // Not the UNKNOWN form: the seventh byte is 'T', not 'U'.
    assert(s[6] == 84);
    assert(s.subrange(6, 13)[0] == 84);
    assert(s.subrange(6, 13) != v1_unknown());
    if !v4 {
        // The two TCP tags differ in their fourth byte.
        assert(s.subrange(6, 11) != v1_tcp4()) by {
            assert(s.subrange(6, 11)[3] == 54);
        }
    }
    assert(spec_parse_dec_bounded(p1, 65535) == Some(src.port as nat));
    assert(spec_parse_dec_bounded(p2, 65535) == Some(dst.port as nat));
    lemma_v1_addrs_tokens(s, v4, t1, t2, p1, p2, src.ip, dst.ip, src.port, dst.port);
    assert(spec_parse_v1(s) == spec_parse_v1_addrs(s, v4));
}

/// Parsing the canonical UNKNOWN text yields no addresses and consumes
/// the whole fifteen bytes.
pub proof fn lemma_v1_unknown_round_trip()
    ensures
        spec_parse_header(spec_encode_v1_unknown()) == Ok::<_, HeaderError>(
            (None::<(Endpoint, Endpoint)>, 1int, 15int),
        ),
{
    let s = spec_encode_v1_unknown();
    assert(s.len() == 15);
    assert(s.subrange(0, 6) =~= v1_prefix());
    assert(s.subrange(6, 13) =~= v1_unknown());
    assert(s[13] == CR && s[14] == LF);
    lemma_find_crlf_exact(s, 13, 13);
}

/// Encodes a same-family endpoint pair as a canonical v1 text header;
/// a mixed pair has no v1 form.
pub fn encode_v1(src: &Endpoint, dst: &Endpoint) -> (r: Option<Vec<u8>>)
    ensures
        match r {
            Some(v) => v@ == spec_encode_v1(*src, *dst) && (src.ip is V4 <==> dst.ip is V4),
            None => !(src.ip is V4 <==> dst.ip is V4),
        },
{
    let mut out: Vec<u8> = Vec::new();
    match (&src.ip, &dst.ip) {
        (IpAddress::V4(a), IpAddress::V4(b)) => {
            out.push(80);
            out.push(82);
            out.push(79);
            out.push(88);
            out.push(89);
            out.push(32);
            out.push(84);
            out.push(67);
            out.push(80);
            out.push(52);
            out.push(32);
            proof {
                assert(out@ =~= v1_prefix() + v1_tcp4());
            }
            let mut a1 = crate::iptext::format_ipv4(*a);
            out.append(&mut a1);
            out.push(SP);
            let mut a2 = crate::iptext::format_ipv4(*b);
            out.append(&mut a2);
            out.push(SP);
            crate::iptext::push_dec_digits(src.port as u32, &mut out);
            out.push(SP);
            crate::iptext::push_dec_digits(dst.port as u32, &mut out);
            out.push(CR);
            out.push(LF);
            proof {
                assert(out@ =~= spec_encode_v1(*src, *dst));
            }
            Some(out)
        },
        (IpAddress::V6(a), IpAddress::V6(b)) => {
            out.push(80);
            out.push(82);
            out.push(79);
            out.push(88);
            out.push(89);
            out.push(32);
            out.push(84);
            out.push(67);
            out.push(80);
            out.push(54);
            out.push(32);
            proof {
                assert(out@ =~= v1_prefix() + v1_tcp6());
            }
            let mut a1 = crate::iptext::format_ipv6_compressed(*a);
            out.append(&mut a1);
            out.push(SP);
            let mut a2 = crate::iptext::format_ipv6_compressed(*b);
            out.append(&mut a2);
            out.push(SP);
            crate::iptext::push_dec_digits(src.port as u32, &mut out);
            out.push(SP);
            crate::iptext::push_dec_digits(dst.port as u32, &mut out);
            out.push(CR);
            out.push(LF);
            proof {
                assert(out@ =~= spec_encode_v1(*src, *dst));
            }
            Some(out)
        },
        _ => None,
    }
}

/// The canonical UNKNOWN v1 text, "PROXY UNKNOWN" and CRLF.
pub fn encode_v1_unknown() -> (r: Vec<u8>)
    ensures
        r@ == spec_encode_v1_unknown(),
{
    let mut out: Vec<u8> = Vec::new();
    out.push(80);
    out.push(82);
    out.push(79);
    out.push(88);
    out.push(89);
    out.push(32);
    out.push(85);
    out.push(78);
    out.push(75);
    out.push(78);
    out.push(79);
    out.push(87);
    out.push(78);
    out.push(CR);
    out.push(LF);
    proof {
        assert(out@ =~= spec_encode_v1_unknown());
    }
    out
}


/// A v2 header is self-delimiting: the parse consumes exactly the
/// sixteen fixed bytes plus the declared length, re-concatenating the
/// header bytes with the tail yields the original input, and the header
/// bytes alone parse to the same result.
#[verifier::rlimit(100)]
pub proof fn lemma_v2_tail_concat(s: Seq<u8>, addrs: Option<(Endpoint, Endpoint)>, hl: int)
    requires
        spec_parse_header(s) == Ok::<_, HeaderError>((addrs, 2int, hl)),
    ensures
        16 <= hl <= s.len(),
        hl == 16 + (s[14] as int) * 256 + (s[15] as int),
        s.subrange(0, hl) + s.skip(hl) == s,
        spec_parse_header(s.subrange(0, hl)) == Ok::<_, HeaderError>((addrs, 2int, hl)),
{
    // Version 2 can only come from the binary branch: the v1 text
    // branch reports version 1.
    if s.len() >= 6 && s.subrange(0, 6) == v1_prefix() {
        assert(spec_parse_v1(s) == spec_parse_header(s));
        assert(false);
    }
    assert(s.len() >= 13 && s.subrange(0, 12) == v2_signature());
    let h = s.subrange(0, hl);
    assert(s.subrange(0, hl) + s.skip(hl) =~= s);
    assert(h.len() == hl);
    assert(forall|x: int| 0 <= x < hl ==> h[x] == s[x]);
    assert(h.subrange(0, 12) =~= s.subrange(0, 12));
    assert(h.len() >= 16);
    assert(h[12] == s[12] && h[13] == s[13] && h[14] == s[14] && h[15] == s[15]);
    let dlen = (s[14] as int) * 256 + s[15];
    let fam = s[13] / 16;
    assert(!(s.subrange(0, 6) == v1_prefix())) by {
        assert(s.subrange(0, 6)[0] == s[0]);
        assert(s[0] == v2_signature()[0]);
        assert(v2_signature()[0] != v1_prefix()[0]);
    }
    assert(!(h.subrange(0, 6) == v1_prefix())) by {
        assert(h.subrange(0, 6)[0] == h[0]);
        assert(h[0] == s[0]);
        assert(v2_signature()[0] != v1_prefix()[0]);
    }
    if fam == 0 {
        assert(spec_parse_v2(h) == Ok::<_, HeaderError>((addrs, 2int, hl)));
    } else if fam == 1 {
        assert(hl >= 28);
        assert(h.subrange(16, 20) =~= s.subrange(16, 20));
        assert(h.subrange(20, 24) =~= s.subrange(20, 24));
        assert(h.subrange(24, 26) =~= s.subrange(24, 26));
        assert(h.subrange(26, 28) =~= s.subrange(26, 28));
    } else {
        assert(fam == 2);
        assert(hl >= 52);
        assert(h.subrange(16, 32) =~= s.subrange(16, 32));
        assert(h.subrange(32, 48) =~= s.subrange(32, 48));
        assert(h.subrange(48, 50) =~= s.subrange(48, 50));
        assert(h.subrange(50, 52) =~= s.subrange(50, 52));
    }
}

} // verus!
