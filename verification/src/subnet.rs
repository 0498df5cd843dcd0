use vstd::prelude::*;
use vstd::arithmetic::power2::{pow2, lemma_pow2_unfold, lemma_pow2_strictly_increases, lemma_pow2_adds, lemma2_to64};
use vstd::arithmetic::div_mod::lemma_basic_div;

use crate::net::IpAddress;

verus! {

/// A CIDR block: a network address and a prefix length.  Well-formed
/// blocks have the prefix length within the family's bit width and all
/// host bits of the network address zero, as in standard notation.
#[derive(Clone, Copy, PartialEq, Eq, Structural, Debug)]
pub struct Cidr {
    pub ip: IpAddress,
    pub prefix_len: u8,
}

impl Cidr {
    /// Number of address bits of this block's family.
    pub open spec fn spec_bits(self) -> nat {
        match self.ip {
            IpAddress::V4(_) => 32,
            IpAddress::V6(_) => 128,
        }
    }

    /// The numeric value of the network address.
    pub open spec fn spec_value(self) -> nat {
        match self.ip {
            IpAddress::V4(a) => a as nat,
            IpAddress::V6(a) => a as nat,
        }
    }

    /// The prefix length is within the family's width and the host part
    /// of the network address is zero.
    pub open spec fn wf(self) -> bool {
        self.prefix_len <= self.spec_bits()
            && self.spec_value() % pow2((self.spec_bits() - self.prefix_len) as nat) == 0
    }

    /// An address lies in the block when it is of the same family and
    /// agrees with the network address on the first `prefix_len` bits,
    /// that is, both yield the same quotient by 2^(host bits).
    pub open spec fn spec_contains(self, addr: IpAddress) -> bool {
        match (self.ip, addr) {
            (IpAddress::V4(n), IpAddress::V4(a)) => {
                (a as nat) / pow2((32 - self.prefix_len) as nat)
                    == (n as nat) / pow2((32 - self.prefix_len) as nat)
            },
            (IpAddress::V6(n), IpAddress::V6(a)) => {
                (a as nat) / pow2((128 - self.prefix_len) as nat)
                    == (n as nat) / pow2((128 - self.prefix_len) as nat)
            },
            _ => false,
        }
    }

    pub fn contains(&self, addr: &IpAddress) -> (r: bool)
        requires
            self.wf(),
        ensures
            r == self.spec_contains(*addr),
    {
        match (self.ip, addr) {
            (IpAddress::V4(n), IpAddress::V4(a)) => {
                let host_bits: u8 = 32 - self.prefix_len;
                let d: u64 = pow2_u64(host_bits);
                proof {
                    lemma_pow2_pos_u64(host_bits as nat);
                }
                (*a as u64) / d == (n as u64) / d
            },
            (IpAddress::V6(n), IpAddress::V6(a)) => {
                if self.prefix_len == 0 {
                    proof {
                        pow2_128_value();
                        lemma_basic_div(*a as int, pow2(128) as int);
                        lemma_basic_div(n as int, pow2(128) as int);
                    }
                    true
                } else {
                    let host_bits: u8 = 128 - self.prefix_len;
                    let d: u128 = pow2_u128(host_bits);
                    proof {
                        lemma_pow2_pos_u128(host_bits as nat);
                    }
                    *a / d == n / d
                }
            },
            _ => false,
        }
    }
}

/// 2^128 written out, for bounds on 128-bit address arithmetic.
pub proof fn pow2_128_value()
    ensures
        pow2(128) == 0x100000000000000000000000000000000,
{
    lemma2_to64();
    lemma_pow2_adds(64, 64);
}

proof fn lemma_pow2_pos_u64(e: nat)
    ensures
        pow2(e) > 0,
    decreases e,
{
    if e == 0 {
        lemma2_to64();
    } else {
        lemma_pow2_pos_u64((e - 1) as nat);
        lemma_pow2_unfold(e);
    }
}

proof fn lemma_pow2_pos_u128(e: nat)
    ensures
        pow2(e) > 0,
{
    lemma_pow2_pos_u64(e);
}

/// 2^k as a 64-bit value, for host-bit divisors of IPv4 blocks.
pub fn pow2_u64(k: u8) -> (r: u64)
    requires
        k <= 32,
    ensures
        r == pow2(k as nat),
{
    let mut r: u64 = 1;
    let mut i: u8 = 0;
    proof {
        lemma2_to64();
    }
    while i < k
        invariant
            i <= k,
            k <= 32,
            r == pow2(i as nat),
        decreases k - i,
    {
        proof {
            lemma_pow2_unfold((i + 1) as nat);
            if ((i + 1) as nat) < 64 {
                lemma_pow2_strictly_increases((i + 1) as nat, 64);
            }
            lemma2_to64();
        }
        r = r * 2;
        i = i + 1;
    }
    r
}

/// 2^k as a 128-bit value, for host-bit divisors of IPv6 blocks.
pub fn pow2_u128(k: u8) -> (r: u128)
    requires
        k <= 127,
    ensures
        r == pow2(k as nat),
{
    let mut r: u128 = 1;
    let mut i: u8 = 0;
    proof {
        lemma2_to64();
    }
    while i < k
        invariant
            i <= k,
            k <= 127,
            r == pow2(i as nat),
        decreases k - i,
    {
        proof {
            lemma_pow2_unfold((i + 1) as nat);
            lemma_pow2_strictly_increases((i + 1) as nat, 128);
            pow2_128_value();
        }
        r = r * 2;
        i = i + 1;
    }
    r
}

/// True when some block of the list contains the address.
pub open spec fn spec_origin_allowed(addr: IpAddress, subnets: Seq<Cidr>) -> bool {
    exists|i: int| 0 <= i < subnets.len() && subnets[i].spec_contains(addr)
}

/// The allowed-subnets filter: whether any configured block contains the
/// peer address.  Callers only consult this when a list is configured;
/// an absent list means that every origin is admitted.
pub fn check_origin_allowed(addr: &IpAddress, subnets: &[Cidr]) -> (r: bool)
    requires
        forall|i: int| 0 <= i < subnets@.len() ==> (#[trigger] subnets@[i]).wf(),
    ensures
        r == spec_origin_allowed(*addr, subnets@),
{
    let n = subnets.len();
    let mut i: usize = 0;
    while i < n
        invariant
            i <= n,
            n == subnets@.len(),
            forall|j: int| 0 <= j < subnets@.len() ==> (#[trigger] subnets@[j]).wf(),
            forall|j: int| 0 <= j < i ==> !(#[trigger] subnets@[j]).spec_contains(*addr),
        decreases n - i,
    {
        if subnets[i].contains(addr) {
            return true;
        }
        i = i + 1;
    }
    false
}


/// A CIDR line: an address, optionally followed by a slash and a
/// prefix length.  Without a slash the line names a host block of full
/// length.  The prefix length must fit the family and every host bit of
/// the address must be zero, as the standard notation demands.
#[verifier::opaque]
pub open spec fn spec_parse_cidr(s: Seq<u8>) -> Option<Cidr> {
    match crate::text::find_from(s, 0, crate::text::SLASH) {
        None => match crate::iptext::spec_parse_ipv4(s) {
            Some(a) => Some(Cidr { ip: IpAddress::V4(a), prefix_len: 32 }),
            None => match crate::iptext::spec_parse_ipv6(s) {
                Some(a) => Some(Cidr { ip: IpAddress::V6(a), prefix_len: 128 }),
                None => None,
            },
        },
        Some(i) => {
            let plen = crate::text::spec_parse_dec_bounded(s.skip(i + 1), 255);
            match crate::iptext::spec_parse_ipv4(s.take(i)) {
                Some(a) => match plen {
                    Some(l) => {
                        if l <= 32 && (a as nat) % pow2((32 - l) as nat) == 0 {
                            Some(Cidr { ip: IpAddress::V4(a), prefix_len: l as u8 })
                        } else {
                            None
                        }
                    },
                    None => None,
                },
                None => match crate::iptext::spec_parse_ipv6(s.take(i)) {
                    Some(a) => match plen {
                        Some(l) => {
                            if l <= 128 && (a as nat) % pow2((128 - l) as nat) == 0 {
                                Some(Cidr { ip: IpAddress::V6(a), prefix_len: l as u8 })
                            } else {
                                None
                            }
                        },
                        None => None,
                    },
                    None => None,
                },
            }
        },
    }
}

/// Parses the token `buf[from..to]` as a CIDR line.  A parsed block is
/// well-formed.
pub fn parse_cidr(buf: &[u8], from: usize, to: usize) -> (r: Option<Cidr>)
    requires
        from <= to <= buf@.len(),
    ensures
        r == spec_parse_cidr(buf@.subrange(from as int, to as int)),
        r is Some ==> r->0.wf(),
{
    proof {
        reveal(spec_parse_cidr);
    }
    let ghost s = buf@.subrange(from as int, to as int);
    match crate::iptext::find_sep_rel(buf, from, to, from, crate::text::SLASH) {
        None => {
            match crate::iptext::parse_ipv4(buf, from, to) {
                Some(a) => {
                    proof {
                        lemma2_to64();
                        assert((a as nat) % pow2(0) == 0);
                    }
                    Some(Cidr { ip: IpAddress::V4(a), prefix_len: 32 })
                },
                None => match crate::iptext::parse_ipv6(buf, from, to) {
                    Some(a) => {
                        proof {
                            lemma2_to64();
                            assert((a as nat) % pow2(0) == 0);
                        }
                        Some(Cidr { ip: IpAddress::V6(a), prefix_len: 128 })
                    },
                    None => None,
                },
            }
        },
        Some(i) => {
            proof {
                assert(buf@.subrange(from as int, i as int) =~= s.take(i - from));
                assert(buf@.subrange(i + 1, to as int) =~= s.skip(i - from + 1));
            }
            let plen = match crate::text::parse_dec_bounded(buf, i + 1, to, 255) {
                Some(l) => l,
                None => {
                    return None;
                },
            };
            match crate::iptext::parse_ipv4(buf, from, i) {
                Some(a) => {
                    if plen <= 32 {
                        let d = pow2_u64((32 - plen) as u8);
                        proof {
                            lemma_pow2_pos_u64((32 - plen) as nat);
                        }
                        if (a as u64) % d == 0 {
                            Some(Cidr { ip: IpAddress::V4(a), prefix_len: plen as u8 })
                        } else {
                            None
                        }
                    } else {
                        None
                    }
                },
                None => match crate::iptext::parse_ipv6(buf, from, i) {
                    Some(a) => {
                        if plen <= 128 {
                            if plen == 0 {
                                proof {
                                    pow2_128_value();
                                    vstd::arithmetic::div_mod::lemma_small_mod(
                                        a as nat,
                                        pow2(128),
                                    );
                                }
                                if a == 0 {
                                    Some(Cidr { ip: IpAddress::V6(0), prefix_len: 0 })
                                } else {
                                    None
                                }
                            } else {
                                let d = pow2_u128((128 - plen) as u8);
                                proof {
                                    lemma_pow2_pos_u128((128 - plen) as nat);
                                }
                                if a % d == 0 {
                                    Some(Cidr { ip: IpAddress::V6(a), prefix_len: plen as u8 })
                                } else {
                                    None
                                }
                            }
                        } else {
                            None
                        }
                    },
                    None => None,
                },
            }
        },
    }
}

/// A line with its trailing carriage return removed.
pub open spec fn strip_cr(l: Seq<u8>) -> Seq<u8> {
    if l.len() > 0 && l.last() == crate::text::CR {
        l.drop_last()
    } else {
        l
    }
}

/// The allowed-subnets file: one CIDR per line, blank lines skipped,
/// any failing line failing the whole file.
#[verifier::opaque]
pub open spec fn spec_parse_subnets(s: Seq<u8>) -> Option<Seq<Cidr>>
    decreases s.len(),
        via spec_parse_subnets_dec
{
    if s.len() == 0 {
        Some(Seq::empty())
    } else {
        match crate::text::find_from(s, 0, crate::text::LF) {
            None => {
                match spec_parse_cidr(s) {
                    Some(c) => Some(seq![c]),
                    None => None,
                }
            },
            Some(i) => {
                let line = strip_cr(s.take(i));
                match spec_parse_subnets(s.skip(i + 1)) {
                    None => None,
                    Some(r) => {
                        if line.len() == 0 {
                            Some(r)
                        } else {
                            match spec_parse_cidr(line) {
                                Some(c) => Some(seq![c] + r),
                                None => None,
                            }
                        }
                    },
                }
            },
        }
    }
}

#[via_fn]
proof fn spec_parse_subnets_dec(s: Seq<u8>) {
    crate::text::lemma_find_from_props(s, 0, crate::text::LF);
}

proof fn lemma_subnets_empty(s: Seq<u8>)
    requires
        s.len() == 0,
    ensures
        spec_parse_subnets(s) == Some(Seq::<Cidr>::empty()),
{
    reveal(spec_parse_subnets);
}

proof fn lemma_subnets_last(s: Seq<u8>)
    requires
        s.len() > 0,
        crate::text::find_from(s, 0, crate::text::LF) is None,
    ensures
        spec_parse_subnets(s) == (match spec_parse_cidr(s) {
            Some(c) => Some(seq![c]),
            None => None,
        }),
{
    reveal(spec_parse_subnets);
}

proof fn lemma_subnets_step(s: Seq<u8>, i: int)
    requires
        s.len() > 0,
        crate::text::find_from(s, 0, crate::text::LF) == Some(i),
    ensures
        spec_parse_subnets(s) == (match spec_parse_subnets(s.skip(i + 1)) {
            None => None::<Seq<Cidr>>,
            Some(r) => {
                if strip_cr(s.take(i)).len() == 0 {
                    Some(r)
                } else {
                    match spec_parse_cidr(strip_cr(s.take(i))) {
                        Some(c) => Some(seq![c] + r),
                        None => None,
                    }
                }
            },
        }),
{
    reveal(spec_parse_subnets);
}

/// Parses the contents of an allowed-subnets file.  Yields the blocks
/// in file order exactly when every non-blank line is a valid CIDR;
/// each block is well-formed.
pub fn parse_allowed_subnets(contents: &[u8]) -> (r: Option<Vec<Cidr>>)
    ensures
        match r {
            Some(v) => spec_parse_subnets(contents@) == Some(v@) && forall|i: int|
                0 <= i < v@.len() ==> (#[trigger] v@[i]).wf(),
            None => spec_parse_subnets(contents@) is None,
        },
{
    let n = contents.len();
    let mut out: Vec<Cidr> = Vec::new();
    let mut pos: usize = 0;
    proof {
        assert(contents@.skip(0) =~= contents@);
        assert(out@ =~= Seq::<Cidr>::empty());
    }
    loop
        invariant
            pos <= n == contents@.len(),
            forall|i: int| 0 <= i < out@.len() ==> (#[trigger] out@[i]).wf(),
            ({
                let srem = contents@.skip(pos as int);
                match spec_parse_subnets(srem) {
                    Some(r) => spec_parse_subnets(contents@) == Some(out@ + r),
                    None => spec_parse_subnets(contents@) is None,
                }
            }),
        decreases n - pos,
    {
        let ghost srem = contents@.skip(pos as int);
        if pos == n {
            proof {
                lemma_subnets_empty(srem);
                assert(out@ + Seq::<Cidr>::empty() =~= out@);
            }
            return Some(out);
        }
        match crate::iptext::find_sep_rel(contents, pos, n, pos, crate::text::LF) {
            None => {
                // Final line, no newline after it.
                proof {
                    assert(contents@.subrange(pos as int, n as int) =~= srem);
                    lemma_subnets_last(srem);
                }
                match parse_cidr(contents, pos, n) {
                    Some(c) => {
                        proof {
                            assert(out@.push(c) =~= out@ + seq![c]);
                        }
                        out.push(c);
                        return Some(out);
                    },
                    None => {
                        return None;
                    },
                }
            },
            Some(i) => {
                // The line runs to position i; a trailing CR is not
                // part of it.
                let line_end = if i > pos && contents[i - 1] == 13 {
                    i - 1
                } else {
                    i
                };
                proof {
                    lemma_subnets_step(srem, i - pos);
                    assert(srem.take(i - pos) =~= contents@.subrange(pos as int, i as int));
                    assert(strip_cr(srem.take(i - pos)) =~= contents@.subrange(
                        pos as int,
                        line_end as int,
                    ));
                    assert(srem.skip(i - pos + 1) =~= contents@.skip(i + 1));
                }
                if line_end == pos {
                    // Blank line.
                    pos = i + 1;
                } else {
                    match parse_cidr(contents, pos, line_end) {
                        Some(c) => {
                            proof {
                                let rest = spec_parse_subnets(contents@.skip(i + 1));
                                if rest is Some {
                                    assert((out@ + seq![c]) + rest->0 =~= out@ + (seq![c]
                                        + rest->0));
                                    assert(out@.push(c) =~= out@ + seq![c]);
                                }
                            }
                            out.push(c);
                            pos = i + 1;
                        },
                        None => {
                            return None;
                        },
                    }
                }
            },
        }
    }
}

} // verus!
