use vstd::prelude::*;
use vstd::arithmetic::div_mod::{lemma_fundamental_div_mod, lemma_div_denominator};

use crate::text::{
    DOT, COLON, D0, D9, LC_A, LC_F, UC_A, UC_F, is_dec_digit, is_hex_digit, hex_digit_val,
    all_dec_digits, all_hex_digits, dec_value, dec_digits, hex_value, hex_digits, hex_digit_of,
    canonical_dec, find_from, find_byte, lemma_find_from_props, lemma_find_from_exact,
    lemma_find_from_none, lemma_dec_digits_ok, lemma_hex_digits_ok, lemma_hex_digits_len,
    spec_parse_dec_bounded, parse_dec_bounded,
};

verus! {

/// An IPv4 octet token: canonical decimal, value at most 255.
pub open spec fn spec_parse_octet(s: Seq<u8>) -> Option<nat> {
    spec_parse_dec_bounded(s, 255)
}

/// Textual IPv4 address: four octet tokens separated by dots, as in
/// standard dotted-quad notation.  Yields the 32-bit address value.
pub open spec fn spec_parse_ipv4(s: Seq<u8>) -> Option<u32> {
    match find_from(s, 0, DOT) {
        None => None,
        Some(i) => match find_from(s, i + 1, DOT) {
            None => None,
            Some(j) => match find_from(s, j + 1, DOT) {
                None => None,
                Some(k) => match (
                    spec_parse_octet(s.take(i)),
                    spec_parse_octet(s.subrange(i + 1, j)),
                    spec_parse_octet(s.subrange(j + 1, k)),
                    spec_parse_octet(s.skip(k + 1)),
                ) {
                    (Some(a), Some(b), Some(c), Some(d)) => Some(
                        (a * 0x1000000 + b * 0x10000 + c * 0x100 + d) as u32,
                    ),
                    _ => None,
                },
            },
        },
    }
}

/// Parses the token `buf[from..to]` as a textual IPv4 address.
pub fn parse_ipv4(buf: &[u8], from: usize, to: usize) -> (r: Option<u32>)
    requires
        from <= to <= buf@.len(),
    ensures
        r == spec_parse_ipv4(buf@.subrange(from as int, to as int)),
{
    let ghost s = buf@.subrange(from as int, to as int);
    let d1 = match find_sep_rel(buf, from, to, from, DOT) {
        Some(i) => i,
        None => {
            return None;
        },
    };
    let d2 = match find_sep_rel(buf, from, to, d1 + 1, DOT) {
        Some(i) => i,
        None => {
            return None;
        },
    };
    let d3 = match find_sep_rel(buf, from, to, d2 + 1, DOT) {
        Some(i) => i,
        None => {
            return None;
        },
    };
    let o1 = parse_dec_bounded(buf, from, d1, 255);
    let o2 = parse_dec_bounded(buf, d1 + 1, d2, 255);
    let o3 = parse_dec_bounded(buf, d2 + 1, d3, 255);
    let o4 = parse_dec_bounded(buf, d3 + 1, to, 255);
    proof {
        assert(buf@.subrange(from as int, d1 as int) =~= s.take(d1 - from));
        assert(buf@.subrange(d1 + 1, d2 as int) =~= s.subrange(d1 + 1 - from, d2 - from));
        assert(buf@.subrange(d2 + 1, d3 as int) =~= s.subrange(d2 + 1 - from, d3 - from));
        assert(buf@.subrange(d3 + 1, to as int) =~= s.skip(d3 + 1 - from));
    }
    match (o1, o2, o3, o4) {
        (Some(a), Some(b), Some(c), Some(d)) => {
            let v: u32 = a * 0x1000000 + b * 0x10000 + c * 0x100 + d;
            Some(v)
        },
        _ => None,
    }
}

/// Finds the next separator of the token `buf[from..to]`, reporting the
/// position in absolute coordinates while relating it to the
/// token-relative search that the grammar speaks of.
pub(crate) fn find_sep_rel(buf: &[u8], from: usize, to: usize, start: usize, sep: u8) -> (r: Option<usize>)
    requires
        from <= start <= to <= buf@.len(),
    ensures
        ({
            let s = buf@.subrange(from as int, to as int);
            match r {
                Some(i) => start <= i < to && find_from(s, start - from, sep) == Some(i - from),
                None => find_from(s, start - from, sep) == None::<int>,
            }
        }),
{
    let ghost s = buf@.subrange(from as int, to as int);
    let r = find_byte(buf, start, to, sep);
    proof {
        assert(forall|j: int| 0 <= j < s.len() ==> s[j] == buf@[from + j]);
        match r {
            Some(i) => {
                lemma_find_from_props(buf@.take(to as int), start as int, sep);
                assert(s[i - from] == sep);
                assert forall|j: int| start - from <= j < i - from implies s[j] != sep by {
                    assert(s[j] == buf@[from + j]);
                    assert(buf@.take(to as int)[from + j] == buf@[from + j]);
                    assert(buf@.take(to as int)[from + j] != sep);
                }
                lemma_find_from_exact(s, start - from, sep, i - from);
            },
            None => {
                lemma_find_from_props(buf@.take(to as int), start as int, sep);
                assert forall|j: int| start - from <= j < s.len() implies s[j] != sep by {
                    assert(s[j] == buf@[from + j]);
                    assert(buf@.take(to as int)[from + j] == buf@[from + j]);
                    assert(buf@.take(to as int)[from + j] != sep);
                }
                lemma_find_from_none(s, start - from, sep);
            },
        }
    }
    r
}

/// The canonical dotted-quad text of an IPv4 address value.
pub open spec fn spec_format_ipv4(a: u32) -> Seq<u8> {
    dec_digits((a as nat) / 0x1000000) + seq![DOT] + dec_digits(((a as nat) / 0x10000) % 0x100)
        + seq![DOT] + dec_digits(((a as nat) / 0x100) % 0x100) + seq![DOT] + dec_digits(
        (a as nat) % 0x100,
    )
}

/// Digit strings contain no separator bytes.
proof fn lemma_digits_no_sep(s: Seq<u8>)
    requires
        all_dec_digits(s),
    ensures
        forall|j: int| 0 <= j < s.len() ==> s[j] != DOT && s[j] != COLON,
{
}

/// Parsing the canonical dotted-quad text of an address value yields
/// that value back.
pub proof fn lemma_ipv4_round_trip(a: u32)
    ensures
        spec_parse_ipv4(spec_format_ipv4(a)) == Some(a),
{
    let n = a as nat;
    let o1 = n / 0x1000000;
    let o2 = (n / 0x10000) % 0x100;
    let o3 = (n / 0x100) % 0x100;
    let o4 = n % 0x100;
    let t1 = dec_digits(o1);
    let t2 = dec_digits(o2);
    let t3 = dec_digits(o3);
    let t4 = dec_digits(o4);
    lemma_dec_digits_ok(o1);
    lemma_dec_digits_ok(o2);
    lemma_dec_digits_ok(o3);
    lemma_dec_digits_ok(o4);
    let s = spec_format_ipv4(a);
    assert(s =~= t1 + seq![DOT] + t2 + seq![DOT] + t3 + seq![DOT] + t4);
    let i = t1.len() as int;
    let j = i + 1 + t2.len() as int;
    let k = j + 1 + t3.len() as int;
    assert(s.len() == k + 1 + t4.len());
    assert(s[i] == DOT && s[j] == DOT && s[k] == DOT);
    assert(forall|x: int| 0 <= x < i ==> s[x] == t1[x]);
    assert(forall|x: int| i + 1 <= x < j ==> s[x] == t2[x - i - 1]);
    assert(forall|x: int| j + 1 <= x < k ==> s[x] == t3[x - j - 1]);
    assert(forall|x: int| k + 1 <= x < s.len() ==> s[x] == t4[x - k - 1]);
    assert(forall|x: int| 0 <= x < i ==> s[x] != DOT) by {
        lemma_digits_no_sep(t1);
    }
    assert(forall|x: int| i + 1 <= x < j ==> s[x] != DOT) by {
        lemma_digits_no_sep(t2);
    }
    assert(forall|x: int| j + 1 <= x < k ==> s[x] != DOT) by {
        lemma_digits_no_sep(t3);
    }
    lemma_find_from_exact(s, 0, DOT, i);
    lemma_find_from_exact(s, i + 1, DOT, j);
    lemma_find_from_exact(s, j + 1, DOT, k);
    assert(s.take(i) =~= t1);
    assert(s.subrange(i + 1, j) =~= t2);
    assert(s.subrange(j + 1, k) =~= t3);
    assert(s.skip(k + 1) =~= t4);
    // The four octet values are within range and recompose the address.
    assert(o1 <= 255) by {
        lemma_div_denominator(n as int, 0x1000000, 0x100);
        assert(n / 0x100000000 == 0) by {
            vstd::arithmetic::div_mod::lemma_basic_div(n as int, 0x100000000);
        }
        assert(o1 / 0x100 == 0);
        if o1 > 255 {
            assert(o1 >= 0x100);
            assert(o1 / 0x100 >= 1) by {
                vstd::arithmetic::div_mod::lemma_div_is_ordered(0x100, o1 as int, 0x100);
            }
        }
    }
    assert(spec_parse_octet(t1) == Some(o1));
    assert(spec_parse_octet(t2) == Some(o2));
    assert(spec_parse_octet(t3) == Some(o3));
    assert(spec_parse_octet(t4) == Some(o4));
    lemma_ipv4_recompose(n);
    assert(spec_parse_ipv4(s) == Some((o1 * 0x1000000 + o2 * 0x10000 + o3 * 0x100 + o4) as u32));
}

/// An address value is rebuilt from its four octets.
proof fn lemma_ipv4_recompose(n: nat)
    requires
        n < 0x100000000,
    ensures
        (n / 0x1000000) * 0x1000000 + ((n / 0x10000) % 0x100) * 0x10000 + ((n / 0x100) % 0x100)
            * 0x100 + n % 0x100 == n,
{
    let r1 = n / 0x100;
    let r2 = n / 0x10000;
    let r3 = n / 0x1000000;
    lemma_fundamental_div_mod(n as int, 0x100);
    lemma_fundamental_div_mod(r1 as int, 0x100);
    lemma_fundamental_div_mod(r2 as int, 0x100);
    lemma_div_denominator(n as int, 0x100, 0x100);
    lemma_div_denominator(n as int, 0x10000, 0x100);
    assert(r1 / 0x100 == r2);
    assert(r2 / 0x100 == r3);
    assert(n == (r1 * 0x100 + n % 0x100));
    assert(r1 == (r2 * 0x100 + r1 % 0x100));
    assert(r2 == (r3 * 0x100 + r2 % 0x100));
}


/// 16^k, for hex-token value bounds.
pub open spec fn hpow(k: nat) -> nat
    decreases k,
{
    if k == 0 {
        1
    } else {
        16 * hpow((k - 1) as nat)
    }
}

/// 65536^k, the weight of an IPv6 group.
pub open spec fn gpow(k: nat) -> nat
    decreases k,
{
    if k == 0 {
        1
    } else {
        0x10000 * gpow((k - 1) as nat)
    }
}

pub proof fn lemma_gpow_values()
    ensures
        gpow(1) == 0x10000,
        gpow(2) == 0x100000000,
        gpow(7) == 0x10000000000000000000000000000,
        gpow(8) == 0x100000000000000000000000000000000,
{
    assert(gpow(0) == 1);
    assert(gpow(1) == 0x10000);
    assert(gpow(2) == 0x100000000);
    assert(gpow(3) == 0x1000000000000);
    assert(gpow(4) == 0x10000000000000000);
    assert(gpow(5) == 0x100000000000000000000);
    assert(gpow(6) == 0x1000000000000000000000000);
    assert(gpow(7) == 0x10000000000000000000000000000);
    assert(gpow(8) == 0x100000000000000000000000000000000);
}

/// The value of a string of hex digits is below 16^length.
pub proof fn lemma_hex_value_bound(s: Seq<u8>)
    requires
        all_hex_digits(s),
    ensures
        hex_value(s) < hpow(s.len()),
    decreases s.len(),
{
    if s.len() > 0 {
        assert(all_hex_digits(s.drop_last())) by {
            assert(forall|i: int| 0 <= i < s.len() - 1 ==> s.drop_last()[i] == s[i]);
        }
        lemma_hex_value_bound(s.drop_last());
        assert(is_hex_digit(s.last()));
        assert(crate::text::hex_digit_val(s.last()) <= 15);
    }
}

/// An IPv6 group token: one to four hex digits.
pub open spec fn spec_parse_hex_group(s: Seq<u8>) -> Option<nat> {
    if 1 <= s.len() <= 4 && all_hex_digits(s) {
        Some(hex_value(s))
    } else {
        None
    }
}

pub proof fn lemma_hex_group_bound(s: Seq<u8>)
    requires
        spec_parse_hex_group(s) is Some,
    ensures
        spec_parse_hex_group(s)->0 < 0x10000,
{
    lemma_hex_value_bound(s);
    assert(hpow(0) == 1);
    assert(hpow(1) == 16);
    assert(hpow(2) == 256);
    assert(hpow(3) == 4096);
    assert(hpow(4) == 0x10000);
    if s.len() == 1 {
        assert(hex_value(s) < hpow(1));
    } else if s.len() == 2 {
        assert(hex_value(s) < hpow(2));
    } else if s.len() == 3 {
        assert(hex_value(s) < hpow(3));
    } else {
        assert(hex_value(s) < hpow(4));
    }
}

/// Smallest index at or after `from` where two colons stand adjacent.
pub open spec fn find_dcolon_from(s: Seq<u8>, from: int) -> Option<int>
    decreases s.len() - from,
{
    if from < 0 || from + 1 >= s.len() {
        None
    } else if s[from] == COLON && s[from + 1] == COLON {
        Some(from)
    } else {
        find_dcolon_from(s, from + 1)
    }
}

pub proof fn lemma_find_dcolon_exact(s: Seq<u8>, from: int, i: int)
    requires
        0 <= from <= i,
        i + 1 < s.len(),
        s[i] == COLON && s[i + 1] == COLON,
        forall|j: int| from <= j < i ==> !((#[trigger] s[j]) == COLON && s[j + 1] == COLON),
    ensures
        find_dcolon_from(s, from) == Some(i),
    decreases i - from,
{
    if from < i {
        lemma_find_dcolon_exact(s, from + 1, i);
    }
}

pub proof fn lemma_find_dcolon_none(s: Seq<u8>, from: int)
    requires
        0 <= from,
        forall|j: int| from <= j < s.len() - 1 ==> !((#[trigger] s[j]) == COLON && s[j + 1] == COLON),
    ensures
        find_dcolon_from(s, from) == None::<int>,
    decreases s.len() - from,
{
    if from + 1 < s.len() {
        lemma_find_dcolon_none(s, from + 1);
    }
}

/// A ':'-separated list of group tokens.  Every token must be a hex
/// group, except that the final token may instead be an embedded
/// dotted-quad IPv4 address (two groups) when `allow_v4` is set, as at
/// the end of a mixed-notation address.
pub open spec fn spec_parse_group_list(s: Seq<u8>, allow_v4: bool) -> Option<Seq<nat>>
    decreases s.len(),
        via spec_parse_group_list_dec
{
    match find_from(s, 0, COLON) {
        None => {
            if allow_v4 && spec_parse_ipv4(s) is Some {
                let v = spec_parse_ipv4(s)->0 as nat;
                Some(seq![v / 0x10000, v % 0x10000])
            } else {
                match spec_parse_hex_group(s) {
                    Some(g) => Some(seq![g]),
                    None => None,
                }
            }
        },
        Some(i) => {
            match spec_parse_hex_group(s.take(i)) {
                None => None,
                Some(g) => {
                    match spec_parse_group_list(s.skip(i + 1), allow_v4) {
                        None => None,
                        Some(r) => Some(seq![g] + r),
                    }
                },
            }
        },
    }
}

#[via_fn]
proof fn spec_parse_group_list_dec(s: Seq<u8>, allow_v4: bool) {
    lemma_find_from_props(s, 0, COLON);
}

/// The 128-bit value of a sequence of 16-bit groups, most significant
/// group first.
pub open spec fn groups_value(g: Seq<nat>) -> nat
    decreases g.len(),
{
    if g.len() == 0 {
        0
    } else {
        groups_value(g.drop_last()) * 0x10000 + g.last()
    }
}

pub proof fn lemma_groups_value_bound(g: Seq<nat>)
    requires
        forall|i: int| 0 <= i < g.len() ==> #[trigger] g[i] < 0x10000,
    ensures
        groups_value(g) < gpow(g.len()),
    decreases g.len(),
{
    if g.len() > 0 {
        assert(forall|i: int| 0 <= i < g.len() - 1 ==> g.drop_last()[i] == g[i]);
        lemma_groups_value_bound(g.drop_last());
        assert(g.last() < 0x10000);
    }
}

pub open spec fn zero_groups(n: nat) -> Seq<nat> {
    Seq::new(n, |i: int| 0nat)
}

/// Textual IPv6 address, as in standard notation: eight hex groups
/// separated by colons, a single "::" standing for one or more zero
/// groups, and optionally a trailing embedded IPv4 address counting as
/// the last two groups.  Yields the 128-bit address value.
pub open spec fn spec_parse_ipv6(s: Seq<u8>) -> Option<u128> {
    match find_dcolon_from(s, 0) {
        None => {
            match spec_parse_group_list(s, true) {
                None => None,
                Some(g) => {
                    if g.len() == 8 {
                        Some(groups_value(g) as u128)
                    } else {
                        None
                    }
                },
            }
        },
        Some(i) => {
            let head = s.take(i);
            let tail = s.skip(i + 2);
            let hg = if head.len() == 0 {
                Some(Seq::<nat>::empty())
            } else {
                spec_parse_group_list(head, false)
            };
            let tg = if tail.len() == 0 {
                Some(Seq::<nat>::empty())
            } else {
                spec_parse_group_list(tail, true)
            };
            match (hg, tg) {
                (Some(h), Some(t)) => {
                    if h.len() + t.len() <= 7 {
                        Some(
                            groups_value(
                                h + zero_groups((8 - h.len() - t.len()) as nat) + t,
                            ) as u128,
                        )
                    } else {
                        None
                    }
                },
                _ => None,
            }
        },
    }
}


/// View of a group vector as the group-value sequence the grammar
/// speaks of.
pub open spec fn groups_view(v: Seq<u16>) -> Seq<nat> {
    v.map_values(|x: u16| x as nat)
}

/// Parses the token `buf[from..to]` as a single hex group.
fn parse_hex_group(buf: &[u8], from: usize, to: usize) -> (r: Option<u16>)
    requires
        from <= to <= buf@.len(),
    ensures
        ({
            let s = buf@.subrange(from as int, to as int);
            match r {
                Some(v) => spec_parse_hex_group(s) == Some(v as nat),
                None => spec_parse_hex_group(s) is None,
            }
        }),
{
    let ghost s = buf@.subrange(from as int, to as int);
    if to - from < 1 || to - from > 4 {
        return None;
    }
    let mut acc: u32 = 0;
    let mut i: usize = from;
    while i < to
        invariant
            from <= i <= to <= buf@.len(),
            to - from <= 4,
            s == buf@.subrange(from as int, to as int),
            all_hex_digits(s.take(i - from)),
            acc == hex_value(s.take(i - from)),
        decreases to - i,
    {
        let b = buf[i];
        proof {
            assert(s[i - from] == b);
        }
        let d: u32 = if D0 <= b && b <= D9 {
            (b - D0) as u32
        } else if LC_A <= b && b <= LC_F {
            (b - LC_A + 10) as u32
        } else if UC_A <= b && b <= UC_F {
            (b - UC_A + 10) as u32
        } else {
            proof {
                assert(!is_hex_digit(s[i - from]));
            }
            return None;
        };
        proof {
            assert(hex_digit_val(s[i - from]) == d);
            lemma_hex_value_bound(s.take(i - from));
            assert(hpow(0) == 1);
            assert(hpow(1) == 16);
            assert(hpow(2) == 256);
            assert(hpow(3) == 4096);
            assert(s.take(i - from + 1).drop_last() =~= s.take(i - from));
            assert(s.take(i - from + 1).last() == s[i - from]);
        }
        acc = acc * 16 + d;
        proof {
            assert forall|j: int| 0 <= j < i - from + 1 implies is_hex_digit(
                #[trigger] s.take(i - from + 1)[j],
            ) by {
                if j < i - from {
                    assert(s.take(i - from + 1)[j] == s.take(i - from)[j]);
                    assert(is_hex_digit(s.take(i - from)[j]));
                } else {
                    assert(s.take(i - from + 1)[j] == s[i - from]);
                }
            }
        }
        i = i + 1;
    }
    proof {
        assert(s.take(to - from) =~= s);
        lemma_hex_value_bound(s);
        assert(hpow(0) == 1);
        assert(hpow(1) == 16);
        assert(hpow(2) == 256);
        assert(hpow(3) == 4096);
        assert(hpow(4) == 0x10000);
    }
    Some(acc as u16)
}

/// Parses `buf[from..to]` as a ':'-separated group list.
fn parse_group_list(buf: &[u8], from: usize, to: usize, allow_v4: bool) -> (r: Option<Vec<u16>>)
    requires
        from <= to <= buf@.len(),
    ensures
        ({
            let s = buf@.subrange(from as int, to as int);
            match r {
                Some(v) => spec_parse_group_list(s, allow_v4) == Some(groups_view(v@)),
                None => spec_parse_group_list(s, allow_v4) is None,
            }
        }),
{
    let ghost s0 = buf@.subrange(from as int, to as int);
    let mut out: Vec<u16> = Vec::new();
    let mut p: usize = from;
    proof {
        assert(groups_view(out@) =~= Seq::<nat>::empty());
    }
    loop
        invariant
            from <= p <= to <= buf@.len(),
            s0 == buf@.subrange(from as int, to as int),
            ({
                let srem = buf@.subrange(p as int, to as int);
                match spec_parse_group_list(srem, allow_v4) {
                    Some(r) => spec_parse_group_list(s0, allow_v4) == Some(
                        groups_view(out@) + r,
                    ),
                    None => spec_parse_group_list(s0, allow_v4) is None,
                }
            }),
        decreases to - p,
    {
        let ghost srem = buf@.subrange(p as int, to as int);
        match find_sep_rel(buf, p, to, p, COLON) {
            Some(i) => {
                proof {
                    assert(buf@.subrange(p as int, i as int) =~= srem.take(i - p));
                    assert(buf@.subrange(i + 1, to as int) =~= srem.skip(i - p + 1));
                }
                match parse_hex_group(buf, p, i) {
                    Some(g) => {
                        proof {
                            let grest = spec_parse_group_list(srem.skip(i - p + 1), allow_v4);
                            if grest is Some {
                                assert(spec_parse_group_list(srem, allow_v4) == Some(
                                    seq![g as nat] + grest->0,
                                ));
                                assert(groups_view(out@.push(g)) =~= groups_view(out@) + seq![
                                    g as nat,
                                ]);
                                assert((groups_view(out@) + seq![g as nat]) + grest->0
                                    =~= groups_view(out@) + (seq![g as nat] + grest->0));
                            } else {
                                assert(spec_parse_group_list(srem, allow_v4) is None);
                            }
                        }
                        out.push(g);
                        p = i + 1;
                    },
                    None => {
                        proof {
                            assert(spec_parse_group_list(srem, allow_v4) is None);
                        }
                        return None;
                    },
                }
            },
            None => {
                // Final token of the list.
                if allow_v4 {
                    match parse_ipv4(buf, p, to) {
                        Some(v) => {
                            let hi: u16 = (v / 0x10000) as u16;
                            let lo: u16 = (v % 0x10000) as u16;
                            proof {
                                assert(spec_parse_group_list(srem, allow_v4) == Some(
                                    seq![(v as nat) / 0x10000, (v as nat) % 0x10000],
                                ));
                                assert(groups_view(out@.push(hi).push(lo)) =~= groups_view(out@)
                                    + seq![(v as nat) / 0x10000, (v as nat) % 0x10000]);
                            }
                            out.push(hi);
                            out.push(lo);
                            return Some(out);
                        },
                        None => {
                            match parse_hex_group(buf, p, to) {
                                Some(g) => {
                                    proof {
                                        assert(spec_parse_group_list(srem, allow_v4) == Some(
                                            seq![g as nat],
                                        ));
                                        assert(groups_view(out@.push(g)) =~= groups_view(out@)
                                            + seq![g as nat]);
                                    }
                                    out.push(g);
                                    return Some(out);
                                },
                                None => {
                                    proof {
                                        assert(spec_parse_group_list(srem, allow_v4) is None);
                                    }
                                    return None;
                                },
                            }
                        },
                    }
                } else {
                    match parse_hex_group(buf, p, to) {
                        Some(g) => {
                            proof {
                                assert(spec_parse_group_list(srem, allow_v4) == Some(
                                    seq![g as nat],
                                ));
                                assert(groups_view(out@.push(g)) =~= groups_view(out@) + seq![
                                    g as nat,
                                ]);
                            }
                            out.push(g);
                            return Some(out);
                        },
                        None => {
                            proof {
                                assert(spec_parse_group_list(srem, allow_v4) is None);
                            }
                            return None;
                        },
                    }
                }
            },
        }
    }
}

/// Builds the 128-bit value of exactly eight groups.
fn assemble8(g: &Vec<u16>) -> (r: u128)
    requires
        g@.len() == 8,
    ensures
        r as nat == groups_value(groups_view(g@)),
{
    let ghost gs = groups_view(g@);
    proof {
        lemma_gpow_values();
        assert(forall|i: int| 0 <= i < gs.len() ==> #[trigger] gs[i] < 0x10000);
    }
    let mut acc: u128 = 0;
    let mut i: usize = 0;
    proof {
        assert(gs.take(0) =~= Seq::<nat>::empty());
    }
    while i < 8
        invariant
            0 <= i <= 8,
            g@.len() == 8,
            gs == groups_view(g@),
            acc as nat == groups_value(gs.take(i as int)),
            forall|j: int| 0 <= j < gs.len() ==> #[trigger] gs[j] < 0x10000,
        decreases 8 - i,
    {
        proof {
            assert(forall|j: int| 0 <= j < i ==> gs.take(i as int)[j] == gs[j]);
            lemma_groups_value_bound(gs.take(i as int));
            lemma_gpow_values();
            assert(gpow(i as nat) <= gpow(7)) by {
                lemma_gpow_mono(i as nat, 7);
            }
            assert(gs.take(i + 1).drop_last() =~= gs.take(i as int));
            assert(gs.take(i + 1).last() == gs[i as int]);
        }
        acc = acc * 0x10000 + (g[i] as u128);
        i = i + 1;
    }
    proof {
        assert(gs.take(8) =~= gs);
    }
    acc
}

/// 65536^k grows with k.
pub proof fn lemma_gpow_mono(a: nat, b: nat)
    requires
        a <= b,
    ensures
        gpow(a) <= gpow(b),
    decreases b,
{
    if a < b {
        lemma_gpow_mono(a, (b - 1) as nat);
        assert(gpow(b) == 0x10000 * gpow((b - 1) as nat));
        assert(gpow((b - 1) as nat) >= 1) by {
            lemma_gpow_pos((b - 1) as nat);
        }
    }
}

pub proof fn lemma_gpow_pos(k: nat)
    ensures
        gpow(k) >= 1,
    decreases k,
{
    if k > 0 {
        lemma_gpow_pos((k - 1) as nat);
    }
}

/// Finds the first "::" of the token `buf[from..to]`.
fn find_dcolon_rel(buf: &[u8], from: usize, to: usize) -> (r: Option<usize>)
    requires
        from <= to <= buf@.len(),
    ensures
        ({
            let s = buf@.subrange(from as int, to as int);
            match r {
                Some(i) => from <= i && i + 1 < to && find_dcolon_from(s, 0) == Some(i - from),
                None => find_dcolon_from(s, 0) == None::<int>,
            }
        }),
{
    let ghost s = buf@.subrange(from as int, to as int);
    proof {
        assert(forall|j: int| 0 <= j < s.len() ==> s[j] == buf@[from + j]);
    }
    if to - from < 2 {
        proof {
            lemma_find_dcolon_none(s, 0);
        }
        return None;
    }
    let mut i: usize = from;
    while i < to - 1
        invariant
            from <= i <= to <= buf@.len(),
            to - from >= 2,
            s == buf@.subrange(from as int, to as int),
            forall|j: int| 0 <= j < i - from ==> !((#[trigger] s[j]) == COLON && s[j + 1] == COLON),
        decreases to - i,
    {
        if buf[i] == COLON && buf[i + 1] == COLON {
            proof {
                assert(s[i - from] == COLON && s[i - from + 1] == COLON);
                lemma_find_dcolon_exact(s, 0, i - from);
            }
            return Some(i);
        }
        proof {
            assert(s[i - from] == buf@[i as int] && s[i - from + 1] == buf@[i + 1]);
            assert(!(s[i - from] == COLON && s[i - from + 1] == COLON));
        }
        i = i + 1;
    }
    proof {
        lemma_find_dcolon_none(s, 0);
    }
    None
}

/// Parses the token `buf[from..to]` as a textual IPv6 address.
pub fn parse_ipv6(buf: &[u8], from: usize, to: usize) -> (r: Option<u128>)
    requires
        from <= to <= buf@.len(),
    ensures
        r == spec_parse_ipv6(buf@.subrange(from as int, to as int)),
{
    let ghost s = buf@.subrange(from as int, to as int);
    match find_dcolon_rel(buf, from, to) {
        None => {
            match parse_group_list(buf, from, to, true) {
                Some(g) => {
                    if g.len() == 8 {
                        proof {
                            lemma_groups_value_bound(groups_view(g@));
                            lemma_gpow_values();
                        }
                        Some(assemble8(&g))
                    } else {
                        None
                    }
                },
                None => None,
            }
        },
        Some(i) => {
            let ghost head = s.take(i - from);
            let ghost tail = s.skip(i - from + 2);
            proof {
                assert(buf@.subrange(from as int, i as int) =~= head);
                assert(buf@.subrange(i + 2, to as int) =~= tail);
            }
            let hg: Option<Vec<u16>> = if i == from {
                Some(Vec::new())
            } else {
                parse_group_list(buf, from, i, false)
            };
            let tg: Option<Vec<u16>> = if i + 2 == to {
                Some(Vec::new())
            } else {
                parse_group_list(buf, i + 2, to, true)
            };
            match (hg, tg) {
                (Some(h), Some(t)) => {
                    proof {
                        if i == from {
                            assert(head.len() == 0);
                            assert(groups_view(Seq::<u16>::empty()) =~= Seq::<nat>::empty());
                        }
                        if i + 2 == to {
                            assert(tail.len() == 0);
                        }
                    }
                    if h.len() <= 7 && t.len() <= 7 - h.len() {
                        let zeros: usize = 8 - h.len() - t.len();
                        let mut g8: Vec<u16> = Vec::new();
                        let mut x: usize = 0;
                        while x < h.len()
                            invariant
                                0 <= x <= h@.len(),
                                g8@ =~= h@.take(x as int),
                            decreases h@.len() - x,
                        {
                            g8.push(h[x]);
                            x = x + 1;
                        }
                        let mut z: usize = 0;
                        while z < zeros
                            invariant
                                0 <= z <= zeros,
                                g8@ =~= h@ + Seq::<u16>::new(z as nat, |q: int| 0u16),
                            decreases zeros - z,
                        {
                            proof {
                                assert(h@.take(h@.len() as int) =~= h@);
                            }
                            g8.push(0u16);
                            proof {
                                assert(h@ + Seq::<u16>::new((z + 1) as nat, |q: int| 0u16) =~= (h@
                                    + Seq::<u16>::new(z as nat, |q: int| 0u16)).push(0u16));
                            }
                            z = z + 1;
                        }
                        let mut y: usize = 0;
                        while y < t.len()
                            invariant
                                0 <= y <= t@.len(),
                                g8@ =~= h@ + Seq::<u16>::new(zeros as nat, |q: int| 0u16)
                                    + t@.take(y as int),
                            decreases t@.len() - y,
                        {
                            proof {
                                assert((h@ + Seq::<u16>::new(zeros as nat, |q: int| 0u16)
                                    + t@.take(y + 1)) =~= (h@ + Seq::<u16>::new(
                                    zeros as nat,
                                    |q: int| 0u16,
                                ) + t@.take(y as int)).push(t@[y as int]));
                            }
                            g8.push(t[y]);
                            y = y + 1;
                        }
                        proof {
                            assert(h@.take(h@.len() as int) =~= h@);
                            assert(t@.take(t@.len() as int) =~= t@);
                            assert(g8@.len() == 8);
                            assert(groups_view(g8@) =~= groups_view(h@) + zero_groups(
                                zeros as nat,
                            ) + groups_view(t@));
                        }
                        Some(assemble8(&g8))
                    } else {
                        None
                    }
                },
                _ => None,
            }
        },
    }
}


/// The eight 16-bit groups of a 128-bit address value, most significant
/// first.
pub open spec fn groups_of(a: u128) -> Seq<nat> {
    Seq::new(8, |i: int| ((a as nat) / gpow((7 - i) as nat)) % 0x10000)
}

/// Full-form text of a group sequence: lowercase hex groups without
/// leading zeros, separated by single colons.
pub open spec fn format_groups(g: Seq<nat>) -> Seq<u8>
    decreases g.len(),
{
    if g.len() == 0 {
        Seq::empty()
    } else if g.len() == 1 {
        hex_digits(g[0])
    } else {
        hex_digits(g[0]) + seq![COLON] + format_groups(g.skip(1))
    }
}

/// The canonical full-form text of an IPv6 address value.
pub open spec fn spec_format_ipv6(a: u128) -> Seq<u8> {
    format_groups(groups_of(a))
}

/// Hex digit bytes are neither separators nor dots.
proof fn lemma_hex_no_sep(s: Seq<u8>)
    requires
        all_hex_digits(s),
    ensures
        forall|j: int| 0 <= j < s.len() ==> s[j] != COLON && s[j] != DOT,
{
}

/// Formatted group lists start with a hex digit and never hold two
/// adjacent colons.
pub proof fn lemma_format_groups_shape(g: Seq<nat>)
    requires
        g.len() >= 1,
    ensures
        format_groups(g).len() >= 1,
        is_hex_digit(format_groups(g)[0]),
        is_hex_digit(format_groups(g).last()),
        forall|j: int|
            0 <= j < format_groups(g).len() - 1 ==> !((#[trigger] format_groups(g)[j]) == COLON
                && format_groups(g)[j + 1] == COLON),
    decreases g.len(),
{
    let s = format_groups(g);
    let t0 = hex_digits(g[0]);
    lemma_hex_digits_ok(g[0]);
    if g.len() == 1 {
        lemma_hex_no_sep(t0);
    } else {
        lemma_format_groups_shape(g.skip(1));
        let rest = format_groups(g.skip(1));
        assert(s =~= t0 + seq![COLON] + rest);
        let n0 = t0.len() as int;
        assert(forall|x: int| 0 <= x < n0 ==> s[x] == t0[x]);
        assert(s[n0] == COLON);
        assert(forall|x: int| n0 + 1 <= x < s.len() ==> s[x] == rest[x - n0 - 1]);
        lemma_hex_no_sep(t0);
        assert forall|j: int| 0 <= j < s.len() - 1 implies !((#[trigger] s[j]) == COLON && s[j + 1]
            == COLON) by {
            if j < n0 {
                assert(s[j] == t0[j]);
                assert(s[j] != COLON);
            } else if j == n0 {
                assert(s[j + 1] == rest[0]);
                assert(is_hex_digit(rest[0]));
            } else {
                assert(s[j] == rest[j - n0 - 1]);
                assert(s[j + 1] == rest[j - n0]);
            }
        }
    }
}

/// Parsing a formatted group list yields the groups back.
proof fn lemma_parse_format_groups(g: Seq<nat>, allow_v4: bool)
    requires
        g.len() >= 1,
        forall|i: int| 0 <= i < g.len() ==> #[trigger] g[i] < 0x10000,
    ensures
        spec_parse_group_list(format_groups(g), allow_v4) == Some(g),
    decreases g.len(),
{
    let s = format_groups(g);
    let t0 = hex_digits(g[0]);
    lemma_hex_digits_ok(g[0]);
    lemma_hex_digits_len(g[0]);
    lemma_hex_no_sep(t0);
    if g.len() == 1 {
        assert(s == t0);
        lemma_find_from_none(s, 0, COLON);
        lemma_find_from_none(s, 0, DOT);
        assert(spec_parse_ipv4(s) is None);
        assert(spec_parse_hex_group(s) == Some(hex_value(t0)));
        assert(hex_value(t0) == g[0]);
        assert(seq![g[0]] =~= g);
    } else {
        lemma_parse_format_groups(g.skip(1), allow_v4);
        let rest = format_groups(g.skip(1));
        assert(s =~= t0 + seq![COLON] + rest);
        let n0 = t0.len() as int;
        assert(forall|x: int| 0 <= x < n0 ==> s[x] == t0[x]);
        assert(s[n0] == COLON);
        assert(forall|x: int| 0 <= x < n0 ==> s[x] != COLON);
        lemma_find_from_exact(s, 0, COLON, n0);
        assert(s.take(n0) =~= t0);
        assert(s.skip(n0 + 1) =~= rest);
        assert(spec_parse_hex_group(t0) == Some(g[0]));
        assert(seq![g[0]] + g.skip(1) =~= g);
    }
}

/// A value below 65536^k is rebuilt from its k base-65536 digits.
proof fn lemma_groups_decompose(a: nat, k: nat)
    requires
        a < gpow(k),
    ensures
        groups_value(Seq::new(k, |i: int| (a / gpow((k - 1 - i) as nat)) % 0x10000)) == a,
    decreases k,
{
    let gs = Seq::new(k, |i: int| (a / gpow((k - 1 - i) as nat)) % 0x10000);
    if k == 0 {
        assert(gpow(0) == 1);
        assert(gs =~= Seq::<nat>::empty());
    } else {
        let a1 = a / 0x10000;
        assert(a1 < gpow((k - 1) as nat)) by {
            lemma_gpow_pos((k - 1) as nat);
            assert(gpow(k) == 0x10000 * gpow((k - 1) as nat));
            if a1 >= gpow((k - 1) as nat) {
                lemma_fundamental_div_mod(a as int, 0x10000);
                assert(a >= a1 * 0x10000);
                assert(a1 * 0x10000 >= gpow((k - 1) as nat) * 0x10000) by (nonlinear_arith)
                    requires
                        a1 >= gpow((k - 1) as nat),
                ;
            }
        }
        lemma_groups_decompose(a1, (k - 1) as nat);
        let prev = Seq::new(
            (k - 1) as nat,
            |i: int| (a1 / gpow((k - 2 - i) as nat)) % 0x10000,
        );
        assert(gs.drop_last() =~= prev) by {
            assert forall|i: int| 0 <= i < k - 1 implies gs[i] == prev[i] by {
                let e = (k - 2 - i) as nat;
                assert(gpow((k - 1 - i) as nat) == 0x10000 * gpow(e));
                lemma_gpow_pos(e);
                lemma_div_denominator(a as int, 0x10000, gpow(e) as int);
                assert(a / (0x10000 * gpow(e)) == a1 / gpow(e));
            }
        }
        assert(gs.last() == (a / gpow(0)) % 0x10000);
        assert(gpow(0) == 1);
        assert(a / 1 == a);
        lemma_fundamental_div_mod(a as int, 0x10000);
        assert(groups_value(gs) == groups_value(prev) * 0x10000 + a % 0x10000);
    }
}

/// Parsing the canonical full-form text of an address value yields that
/// value back.
pub proof fn lemma_ipv6_round_trip(a: u128)
    ensures
        spec_parse_ipv6(spec_format_ipv6(a)) == Some(a),
{
    let gs = groups_of(a);
    let s = spec_format_ipv6(a);
    assert(forall|i: int| 0 <= i < gs.len() ==> #[trigger] gs[i] < 0x10000);
    lemma_format_groups_shape(gs);
    lemma_find_dcolon_none(s, 0);
    lemma_parse_format_groups(gs, true);
    lemma_gpow_values();
    lemma_groups_decompose(a as nat, 8);
    assert(Seq::new(8, |i: int| ((a as nat) / gpow((8 - 1 - i) as nat)) % 0x10000) =~= gs);
}


/// Length of the zero-group run starting at position `i`.
pub open spec fn zero_run_at(g: Seq<nat>, i: int) -> int
    decreases g.len() - i,
{
    if i < 0 || i >= g.len() || g[i] != 0 {
        0
    } else {
        1 + zero_run_at(g, i + 1)
    }
}

/// The leftmost longest run of zero groups at or after `i`: its start
/// and length, with the earliest start winning ties.
pub open spec fn best_zero_run_from(g: Seq<nat>, i: int) -> (int, int)
    decreases g.len() - i,
{
    if i < 0 || i >= g.len() {
        (g.len() as int, 0)
    } else {
        let cur = zero_run_at(g, i);
        let rest = best_zero_run_from(g, i + 1);
        if cur >= rest.1 {
            (i, cur)
        } else {
            rest
        }
    }
}

proof fn lemma_zero_run_at(g: Seq<nat>, i: int)
    requires
        0 <= i <= g.len(),
    ensures
        0 <= zero_run_at(g, i),
        i + zero_run_at(g, i) <= g.len(),
        forall|j: int| i <= j < i + zero_run_at(g, i) ==> g[j] == 0,
    decreases g.len() - i,
{
    if i < g.len() && g[i] == 0 {
        lemma_zero_run_at(g, i + 1);
    }
}

proof fn lemma_best_zero_run(g: Seq<nat>, i: int)
    requires
        0 <= i <= g.len(),
    ensures
        ({
            let br = best_zero_run_from(g, i);
            &&& i <= br.0 <= g.len()
            &&& 0 <= br.1
            &&& br.0 + br.1 <= g.len()
            &&& forall|j: int| br.0 <= j < br.0 + br.1 ==> g[j] == 0
        }),
    decreases g.len() - i,
{
    if i < g.len() {
        lemma_zero_run_at(g, i);
        lemma_best_zero_run(g, i + 1);
    }
}

/// The compressed text of an IPv6 address value: the leftmost longest
/// run of two or more zero groups becomes "::", as in the usual
/// shortened notation; without such a run the text is the full form.
pub open spec fn spec_format_ipv6_compressed(a: u128) -> Seq<u8> {
    let g = groups_of(a);
    let br = best_zero_run_from(g, 0);
    if br.1 < 2 {
        format_groups(g)
    } else {
        format_groups(g.take(br.0)) + seq![COLON, COLON] + format_groups(g.skip(br.0 + br.1))
    }
}

/// Every byte of the compressed text is a hex digit or a colon.
pub proof fn lemma_format_ipv6_compressed_chars(a: u128)
    ensures
        forall|j: int|
            0 <= j < spec_format_ipv6_compressed(a).len() ==> is_hex_digit(
                #[trigger] spec_format_ipv6_compressed(a)[j],
            ) || spec_format_ipv6_compressed(a)[j] == COLON,
{
    let g = groups_of(a);
    let br = best_zero_run_from(g, 0);
    lemma_best_zero_run(g, 0);
    if br.1 < 2 {
        lemma_format_groups_chars(g);
    } else {
        let hh = format_groups(g.take(br.0));
        let tt = format_groups(g.skip(br.0 + br.1));
        let s = spec_format_ipv6_compressed(a);
        assert(s =~= hh + seq![COLON, COLON] + tt);
        lemma_format_groups_chars(g.take(br.0));
        lemma_format_groups_chars(g.skip(br.0 + br.1));
        let n0 = hh.len() as int;
        assert forall|j: int| 0 <= j < s.len() implies is_hex_digit(#[trigger] s[j]) || s[j]
            == COLON by {
            if j < n0 {
                assert(s[j] == hh[j]);
            } else if j < n0 + 2 {
                assert(s[j] == COLON);
            } else {
                assert(s[j] == tt[j - n0 - 2]);
            }
        }
    }
}

/// Parsing the compressed text of an address value yields that value
/// back.
pub proof fn lemma_ipv6_compressed_round_trip(a: u128)
    ensures
        spec_parse_ipv6(spec_format_ipv6_compressed(a)) == Some(a),
        spec_format_ipv6_compressed(a).len() >= 1,
{
    let g = groups_of(a);
    assert(forall|i: int| 0 <= i < g.len() ==> #[trigger] g[i] < 0x10000);
    let br = best_zero_run_from(g, 0);
    lemma_best_zero_run(g, 0);
    if br.1 < 2 {
        lemma_ipv6_round_trip(a);
        lemma_format_groups_shape(g);
    } else {
        let rs = br.0;
        let rl = br.1;
        let gh = g.take(rs);
        let gt = g.skip(rs + rl);
        let hh = format_groups(gh);
        let tt = format_groups(gt);
        let s = spec_format_ipv6_compressed(a);
        assert(s =~= hh + seq![COLON, COLON] + tt);
        let n0 = hh.len() as int;
        assert(s[n0] == COLON && s[n0 + 1] == COLON);
        // The first "::" of the text sits right after the head groups.
        if gh.len() == 0 {
            assert(hh =~= Seq::<u8>::empty());
            lemma_find_dcolon_exact(s, 0, 0);
        } else {
            lemma_format_groups_shape(gh);
            assert forall|j: int| 0 <= j < n0 implies !((#[trigger] s[j]) == COLON && s[j + 1]
                == COLON) by {
                if j < n0 - 1 {
                    assert(s[j] == hh[j] && s[j + 1] == hh[j + 1]);
                } else {
                    assert(s[j] == hh[n0 - 1]);
                    assert(hh[n0 - 1] == hh.last());
                    assert(is_hex_digit(hh.last()));
                }
            }
            lemma_find_dcolon_exact(s, 0, n0);
        }
        assert(s.take(n0) =~= hh);
        assert(s.skip(n0 + 2) =~= tt);
        // Head and tail parse back to their groups.
        if gh.len() > 0 {
            lemma_parse_format_groups(gh, false);
            lemma_format_groups_shape(gh);
        }
        if gt.len() > 0 {
            lemma_parse_format_groups(gt, true);
            lemma_format_groups_shape(gt);
        }
        assert(gh.len() + gt.len() <= 7);
        // The groups with the zero run restored are the original eight.
        assert(gh + zero_groups(rl as nat) + gt =~= g);
        lemma_gpow_values();
        lemma_groups_decompose(a as nat, 8);
        assert(Seq::new(8, |i: int| ((a as nat) / gpow((8 - 1 - i) as nat)) % 0x10000) =~= g);
    }
}

/// Appends the decimal digits of `n`.
pub fn push_dec_digits(n: u32, out: &mut Vec<u8>)
    ensures
        final(out)@ == old(out)@ + dec_digits(n as nat),
    decreases n,
{
    if n < 10 {
        out.push(D0 + (n as u8));
        proof {
            assert(out@ =~= old(out)@ + seq![(D0 + n as nat) as u8]);
        }
    } else {
        push_dec_digits(n / 10, out);
        let d: u8 = (n % 10) as u8;
        out.push(D0 + d);
        proof {
            assert(out@ =~= old(out)@ + dec_digits((n / 10) as nat).push(
                (D0 + (n as nat) % 10) as u8,
            ));
        }
    }
}

/// Appends the lowercase hex digits of `n`.
pub fn push_hex_digits(n: u16, out: &mut Vec<u8>)
    ensures
        final(out)@ == old(out)@ + hex_digits(n as nat),
    decreases n,
{
    if n < 16 {
        let d: u8 = if n < 10 {
            D0 + (n as u8)
        } else {
            LC_A + ((n - 10) as u8)
        };
        out.push(d);
        proof {
            assert(d == hex_digit_of(n as nat));
            assert(out@ =~= old(out)@ + seq![hex_digit_of(n as nat)]);
        }
    } else {
        push_hex_digits(n / 16, out);
        let m: u16 = n % 16;
        let d: u8 = if m < 10 {
            D0 + (m as u8)
        } else {
            LC_A + ((m - 10) as u8)
        };
        out.push(d);
        proof {
            assert(d == hex_digit_of((n as nat) % 16));
            assert(out@ =~= old(out)@ + hex_digits((n / 16) as nat).push(
                hex_digit_of((n as nat) % 16),
            ));
        }
    }
}

/// The canonical dotted-quad text of an IPv4 address value.
pub fn format_ipv4(a: u32) -> (r: Vec<u8>)
    ensures
        r@ == spec_format_ipv4(a),
{
    let mut out: Vec<u8> = Vec::new();
    push_dec_digits(a / 0x1000000, &mut out);
    out.push(DOT);
    push_dec_digits((a / 0x10000) % 0x100, &mut out);
    out.push(DOT);
    push_dec_digits((a / 0x100) % 0x100, &mut out);
    out.push(DOT);
    push_dec_digits(a % 0x100, &mut out);
    proof {
        assert(out@ =~= spec_format_ipv4(a));
    }
    out
}

/// 65536^k as a 128-bit value.
fn gpow_u128(k: usize) -> (r: u128)
    requires
        k <= 7,
    ensures
        r as nat == gpow(k as nat),
{
    proof {
        lemma_gpow_values();
    }
    let mut r: u128 = 1;
    let mut i: usize = 0;
    while i < k
        invariant
            0 <= i <= k <= 7,
            r as nat == gpow(i as nat),
        decreases k - i,
    {
        proof {
            lemma_gpow_mono((i + 1) as nat, 7);
            lemma_gpow_values();
            assert(gpow((i + 1) as nat) == 0x10000 * gpow(i as nat));
        }
        r = r * 0x10000;
        i = i + 1;
    }
    r
}

/// The eight groups of an address value.
fn groups_of_exec(a: u128) -> (r: Vec<u16>)
    ensures
        r@.len() == 8,
        groups_view(r@) == groups_of(a),
{
    let mut out: Vec<u16> = Vec::new();
    let mut i: usize = 0;
    proof {
        assert(groups_view(out@) =~= groups_of(a).take(0));
    }
    while i < 8
        invariant
            0 <= i <= 8,
            out@.len() == i,
            groups_view(out@) =~= groups_of(a).take(i as int),
        decreases 8 - i,
    {
        let d = gpow_u128(7 - i);
        proof {
            lemma_gpow_pos((7 - i) as nat);
        }
        let g: u16 = ((a / d) % 0x10000) as u16;
        proof {
            assert(groups_of(a)[i as int] == ((a as nat) / gpow((7 - i) as nat)) % 0x10000);
            assert(groups_view(out@.push(g)) =~= groups_of(a).take(i + 1));
        }
        out.push(g);
        i = i + 1;
    }
    proof {
        assert(groups_of(a).take(8) =~= groups_of(a));
    }
    out
}

/// Appends the formatted text of the groups in `[from, to)`.
fn append_groups(g: &Vec<u16>, from: usize, to: usize, out: &mut Vec<u8>)
    requires
        from < to <= g@.len(),
    ensures
        final(out)@ == old(out)@ + format_groups(
            groups_view(g@).subrange(from as int, to as int),
        ),
    decreases to - from,
{
    let ghost tailg = groups_view(g@).subrange(from as int, to as int);
    push_hex_digits(g[from], out);
    proof {
        assert(tailg[0] == g@[from as int] as nat);
    }
    if from < to - 1 {
        out.push(COLON);
        append_groups(g, from + 1, to, out);
        proof {
            assert(groups_view(g@).subrange(from + 1, to as int) =~= tailg.skip(1));
            assert(tailg.len() >= 2);
            assert(format_groups(tailg) == hex_digits(tailg[0]) + seq![COLON] + format_groups(
                tailg.skip(1),
            ));
            assert(out@ =~= old(out)@ + format_groups(tailg));
        }
    } else {
        proof {
            assert(tailg.len() == 1);
            assert(format_groups(tailg) == hex_digits(tailg[0]));
        }
    }
}

/// The full-form text of an IPv6 address value: all eight groups
/// written out.
pub fn format_ipv6(a: u128) -> (r: Vec<u8>)
    ensures
        r@ == spec_format_ipv6(a),
{
    let g = groups_of_exec(a);
    let mut out: Vec<u8> = Vec::new();
    append_groups(&g, 0, 8, &mut out);
    proof {
        assert(groups_view(g@).subrange(0, 8) =~= groups_view(g@));
        assert(out@ =~= format_groups(groups_of(a)));
    }
    out
}

/// The leftmost longest run of zero groups among the eight.
fn best_zero_run(g: &Vec<u16>) -> (r: (usize, usize))
    requires
        g@.len() == 8,
    ensures
        ({
            let br = best_zero_run_from(groups_view(g@), 0);
            r.0 as int == br.0 && r.1 as int == br.1
        }),
{
    let ghost gv = groups_view(g@);
    let mut i: usize = 8;
    let mut best_s: usize = 8;
    let mut best_l: usize = 0;
    let mut run: usize = 0;
    while i > 0
        invariant
            0 <= i <= 8,
            g@.len() == 8,
            gv == groups_view(g@),
            run as int == zero_run_at(gv, i as int),
            run <= 8 - i,
            best_zero_run_from(gv, i as int) == (best_s as int, best_l as int),
            best_l <= 8,
        decreases i,
    {
        i = i - 1;
        proof {
            assert(gv[i as int] == g@[i as int] as nat);
        }
        if g[i] == 0 {
            run = run + 1;
        } else {
            run = 0;
        }
        proof {
            assert(run as int == zero_run_at(gv, i as int));
        }
        if run >= best_l {
            best_s = i;
            best_l = run;
        }
    }
    (best_s, best_l)
}

/// The compressed text of an IPv6 address value, "::" standing for the
/// leftmost longest run of zero groups.
pub fn format_ipv6_compressed(a: u128) -> (r: Vec<u8>)
    ensures
        r@ == spec_format_ipv6_compressed(a),
{
    let g = groups_of_exec(a);
    let ghost gv = groups_view(g@);
    let (rs, rl) = best_zero_run(&g);
    proof {
        lemma_best_zero_run(gv, 0);
    }
    let mut out: Vec<u8> = Vec::new();
    if rl < 2 {
        append_groups(&g, 0, 8, &mut out);
        proof {
            assert(gv.subrange(0, 8) =~= gv);
        }
    } else {
        if rs > 0 {
            append_groups(&g, 0, rs, &mut out);
        }
        out.push(COLON);
        out.push(COLON);
        if rs + rl < 8 {
            append_groups(&g, rs + rl, 8, &mut out);
        }
        proof {
            assert(gv.take(rs as int) =~= gv.subrange(0, rs as int));
            assert(gv.skip(rs + rl) =~= gv.subrange(rs + rl, 8));
            if rs == 0 {
                assert(format_groups(gv.take(rs as int)) =~= Seq::<u8>::empty());
            }
            if rs + rl == 8 {
                assert(format_groups(gv.skip(rs + rl)) =~= Seq::<u8>::empty());
            }
            assert(out@ =~= format_groups(gv.take(rs as int)) + seq![COLON, COLON]
                + format_groups(gv.skip(rs + rl)));
        }
    }
    out
}


/// Every byte of a formatted IPv4 address is a digit or a dot.
pub proof fn lemma_format_ipv4_chars(a: u32)
    ensures
        forall|j: int|
            0 <= j < spec_format_ipv4(a).len() ==> is_dec_digit(#[trigger] spec_format_ipv4(a)[j])
                || spec_format_ipv4(a)[j] == DOT,
{
    let n = a as nat;
    let t1 = dec_digits(n / 0x1000000);
    let t2 = dec_digits((n / 0x10000) % 0x100);
    let t3 = dec_digits((n / 0x100) % 0x100);
    let t4 = dec_digits(n % 0x100);
    lemma_dec_digits_ok(n / 0x1000000);
    lemma_dec_digits_ok((n / 0x10000) % 0x100);
    lemma_dec_digits_ok((n / 0x100) % 0x100);
    lemma_dec_digits_ok(n % 0x100);
    let s = spec_format_ipv4(a);
    assert(s =~= t1 + seq![DOT] + t2 + seq![DOT] + t3 + seq![DOT] + t4);
    let i = t1.len() as int;
    let j = i + 1 + t2.len() as int;
    let k = j + 1 + t3.len() as int;
    assert forall|x: int| 0 <= x < s.len() implies is_dec_digit(#[trigger] s[x]) || s[x] == DOT by {
        if x < i {
            assert(s[x] == t1[x]);
        } else if x == i || x == j || x == k {
        } else if x < j {
            assert(s[x] == t2[x - i - 1]);
        } else if x < k {
            assert(s[x] == t3[x - j - 1]);
        } else {
            assert(s[x] == t4[x - k - 1]);
        }
    }
}

/// Every byte of a formatted group list is a hex digit or a colon.
pub proof fn lemma_format_groups_chars(g: Seq<nat>)
    ensures
        forall|j: int|
            0 <= j < format_groups(g).len() ==> is_hex_digit(#[trigger] format_groups(g)[j])
                || format_groups(g)[j] == COLON,
    decreases g.len(),
{
    if g.len() == 0 {
    } else if g.len() == 1 {
        lemma_hex_digits_ok(g[0]);
    } else {
        lemma_hex_digits_ok(g[0]);
        lemma_format_groups_chars(g.skip(1));
        let s = format_groups(g);
        let t0 = hex_digits(g[0]);
        let rest = format_groups(g.skip(1));
        assert(s =~= t0 + seq![COLON] + rest);
        let n0 = t0.len() as int;
        assert forall|x: int| 0 <= x < s.len() implies is_hex_digit(#[trigger] s[x]) || s[x]
            == COLON by {
            if x < n0 {
                assert(s[x] == t0[x]);
            } else if x == n0 {
            } else {
                assert(s[x] == rest[x - n0 - 1]);
            }
        }
    }
}

} // verus!
