use vstd::prelude::*;

verus! {

pub const SP: u8 = 32;

pub const CR: u8 = 13;

pub const LF: u8 = 10;

pub const DOT: u8 = 46;

pub const COLON: u8 = 58;

pub const SLASH: u8 = 47;

pub const D0: u8 = 48;

pub const D9: u8 = 57;

pub const LC_A: u8 = 97;

pub const LC_F: u8 = 102;

pub const UC_A: u8 = 65;

pub const UC_F: u8 = 70;

pub open spec fn is_dec_digit(b: u8) -> bool {
    D0 <= b <= D9
}

pub open spec fn dec_digit_val(b: u8) -> nat {
    (b - D0) as nat
}

pub open spec fn all_dec_digits(s: Seq<u8>) -> bool {
    forall|i: int| 0 <= i < s.len() ==> is_dec_digit(#[trigger] s[i])
}

/// Value of a string of decimal digits, most significant first.
pub open spec fn dec_value(s: Seq<u8>) -> nat
    decreases s.len(),
{
    if s.len() == 0 {
        0
    } else {
        dec_value(s.drop_last()) * 10 + dec_digit_val(s.last())
    }
}

/// The decimal digits of a number, without leading zeros.
pub open spec fn dec_digits(n: nat) -> Seq<u8>
    decreases n,
{
    if n < 10 {
        seq![(D0 + n) as u8]
    } else {
        dec_digits(n / 10).push((D0 + n % 10) as u8)
    }
}

/// A decimal token in canonical form: nonempty, digits only, and no
/// leading zero unless the token is exactly "0".
pub open spec fn canonical_dec(s: Seq<u8>) -> bool {
    s.len() >= 1 && all_dec_digits(s) && (s[0] != D0 || s.len() == 1)
}

/// `dec_digits` yields the canonical decimal token of its argument and
/// `dec_value` recovers the argument from it.
pub proof fn lemma_dec_digits_ok(n: nat)
    ensures
        canonical_dec(dec_digits(n)),
        dec_value(dec_digits(n)) == n,
    decreases n,
{
    if n < 10 {
        let s = seq![(D0 + n) as u8];
        assert(s.drop_last() =~= Seq::<u8>::empty());
        assert(dec_value(s) == dec_value(s.drop_last()) * 10 + dec_digit_val(s.last()));
    } else {
        lemma_dec_digits_ok(n / 10);
        vstd::arithmetic::div_mod::lemma_fundamental_div_mod(n as int, 10);
        let p = dec_digits(n / 10);
        let s = dec_digits(n);
        assert(s == p.push((D0 + n % 10) as u8));
        assert(s.drop_last() =~= p);
        assert(dec_value(s) == dec_value(p) * 10 + dec_digit_val(s.last()));
        assert(dec_digit_val((D0 + n % 10) as u8) == n % 10);
        assert forall|i: int| 0 <= i < s.len() implies is_dec_digit(s[i]) by {
            if i < p.len() {
                assert(s[i] == p[i]);
            } else {
                assert(s[i] == s.last());
            }
        }
        assert(s[0] == p[0]);
        if p[0] == D0 {
            assert(p.len() == 1);
            assert(p.drop_last() =~= Seq::<u8>::empty());
            assert(dec_value(p) == dec_value(p.drop_last()) * 10 + dec_digit_val(p.last()));
            assert(n / 10 == 0);
            assert(false);
        }
    }
}

pub open spec fn is_hex_digit(b: u8) -> bool {
    (D0 <= b <= D9) || (LC_A <= b <= LC_F) || (UC_A <= b <= UC_F)
}

pub open spec fn hex_digit_val(b: u8) -> nat {
    if D0 <= b <= D9 {
        (b - D0) as nat
    } else if LC_A <= b <= LC_F {
        (b - LC_A + 10) as nat
    } else {
        (b - UC_A + 10) as nat
    }
}

pub open spec fn all_hex_digits(s: Seq<u8>) -> bool {
    forall|i: int| 0 <= i < s.len() ==> is_hex_digit(#[trigger] s[i])
}

/// Value of a string of hexadecimal digits, most significant first.
pub open spec fn hex_value(s: Seq<u8>) -> nat
    decreases s.len(),
{
    if s.len() == 0 {
        0
    } else {
        hex_value(s.drop_last()) * 16 + hex_digit_val(s.last())
    }
}

pub open spec fn hex_digit_of(n: nat) -> u8 {
    if n < 10 {
        (D0 + n) as u8
    } else {
        (LC_A + (n - 10)) as u8
    }
}

/// The lowercase hexadecimal digits of a number, without leading zeros.
pub open spec fn hex_digits(n: nat) -> Seq<u8>
    decreases n,
{
    if n < 16 {
        seq![hex_digit_of(n)]
    } else {
        hex_digits(n / 16).push(hex_digit_of(n % 16))
    }
}

pub proof fn lemma_hex_digits_ok(n: nat)
    ensures
        hex_digits(n).len() >= 1,
        all_hex_digits(hex_digits(n)),
        hex_value(hex_digits(n)) == n,
    decreases n,
{
    if n < 16 {
        let s = seq![hex_digit_of(n)];
        assert(s.drop_last() =~= Seq::<u8>::empty());
        assert(hex_value(s) == hex_value(s.drop_last()) * 16 + hex_digit_val(s.last()));
        assert(hex_digit_val(hex_digit_of(n)) == n);
        assert(is_hex_digit(hex_digit_of(n)));
    } else {
        lemma_hex_digits_ok(n / 16);
        vstd::arithmetic::div_mod::lemma_fundamental_div_mod(n as int, 16);
        let p = hex_digits(n / 16);
        let s = hex_digits(n);
        assert(s == p.push(hex_digit_of(n % 16)));
        assert(s.drop_last() =~= p);
        assert(hex_value(s) == hex_value(p) * 16 + hex_digit_val(s.last()));
        assert(hex_digit_val(hex_digit_of(n % 16)) == n % 16);
        assert forall|i: int| 0 <= i < s.len() implies is_hex_digit(s[i]) by {
            if i < p.len() {
                assert(s[i] == p[i]);
            } else {
                assert(s[i] == s.last());
                assert(is_hex_digit(hex_digit_of(n % 16)));
            }
        }
    }
}

/// A group of at most four hex digits stands for a value below 2^16,
/// and such values need at most four digits.
pub proof fn lemma_hex_digits_len(n: nat)
    requires
        n < 0x10000,
    ensures
        hex_digits(n).len() <= 4,
{
    if n >= 16 {
        assert(hex_digits(n).len() == hex_digits(n / 16).len() + 1);
        assert(n / 16 < 0x1000);
        if n / 16 >= 16 {
            assert(hex_digits(n / 16).len() == hex_digits(n / 16 / 16).len() + 1);
            assert(n / 16 / 16 < 0x100);
            if n / 16 / 16 >= 16 {
                assert(hex_digits(n / 16 / 16).len() == hex_digits(n / 16 / 16 / 16).len() + 1);
                assert(n / 16 / 16 / 16 < 16);
                assert(hex_digits(n / 16 / 16 / 16).len() == 1);
            } else {
                assert(hex_digits(n / 16 / 16).len() == 1);
            }
        } else {
            assert(hex_digits(n / 16).len() == 1);
        }
    }
}

/// Smallest index at or after `from` holding byte `b`.
pub open spec fn find_from(s: Seq<u8>, from: int, b: u8) -> Option<int>
    decreases s.len() - from,
{
    if from < 0 || from >= s.len() {
        None
    } else if s[from] == b {
        Some(from)
    } else {
        find_from(s, from + 1, b)
    }
}

pub proof fn lemma_find_from_props(s: Seq<u8>, from: int, b: u8)
    requires
        0 <= from,
    ensures
        match find_from(s, from, b) {
            Some(i) => from <= i < s.len() && s[i] == b && forall|j: int|
                from <= j < i ==> s[j] != b,
            None => forall|j: int| from <= j < s.len() ==> s[j] != b,
        },
    decreases s.len() - from,
{
    if from < s.len() && s[from] != b {
        lemma_find_from_props(s, from + 1, b);
    }
}

/// The characterisation of `find_from`: a first occurrence is found.
pub proof fn lemma_find_from_exact(s: Seq<u8>, from: int, b: u8, i: int)
    requires
        0 <= from <= i < s.len(),
        s[i] == b,
        forall|j: int| from <= j < i ==> s[j] != b,
    ensures
        find_from(s, from, b) == Some(i),
    decreases i - from,
{
    if from < i {
        lemma_find_from_exact(s, from + 1, b, i);
    }
}

pub proof fn lemma_find_from_none(s: Seq<u8>, from: int, b: u8)
    requires
        0 <= from,
        forall|j: int| from <= j < s.len() ==> s[j] != b,
    ensures
        find_from(s, from, b) == None::<int>,
{
    lemma_find_from_props(s, from, b);
    if find_from(s, from, b) is Some {
        let i = find_from(s, from, b)->0;
        assert(s[i] == b);
    }
}

/// Exec search for a byte in a slice range.
pub fn find_byte(buf: &[u8], from: usize, to: usize, b: u8) -> (r: Option<usize>)
    requires
        from <= to <= buf@.len(),
    ensures
        match r {
            Some(i) => from <= i < to && buf@[i as int] == b && find_from(
                buf@.take(to as int),
                from as int,
                b,
            ) == Some(i as int),
            None => find_from(buf@.take(to as int), from as int, b) == None::<int>,
        },
{
    let mut i: usize = from;
    while i < to
        invariant
            from <= i <= to <= buf@.len(),
            forall|j: int| from <= j < i ==> buf@[j] != b,
        decreases to - i,
    {
        if buf[i] == b {
            proof {
                assert(buf@.take(to as int)[i as int] == b);
                assert(forall|j: int|
                    from <= j < i ==> #[trigger] buf@.take(to as int)[j] == buf@[j]);
                lemma_find_from_exact(buf@.take(to as int), from as int, b, i as int);
            }
            return Some(i);
        }
        i = i + 1;
    }
    proof {
        assert(forall|j: int|
            from <= j < to ==> #[trigger] buf@.take(to as int)[j] == buf@[j] && buf@[j] != b);
        lemma_find_from_none(buf@.take(to as int), from as int, b);
    }
    None
}

/// A decimal token standing for a number up to `max`: accepted exactly
/// when it is canonical and its value is within the bound.
pub open spec fn spec_parse_dec_bounded(s: Seq<u8>, max: nat) -> Option<nat> {
    if canonical_dec(s) && dec_value(s) <= max {
        Some(dec_value(s))
    } else {
        None
    }
}

/// Parses the decimal token in `buf[from..to]`, bounded by `max`.
pub fn parse_dec_bounded(buf: &[u8], from: usize, to: usize, max: u32) -> (r: Option<u32>)
    requires
        from <= to <= buf@.len(),
    ensures
        match r {
            Some(v) => spec_parse_dec_bounded(buf@.subrange(from as int, to as int), max as nat)
                == Some(v as nat),
            None => spec_parse_dec_bounded(buf@.subrange(from as int, to as int), max as nat)
                is None,
        },
{
    let ghost tok = buf@.subrange(from as int, to as int);
    if from == to {
        return None;
    }
    if buf[from] == D0 && to - from > 1 {
        return None;
    }
    let mut acc: u64 = 0;
    let mut i: usize = from;
    while i < to
        invariant
            from <= i <= to <= buf@.len(),
            tok == buf@.subrange(from as int, to as int),
            acc == dec_value(tok.take(i - from)),
            acc <= max,
            max <= u32::MAX,
            all_dec_digits(tok.take(i - from)),
        decreases to - i,
    {
        let b = buf[i];
        if b < D0 || b > D9 {
            proof {
                assert(tok[i - from] == b);
                assert(!is_dec_digit(tok[i - from]));
            }
            return None;
        }
        let d: u64 = (b - D0) as u64;
        let next: u64 = acc * 10 + d;
        proof {
            assert(tok.take(i - from + 1).drop_last() =~= tok.take(i - from));
            assert(tok.take(i - from + 1).last() == tok[i - from]);
            assert(tok[i - from] == buf@[i as int]);
        }
        if next > max as u64 {
            // Appending digits only grows the value, so the whole token
            // is over the bound as well.
            proof {
                lemma_dec_value_grows(tok, i - from + 1);
            }
            return None;
        }
        acc = next;
        i = i + 1;
    }
    proof {
        assert(tok.take(to - from) =~= tok);
    }
    Some(acc as u32)
}

/// A longer prefix of a digit string never has a smaller value.
pub proof fn lemma_dec_value_grows(s: Seq<u8>, k: int)
    requires
        0 <= k <= s.len(),
    ensures
        dec_value(s) >= dec_value(s.take(k)),
    decreases s.len() - k,
{
    if k < s.len() {
        lemma_dec_value_grows(s, k + 1);
        assert(s.take(k + 1).drop_last() =~= s.take(k));
        assert(dec_value(s.take(k + 1)) == dec_value(s.take(k)) * 10 + dec_digit_val(
            s.take(k + 1).last(),
        ));
        assert(dec_value(s.take(k + 1)) >= dec_value(s.take(k)));
    } else {
        assert(s.take(k) =~= s);
    }
}

} // verus!
