//! Decimal and hexadecimal numerals on byte strings: parsing with exact
//! overflow behaviour, printing, and the round-trip facts the message
//! codecs rely on.

use vstd::prelude::*;

verus! {

pub open spec fn is_digit(b: u8) -> bool {
    48 <= b && b <= 57
}

pub open spec fn digit_val(b: u8) -> nat {
    (b - 48) as nat
}

pub open spec fn all_digits(s: Seq<u8>) -> bool {
    forall|i: int| 0 <= i < s.len() ==> is_digit(s[i])
}

/// The value of a string of decimal digits (0 for the empty string).
pub open spec fn dec_val(s: Seq<u8>) -> nat
    decreases s.len(),
{
    if s.len() == 0 {
        0
    } else {
        dec_val(s.drop_last()) * 10 + digit_val(s.last())
    }
}

/// What parsing a decimal numeral yields: the value, if the string is a
/// non-empty run of digits whose value fits in `usize`.
pub open spec fn spec_parse_dec(s: Seq<u8>) -> Option<usize> {
    if s.len() > 0 && all_digits(s) && dec_val(s) <= usize::MAX {
        Some(dec_val(s) as usize)
    } else {
        None
    }
}

pub open spec fn is_hex_digit(b: u8) -> bool {
    (48 <= b && b <= 57) || (97 <= b && b <= 102) || (65 <= b && b <= 70)
}

pub open spec fn hex_digit_val(b: u8) -> nat {
    if 48 <= b && b <= 57 {
        (b - 48) as nat
    } else if 97 <= b && b <= 102 {
        (b - 87) as nat
    } else if 65 <= b && b <= 70 {
        (b - 55) as nat
    } else {
        0
    }
}

pub open spec fn all_hex_digits(s: Seq<u8>) -> bool {
    forall|i: int| 0 <= i < s.len() ==> is_hex_digit(s[i])
}

/// The value of a string of hexadecimal digits (0 for the empty string).
pub open spec fn hex_val(s: Seq<u8>) -> nat
    decreases s.len(),
{
    if s.len() == 0 {
        0
    } else {
        hex_val(s.drop_last()) * 16 + hex_digit_val(s.last())
    }
}

/// What parsing a hexadecimal numeral yields: the value, if the string is a
/// non-empty run of hex digits whose value fits in `usize`.
pub open spec fn spec_parse_hex(s: Seq<u8>) -> Option<usize> {
    if s.len() > 0 && all_hex_digits(s) && hex_val(s) <= usize::MAX {
        Some(hex_val(s) as usize)
    } else {
        None
    }
}

proof fn lemma_dec_val_take_monotonic(s: Seq<u8>, i: int)
    requires
        0 <= i <= s.len(),
    ensures
        dec_val(s) >= dec_val(s.take(i)),
    decreases s.len() - i,
{
    if i < s.len() {
        lemma_dec_val_take_monotonic(s, i + 1);
        assert(s.take(i + 1).drop_last() =~= s.take(i));
        assert(dec_val(s.take(i + 1)) == dec_val(s.take(i)) * 10 + digit_val(s.take(i + 1).last()));
    } else {
        assert(s.take(i) =~= s);
    }
}

proof fn lemma_hex_val_take_monotonic(s: Seq<u8>, i: int)
    requires
        0 <= i <= s.len(),
    ensures
        hex_val(s) >= hex_val(s.take(i)),
    decreases s.len() - i,
{
    if i < s.len() {
        lemma_hex_val_take_monotonic(s, i + 1);
        assert(s.take(i + 1).drop_last() =~= s.take(i));
        assert(hex_val(s.take(i + 1)) == hex_val(s.take(i)) * 16 + hex_digit_val(
            s.take(i + 1).last(),
        ));
    } else {
        assert(s.take(i) =~= s);
    }
}

/// Parses a decimal numeral: a non-empty run of ASCII digits whose value
/// fits in `usize`; anything else is rejected.
pub fn parse_dec(s: &[u8]) -> (r: Option<usize>)
    ensures
        r == spec_parse_dec(s@),
{
    if s.len() == 0 {
        return None;
    }
    let mut acc: usize = 0;
    let mut i: usize = 0;
    while i < s.len()
        invariant
            i <= s@.len(),
            all_digits(s@.take(i as int)),
            acc == dec_val(s@.take(i as int)),
        decreases s@.len() - i,
    {
        let b = s[i];
        if !(48 <= b && b <= 57) {
            return None;
        }
        let d = (b - 48) as usize;
        let wide: u128 = acc as u128 * 10 + d as u128;
        proof {
            assert(s@.take(i + 1 as int).drop_last() =~= s@.take(i as int));
            assert(dec_val(s@.take(i + 1 as int)) == dec_val(s@.take(i as int)) * 10 + digit_val(
                s@[i as int],
            ));
        }
        if wide > usize::MAX as u128 {
            proof {
                lemma_dec_val_take_monotonic(s@, i + 1);
            }
            return None;
        }
        acc = wide as usize;
        i += 1;
    }
    proof {
        assert(s@.take(s@.len() as int) =~= s@);
    }
    Some(acc)
}

/// Parses a hexadecimal numeral: a non-empty run of hex digits (either
/// case) whose value fits in `usize`; anything else is rejected.
pub fn parse_hex(s: &[u8]) -> (r: Option<usize>)
    ensures
        r == spec_parse_hex(s@),
{
    if s.len() == 0 {
        return None;
    }
    let mut acc: usize = 0;
    let mut i: usize = 0;
    while i < s.len()
        invariant
            i <= s@.len(),
            all_hex_digits(s@.take(i as int)),
            acc == hex_val(s@.take(i as int)),
        decreases s@.len() - i,
    {
        let b = s[i];
        let d: usize = if 48 <= b && b <= 57 {
            (b - 48) as usize
        } else if 97 <= b && b <= 102 {
            (b - 87) as usize
        } else if 65 <= b && b <= 70 {
            (b - 55) as usize
        } else {
            return None;
        };
        let wide: u128 = acc as u128 * 16 + d as u128;
        proof {
            assert(s@.take(i + 1 as int).drop_last() =~= s@.take(i as int));
            assert(hex_val(s@.take(i + 1 as int)) == hex_val(s@.take(i as int)) * 16
                + hex_digit_val(s@[i as int]));
        }
        if wide > usize::MAX as u128 {
            proof {
                lemma_hex_val_take_monotonic(s@, i + 1);
            }
            return None;
        }
        acc = wide as usize;
        i += 1;
    }
    proof {
        assert(s@.take(s@.len() as int) =~= s@);
    }
    Some(acc)
}

/// The canonical decimal numeral of `n`: no leading zeroes except for the
/// single digit `0` itself.
pub open spec fn spec_dec_bytes(n: nat) -> Seq<u8>
    decreases n,
{
    if n < 10 {
        seq![(48 + n) as u8]
    } else {
        spec_dec_bytes(n / 10).push((48 + n % 10) as u8)
    }
}

/// The canonical lowercase hexadecimal numeral of `n`.
pub open spec fn spec_hex_digit(d: nat) -> u8 {
    if d < 10 {
        (48 + d) as u8
    } else {
        (87 + d) as u8
    }
}

pub open spec fn spec_hex_bytes(n: nat) -> Seq<u8>
    decreases n,
{
    if n < 16 {
        seq![spec_hex_digit(n)]
    } else {
        spec_hex_bytes(n / 16).push(spec_hex_digit(n % 16))
    }
}

/// The canonical decimal numeral parses back to the value it was printed
/// from: digits only, non-empty, and `dec_val` inverts it.
pub proof fn lemma_dec_bytes_roundtrip(n: nat)
    ensures
        spec_dec_bytes(n).len() >= 1,
        all_digits(spec_dec_bytes(n)),
        dec_val(spec_dec_bytes(n)) == n,
    decreases n,
{
    if n < 10 {
        let s = spec_dec_bytes(n);
        assert(s.drop_last() =~= Seq::<u8>::empty());
        assert(dec_val(s) == dec_val(s.drop_last()) * 10 + digit_val(s.last()));
        assert(digit_val((48 + n) as u8) == n);
    } else {
        lemma_dec_bytes_roundtrip(n / 10);
        vstd::arithmetic::div_mod::lemma_fundamental_div_mod(n as int, 10);
        let s = spec_dec_bytes(n);
        assert(s.drop_last() =~= spec_dec_bytes(n / 10));
        assert(s.last() == (48 + n % 10) as u8);
        assert(dec_val(s) == (n / 10) * 10 + n % 10);
        assert forall|i: int| 0 <= i < s.len() implies is_digit(s[i]) by {
            if i < s.len() - 1 {
                assert(s[i] == spec_dec_bytes(n / 10)[i]);
            }
        }
    }
}

/// The canonical hexadecimal numeral parses back to the value it was
/// printed from.
pub proof fn lemma_hex_bytes_roundtrip(n: nat)
    ensures
        spec_hex_bytes(n).len() >= 1,
        all_hex_digits(spec_hex_bytes(n)),
        hex_val(spec_hex_bytes(n)) == n,
    decreases n,
{
    if n < 16 {
        let s = spec_hex_bytes(n);
        assert(s.drop_last() =~= Seq::<u8>::empty());
        assert(hex_val(s) == hex_val(s.drop_last()) * 16 + hex_digit_val(s.last()));
        assert(is_hex_digit(spec_hex_digit(n)) && hex_digit_val(spec_hex_digit(n)) == n);
    } else {
        lemma_hex_bytes_roundtrip(n / 16);
        vstd::arithmetic::div_mod::lemma_fundamental_div_mod(n as int, 16);
        let s = spec_hex_bytes(n);
        assert(s.drop_last() =~= spec_hex_bytes(n / 16));
        assert(is_hex_digit(spec_hex_digit(n % 16)) && hex_digit_val(spec_hex_digit(n % 16)) == n
            % 16);
        assert(hex_val(s) == (n / 16) * 16 + n % 16);
        assert forall|i: int| 0 <= i < s.len() implies is_hex_digit(s[i]) by {
            if i < s.len() - 1 {
                assert(s[i] == spec_hex_bytes(n / 16)[i]);
            }
        }
    }
}

/// Prints `n` as its canonical decimal numeral.
pub fn dec_bytes(n: usize) -> (r: Vec<u8>)
    ensures
        r@ == spec_dec_bytes(n as nat),
{
    let mut out: Vec<u8> = Vec::new();
    let mut m: usize = n;
    loop
        invariant
            m <= n,
            if m > 0 || out@.len() == 0 {
                spec_dec_bytes(n as nat) == spec_dec_bytes(m as nat) + out@
            } else {
                spec_dec_bytes(n as nat) == out@
            },
        ensures
            spec_dec_bytes(n as nat) == out@,
        decreases m, (if out@.len() == 0 { 1int } else { 0int }),
    {
        if m == 0 && out.len() > 0 {
            break;
        }
        let ghost pre = out@;
        let d = 48 + (m % 10) as u8;
        out.insert(0, d);
        proof {
            vstd::arithmetic::div_mod::lemma_fundamental_div_mod(m as int, 10);
            assert(out@ =~= seq![d] + pre);
            if m < 10 {
                assert(spec_dec_bytes(m as nat) =~= seq![d]);
                assert(spec_dec_bytes(m as nat) + pre =~= out@);
            } else {
                assert(spec_dec_bytes(m as nat) =~= spec_dec_bytes((m as nat) / 10) + seq![d]);
                assert(spec_dec_bytes(m as nat) + pre =~= spec_dec_bytes((m / 10) as nat) + out@);
            }
        }
        m = m / 10;
    }
    out
}

} // verus!
