//! Hexadecimal digits: classifying digit bytes, the value of a digit
//! string, and the fixed-width uppercase rendering of a 32-bit checksum.

use vstd::prelude::*;
use vstd::arithmetic::div_mod::{
    lemma_basic_div, lemma_div_denominator, lemma_div_pos_is_pos, lemma_fundamental_div_mod,
    lemma_mod_bound,
};

verus! {

/// The ASCII bytes that count as hexadecimal digits: `0-9`, `A-F`, `a-f`.
pub open spec fn is_hex_digit(b: u8) -> bool {
    (48 <= b && b <= 57) || (65 <= b && b <= 70) || (97 <= b && b <= 102)
}

/// Numeric value of a hexadecimal digit byte, upper or lower case.
pub open spec fn hex_digit_value(b: u8) -> int {
    if 48 <= b && b <= 57 {
        b - 48
    } else if 65 <= b && b <= 70 {
        b - 55
    } else {
        b - 87
    }
}

/// Uppercase digit byte for a value below 16.
pub open spec fn hex_digit_of(d: int) -> u8 {
    if d < 10 {
        (48 + d) as u8
    } else {
        (55 + d) as u8
    }
}

/// 16 to the power `n`.
pub open spec fn pow16(n: nat) -> int
    decreases n,
{
    if n == 0 {
        1
    } else {
        16 * pow16((n - 1) as nat)
    }
}

/// The value of a big-endian string of hexadecimal digit bytes.
pub open spec fn hex_value(s: Seq<u8>) -> int
    decreases s.len(),
{
    if s.len() == 0 {
        0
    } else {
        16 * hex_value(s.drop_last()) + hex_digit_value(s.last())
    }
}

/// The 8 uppercase hexadecimal digits of `v`, most significant first.
pub open spec fn hex8(v: u32) -> Seq<u8> {
    Seq::new(8, |i: int| hex_digit_of((v as int / pow16((7 - i) as nat)) % 16))
}

pub proof fn lemma_pow16_pos(n: nat)
    ensures
        pow16(n) >= 1,
    decreases n,
{
    if n > 0 {
        lemma_pow16_pos((n - 1) as nat);
    }
}

pub proof fn lemma_pow16_le(a: nat, b: nat)
    requires
        a <= b,
    ensures
        pow16(a) <= pow16(b),
    decreases b,
{
    lemma_pow16_pos(a);
    if a < b {
        lemma_pow16_le(a, (b - 1) as nat);
    }
}

proof fn lemma_hex8_value_prefix(v: u32, k: int)
    requires
        0 <= k <= 8,
    ensures
        hex_value(hex8(v).take(k)) == v as int / pow16((8 - k) as nat),
    decreases k,
{
    lemma_pow16_pos((8 - k) as nat);
    if k == 0 {
        assert(hex8(v).take(0) =~= Seq::<u8>::empty());
        assert(pow16(8) == 0x1_0000_0000) by {
            reveal_with_fuel(pow16, 9);
        }
        lemma_basic_div(v as int, pow16(8));
    } else {
        lemma_hex8_value_prefix(v, k - 1);
        let p = pow16((8 - k) as nat);
        let q = v as int / p;
        assert(hex8(v).take(k).drop_last() =~= hex8(v).take(k - 1));
        assert(hex8(v).take(k).last() == hex8(v)[k - 1]);
        // The previous prefix value is q / 16, because dividing by
        // pow16(9 - k) is dividing by p and then by 16.
        assert(pow16((8 - (k - 1)) as nat) == 16 * p);
        lemma_div_denominator(v as int, p, 16);
        assert(v as int / pow16((8 - (k - 1)) as nat) == q / 16);
        // The last digit of the prefix carries q % 16.
        lemma_div_pos_is_pos(v as int, p);
        lemma_mod_bound(q, 16);
        assert(hex_digit_value(hex_digit_of(q % 16)) == q % 16);
        lemma_fundamental_div_mod(q, 16);
        assert(hex_value(hex8(v).take(k)) == 16 * (q / 16) + q % 16);
    }
}

/// The 8-digit rendering of a checksum reads back as that checksum,
/// and every byte of it is a hexadecimal digit.
pub proof fn lemma_hex8_value(v: u32)
    ensures
        hex_value(hex8(v)) == v,
        forall|i: int| 0 <= i < 8 ==> is_hex_digit(#[trigger] hex8(v)[i]),
{
    lemma_hex8_value_prefix(v, 8);
    assert(hex8(v).take(8) =~= hex8(v));
    assert(pow16(0) == 1);
    lemma_basic_div(0, 1);
    assert(v as int / 1 == v as int);
    assert forall|i: int| 0 <= i < 8 implies is_hex_digit(#[trigger] hex8(v)[i]) by {
        let p = pow16((7 - i) as nat);
        lemma_pow16_pos((7 - i) as nat);
        lemma_div_pos_is_pos(v as int, p);
        lemma_mod_bound(v as int / p, 16);
    }
}

/// Digit classification, executably.
pub fn is_hex_digit_byte(b: u8) -> (r: bool)
    ensures
        r == is_hex_digit(b),
{
    (48 <= b && b <= 57) || (65 <= b && b <= 70) || (97 <= b && b <= 102)
}

fn hex_digit_value_byte(b: u8) -> (d: u8)
    requires
        is_hex_digit(b),
    ensures
        d as int == hex_digit_value(b),
{
    if b <= 57 {
        b - 48
    } else if b <= 70 {
        b - 55
    } else {
        b - 87
    }
}

fn pow16_val(k: usize) -> (r: u32)
    requires
        k <= 7,
    ensures
        r as int == pow16(k as nat),
{
    proof {
        reveal_with_fuel(pow16, 9);
    }
    let mut r: u32 = 1;
    let mut j: usize = 0;
    while j < k
        invariant
            j <= k <= 7,
            r as int == pow16(j as nat),
        decreases k - j,
    {
        proof {
            lemma_pow16_le(j as nat, 6);
            assert(pow16(6) == 0x100_0000) by {
                reveal_with_fuel(pow16, 7);
            }
        }
        r = r * 16;
        j = j + 1;
    }
    r
}

/// The value of exactly 8 hexadecimal digit bytes.
pub fn hex_value8(s: &[u8]) -> (r: u32)
    requires
        s@.len() == 8,
        forall|k: int| 0 <= k < 8 ==> is_hex_digit(#[trigger] s@[k]),
    ensures
        r as int == hex_value(s@),
{
    let mut r: u32 = 0;
    let mut j: usize = 0;
    while j < 8
        invariant
            j <= 8,
            s@.len() == 8,
            forall|k: int| 0 <= k < 8 ==> is_hex_digit(#[trigger] s@[k]),
            r as int == hex_value(s@.take(j as int)),
            (r as int) < pow16(j as nat),
        decreases 8 - j,
    {
        proof {
            lemma_pow16_le(j as nat, 7);
            assert(pow16(7) == 0x1000_0000) by {
                reveal_with_fuel(pow16, 8);
            }
            assert(s@.take(j as int + 1).drop_last() =~= s@.take(j as int));
            assert(s@.take(j as int + 1).last() == s@[j as int]);
        }
        let d = hex_digit_value_byte(s[j]);
        r = r * 16 + d as u32;
        j = j + 1;
    }
    proof {
        assert(s@.take(8) =~= s@);
    }
    r
}

/// The checksum as 8 uppercase hexadecimal digit bytes.
pub fn crc_hex_upper(v: u32) -> (r: Vec<u8>)
    ensures
        r@ == hex8(v),
{
    let mut out: Vec<u8> = Vec::new();
    let mut i: usize = 0;
    while i < 8
        invariant
            i <= 8,
            out@ =~= hex8(v).take(i as int),
        decreases 8 - i,
    {
        let p = pow16_val(7 - i);
        proof {
            lemma_pow16_pos((7 - i) as nat);
        }
        let d = (v / p) % 16;
        let b: u8 = if d < 10 {
            48 + d as u8
        } else {
            55 + d as u8
        };
        proof {
            assert(b == hex_digit_of((v as int / pow16((7 - i as int) as nat)) % 16));
            assert(hex8(v)[i as int] == b);
        }
        out.push(b);
        proof {
            assert(out@ =~= hex8(v).take(i as int + 1));
        }
        i = i + 1;
    }
    proof {
        assert(hex8(v).take(8) =~= hex8(v));
    }
    out
}

} // verus!
