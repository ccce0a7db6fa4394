//! Scalars from numbers in the binary interchange format of 64 bits.

use vstd::prelude::*;
use crate::scalar::Scalar;

verus! {

/// Two to the power `k`.
pub open spec fn power_of_two(k: nat) -> real
    decreases k,
{
    if k == 0 {
        1real
    } else {
        2real * power_of_two((k - 1) as nat)
    }
}

/// The sign bit of the 64 bits.
pub open spec fn sign_of(bits: u64) -> int {
    bits as int / 0x8000_0000_0000_0000
}

/// The eleven bits of the exponent.
pub open spec fn exponent_of(bits: u64) -> int {
    (bits as int / 0x10_0000_0000_0000) % 2048
}

/// The 52 bits of the fraction.
pub open spec fn fraction_of(bits: u64) -> int {
    bits as int % 0x10_0000_0000_0000
}

/// The number that the 64 bits stand for, where their exponent is not the
/// one that marks the infinities and what is not a number: the fraction,
/// with a leading one where the exponent is not zero, times the power of
/// two that the exponent gives, with the sign.
pub open spec fn value_of(bits: u64) -> real {
    let mantissa = if exponent_of(bits) == 0 {
        fraction_of(bits)
    } else {
        fraction_of(bits) + 0x10_0000_0000_0000
    };
    let signed = if sign_of(bits) == 1 {
        -mantissa
    } else {
        mantissa
    };
    let shift = if exponent_of(bits) == 0 {
        -1074
    } else {
        exponent_of(bits) - 1075
    };
    if shift >= 0 {
        signed as real * power_of_two(shift as nat)
    } else {
        signed as real / power_of_two((-shift) as nat)
    }
}

proof fn lemma_power_is_positive(k: nat)
    ensures
        power_of_two(k) > 0real,
    decreases k,
{
    if k > 0 {
        lemma_power_is_positive((k - 1) as nat);
    }
}

/// Two to the power `exponent`.
fn two_to_the(exponent: u64) -> (r: Scalar)
    ensures
        r@ == power_of_two(exponent as nat),
{
    let two = Scalar::from_i64(2);
    let mut result = Scalar::one();
    let mut i: u64 = 0;
    while i < exponent
        invariant
            i <= exponent,
            two@ == 2real,
            result@ == power_of_two(i as nat),
        decreases exponent - i,
    {
        let ghost before = result@;
        result = result.mul(&two);
        assert(result@ == 2real * before) by (nonlinear_arith)
            requires
                result@ == before * two@,
                two@ == 2real,
        ;
        i = i + 1;
    }
    result
}

/// The scalar with exactly the value that the 64 bits stand for, where they
/// stand for a finite number.
pub fn from_binary64(bits: u64) -> (r: Option<Scalar>)
    ensures
        r is None <==> exponent_of(bits) == 2047,
        r matches Some(s) ==> s@ == value_of(bits),
{
    let negative = bits / 0x8000_0000_0000_0000 == 1;
    let exponent = (bits / 0x10_0000_0000_0000) % 2048;
    let fraction = bits % 0x10_0000_0000_0000;
    if exponent == 2047 {
        return None;
    }
    let mantissa: i64 = if exponent == 0 {
        fraction as i64
    } else {
        (fraction + 0x10_0000_0000_0000) as i64
    };
    let signed = Scalar::from_i64(if negative { -mantissa } else { mantissa });
    if exponent >= 1075 {
        let factor = two_to_the(exponent - 1075);
        Some(signed.mul(&factor))
    } else {
        let down: u64 = if exponent == 0 { 1074 } else { 1075 - exponent };
        let factor = two_to_the(down);
        proof {
            lemma_power_is_positive(down as nat);
        }
        Some(signed.div(&factor))
    }
}

} // verus!
