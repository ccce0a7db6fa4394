//! Integers of any size.

use vstd::prelude::*;
use crate::limbs::{limbs_add, limbs_copy, limbs_mul, limbs_of, limbs_order, limbs_sub, limbs_value};

verus! {

/// An integer of any size, held as a sign and a magnitude.
#[derive(Debug)]
pub struct Integer {
    negative: bool,
    magnitude: Vec<u32>,
}

impl View for Integer {
    type V = int;

    closed spec fn view(&self) -> int {
        if self.negative {
            -(limbs_value(self.magnitude@) as int)
        } else {
            limbs_value(self.magnitude@) as int
        }
    }
}

impl Integer {
    /// The integer with the value of `v`.
    pub fn from_i64(v: i64) -> (r: Integer)
        ensures
            r@ == v,
    {
        if v < 0 {
            let m: u64 = ((-(v + 1)) as u64) + 1;
            Integer { negative: true, magnitude: limbs_of(m) }
        } else {
            Integer { negative: false, magnitude: limbs_of(v as u64) }
        }
    }

    /// A second integer with the same value.
    pub fn copy(&self) -> (r: Integer)
        ensures
            r@ == self@,
    {
        Integer { negative: self.negative, magnitude: limbs_copy(&self.magnitude) }
    }

    /// The limbs of the magnitude of the integer, least significant first,
    /// each counting `2^32` times the one before.
    pub fn magnitude(&self) -> (r: Vec<u32>)
        ensures
            limbs_value(r@) == (if self@ < 0 { -self@ } else { self@ }),
    {
        limbs_copy(&self.magnitude)
    }

    /// Whether the integer is negative.
    pub fn is_negative(&self) -> (r: bool)
        ensures
            r == (self@ < 0),
    {
        self.signum() < 0
    }

    /// `-1`, `0` or `1` as the integer is negative, zero or positive.
    pub fn signum(&self) -> (r: i8)
        ensures
            r == -1 <==> self@ < 0,
            r == 0 <==> self@ == 0,
            r == 1 <==> self@ > 0,
    {
        let none: Vec<u32> = Vec::new();
        let m = limbs_order(&self.magnitude, &none, 0);
        if m == 0 {
            0
        } else if self.negative {
            -1
        } else {
            1
        }
    }

    /// The integer with the opposite sign.
    pub fn neg(&self) -> (r: Integer)
        ensures
            r@ == -self@,
    {
        Integer { negative: !self.negative, magnitude: limbs_copy(&self.magnitude) }
    }

    /// Sum of two integers.
    pub fn add(&self, other: &Integer) -> (r: Integer)
        ensures
            r@ == self@ + other@,
    {
        if self.negative == other.negative {
            Integer {
                negative: self.negative,
                magnitude: limbs_add(&self.magnitude, &other.magnitude, 0, 0),
            }
        } else if limbs_order(&self.magnitude, &other.magnitude, 0) >= 0 {
            Integer {
                negative: self.negative,
                magnitude: limbs_sub(&self.magnitude, &other.magnitude, 0, 0),
            }
        } else {
            Integer {
                negative: other.negative,
                magnitude: limbs_sub(&other.magnitude, &self.magnitude, 0, 0),
            }
        }
    }

    /// Difference of two integers.
    pub fn sub(&self, other: &Integer) -> (r: Integer)
        ensures
            r@ == self@ - other@,
    {
        let minus = other.neg();
        self.add(&minus)
    }

    /// Product of two integers.
    pub fn mul(&self, other: &Integer) -> (r: Integer)
        ensures
            r@ == self@ * other@,
    {
        let r = Integer {
            negative: self.negative != other.negative,
            magnitude: limbs_mul(&self.magnitude, &other.magnitude, 0),
        };
        proof {
            let a = limbs_value(self.magnitude@) as int;
            let b = limbs_value(other.magnitude@) as int;
            assert((-a) * b == -(a * b) && a * (-b) == -(a * b) && (-a) * (-b) == a * b)
                by (nonlinear_arith);
        }
        r
    }
}

proof fn lemma_square_grows(p: int, d: int)
    by (nonlinear_arith)
    requires
        p >= 1,
        d >= 1,
    ensures
        p * p * d >= p,
{
}

proof fn lemma_double_step(m: int, s: int)
    by (nonlinear_arith)
    ensures
        (m + s) + s == m + 2 * s,
{
}

/// The largest integer whose square, times `d`, is at most `t`: the square
/// root of `t / d`, rounded down.
pub fn root_floor(t: &Integer, d: &Integer) -> (m: Integer)
    requires
        t@ >= 0,
        d@ > 0,
    ensures
        m@ >= 0,
        m@ * m@ * d@ <= t@,
        t@ < (m@ + 1) * (m@ + 1) * d@,
{
    // the powers of two whose square, times d, is at most t
    let mut powers: Vec<Integer> = Vec::new();
    let mut p = Integer::from_i64(1);
    let two = Integer::from_i64(2);
    let mut fits = p.mul(&p).mul(d).sub(t).signum() <= 0;
    while fits
        invariant
            t@ >= 0,
            d@ > 0,
            two@ == 2,
            p@ >= 1,
            fits == (p@ * p@ * d@ <= t@),
            forall|i: int| 0 <= i < powers@.len() ==> (#[trigger] powers@[i])@ >= 1,
            forall|i: int| 0 <= i < powers@.len() - 1 ==> powers@[i + 1]@ == 2 * (#[trigger] powers@[i])@,
            powers@.len() > 0 ==> powers@[0]@ == 1 && p@ == 2 * powers@.last()@,
            powers@.len() == 0 ==> p@ == 1,
        decreases (if p@ <= t@ { t@ - p@ + 1 } else { 0 }),
    {
        proof {
            lemma_square_grows(p@, d@);
            assert(p@ <= t@);
        }
        let ghost last = p@;
        powers.push(p.copy());
        p = p.mul(&two);
        assert(p@ == 2 * last) by (nonlinear_arith)
            requires
                p@ == last * two@,
                two@ == 2,
        ;
        fits = p.mul(&p).mul(d).sub(t).signum() <= 0;
    }
    let mut m = Integer::from_i64(0);
    let mut i: usize = powers.len();
    let ghost mut step: int = p@;
    proof {
        assert(0 * 0 * d@ == 0) by (nonlinear_arith);
    }
    while i > 0
        invariant
            i <= powers@.len(),
            t@ >= 0,
            d@ > 0,
            m@ >= 0,
            m@ * m@ * d@ <= t@,
            t@ < (m@ + step) * (m@ + step) * d@,
            step == (if i == powers@.len() {
                p@
            } else {
                powers@[i as int]@
            }),
            forall|i: int| 0 <= i < powers@.len() ==> (#[trigger] powers@[i])@ >= 1,
            forall|i: int| 0 <= i < powers@.len() - 1 ==> powers@[i + 1]@ == 2 * (#[trigger] powers@[i])@,
            powers@.len() > 0 ==> powers@[0]@ == 1 && p@ == 2 * powers@.last()@,
            powers@.len() == 0 ==> p@ == 1,
        decreases i,
    {
        i = i - 1;
        let half = &powers[i];
        assert(step == 2 * half@);
        let candidate = m.add(half);
        proof {
            lemma_double_step(m@, half@);
        }
        if candidate.mul(&candidate).mul(d).sub(t).signum() <= 0 {
            m = candidate;
        }
        proof {
            step = half@;
        }
    }
    m
}

impl Clone for Integer {
    fn clone(&self) -> (r: Integer)
        ensures
            r@ == self@,
    {
        self.copy()
    }
}

} // verus!
