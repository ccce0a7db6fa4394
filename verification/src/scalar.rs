//! Exact rational scalars.

use vstd::prelude::*;
use crate::integer::Integer;

verus! {

/// The real number `n / d`.
pub open spec fn quotient(n: int, d: int) -> real {
    n as real / d as real
}

/// `x` is the real number `n / d`, stated without a division.
pub open spec fn represents(x: real, n: int, d: int) -> bool {
    d != 0 && x * (d as real) == n as real
}

/// Dividing and multiplying by the same number gives the number back.
pub proof fn lemma_real_div(x: real, d: real)
    by (nonlinear_arith)
    requires
        d != 0real,
    ensures
        (x / d) * d == x,
{
}

/// Equal products by the same number, which is not zero, have equal factors.
pub proof fn lemma_real_cancel(x: real, y: real, d: real)
    by (nonlinear_arith)
    requires
        d != 0real,
        x * d == y * d,
    ensures
        x == y,
{
}

/// The product of two integers, taken as a real number.
pub proof fn lemma_cast_mul(a: int, b: int)
    by (nonlinear_arith)
    ensures
        (a * b) as real == (a as real) * (b as real),
{
}

/// A quotient is represented by its numerator and denominator.
pub proof fn lemma_quotient_represents(n: int, d: int)
    requires
        d != 0,
    ensures
        represents(quotient(n, d), n, d),
{
    lemma_real_div(n as real, d as real);
}

/// A number has one value only for a given numerator and denominator.
pub proof fn lemma_represents_unique(x: real, y: real, n: int, d: int)
    requires
        represents(x, n, d),
        represents(y, n, d),
    ensures
        x == y,
{
    lemma_real_cancel(x, y, d as real);
}

proof fn lemma_spread(x: real, y: real, k: real)
    by (nonlinear_arith)
    ensures
        (x + y) * k == x * k + y * k,
        (x - y) * k == x * k - y * k,
{
}

proof fn lemma_regroup(x: real, a: real, b: real)
    by (nonlinear_arith)
    ensures
        x * (a * b) == (x * a) * b,
        x * (a * b) == (x * b) * a,
{
}

proof fn lemma_same_factor(p: real, q: real, k: real)
    by (nonlinear_arith)
    requires
        p == q,
    ensures
        p * k == q * k,
{
}

proof fn lemma_represents_add(x: real, n1: int, d1: int, y: real, n2: int, d2: int)
    requires
        represents(x, n1, d1),
        represents(y, n2, d2),
    ensures
        represents(x + y, n1 * d2 + n2 * d1, d1 * d2),
        represents(x - y, n1 * d2 - n2 * d1, d1 * d2),
{
    let a = d1 as real;
    let b = d2 as real;
    lemma_cast_mul(d1, d2);
    lemma_cast_mul(n1, d2);
    lemma_cast_mul(n2, d1);
    assert(d1 * d2 != 0) by (nonlinear_arith)
        requires
            d1 != 0,
            d2 != 0,
    ;
    lemma_spread(x, y, a * b);
    lemma_regroup(x, a, b);
    lemma_regroup(y, a, b);
    lemma_same_factor(x * a, n1 as real, b);
    lemma_same_factor(y * b, n2 as real, a);
}

proof fn lemma_represents_mul(x: real, n1: int, d1: int, y: real, n2: int, d2: int)
    requires
        represents(x, n1, d1),
        represents(y, n2, d2),
    ensures
        represents(x * y, n1 * n2, d1 * d2),
{
    let a = d1 as real;
    let b = d2 as real;
    lemma_cast_mul(d1, d2);
    lemma_cast_mul(n1, n2);
    assert(d1 * d2 != 0) by (nonlinear_arith)
        requires
            d1 != 0,
            d2 != 0,
    ;
    assert((x * y) * (a * b) == (x * a) * (y * b)) by (nonlinear_arith);
}

proof fn lemma_represents_div(x: real, n1: int, d1: int, y: real, n2: int, d2: int)
    requires
        represents(x, n1, d1),
        represents(y, n2, d2),
        n2 != 0,
    ensures
        y != 0real,
        represents(x / y, n1 * d2, d1 * n2),
{
    let a = d1 as real;
    let b = d2 as real;
    let m = n2 as real;
    let q = x / y;
    lemma_cast_mul(d1, n2);
    lemma_cast_mul(n1, d2);
    assert(d1 * n2 != 0) by (nonlinear_arith)
        requires
            d1 != 0,
            n2 != 0,
    ;
    assert(y != 0real) by (nonlinear_arith)
        requires
            y * b == m,
            m != 0real,
    ;
    lemma_real_div(x, y);
    assert(q * (a * (y * b)) == ((q * y) * a) * b) by (nonlinear_arith);
}

/// The sign of a number, from the sign of its numerator.
pub proof fn lemma_represents_sign(x: real, n: int, d: int)
    requires
        represents(x, n, d),
        d > 0,
    ensures
        x > 0real <==> n > 0,
        x == 0real <==> n == 0,
        x < 0real <==> n < 0,
{
    let a = d as real;
    assert(x > 0real ==> x * a > 0real) by (nonlinear_arith)
        requires
            a > 0real,
    ;
    assert(x < 0real ==> x * a < 0real) by (nonlinear_arith)
        requires
            a > 0real,
    ;
    assert(x == 0real ==> x * a == 0real) by (nonlinear_arith);
}

/// The distance below which two magnitudes count as equal: `2^-52`.
pub open spec fn epsilon() -> real {
    1real / 4503599627370496real
}

/// An exact rational number.
#[derive(Debug)]
pub struct Scalar {
    num: Integer,
    den: Integer,
}

impl View for Scalar {
    type V = real;

    closed spec fn view(&self) -> real {
        quotient(self.num@, self.den@)
    }
}

impl Scalar {
    #[verifier::type_invariant]
    spec fn positive_denominator(&self) -> bool {
        self.den@ > 0
    }

    proof fn lemma_view(&self)
        requires
            self.den@ > 0,
        ensures
            represents(self@, self.num@, self.den@),
    {
        lemma_quotient_represents(self.num@, self.den@);
    }

    fn build(num: Integer, den: Integer, Ghost(x): Ghost<real>) -> (r: Scalar)
        requires
            den@ > 0,
            represents(x, num@, den@),
        ensures
            r@ == x,
    {
        proof {
            lemma_quotient_represents(num@, den@);
            lemma_represents_unique(quotient(num@, den@), x, num@, den@);
        }
        Scalar { num, den }
    }

    /// A numerator and a positive denominator of the scalar.
    pub fn fraction(&self) -> (r: (Integer, Integer))
        ensures
            r.1@ > 0,
            represents(self@, r.0@, r.1@),
    {
        proof {
            use_type_invariant(self);
            self.lemma_view();
        }
        (self.num.copy(), self.den.copy())
    }

    /// The scalar with the value of the integer `v`.
    pub fn from_i64(v: i64) -> (r: Scalar)
        ensures
            r@ == v as real,
    {
        proof {
            let x = v as real;
            let a = 1int as real;
            assert(a == 1real);
            assert(x * a == x) by (nonlinear_arith)
                requires
                    a == 1real,
            ;
        }
        Self::build(Integer::from_i64(v), Integer::from_i64(1), Ghost(v as real))
    }

    /// The scalar `n / d`, where `d` is not zero.
    pub fn ratio(n: i64, d: i64) -> (r: Option<Scalar>)
        ensures
            r is None <==> d == 0,
            r matches Some(s) ==> s@ == n as real / d as real,
    {
        if d == 0 {
            return None;
        }
        let num = Integer::from_i64(n);
        let den = Integer::from_i64(d);
        proof {
            lemma_quotient_represents(n as int, d as int);
        }
        let ghost x = n as real / d as real;
        if d < 0 {
            let num = num.neg();
            let den = den.neg();
            assert(x * ((-d) as real) == (-n) as real) by (nonlinear_arith)
                requires
                    x * (d as real) == n as real,
            ;
            Some(Self::build(num, den, Ghost(x)))
        } else {
            Some(Self::build(num, den, Ghost(x)))
        }
    }

    /// The scalar zero.
    pub fn zero() -> (r: Scalar)
        ensures
            r@ == 0real,
    {
        Self::from_i64(0)
    }

    /// The scalar one.
    pub fn one() -> (r: Scalar)
        ensures
            r@ == 1real,
    {
        Self::from_i64(1)
    }

    /// The distance below which two magnitudes count as equal: `2^-52`.
    pub fn default_epsilon() -> (r: Scalar)
        ensures
            r@ == epsilon(),
    {
        proof {
            lemma_quotient_represents(1, 4503599627370496);
        }
        Self::build(
            Integer::from_i64(1),
            Integer::from_i64(4503599627370496),
            Ghost(1real / 4503599627370496real),
        )
    }

    /// A second scalar with the same value.
    pub fn copy(&self) -> (r: Scalar)
        ensures
            r@ == self@,
    {
        proof {
            use_type_invariant(self);
            self.lemma_view();
        }
        Self::build(self.num.copy(), self.den.copy(), Ghost(self@))
    }

    /// The scalar with the opposite sign.
    pub fn neg(&self) -> (r: Scalar)
        ensures
            r@ == -self@,
    {
        proof {
            use_type_invariant(self);
            self.lemma_view();
            let x = self@;
            let a = self.den@ as real;
            assert((-x) * a == -(x * a)) by (nonlinear_arith);
        }
        Self::build(self.num.neg(), self.den.copy(), Ghost(-self@))
    }

    /// Sum of two scalars.
    pub fn add(&self, other: &Scalar) -> (r: Scalar)
        ensures
            r@ == self@ + other@,
    {
        proof {
            use_type_invariant(self);
            use_type_invariant(other);
            self.lemma_view();
            other.lemma_view();
            lemma_represents_add(self@, self.num@, self.den@, other@, other.num@, other.den@);
            assert(self.den@ * other.den@ > 0) by (nonlinear_arith)
                requires
                    self.den@ > 0,
                    other.den@ > 0,
            ;
        }
        let left = self.num.mul(&other.den);
        let right = other.num.mul(&self.den);
        Self::build(left.add(&right), self.den.mul(&other.den), Ghost(self@ + other@))
    }

    /// Difference of two scalars.
    pub fn sub(&self, other: &Scalar) -> (r: Scalar)
        ensures
            r@ == self@ - other@,
    {
        proof {
            use_type_invariant(self);
            use_type_invariant(other);
            self.lemma_view();
            other.lemma_view();
            lemma_represents_add(self@, self.num@, self.den@, other@, other.num@, other.den@);
            assert(self.den@ * other.den@ > 0) by (nonlinear_arith)
                requires
                    self.den@ > 0,
                    other.den@ > 0,
            ;
        }
        let left = self.num.mul(&other.den);
        let right = other.num.mul(&self.den);
        Self::build(left.sub(&right), self.den.mul(&other.den), Ghost(self@ - other@))
    }

    /// Product of two scalars.
    pub fn mul(&self, other: &Scalar) -> (r: Scalar)
        ensures
            r@ == self@ * other@,
    {
        proof {
            use_type_invariant(self);
            use_type_invariant(other);
            self.lemma_view();
            other.lemma_view();
            lemma_represents_mul(self@, self.num@, self.den@, other@, other.num@, other.den@);
            assert(self.den@ * other.den@ > 0) by (nonlinear_arith)
                requires
                    self.den@ > 0,
                    other.den@ > 0,
            ;
        }
        Self::build(self.num.mul(&other.num), self.den.mul(&other.den), Ghost(self@ * other@))
    }

    /// Quotient of two scalars, the second of which is not zero.
    pub fn div(&self, other: &Scalar) -> (r: Scalar)
        requires
            other@ != 0real,
        ensures
            r@ == self@ / other@,
    {
        proof {
            use_type_invariant(self);
            use_type_invariant(other);
            self.lemma_view();
            other.lemma_view();
            lemma_represents_sign(other@, other.num@, other.den@);
            lemma_represents_div(self@, self.num@, self.den@, other@, other.num@, other.den@);
        }
        let ghost x = self@ / other@;
        let num = self.num.mul(&other.den);
        let den = self.den.mul(&other.num);
        if other.num.signum() < 0 {
            proof {
                let a = den@ as real;
                assert(x * ((-den@) as real) == (-num@) as real) by (nonlinear_arith)
                    requires
                        x * (den@ as real) == num@ as real,
                ;
                assert(-(self.den@ * other.num@) > 0) by (nonlinear_arith)
                    requires
                        self.den@ > 0,
                        other.num@ < 0,
                ;
            }
            Self::build(num.neg(), den.neg(), Ghost(x))
        } else {
            proof {
                assert(self.den@ * other.num@ > 0) by (nonlinear_arith)
                    requires
                        self.den@ > 0,
                        other.num@ > 0,
                ;
            }
            Self::build(num, den, Ghost(x))
        }
    }

    /// `-1`, `0` or `1` as the scalar is negative, zero or positive.
    pub fn signum(&self) -> (r: i8)
        ensures
            r == -1 <==> self@ < 0real,
            r == 0 <==> self@ == 0real,
            r == 1 <==> self@ > 0real,
    {
        proof {
            use_type_invariant(self);
            self.lemma_view();
            lemma_represents_sign(self@, self.num@, self.den@);
        }
        self.num.signum()
    }

    /// Whether the scalar is zero.
    pub fn is_zero(&self) -> (r: bool)
        ensures
            r == (self@ == 0real),
    {
        self.signum() == 0
    }

    /// Whether this scalar is smaller than `other`.
    pub fn lt(&self, other: &Scalar) -> (r: bool)
        ensures
            r == (self@ < other@),
    {
        self.sub(other).signum() < 0
    }

    /// Whether this scalar is at most `other`.
    pub fn le(&self, other: &Scalar) -> (r: bool)
        ensures
            r == (self@ <= other@),
    {
        self.sub(other).signum() <= 0
    }

    /// Whether the two scalars have the same value.
    pub fn same(&self, other: &Scalar) -> (r: bool)
        ensures
            r == (self@ == other@),
    {
        self.sub(other).signum() == 0
    }
}

impl Clone for Scalar {
    fn clone(&self) -> (r: Scalar)
        ensures
            r@ == self@,
    {
        self.copy()
    }
}

impl PartialEq for Scalar {
    fn eq(&self, other: &Scalar) -> (r: bool) {
        self.same(other)
    }
}

impl vstd::std_specs::cmp::PartialEqSpecImpl for Scalar {
    open spec fn obeys_eq_spec() -> bool {
        true
    }

    open spec fn eq_spec(&self, other: &Scalar) -> bool {
        self@ == other@
    }
}

} // verus!
