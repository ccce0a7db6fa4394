//! Square roots of scalars.

use vstd::prelude::*;
use crate::integer::{root_floor, Integer};
use crate::limbs::{limbs_from, limbs_value};
use crate::scalar::{
    epsilon, lemma_cast_mul, lemma_real_cancel, lemma_real_div, represents, Scalar,
};
use crate::vector::{dot, lemma_dot_scale, lemma_dot_symmetric, vec_div, vec_scale};

verus! {

/// `r` is the square root of `x`, rounded down by less than the part
/// `epsilon()` of itself: `r <= sqrt(x) < r * (1 + epsilon())`.
pub open spec fn is_root(x: real, r: real) -> bool {
    &&& r >= 0real
    &&& r * r <= x
    &&& x == 0real || x < (r + r * epsilon()) * (r + r * epsilon())
}

proof fn lemma_square_order(a: real, b: real)
    by (nonlinear_arith)
    requires
        0real <= a,
        a <= b,
    ensures
        a * a <= b * b,
{
}

proof fn lemma_scale_square(r: real, e: real, d: real, m: real)
    requires
        r * e == m,
    ensures
        (r * r) * (d * (e * e)) == (m * m) * d,
{
    assert((r * r) * (d * (e * e)) == ((r * e) * (r * e)) * d) by (nonlinear_arith);
}

proof fn lemma_order_cancel(a: real, b: real, k: real)
    by (nonlinear_arith)
    requires
        k > 0real,
    ensures
        a * k <= b * k ==> a <= b,
        a * k < b * k ==> a < b,
{
}

proof fn lemma_root_bounds(x: real, n: int, d: int, e: int, m: int, r: real)
    requires
        d > 0,
        e > 0,
        represents(x, n, d),
        represents(r, m, e),
        m * m * d <= n * e * e,
        n * e * e < (m + 1) * (m + 1) * d,
    ensures
        r * r <= x,
        x < (r + 1real / (e as real)) * (r + 1real / (e as real)),
{
    let (mr, dr, nr, er) = (m as real, d as real, n as real, e as real);
    let k = dr * (er * er);
    lemma_cast_mul(m, m);
    lemma_cast_mul(m * m, d);
    lemma_cast_mul(n, e);
    lemma_cast_mul(n * e, e);
    lemma_cast_mul(m + 1, m + 1);
    lemma_cast_mul((m + 1) * (m + 1), d);
    assert((mr * mr) * dr <= (nr * er) * er);
    assert((nr * er) * er < ((mr + 1real) * (mr + 1real)) * dr);
    assert(er * er > 0real) by (nonlinear_arith)
        requires
            er > 0real,
    ;
    assert(k > 0real) by (nonlinear_arith)
        requires
            dr > 0real,
            er * er > 0real,
            k == dr * (er * er),
    ;
    lemma_scale_square(r, er, dr, mr);
    assert(x * k == (nr * er) * er) by (nonlinear_arith)
        requires
            x * dr == nr,
            k == dr * (er * er),
    ;
    lemma_order_cancel(r * r, x, k);
    let s = r + 1real / er;
    lemma_real_div(1real, er);
    assert(s * er == mr + 1real) by (nonlinear_arith)
        requires
            s == r + 1real / er,
            r * er == mr,
            (1real / er) * er == 1real,
    ;
    lemma_scale_square(s, er, dr, mr + 1real);
    lemma_order_cancel(x, s * s, k);
}

proof fn lemma_large_root(n: int, d: int, e: int, m: int)
    requires
        d >= 1,
        m >= 0,
        n * e * e >= (9007199254740992 * 9007199254740992) * d,
        n * e * e < (m + 1) * (m + 1) * d,
    ensures
        m >= 9007199254740992,
{
    let k = 9007199254740992int;
    if m + 1 <= k {
        let s = (m + 1) * (m + 1);
        assert(s <= k * k) by (nonlinear_arith)
            requires
                0 <= m + 1 <= k,
                s == (m + 1) * (m + 1),
        ;
        assert(s * d <= (k * k) * d) by (nonlinear_arith)
            requires
                s <= k * k,
                d >= 1,
        ;
    }
}

proof fn lemma_scaled_enough(n: int, d: int, p: int, e: int)
    requires
        n * p * p >= d,
        e == 9007199254740992 * p,
    ensures
        n * e * e >= (9007199254740992 * 9007199254740992) * d,
{
    let k = 9007199254740992int;
    let w = n * p * p;
    assert(n * e * e == (k * k) * w) by (nonlinear_arith)
        requires
            e == k * p,
            w == n * p * p,
    ;
    assert((k * k) * w >= (k * k) * d) by (nonlinear_arith)
        requires
            w >= d,
    ;
}

proof fn lemma_below(n: int, p: int, d: int)
    by (nonlinear_arith)
    requires
        n >= 1,
        p >= 1,
        n * p * p < d,
    ensures
        p < d,
{
}

proof fn lemma_step_is_small(r: real, er: real, mr: real)
    requires
        er > 0real,
        r * er == mr,
        mr >= 4503599627370496real,
    ensures
        1real / er <= r * epsilon(),
{
    let q = 1real / er;
    let eps = epsilon();
    lemma_real_div(1real, er);
    assert((r * eps) * er == eps * mr) by (nonlinear_arith)
        requires
            r * er == mr,
    ;
    assert(eps * mr >= 1real);
    lemma_order_cancel(q, r * eps, er);
}

/// The scalar with the value of the integer.
fn scalar_of(value: &Integer) -> (r: Scalar)
    ensures
        r@ == value@ as real,
{
    let limbs = value.magnitude();
    let base = Scalar::from_i64(4294967296);
    let mut acc = Scalar::zero();
    let mut i: usize = limbs.len();
    while i > 0
        invariant
            i <= limbs@.len(),
            base@ == 4294967296real,
            acc@ == limbs_from(limbs@, i as nat) as real,
        decreases i,
    {
        i = i - 1;
        let digit = Scalar::from_i64(limbs[i] as i64);
        let ghost before = acc@;
        let shifted = acc.mul(&base);
        assert(shifted@ == 4294967296real * before) by (nonlinear_arith)
            requires
                shifted@ == before * base@,
                base@ == 4294967296real,
        ;
        acc = shifted.add(&digit);
    }
    assert(acc@ == limbs_value(limbs@) as real);
    if value.is_negative() {
        acc.neg()
    } else {
        acc
    }
}

impl Scalar {
    /// The square root of the scalar, which is not negative, rounded down
    /// by less than the part `epsilon()` of itself.
    pub fn root(&self) -> (r: Scalar)
        requires
            self@ >= 0real,
        ensures
            is_root(self@, r@),
    {
        let (n, d) = self.fraction();
        proof {
            crate::scalar::lemma_represents_sign(self@, n@, d@);
        }
        if n.signum() == 0 {
            let zero = Scalar::zero();
            assert(zero@ * zero@ == 0real) by (nonlinear_arith)
                requires
                    zero@ == 0real,
            ;
            return zero;
        }
        // a power of two that makes up for the denominator
        let two = Integer::from_i64(2);
        let mut p = Integer::from_i64(1);
        let mut short = n.mul(&p).mul(&p).sub(&d).signum() < 0;
        while short
            invariant
                n@ >= 1,
                d@ >= 1,
                p@ >= 1,
                two@ == 2,
                short == (n@ * p@ * p@ < d@),
            decreases (if p@ <= d@ { d@ - p@ + 1 } else { 0 }),
        {
            proof {
                lemma_below(n@, p@, d@);
            }
            let ghost last = p@;
            p = p.mul(&two);
            assert(p@ == 2 * last) by (nonlinear_arith)
                requires
                    p@ == last * two@,
                    two@ == 2,
            ;
            short = n.mul(&p).mul(&p).sub(&d).signum() < 0;
        }
        let e = Integer::from_i64(9007199254740992).mul(&p);
        let t = n.mul(&e).mul(&e);
        proof {
            assert(e@ > 0) by (nonlinear_arith)
                requires
                    e@ == 9007199254740992 * p@,
                    p@ > 0,
            ;
            assert(n@ * e@ * e@ >= 0) by (nonlinear_arith)
                requires
                    n@ >= 0,
                    e@ > 0,
            ;
            lemma_scaled_enough(n@, d@, p@, e@);
        }
        let m = root_floor(&t, &d);
        let ghost (mv, ev) = (m@, e@);
        let r = scalar_of(&m).div(&scalar_of(&e));
        proof {
            lemma_real_div(mv as real, ev as real);
            lemma_large_root(n@, d@, ev, mv);
            lemma_root_bounds(self@, n@, d@, ev, mv, r@);
            crate::scalar::lemma_represents_sign(r@, mv, ev);
            lemma_step_is_small(r@, ev as real, mv as real);
            let step = 1real / (ev as real);
            assert(step > 0real) by {
                lemma_real_div(1real, ev as real);
                if step <= 0real {
                    assert(step * (ev as real) <= 0real) by (nonlinear_arith)
                        requires
                            step <= 0real,
                            ev as real > 0real,
                    ;
                }
            }
            lemma_square_order(r@ + step, r@ + r@ * epsilon());
        }
        r
    }
}

/// To divide is to multiply by the inverse.
pub proof fn lemma_divide_is_scale(x: real, d: real)
    requires
        d != 0real,
    ensures
        x / d == x * (1real / d),
{
    let k = 1real / d;
    lemma_real_div(x, d);
    lemma_real_div(1real, d);
    assert((x * k) * d == x * (k * d)) by (nonlinear_arith);
    lemma_real_cancel(x / d, x * k, d);
}

proof fn lemma_unit_bounds(x: real, rho: real, k: real, eps: real)
    requires
        rho > 0real,
        k * rho == 1real,
        rho * rho <= x,
        x < (rho + rho * eps) * (rho + rho * eps),
    ensures
        1real <= k * (k * x),
        k * (k * x) < (1real + eps) * (1real + eps),
{
    let kk = k * k;
    assert(kk * (rho * rho) == (k * rho) * (k * rho)) by (nonlinear_arith)
        requires
            kk == k * k,
    ;
    assert(kk >= 0real) by (nonlinear_arith)
        requires
            kk == k * k,
    ;
    assert(kk > 0real) by (nonlinear_arith)
        requires
            kk == k * k,
            k * rho == 1real,
    ;
    assert(kk * (rho * rho) <= kk * x) by (nonlinear_arith)
        requires
            kk >= 0real,
            rho * rho <= x,
    ;
    assert(k * (k * x) == kk * x) by (nonlinear_arith)
        requires
            kk == k * k,
    ;
    let s = rho + rho * eps;
    assert(k * s == 1real + eps) by (nonlinear_arith)
        requires
            s == rho + rho * eps,
            k * rho == 1real,
    ;
    assert(kk * (s * s) == (k * s) * (k * s)) by (nonlinear_arith)
        requires
            kk == k * k,
    ;
    assert(kk * x < kk * (s * s)) by (nonlinear_arith)
        requires
            kk > 0real,
            x < s * s,
    ;
}

/// A vector divided by the root of the square of its length has a length
/// of at least one and less than `1 + epsilon()`.
pub proof fn lemma_unit_length(v: Seq<real>, length: real)
    requires
        length > 0real,
        is_root(dot(v, v), length),
        dot(v, v) > 0real,
    ensures
        1real <= dot(vec_div(v, length), vec_div(v, length)),
        dot(vec_div(v, length), vec_div(v, length)) < (1real + epsilon()) * (1real + epsilon()),
{
    let k = 1real / length;
    let u = vec_div(v, length);
    lemma_real_div(1real, length);
    assert forall|i: int| 0 <= i < v.len() implies u[i] == vec_scale(v, k)[i] by {
        lemma_divide_is_scale(v[i], length);
    }
    assert(u =~= vec_scale(v, k));
    lemma_dot_scale(v, u, k);
    lemma_dot_symmetric(v, u);
    lemma_dot_scale(v, v, k);
    lemma_unit_bounds(dot(v, v), length, k, epsilon());
}

} // verus!
