//! Vectors of a fixed dimension over exact scalars.

use vstd::prelude::*;
use vstd::std_specs::cmp::PartialEqSpecImpl;
use crate::scalar::Scalar;

verus! {

/// The values of a sequence of scalars.
pub open spec fn reals_of(s: Seq<Scalar>) -> Seq<real> {
    Seq::new(s.len(), |i: int| s[i]@)
}

/// Componentwise sum.
pub open spec fn vec_add(a: Seq<real>, b: Seq<real>) -> Seq<real> {
    Seq::new(a.len(), |i: int| a[i] + b[i])
}

/// Componentwise difference.
pub open spec fn vec_sub(a: Seq<real>, b: Seq<real>) -> Seq<real> {
    Seq::new(a.len(), |i: int| a[i] - b[i])
}

/// Every component times `s`.
pub open spec fn vec_scale(a: Seq<real>, s: real) -> Seq<real> {
    Seq::new(a.len(), |i: int| a[i] * s)
}

/// Every component divided by `s`.
pub open spec fn vec_div(a: Seq<real>, s: real) -> Seq<real> {
    Seq::new(a.len(), |i: int| a[i] / s)
}

/// Sum of the products of the components of `a` and `b`.
pub open spec fn dot(a: Seq<real>, b: Seq<real>) -> real
    decreases a.len(),
{
    if a.len() == 0 {
        0real
    } else {
        dot(a.drop_last(), b.drop_last()) + a.last() * b.last()
    }
}

/// Square of the area of the parallelogram that `a` and `b` span.
pub open spec fn outer_squared(a: Seq<real>, b: Seq<real>) -> real {
    dot(a, a) * dot(b, b) - dot(a, b) * dot(a, b)
}

/// The cross product of two vectors in space.
pub open spec fn cross(a: Seq<real>, b: Seq<real>) -> Seq<real> {
    seq![a[1] * b[2] - a[2] * b[1], a[2] * b[0] - a[0] * b[2], a[0] * b[1] - a[1] * b[0]]
}

/// The dot product in space, written out.
pub proof fn lemma_dot_space(a: Seq<real>, b: Seq<real>)
    requires
        a.len() == 3,
        b.len() == 3,
    ensures
        dot(a, b) == a[0] * b[0] + a[1] * b[1] + a[2] * b[2],
{
    reveal_with_fuel(dot, 4);
    assert(a.drop_last().drop_last().drop_last().len() == 0);
}

/// The dot product does not depend on the order of its arguments.
pub proof fn lemma_dot_symmetric(a: Seq<real>, b: Seq<real>)
    requires
        a.len() == b.len(),
    ensures
        dot(a, b) == dot(b, a),
    decreases a.len(),
{
    if a.len() > 0 {
        lemma_dot_symmetric(a.drop_last(), b.drop_last());
        let x = a.last();
        let y = b.last();
        assert(x * y == y * x) by (nonlinear_arith);
    }
}

/// The dot product is linear in its first argument.
pub proof fn lemma_dot_combination(u: Seq<real>, v: Seq<real>, z: Seq<real>, s: real, t: real)
    requires
        u.len() == v.len(),
        u.len() == z.len(),
    ensures
        dot(vec_add(vec_scale(u, s), vec_scale(v, t)), z) == s * dot(u, z) + t * dot(v, z),
    decreases u.len(),
{
    let c = vec_add(vec_scale(u, s), vec_scale(v, t));
    if u.len() == 0 {
        assert(s * 0real + t * 0real == 0real) by (nonlinear_arith);
    } else {
        lemma_dot_combination(u.drop_last(), v.drop_last(), z.drop_last(), s, t);
        assert(c.drop_last() =~= vec_add(
            vec_scale(u.drop_last(), s),
            vec_scale(v.drop_last(), t),
        ));
        let du = dot(u.drop_last(), z.drop_last());
        let dv = dot(v.drop_last(), z.drop_last());
        let x = u.last();
        let y = v.last();
        let w = z.last();
        assert(c.last() == x * s + y * t);
        assert(s * (du + x * w) == s * du + (x * s) * w) by (nonlinear_arith);
        assert(t * (dv + y * w) == t * dv + (y * t) * w) by (nonlinear_arith);
        assert((x * s + y * t) * w == (x * s) * w + (y * t) * w) by (nonlinear_arith);
    }
}

/// A factor of the first argument is a factor of the dot product.
pub proof fn lemma_dot_scale(u: Seq<real>, z: Seq<real>, s: real)
    requires
        u.len() == z.len(),
    ensures
        dot(vec_scale(u, s), z) == s * dot(u, z),
    decreases u.len(),
{
    let c = vec_scale(u, s);
    if u.len() == 0 {
        assert(s * 0real == 0real) by (nonlinear_arith);
    } else {
        lemma_dot_scale(u.drop_last(), z.drop_last(), s);
        assert(c.drop_last() =~= vec_scale(u.drop_last(), s));
        let du = dot(u.drop_last(), z.drop_last());
        let x = u.last();
        let w = z.last();
        assert(s * (du + x * w) == s * du + (x * s) * w) by (nonlinear_arith);
    }
}

/// The square of a difference.
pub proof fn lemma_square_of_difference(x: real, y: real)
    by (nonlinear_arith)
    ensures
        (x - y) * (x - y) == x * x - 2real * (x * y) + y * y,
{
}

/// The product of two squares is the square of the product.
pub proof fn lemma_product_of_squares(a: real, b: real)
    by (nonlinear_arith)
    ensures
        (a * a) * (b * b) == (a * b) * (a * b),
{
}

/// Two products keep their product when they exchange a factor.
pub proof fn lemma_exchange(a1: real, b1: real, a2: real, b2: real)
    by (nonlinear_arith)
    ensures
        (a1 * b1) * (a2 * b2) == (a1 * b2) * (a2 * b1),
{
}

proof fn lemma_product_of_sums(x1: real, x2: real, x3: real, y1: real, y2: real, y3: real)
    by (nonlinear_arith)
    ensures
        (x1 + x2 + x3) * (y1 + y2 + y3) == x1 * y1 + x1 * y2 + x1 * y3 + x2 * y1 + x2 * y2 + x2 * y3
            + x3 * y1 + x3 * y2 + x3 * y3,
{
}

proof fn lemma_square_of_sum(x: real, y: real, z: real)
    by (nonlinear_arith)
    ensures
        (x + y + z) * (x + y + z) == x * x + y * y + z * z + 2real * (x * y) + 2real * (x * z)
            + 2real * (y * z),
{
}

/// The square of the length of the cross product of two vectors in space is
/// the square of the area of the parallelogram that they span.
pub proof fn lemma_cross_squared(a: Seq<real>, b: Seq<real>)
    requires
        a.len() == 3,
        b.len() == 3,
    ensures
        dot(cross(a, b), cross(a, b)) == outer_squared(a, b),
{
    let c = cross(a, b);
    lemma_dot_space(c, c);
    lemma_dot_space(a, a);
    lemma_dot_space(b, b);
    lemma_dot_space(a, b);
    let (a1, a2, a3) = (a[0], a[1], a[2]);
    let (b1, b2, b3) = (b[0], b[1], b[2]);
    lemma_square_of_difference(a2 * b3, a3 * b2);
    lemma_square_of_difference(a3 * b1, a1 * b3);
    lemma_square_of_difference(a1 * b2, a2 * b1);
    lemma_product_of_sums(a1 * a1, a2 * a2, a3 * a3, b1 * b1, b2 * b2, b3 * b3);
    lemma_product_of_squares(a1, b1);
    lemma_product_of_squares(a1, b2);
    lemma_product_of_squares(a1, b3);
    lemma_product_of_squares(a2, b1);
    lemma_product_of_squares(a2, b2);
    lemma_product_of_squares(a2, b3);
    lemma_product_of_squares(a3, b1);
    lemma_product_of_squares(a3, b2);
    lemma_product_of_squares(a3, b3);
    lemma_square_of_sum(a1 * b1, a2 * b2, a3 * b3);
    lemma_exchange(a1, b1, a2, b2);
    lemma_exchange(a1, b1, a3, b3);
    lemma_exchange(a2, b2, a3, b3);
    assert((a2 * b3) * (a3 * b2) == (a2 * b2) * (a3 * b3)) by {
        lemma_exchange(a2, b2, a3, b3);
    }
    assert((a3 * b1) * (a1 * b3) == (a1 * b1) * (a3 * b3)) by {
        lemma_exchange(a3, b3, a1, b1);
        lemma_exchange(a1, b1, a3, b3);
        assert((a3 * b3) * (a1 * b1) == (a1 * b1) * (a3 * b3)) by (nonlinear_arith);
    }
}

/// A vector of `D` exact scalars.
#[derive(Debug)]
pub struct Vector<const D: usize> {
    components: Vec<Scalar>,
}

impl<const D: usize> View for Vector<D> {
    type V = Seq<real>;

    closed spec fn view(&self) -> Seq<real> {
        reals_of(self.components@)
    }
}

impl<const D: usize> Vector<D> {
    #[verifier::type_invariant]
    spec fn full(&self) -> bool {
        self.components@.len() == D
    }

    /// The vector with the given components.
    pub fn from_components(components: [Scalar; D]) -> (r: Vector<D>)
        ensures
            r@ == reals_of(components@),
    {
        let mut out: Vec<Scalar> = Vec::new();
        let mut i: usize = 0;
        while i < D
            invariant
                i <= D,
                out@.len() == i,
                forall|k: int| 0 <= k < i ==> out@[k]@ == components@[k]@,
            decreases D - i,
        {
            out.push(components[i].copy());
            i = i + 1;
        }
        let r = Vector { components: out };
        assert(r@ =~= reals_of(components@));
        r
    }

    /// The component at `i`.
    pub fn component(&self, i: usize) -> (r: Scalar)
        requires
            i < D,
        ensures
            self@.len() == D,
            r@ == self@[i as int],
    {
        proof {
            use_type_invariant(self);
        }
        self.components[i].copy()
    }

    /// A second vector with the same components.
    pub fn copy(&self) -> (r: Vector<D>)
        ensures
            r@ == self@,
            r@.len() == D,
    {
        proof {
            use_type_invariant(self);
        }
        let mut out: Vec<Scalar> = Vec::new();
        let mut i: usize = 0;
        while i < D
            invariant
                i <= D,
                self.components@.len() == D,
                out@.len() == i,
                forall|k: int| 0 <= k < i ==> out@[k]@ == self.components@[k]@,
            decreases D - i,
        {
            out.push(self.components[i].copy());
            i = i + 1;
        }
        let r = Vector { components: out };
        assert(r@ =~= self@);
        r
    }

    /// Sum of two vectors.
    pub fn add(&self, other: &Vector<D>) -> (r: Vector<D>)
        ensures
            r@ == vec_add(self@, other@),
            r@.len() == D,
    {
        proof {
            use_type_invariant(self);
            use_type_invariant(other);
        }
        let mut out: Vec<Scalar> = Vec::new();
        let mut i: usize = 0;
        while i < D
            invariant
                i <= D,
                self.components@.len() == D,
                other.components@.len() == D,
                out@.len() == i,
                forall|k: int|
                    0 <= k < i ==> out@[k]@ == self.components@[k]@ + other.components@[k]@,
            decreases D - i,
        {
            out.push(self.components[i].add(&other.components[i]));
            i = i + 1;
        }
        let r = Vector { components: out };
        assert(r@ =~= vec_add(self@, other@));
        r
    }

    /// Difference of two vectors.
    pub fn sub(&self, other: &Vector<D>) -> (r: Vector<D>)
        ensures
            r@ == vec_sub(self@, other@),
            r@.len() == D,
    {
        proof {
            use_type_invariant(self);
            use_type_invariant(other);
        }
        let mut out: Vec<Scalar> = Vec::new();
        let mut i: usize = 0;
        while i < D
            invariant
                i <= D,
                self.components@.len() == D,
                other.components@.len() == D,
                out@.len() == i,
                forall|k: int|
                    0 <= k < i ==> out@[k]@ == self.components@[k]@ - other.components@[k]@,
            decreases D - i,
        {
            out.push(self.components[i].sub(&other.components[i]));
            i = i + 1;
        }
        let r = Vector { components: out };
        assert(r@ =~= vec_sub(self@, other@));
        r
    }

    /// The vector with every component multiplied by `s`.
    pub fn scale(&self, s: &Scalar) -> (r: Vector<D>)
        ensures
            r@ == vec_scale(self@, s@),
            r@.len() == D,
    {
        proof {
            use_type_invariant(self);
        }
        let mut out: Vec<Scalar> = Vec::new();
        let mut i: usize = 0;
        while i < D
            invariant
                i <= D,
                self.components@.len() == D,
                out@.len() == i,
                forall|k: int| 0 <= k < i ==> out@[k]@ == self.components@[k]@ * s@,
            decreases D - i,
        {
            out.push(self.components[i].mul(s));
            i = i + 1;
        }
        let r = Vector { components: out };
        assert(r@ =~= vec_scale(self@, s@));
        r
    }

    /// The vector with every component divided by `s`, which is not zero.
    pub fn divide(&self, s: &Scalar) -> (r: Vector<D>)
        requires
            s@ != 0real,
        ensures
            r@ == vec_div(self@, s@),
            r@.len() == D,
    {
        proof {
            use_type_invariant(self);
        }
        let mut out: Vec<Scalar> = Vec::new();
        let mut i: usize = 0;
        while i < D
            invariant
                i <= D,
                s@ != 0real,
                self.components@.len() == D,
                out@.len() == i,
                forall|k: int| 0 <= k < i ==> out@[k]@ == self.components@[k]@ / s@,
            decreases D - i,
        {
            out.push(self.components[i].div(s));
            i = i + 1;
        }
        let r = Vector { components: out };
        assert(r@ =~= vec_div(self@, s@));
        r
    }

    /// The dot product of two vectors.
    pub fn dot(&self, other: &Vector<D>) -> (r: Scalar)
        ensures
            r@ == dot(self@, other@),
    {
        proof {
            use_type_invariant(self);
            use_type_invariant(other);
        }
        let mut acc = Scalar::zero();
        let mut i: usize = 0;
        while i < D
            invariant
                i <= D,
                self.components@.len() == D,
                other.components@.len() == D,
                acc@ == dot(self@.take(i as int), other@.take(i as int)),
            decreases D - i,
        {
            let term = self.components[i].mul(&other.components[i]);
            proof {
                let a = self@.take(i + 1);
                let b = other@.take(i + 1);
                assert(a.drop_last() =~= self@.take(i as int));
                assert(b.drop_last() =~= other@.take(i as int));
            }
            acc = acc.add(&term);
            i = i + 1;
        }
        proof {
            assert(self@.take(D as int) =~= self@);
            assert(other@.take(D as int) =~= other@);
        }
        acc
    }

    /// Square of the area of the parallelogram that the two vectors span.
    pub fn outer_squared(&self, other: &Vector<D>) -> (r: Scalar)
        ensures
            r@ == outer_squared(self@, other@),
    {
        let aa = self.dot(self);
        let bb = other.dot(other);
        let ab = self.dot(other);
        aa.mul(&bb).sub(&ab.mul(&ab))
    }

    /// Whether the two vectors have the same components.
    pub fn same(&self, other: &Vector<D>) -> (r: bool)
        ensures
            r == (self@ == other@),
    {
        proof {
            use_type_invariant(self);
            use_type_invariant(other);
        }
        let mut i: usize = 0;
        while i < D
            invariant
                i <= D,
                self.components@.len() == D,
                other.components@.len() == D,
                forall|k: int| 0 <= k < i ==> self@[k] == other@[k],
            decreases D - i,
        {
            if !self.components[i].same(&other.components[i]) {
                assert(self@[i as int] != other@[i as int]);
                return false;
            }
            i = i + 1;
        }
        assert(self@ =~= other@);
        true
    }
}

impl Vector<3> {
    /// The cross product of two vectors in space.
    pub fn cross(&self, other: &Vector<3>) -> (r: Vector<3>)
        ensures
            r@ == cross(self@, other@),
    {
        let a0 = self.component(0);
        let a1 = self.component(1);
        let a2 = self.component(2);
        let b0 = other.component(0);
        let b1 = other.component(1);
        let b2 = other.component(2);
        let x = a1.mul(&b2).sub(&a2.mul(&b1));
        let y = a2.mul(&b0).sub(&a0.mul(&b2));
        let z = a0.mul(&b1).sub(&a1.mul(&b0));
        let r = Vector::from_components([x, y, z]);
        assert(r@ =~= cross(self@, other@));
        r
    }
}

impl<const D: usize> Clone for Vector<D> {
    fn clone(&self) -> (r: Vector<D>)
        ensures
            r@ == self@,
    {
        self.copy()
    }
}

impl<const D: usize> PartialEq for Vector<D> {
    fn eq(&self, other: &Vector<D>) -> (r: bool) {
        self.same(other)
    }
}

impl<const D: usize> PartialEqSpecImpl for Vector<D> {
    open spec fn obeys_eq_spec() -> bool {
        true
    }

    open spec fn eq_spec(&self, other: &Vector<D>) -> bool {
        self@ == other@
    }
}

} // verus!
