//! Points of a fixed dimension over exact scalars.

use vstd::prelude::*;
use vstd::std_specs::cmp::{PartialEqSpecImpl, PartialOrdSpecImpl};
use core::cmp::Ordering;
use crate::scalar::Scalar;
use crate::vector::{reals_of, vec_sub, Vector};

verus! {

/// Whether `a` comes before `b` when the coordinates from `i` on are compared
/// one after the other and the first difference decides.
pub open spec fn lex_less_from(a: Seq<real>, b: Seq<real>, i: int) -> bool
    decreases a.len() - i,
{
    if i < 0 || i >= a.len() {
        false
    } else if a[i] < b[i] {
        true
    } else if a[i] > b[i] {
        false
    } else {
        lex_less_from(a, b, i + 1)
    }
}

/// The order of points: by the first coordinate, then by the second, and so on.
/// It serves to arrange points in one fixed way and has no geometric meaning.
pub open spec fn lex_less(a: Seq<real>, b: Seq<real>) -> bool {
    lex_less_from(a, b, 0)
}

/// `a` comes before `b` or is `b`.
pub open spec fn lex_le(a: Seq<real>, b: Seq<real>) -> bool {
    lex_less(a, b) || a == b
}

proof fn lemma_lex_total_from(a: Seq<real>, b: Seq<real>, i: int)
    requires
        a.len() == b.len(),
        0 <= i <= a.len(),
    ensures
        lex_less_from(a, b, i) || lex_less_from(b, a, i) || (forall|k: int|
            i <= k < a.len() ==> a[k] == b[k]),
        !(lex_less_from(a, b, i) && lex_less_from(b, a, i)),
        lex_less_from(a, b, i) ==> exists|k: int| i <= k < a.len() && a[k] != b[k],
    decreases a.len() - i,
{
    if i < a.len() {
        lemma_lex_total_from(a, b, i + 1);
        if a[i] != b[i] {
            assert(i <= i < a.len() && a[i] != b[i]);
        } else if lex_less_from(a, b, i) {
            let k = choose|k: int| i + 1 <= k < a.len() && a[k] != b[k];
            assert(i <= k < a.len() && a[k] != b[k]);
        }
    }
}

proof fn lemma_lex_transitive_from(a: Seq<real>, b: Seq<real>, c: Seq<real>, i: int)
    requires
        a.len() == b.len(),
        b.len() == c.len(),
        0 <= i <= a.len(),
        lex_less_from(a, b, i),
        lex_less_from(b, c, i),
    ensures
        lex_less_from(a, c, i),
    decreases a.len() - i,
{
    if i < a.len() {
        if a[i] == b[i] && b[i] == c[i] {
            lemma_lex_transitive_from(a, b, c, i + 1);
        }
    }
}

/// Of two points of one dimension, one comes before the other or they are the
/// same point, and never two of these at once.
pub proof fn lemma_lex_total(a: Seq<real>, b: Seq<real>)
    requires
        a.len() == b.len(),
    ensures
        lex_less(a, b) || lex_less(b, a) || a == b,
        !(lex_less(a, b) && lex_less(b, a)),
        !(lex_less(a, b) && a == b),
{
    lemma_lex_total_from(a, b, 0);
    if !lex_less(a, b) && !lex_less(b, a) {
        assert(a =~= b);
    }
}

/// The order of points is transitive.
pub proof fn lemma_lex_transitive(a: Seq<real>, b: Seq<real>, c: Seq<real>)
    requires
        a.len() == b.len(),
        b.len() == c.len(),
        lex_le(a, b),
        lex_le(b, c),
    ensures
        lex_le(a, c),
{
    if lex_less(a, b) && lex_less(b, c) {
        lemma_lex_transitive_from(a, b, c, 0);
    }
}

/// What comes before a point comes before every point that follows it.
pub proof fn lemma_lex_less_transitive(a: Seq<real>, b: Seq<real>, c: Seq<real>)
    requires
        a.len() == b.len(),
        b.len() == c.len(),
        lex_less(a, b),
        lex_le(b, c),
    ensures
        lex_less(a, c),
{
    if lex_less(b, c) {
        lemma_lex_transitive_from(a, b, c, 0);
    }
}

/// A point in `D` dimensions.
#[derive(Debug)]
pub struct Point<const D: usize> {
    coords: Vector<D>,
}

impl<const D: usize> View for Point<D> {
    type V = Seq<real>;

    closed spec fn view(&self) -> Seq<real> {
        self.coords@
    }
}

impl<const D: usize> Point<D> {
    /// The point with the given coordinates.
    pub fn from_coords(coords: [Scalar; D]) -> (r: Point<D>)
        ensures
            r@ == reals_of(coords@),
    {
        Point { coords: Vector::from_components(coords) }
    }

    /// The point at the tip of `v`, laid off from the origin.
    pub fn from_vector(v: Vector<D>) -> (r: Point<D>)
        ensures
            r@ == v@,
    {
        Point { coords: v }
    }

    /// The vector from the origin to the point.
    pub fn to_vector(&self) -> (r: Vector<D>)
        ensures
            r@ == self@,
            r@.len() == D,
    {
        self.coords.copy()
    }

    /// The coordinate at `i`.
    pub fn coordinate(&self, i: usize) -> (r: Scalar)
        requires
            i < D,
        ensures
            self@.len() == D,
            r@ == self@[i as int],
    {
        self.coords.component(i)
    }

    /// A second point with the same coordinates.
    pub fn copy(&self) -> (r: Point<D>)
        ensures
            r@ == self@,
            r@.len() == D,
    {
        Point { coords: self.coords.copy() }
    }

    /// The vector that leads from `other` to this point.
    pub fn sub(&self, other: &Point<D>) -> (r: Vector<D>)
        ensures
            r@ == vec_sub(self@, other@),
            r@.len() == D,
    {
        self.coords.sub(&other.coords)
    }

    /// Whether the two points have the same coordinates.
    pub fn same(&self, other: &Point<D>) -> (r: bool)
        ensures
            r == (self@ == other@),
    {
        self.coords.same(&other.coords)
    }

    /// Whether this point comes before `other` in the order of points.
    pub fn precedes(&self, other: &Point<D>) -> (r: bool)
        ensures
            r == lex_less(self@, other@),
            self@.len() == D,
            other@.len() == D,
    {
        let a = self.coords.copy();
        let b = other.coords.copy();
        let mut i: usize = 0;
        while i < D
            invariant
                i <= D,
                a@ == self@,
                b@ == other@,
                a@.len() == D,
                b@.len() == D,
                lex_less(self@, other@) == lex_less_from(self@, other@, i as int),
            decreases D - i,
        {
            let x = a.component(i);
            let y = b.component(i);
            if x.lt(&y) {
                return true;
            }
            if y.lt(&x) {
                return false;
            }
            i = i + 1;
        }
        false
    }
}

impl<const D: usize> Clone for Point<D> {
    fn clone(&self) -> (r: Point<D>)
        ensures
            r@ == self@,
    {
        self.copy()
    }
}

impl<const D: usize> PartialEq for Point<D> {
    fn eq(&self, other: &Point<D>) -> (r: bool) {
        self.same(other)
    }
}

impl<const D: usize> PartialEqSpecImpl for Point<D> {
    open spec fn obeys_eq_spec() -> bool {
        true
    }

    open spec fn eq_spec(&self, other: &Point<D>) -> bool {
        self@ == other@
    }
}

impl<const D: usize> PartialOrd for Point<D> {
    fn partial_cmp(&self, other: &Point<D>) -> (r: Option<Ordering>) {
        if self.precedes(other) {
            Some(Ordering::Less)
        } else if other.precedes(self) {
            Some(Ordering::Greater)
        } else {
            Some(Ordering::Equal)
        }
    }
}

impl<const D: usize> PartialOrdSpecImpl for Point<D> {
    open spec fn obeys_partial_cmp_spec() -> bool {
        true
    }

    open spec fn partial_cmp_spec(&self, other: &Point<D>) -> Option<Ordering> {
        if lex_less(self@, other@) {
            Some(Ordering::Less)
        } else if lex_less(other@, self@) {
            Some(Ordering::Greater)
        } else {
            Some(Ordering::Equal)
        }
    }
}

} // verus!
