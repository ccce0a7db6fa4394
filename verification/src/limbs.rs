//! Natural numbers as little-endian sequences of 32-bit limbs.
//!
//! A sequence may carry any number of leading zero limbs; two sequences stand
//! for the same number when `limbs_value` agrees on them.

use vstd::prelude::*;

verus! {

/// The number that the limbs of `s` at position `i` and above stand for, the
/// limb at `i` counting once and each further limb `2^32` times the one before.
pub open spec fn limbs_from(s: Seq<u32>, i: nat) -> nat
    decreases s.len() - i,
{
    if i >= s.len() {
        0
    } else {
        s[i as int] as nat + 0x1_0000_0000 * limbs_from(s, i + 1)
    }
}

/// The number that `s` stands for.
pub open spec fn limbs_value(s: Seq<u32>) -> nat {
    limbs_from(s, 0)
}

/// Putting a limb in front moves every other limb one position up.
pub proof fn lemma_limbs_shift(s: Seq<u32>, d: u32, i: nat)
    ensures
        limbs_from(s.insert(0, d), i + 1) == limbs_from(s, i),
    decreases s.len() - i,
{
    if i < s.len() {
        lemma_limbs_shift(s, d, i + 1);
    }
}

/// A limb in front of `s` adds itself to `2^32` times the value of `s`.
pub proof fn lemma_limbs_prepend(s: Seq<u32>, d: u32)
    ensures
        limbs_value(s.insert(0, d)) == d as nat + 0x1_0000_0000 * limbs_value(s),
{
    lemma_limbs_shift(s, d, 0);
}

/// The limbs of a 64-bit number.
pub(crate) fn limbs_of(v: u64) -> (r: Vec<u32>)
    ensures
        limbs_value(r@) == v,
{
    let lo: u32 = (v % 0x1_0000_0000) as u32;
    let hi: u32 = (v / 0x1_0000_0000) as u32;
    let mut r: Vec<u32> = Vec::new();
    r.push(lo);
    r.push(hi);
    proof {
        reveal_with_fuel(limbs_from, 3);
    }
    r
}

/// A copy of the limbs.
pub(crate) fn limbs_copy(a: &Vec<u32>) -> (r: Vec<u32>)
    ensures
        r@ == a@,
{
    let mut r: Vec<u32> = Vec::new();
    let mut i: usize = 0;
    while i < a.len()
        invariant
            i <= a.len(),
            r@ == a@.take(i as int),
        decreases a.len() - i,
    {
        r.push(a[i]);
        i = i + 1;
        assert(r@ =~= a@.take(i as int));
    }
    assert(a@.take(a.len() as int) =~= a@);
    r
}

/// Sum of the numbers that `a` and `b` hold from limb `i` upward, and `carry`.
pub(crate) fn limbs_add(a: &Vec<u32>, b: &Vec<u32>, i: usize, carry: u32) -> (r: Vec<u32>)
    requires
        carry <= 1,
    ensures
        limbs_value(r@) == limbs_from(a@, i as nat) + limbs_from(b@, i as nat) + carry,
    decreases (if a.len() >= b.len() { a.len() } else { b.len() }) - i,
{
    if i >= a.len() && i >= b.len() {
        let mut r: Vec<u32> = Vec::new();
        if carry != 0 {
            r.push(carry);
            proof {
                reveal_with_fuel(limbs_from, 2);
            }
        }
        r
    } else {
        let x: u64 = if i < a.len() { a[i] as u64 } else { 0 };
        let y: u64 = if i < b.len() { b[i] as u64 } else { 0 };
        let sum: u64 = x + y + carry as u64;
        let digit: u32 = (sum % 0x1_0000_0000) as u32;
        let up: u32 = (sum / 0x1_0000_0000) as u32;
        let mut r = limbs_add(a, b, i + 1, up);
        proof {
            lemma_limbs_prepend(r@, digit);
        }
        r.insert(0, digit);
        r
    }
}

/// Difference of the numbers that `a` and `b` hold from limb `i` upward, less
/// `borrow`, where that is not negative.
pub(crate) fn limbs_sub(a: &Vec<u32>, b: &Vec<u32>, i: usize, borrow: u32) -> (r: Vec<u32>)
    requires
        borrow <= 1,
        limbs_from(a@, i as nat) >= limbs_from(b@, i as nat) + borrow,
    ensures
        limbs_value(r@) == limbs_from(a@, i as nat) - limbs_from(b@, i as nat) - borrow,
    decreases (if a.len() >= b.len() { a.len() } else { b.len() }) - i,
{
    if i >= a.len() && i >= b.len() {
        Vec::new()
    } else {
        let x: u64 = if i < a.len() { a[i] as u64 } else { 0 };
        let y: u64 = if i < b.len() { b[i] as u64 } else { 0 };
        let t: u64 = x + 0x1_0000_0000 - y - borrow as u64;
        let digit: u32 = (t % 0x1_0000_0000) as u32;
        let down: u32 = if t < 0x1_0000_0000 { 1 } else { 0 };
        assert(x - y - borrow == digit - 0x1_0000_0000 * down);
        let mut r = limbs_sub(a, b, i + 1, down);
        proof {
            lemma_limbs_prepend(r@, digit);
        }
        r.insert(0, digit);
        r
    }
}

/// The number that `a` holds from limb `i` upward, times `m`, and `carry`.
pub(crate) fn limbs_scale(a: &Vec<u32>, m: u32, i: usize, carry: u32) -> (r: Vec<u32>)
    ensures
        limbs_value(r@) == m * limbs_from(a@, i as nat) + carry,
    decreases a.len() - i,
{
    if i >= a.len() {
        let mut r: Vec<u32> = Vec::new();
        r.push(carry);
        proof {
            reveal_with_fuel(limbs_from, 2);
            let whole = limbs_from(a@, i as nat);
            assert(m * whole == 0) by (nonlinear_arith)
                requires
                    whole == 0,
            ;
        }
        r
    } else {
        let x: u64 = a[i] as u64;
        assert(x * m <= 0xffff_ffff * 0xffff_ffff) by (nonlinear_arith)
            requires
                x <= 0xffff_ffff,
                m <= 0xffff_ffff,
        ;
        let p: u64 = x * (m as u64) + carry as u64;
        let digit: u32 = (p % 0x1_0000_0000) as u32;
        let up: u32 = (p / 0x1_0000_0000) as u32;
        let mut r = limbs_scale(a, m, i + 1, up);
        proof {
            lemma_limbs_prepend(r@, digit);
            let rest = limbs_from(a@, (i + 1) as nat);
            let whole = limbs_from(a@, i as nat);
            assert(m * whole == x * m + 0x1_0000_0000 * (m * rest)) by (nonlinear_arith)
                requires
                    whole == x + 0x1_0000_0000 * rest,
            ;
        }
        r.insert(0, digit);
        r
    }
}

/// Product of the number that `a` holds and the number that `b` holds from
/// limb `j` upward.
pub(crate) fn limbs_mul(a: &Vec<u32>, b: &Vec<u32>, j: usize) -> (r: Vec<u32>)
    ensures
        limbs_value(r@) == limbs_value(a@) * limbs_from(b@, j as nat),
    decreases b.len() - j,
{
    if j >= b.len() {
        proof {
            let va = limbs_value(a@);
            let whole = limbs_from(b@, j as nat);
            assert(va * whole == 0) by (nonlinear_arith)
                requires
                    whole == 0,
            ;
        }
        Vec::new()
    } else {
        let mut shifted = limbs_mul(a, b, j + 1);
        let ghost tail = limbs_value(shifted@);
        proof {
            lemma_limbs_prepend(shifted@, 0);
        }
        shifted.insert(0, 0);
        let part = limbs_scale(a, b[j], 0, 0);
        proof {
            let va = limbs_value(a@);
            let rest = limbs_from(b@, (j + 1) as nat);
            let d = b@[j as int];
            let whole = limbs_from(b@, j as nat);
            assert(d * va + 0x1_0000_0000 * (va * rest) == va * whole) by (nonlinear_arith)
                requires
                    whole == d + 0x1_0000_0000 * rest,
            ;
            assert(tail == va * rest);
            assert(limbs_value(shifted@) == 0x1_0000_0000 * tail);
            assert(limbs_value(part@) == d * va);
        }
        limbs_add(&part, &shifted, 0, 0)
    }
}

/// How the numbers that `a` and `b` hold from limb `i` upward compare: `-1`
/// where the first is smaller, `0` where they are equal, `1` where it is larger.
pub(crate) fn limbs_order(a: &Vec<u32>, b: &Vec<u32>, i: usize) -> (r: i8)
    ensures
        r == -1 <==> limbs_from(a@, i as nat) < limbs_from(b@, i as nat),
        r == 0 <==> limbs_from(a@, i as nat) == limbs_from(b@, i as nat),
        r == 1 <==> limbs_from(a@, i as nat) > limbs_from(b@, i as nat),
    decreases (if a.len() >= b.len() { a.len() } else { b.len() }) - i,
{
    if i >= a.len() && i >= b.len() {
        0
    } else {
        let x: u32 = if i < a.len() { a[i] } else { 0 };
        let y: u32 = if i < b.len() { b[i] } else { 0 };
        let high = limbs_order(a, b, i + 1);
        if high != 0 {
            high
        } else if x < y {
            -1
        } else if x > y {
            1
        } else {
            0
        }
    }
}

} // verus!
