//! Laws that relate the operations to each other: the field laws of
//! addition, subtraction and negation on reduced elements, and the laws
//! that make Montgomery multiplication multiplication in Montgomery form.

use vstd::prelude::*;
use vstd::arithmetic::div_mod::*;
use vstd::arithmetic::mul::*;
use crate::limbs::{to_nat, radix};
use crate::modular::{
    add_result, sub_result, neg_result, redc, is_mont_residue, lemma_redc_is_residue, lemma_mod_unique,
};
use crate::field_ops::{lemma_add_result_reduced, lemma_sub_result_reduced, lemma_neg_result_reduced};

verus! {

/// Subtracting `b` undoes adding `b`, for reduced `a` and `b`.
pub proof fn lemma_sub_undoes_add(a: [u64; 4], b: [u64; 4], m: [u64; 4])
    requires
        to_nat(a) < to_nat(m),
        to_nat(b) < to_nat(m),
    ensures
        sub_result(add_result(to_nat(a), to_nat(b), to_nat(m)), to_nat(b), to_nat(m)) == to_nat(a),
{
    let (x, y, n) = (to_nat(a), to_nat(b), to_nat(m));
    crate::limbs::lemma_to_nat_bound(m);
    lemma_add_result_reduced(x, y, n);
    let s = add_result(x, y, n);
    lemma_sub_result_reduced(s, y, n);
    if x + y < n {
        lemma_mod_unique(s - y, 0, n as int, x as int);
    } else {
        crate::modular::lemma_mod_once((x + y) as int, n as int);
        lemma_mod_unique(s - y, -1, n as int, x as int);
    }
}

/// Adding `b` undoes subtracting `b`, for reduced `a` and `b`.
pub proof fn lemma_add_undoes_sub(a: [u64; 4], b: [u64; 4], m: [u64; 4])
    requires
        to_nat(a) < to_nat(m),
        to_nat(b) < to_nat(m),
    ensures
        add_result(sub_result(to_nat(a), to_nat(b), to_nat(m)), to_nat(b), to_nat(m)) == to_nat(a),
{
    let (x, y, n) = (to_nat(a), to_nat(b), to_nat(m));
    crate::limbs::lemma_to_nat_bound(m);
    lemma_sub_result_reduced(x, y, n);
    let d = sub_result(x, y, n);
    lemma_add_result_reduced(d, y, n);
    if x >= y {
        lemma_mod_unique(x - y, 0, n as int, x - y);
        lemma_mod_unique((d + y) as int, 0, n as int, x as int);
    } else {
        lemma_mod_unique(x - y, -1, n as int, x - y + n);
        lemma_mod_unique((d + y) as int, 1, n as int, x as int);
    }
}

/// Addition of reduced elements is commutative.
pub proof fn lemma_add_commutes(a: [u64; 4], b: [u64; 4], m: [u64; 4])
    ensures
        add_result(to_nat(a), to_nat(b), to_nat(m)) == add_result(to_nat(b), to_nat(a), to_nat(m)),
{
}

/// An element plus its negation is zero.
pub proof fn lemma_add_neg_is_zero(a: [u64; 4], m: [u64; 4])
    requires
        to_nat(a) < to_nat(m),
    ensures
        add_result(to_nat(a), neg_result(to_nat(a), to_nat(m)), to_nat(m)) == 0,
{
    let (x, n) = (to_nat(a), to_nat(m));
    crate::limbs::lemma_to_nat_bound(m);
    lemma_neg_result_reduced(x, n);
    let y = neg_result(x, n);
    lemma_add_result_reduced(x, y, n);
    if x == 0 {
        lemma_mod_unique(0, 0, n as int, 0);
    } else {
        lemma_mod_unique(n - x, 0, n as int, n - x);
        lemma_mod_unique(n as int, 1, n as int, 0);
    }
}

/// Negation is subtraction from zero.
pub proof fn lemma_neg_is_sub_from_zero(a: [u64; 4], m: [u64; 4])
    requires
        to_nat(a) < to_nat(m),
    ensures
        neg_result(to_nat(a), to_nat(m)) == sub_result(0, to_nat(a), to_nat(m)),
{
    let (x, n) = (to_nat(a), to_nat(m));
    crate::limbs::lemma_to_nat_bound(m);
    if x == 0 {
        lemma_mod_unique(0, 0, radix() as int, 0);
    }
}

/// Subtraction is addition of the negation, for reduced elements.
pub proof fn lemma_sub_is_add_neg(a: [u64; 4], b: [u64; 4], m: [u64; 4])
    requires
        to_nat(a) < to_nat(m),
        to_nat(b) < to_nat(m),
    ensures
        sub_result(to_nat(a), to_nat(b), to_nat(m)) == add_result(
            to_nat(a),
            neg_result(to_nat(b), to_nat(m)),
            to_nat(m),
        ),
{
    let (x, y, n) = (to_nat(a), to_nat(b), to_nat(m));
    crate::limbs::lemma_to_nat_bound(m);
    lemma_sub_result_reduced(x, y, n);
    lemma_neg_result_reduced(y, n);
    let z = neg_result(y, n);
    lemma_add_result_reduced(x, z, n);
    if y == 0 {
        lemma_mod_unique(x as int, 0, n as int, x as int);
        lemma_mod_unique(x as int, 0, n as int, x as int);
    } else {
        lemma_mod_unique(n - y, 0, n as int, n - y);
        if x >= y {
            lemma_mod_unique(x - y, 0, n as int, x - y);
            lemma_mod_unique(x + n - y, 1, n as int, x - y);
        } else {
            lemma_mod_unique(x - y, -1, n as int, x - y + n);
            lemma_mod_unique(x + n - y, 0, n as int, x - y + n);
        }
    }
}

/// Negating twice gives the element back.
pub proof fn lemma_neg_neg(a: [u64; 4], m: [u64; 4])
    requires
        to_nat(a) < to_nat(m),
    ensures
        neg_result(neg_result(to_nat(a), to_nat(m)), to_nat(m)) == to_nat(a),
{
    let (x, n) = (to_nat(a), to_nat(m));
    crate::limbs::lemma_to_nat_bound(m);
    lemma_neg_result_reduced(x, n);
    let y = neg_result(x, n);
    if x != 0 {
        lemma_mod_unique(n - x, 0, radix() as int, n - x);
        lemma_mod_unique(x as int, 0, radix() as int, x as int);
    }
}

/// Montgomery multiplication is multiplication in Montgomery form: for
/// an odd modulus, multiplying the Montgomery forms `x * R mod m` and
/// `y * R mod m` gives the Montgomery form of `x * y`.
pub proof fn lemma_mont_mul_of_mont_forms(x: nat, y: nat, m: nat)
    requires
        m % 2 == 1,
    ensures
        redc(((x * radix()) % m) * ((y * radix()) % m), m) == (x * y * radix()) % m,
{
    let xr = x * radix();
    let yr = y * radix();
    let r = (x * y * radix()) % m;
    lemma_mul_mod_noop(xr as int, yr as int, m as int);
    lemma_mul_mod_noop_left((x * y * radix()) as int, radix() as int, m as int);
    assert(xr * yr == (x * y * radix()) * radix()) by (nonlinear_arith)
        requires
            xr == x * radix(),
            yr == y * radix(),
    ;
    lemma_mod_bound((x * y * radix()) as int, m as int);
    assert(is_mont_residue(r, ((x * radix()) % m) * ((y * radix()) % m), m));
    lemma_redc_is_residue(r, ((x * radix()) % m) * ((y * radix()) % m), m);
}

/// Montgomery reduction takes an element out of Montgomery form: for an
/// odd modulus, reducing `x * R mod m` gives `x mod m`.
pub proof fn lemma_redc_of_mont_form(x: nat, m: nat)
    requires
        m % 2 == 1,
    ensures
        redc((x * radix()) % m, m) == x % m,
{
    lemma_mul_mod_noop_left(x as int, radix() as int, m as int);
    lemma_mod_twice((x * radix()) as int, m as int);
    lemma_mod_bound(x as int, m as int);
    lemma_redc_is_residue(x % m, (x * radix()) % m, m);
}

/// Reducing a value is multiplying it by one in Montgomery form.
pub proof fn lemma_redc_is_mul_by_one(x: nat, m: nat)
    ensures
        redc(x * to_nat([1u64, 0u64, 0u64, 0u64]), m) == redc(x, m),
{
    let one = [1u64, 0u64, 0u64, 0u64];
    assert(one[0] == 1 && one[1] == 0 && one[2] == 0 && one[3] == 0);
    assert(to_nat(one) == 1);
    lemma_mul_basics(x as int);
}

/// The Montgomery product does not depend on the order of the factors.
pub proof fn lemma_mont_mul_commutes(x: nat, y: nat, m: nat)
    ensures
        redc(x * y, m) == redc(y * x, m),
{
    lemma_mul_is_commutative(x as int, y as int);
}

/// `(r * R * R) mod m` for a Montgomery residue `r` of `a * c` where `a`
/// is itself a residue of `p`: it is `p * c mod m`.
proof fn lemma_residue_of_residue_product(r: nat, a: nat, c: nat, p: nat, m: nat)
    requires
        m % 2 == 1,
        is_mont_residue(r, a * c, m),
        is_mont_residue(a, p, m),
    ensures
        ((r * radix() * radix()) as int) % (m as int) == ((p * c) as int) % (m as int),
{
    let mi = m as int;
    let rr = radix() as int;
    // (r R) R == (a c) R modulo m
    lemma_mul_mod_noop_left((r * radix()) as int, rr, mi);
    lemma_mul_mod_noop_left((a * c) as int, rr, mi);
    // (a c) R == (a R) c
    assert((a * c) * rr == (a * rr) * c) by (nonlinear_arith);
    lemma_mul_mod_noop_left((a * radix()) as int, c as int, mi);
    lemma_mul_mod_noop_left(p as int, c as int, mi);
}

/// Montgomery multiplication is associative: for an odd modulus,
/// `redc(redc(x * y) * z) == redc(x * redc(y * z))`.
pub proof fn lemma_mont_mul_associative(x: nat, y: nat, z: nat, m: nat)
    requires
        m % 2 == 1,
    ensures
        redc(redc(x * y, m) * z, m) == redc(x * redc(y * z, m), m),
{
    let mi = m as int;
    let a = redc(x * y, m);
    let b = redc(y * z, m);
    let r1 = redc(a * z, m);
    let r2 = redc(x * b, m);
    crate::modular::lemma_redc_exists(x * y, m);
    crate::modular::lemma_redc_exists(y * z, m);
    crate::modular::lemma_redc_exists(a * z, m);
    crate::modular::lemma_redc_exists(x * b, m);
    lemma_residue_of_residue_product(r1, a, z, x * y, m);
    lemma_mul_is_commutative(x as int, b as int);
    lemma_residue_of_residue_product(r2, b, x, y * z, m);
    assert((x * y) * z == (y * z) * x) by (nonlinear_arith);
    let t = (x * y) * z;
    let u1 = ((r1 * radix()) as int % mi) as nat;
    let u2 = ((r2 * radix()) as int % mi) as nat;
    lemma_mod_bound((r1 * radix()) as int, mi);
    lemma_mod_bound((r2 * radix()) as int, mi);
    lemma_mul_mod_noop_left((r1 * radix()) as int, radix() as int, mi);
    lemma_mul_mod_noop_left((r2 * radix()) as int, radix() as int, mi);
    assert(is_mont_residue(u1, t, m));
    assert(is_mont_residue(u2, t, m));
    crate::modular::lemma_residue_unique(u1, u2, t, m);
    lemma_small_mod(u1, m);
    assert(is_mont_residue(r1, u1, m));
    assert(is_mont_residue(r2, u1, m));
    crate::modular::lemma_residue_unique(r1, r2, u1, m);
}

} // verus!
