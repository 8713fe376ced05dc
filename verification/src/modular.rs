//! The mathematical model of the operations: the results of modular
//! addition, subtraction and negation on four-limb numbers, the validity
//! conditions on a modulus and its Montgomery constant, and Montgomery
//! reduction, together with the number-theoretic facts about them.

use vstd::prelude::*;
use vstd::arithmetic::div_mod::*;
use vstd::arithmetic::mul::*;
use vstd::arithmetic::power2::*;
use crate::limbs::{radix, word, word2};

verus! {

/// What modular addition of `x` and `y` returns for a modulus `m`: the sum,
/// less `m` (taken modulo `2^256`) unless the sum is already below `m`.
pub open spec fn add_result(x: nat, y: nat, m: nat) -> nat {
    if x + y < m {
        x + y
    } else {
        ((x + y - m) as nat) % radix()
    }
}

/// What modular subtraction of `y` from `x` returns for a modulus `m`: the
/// difference, plus `m` when `x < y`, taken modulo `2^256`.
pub open spec fn sub_result(x: nat, y: nat, m: nat) -> nat {
    ((x - y + (if x < y { m as int } else { 0int })) % (radix() as int)) as nat
}

/// What modular negation of `x` returns for a modulus `m`: zero for zero,
/// otherwise `m - x` taken modulo `2^256`.
pub open spec fn neg_result(x: nat, m: nat) -> nat {
    if x == 0 {
        0
    } else {
        ((m - x) % (radix() as int)) as nat
    }
}

/// `inv` is the Montgomery constant of the modulus `m`: `inv * m[0]` is
/// `-1` modulo `2^64`.  (This makes `m` odd.)
pub open spec fn is_mont_inv(m: [u64; 4], inv: u64) -> bool {
    (inv as nat * m[0] as nat) % word() == word() - 1
}

/// The modulus leaves the top bit of the top limb clear: `m < 2^255`.
pub open spec fn has_spare_bit(m: [u64; 4]) -> bool {
    m[3] < 0x8000_0000_0000_0000
}

/// `r` is the Montgomery reduction of `x` modulo `m`: `r < m` and
/// `r * 2^256` is congruent to `x` modulo `m`.
pub open spec fn is_mont_residue(r: nat, x: nat, m: nat) -> bool {
    r < m && ((r * radix()) as int) % (m as int) == (x as int) % (m as int)
}

/// The Montgomery reduction of `x` modulo `m`, i.e. `x * 2^-256 mod m`.
/// For an odd `m` exactly one number satisfies `is_mont_residue`.
pub open spec fn redc(x: nat, m: nat) -> nat {
    choose|r: nat| is_mont_residue(r, x, m)
}

/// For `0 <= x < 2m`, `x mod m` is `x` or `x - m`.
pub proof fn lemma_mod_once(x: int, m: int)
    requires
        0 < m,
        0 <= x < 2 * m,
    ensures
        x % m == (if x < m { x } else { x - m }),
{
    if x < m {
        lemma_fundamental_div_mod_converse_mod(x, m, 0, x);
    } else {
        lemma_fundamental_div_mod_converse_mod(x, m, 1, x - m);
    }
}

/// If `x = q * d + r` with `0 <= r < d` then `r` is `x % d`.
pub proof fn lemma_mod_unique(x: int, q: int, d: int, r: int)
    requires
        0 < d,
        0 <= r < d,
        x == q * d + r,
    ensures
        x % d == r,
{
    lemma_fundamental_div_mod_converse_mod(x, d, q, r);
}

proof fn lemma_half_of_odd(m: int, z: int)
    by (nonlinear_arith)
    requires
        m % 2 == 1,
        m > 0,
    ensures
        ((m + 1) / 2) * (2 * z) == m * z + z,
{
}

/// An odd modulus that divides `2 z` divides `z`.
proof fn lemma_odd_divides_double(z: int, m: int)
    requires
        m > 0,
        m % 2 == 1,
        (2 * z) % m == 0,
    ensures
        z % m == 0,
{
    let h = (m + 1) / 2;
    lemma_mul_mod_noop_right(h, 2 * z, m);
    assert(h * ((2 * z) % m) == 0) by {
        lemma_mul_by_zero_is_zero(h);
    }
    lemma_small_mod(0, m as nat);
    assert((h * (2 * z)) % m == 0);
    lemma_half_of_odd(m, z);
    lemma_mod_multiples_vanish(z, z, m);
    assert((m * z + z) % m == 0);
}

/// An odd modulus that divides `z * 2^n` divides `z`.
proof fn lemma_odd_divides_pow2_multiple(z: int, n: nat, m: int)
    requires
        m > 0,
        m % 2 == 1,
        (z * pow2(n)) % m == 0,
    ensures
        z % m == 0,
    decreases n,
{
    if n == 0 {
        lemma2_to64();
    } else {
        lemma_pow2_unfold(n);
        let p = pow2((n - 1) as nat);
        assert(z * pow2(n) == 2 * (z * p)) by {
            lemma_mul_is_associative(z, 2, p as int);
            lemma_mul_is_commutative(z, 2);
            lemma_mul_is_associative(2, z, p as int);
        }
        lemma_odd_divides_double(z * p, m);
        lemma_odd_divides_pow2_multiple(z, (n - 1) as nat, m);
    }
}

/// `2^256` as a power of two.
pub proof fn lemma_radix_is_pow2()
    ensures
        pow2(256) == radix(),
{
    lemma2_to64_rest();
    lemma_pow2_adds(64, 64);
    assert(pow2(128) == word() * word());
    lemma_pow2_adds(128, 128);
    assert(pow2(256) == word2() * word2());
}

/// Montgomery residues modulo an odd modulus are unique.
pub proof fn lemma_residue_unique(r1: nat, r2: nat, x: nat, m: nat)
    requires
        m % 2 == 1,
        is_mont_residue(r1, x, m),
        is_mont_residue(r2, x, m),
    ensures
        r1 == r2,
{
    let d = r1 - r2;
    lemma_mod_equivalence((r1 * radix()) as int, (r2 * radix()) as int, m as int);
    assert((r1 * radix()) as int - (r2 * radix()) as int == d * radix());
    lemma_radix_is_pow2();
    lemma_odd_divides_pow2_multiple(d, 256, m as int);
    if d != 0 {
        if d > 0 {
            lemma_small_mod(d as nat, m);
        } else {
            lemma_mod_equivalence(r2 as int, r1 as int, m as int);
            lemma_small_mod((r2 - r1) as nat, m);
            assert(((r2 - r1) as int) % (m as int) == 0) by {
                lemma_mod_equivalence(0, d, m as int);
                lemma_sub_mod_noop(0, d, m as int);
            }
        }
    }
}

/// Any Montgomery residue of `x` modulo an odd `m` is `redc(x, m)`.
pub proof fn lemma_redc_is_residue(r: nat, x: nat, m: nat)
    requires
        m % 2 == 1,
        is_mont_residue(r, x, m),
    ensures
        redc(x, m) == r,
{
    let c = redc(x, m);
    assert(is_mont_residue(c, x, m));
    lemma_residue_unique(c, r, x, m);
}

/// `((m + 1) / 2)^n mod m`, the inverse of `2^n` modulo an odd `m`.
pub open spec fn inv_pow2(n: nat, m: nat) -> nat
    decreases n,
{
    if n == 0 {
        1nat % m
    } else {
        (((m + 1) / 2) as nat * inv_pow2((n - 1) as nat, m)) % m
    }
}

/// `inv_pow2(n, m)` is an inverse of `2^n` modulo an odd `m`.
pub proof fn lemma_inv_pow2(n: nat, m: nat)
    requires
        m % 2 == 1,
    ensures
        ((inv_pow2(n, m) * pow2(n)) as int) % (m as int) == 1int % (m as int),
    decreases n,
{
    let mi = m as int;
    if n == 0 {
        lemma2_to64();
        lemma_mod_twice(1, mi);
    } else {
        let h = ((m + 1) / 2) as int;
        let p = inv_pow2((n - 1) as nat, m) as int;
        let q = pow2((n - 1) as nat) as int;
        lemma_inv_pow2((n - 1) as nat, m);
        lemma_pow2_unfold(n);
        // inv_pow2(n) * 2^n == ((h * p) % m) * (2 * q)  ==  (h * p * 2 * q) mod m
        lemma_mul_mod_noop_left(h * p, 2 * q, mi);
        assert((h * p) * (2 * q) == (2 * h) * (p * q)) by (nonlinear_arith);
        assert(2 * h == mi + 1);
        assert((mi + 1) * (p * q) == mi * (p * q) + p * q) by (nonlinear_arith);
        lemma_mod_multiples_vanish(p * q, p * q, mi);
    }
}

/// Every value has a Montgomery residue modulo an odd modulus, so
/// `redc(x, m)` is one.
pub proof fn lemma_redc_exists(x: nat, m: nat)
    requires
        m % 2 == 1,
    ensures
        is_mont_residue(redc(x, m), x, m),
{
    let mi = m as int;
    let v = inv_pow2(256, m);
    let r = (x * v) % m;
    lemma_inv_pow2(256, m);
    lemma_radix_is_pow2();
    lemma_mod_bound((x * v) as int, mi);
    lemma_mul_mod_noop_left((x * v) as int, radix() as int, mi);
    lemma_mul_is_associative(x as int, v as int, radix() as int);
    lemma_mul_mod_noop_right(x as int, (v * radix()) as int, mi);
    lemma_mul_mod_noop_right(x as int, 1, mi);
    assert(is_mont_residue(r, x, m));
}

} // verus!
