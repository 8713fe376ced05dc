//! Montgomery reduction and multiplication with radix `R = 2^256`.
//!
//! `from_mont` is the word-by-word reduction of one four-limb value,
//! `mul` the coarsely integrated operand scanning multiplication whose
//! rounds drop their carries (correct for moduli below `2^255`), and
//! `mul_256` the variant that carries each round's overflow into the next
//! round, for any odd modulus below `2^256`.

use vstd::prelude::*;
use vstd::arithmetic::div_mod::*;
use vstd::arithmetic::mul::*;
use crate::limbs::{adc, mul_wide, mul_low, to_nat, to_nat5, word, word2, word3, radix, radix5};
use crate::modular::{
    is_mont_inv, has_spare_bit, is_mont_residue, redc, lemma_mod_unique,
    lemma_redc_is_residue, lemma_residue_unique,
};

verus! {

/// Distributes a product over a four-limb sum, the sum on the right.
proof fn lemma_distribute_right(x: int, l0: int, l1: int, l2: int, l3: int)
    by (nonlinear_arith)
    ensures
        x * (l0 + word() * l1 + word2() * l2 + word3() * l3) == x * l0 + word() * (x * l1)
            + word2() * (x * l2) + word3() * (x * l3),
{
}

/// Distributes a product over a four-limb sum, the sum on the left.
proof fn lemma_distribute_left(l0: int, l1: int, l2: int, l3: int, y: int)
    by (nonlinear_arith)
    ensures
        (l0 + word() * l1 + word2() * l2 + word3() * l3) * y == l0 * y + word() * (l1 * y)
            + word2() * (l2 * y) + word3() * (l3 * y),
{
}

/// A Montgomery constant of the modulus makes the modulus odd.
pub proof fn lemma_mont_inv_modulus_odd(m: [u64; 4], inv: u64)
    requires
        is_mont_inv(m, inv),
    ensures
        to_nat(m) % 2 == 1,
{
    let p = inv as int * m[0] as int;
    let q = p / word() as int;
    lemma_fundamental_div_mod(p, word() as int);
    if m[0] as int % 2 == 0 {
        assert(p % 2 == 0) by {
            lemma_fundamental_div_mod(m[0] as int, 2);
            let h = m[0] as int / 2;
            assert(p == 2 * (inv as int * h)) by {
                lemma_mul_is_associative(inv as int, 2, h);
                lemma_mul_is_commutative(inv as int, 2);
                lemma_mul_is_associative(2, inv as int, h);
            }
            lemma_mod_multiples_vanish(inv as int * h, 0, 2);
        }
        assert((p - q * word()) % 2 == 0) by {
            lemma_mod_multiples_vanish(-q * (word() as int / 2), p, 2);
        }
        assert(false);
    }
    lemma_mod_multiples_vanish(
        (m[1] as int + 18446744073709551616 * m[2] as int + 340282366920938463463374607431768211456
            * m[3] as int) * 9223372036854775808,
        m[0] as int,
        2,
    );
}

/// With `inv` the Montgomery constant of `m0`, adding the low limb of
/// `((x0 * inv) mod 2^64) * m0` to `x0` gives a multiple of `2^64`.
proof fn lemma_low_limb_cancels(x0: u64, inv: u64, m0: u64, k: nat, l0: nat)
    requires
        (inv as nat * m0 as nat) % word() == word() - 1,
        k == (x0 as nat * inv as nat) % word(),
        l0 == (k * m0 as nat) % word(),
    ensures
        (x0 + l0) % (word() as int) == 0,
{
    let w = word() as int;
    let x = x0 as int;
    let i = inv as int;
    let n = m0 as int;
    assert(l0 == ((x * i) % w) * n % w);
    lemma_mul_mod_noop_left(x * i, n, w);
    assert(l0 == (x * i) * n % w);
    lemma_mul_is_associative(x, i, n);
    assert(l0 == x * (i * n) % w);
    lemma_mul_mod_noop_right(x, i * n, w);
    assert(l0 == x * (w - 1) % w);
    lemma_add_mod_noop(x, x * (w - 1), w);
    lemma_small_mod(x0 as nat, word());
    assert((x + l0) % w == (x + x * (w - 1)) % w) by {
        lemma_small_mod(l0, word());
        lemma_mod_bound(x * (w - 1), w);
    }
    assert(x + x * (w - 1) == w * x) by (nonlinear_arith);
    lemma_mod_multiples_vanish(x, 0, w);
    lemma_small_mod(0, word());
}

/// The limb `k = (x0 * inv) mod 2^64` and the low limb of `k * m0`, which
/// cancel `x0` modulo `2^64`.
fn cancelling_factor(x0: u64, m: &[u64; 4], inv: u64) -> (r: (u64, u64, u64))
    requires
        is_mont_inv(*m, inv),
    ensures
        r.1 + word() * r.2 == r.0 * m[0],
        (x0 + r.1) % (word() as int) == 0,
{
    let k = mul_low(x0, inv);
    let (l0, h0) = mul_wide(k, m[0]);
    proof {
        lemma_mod_unique((k * m[0]) as int, h0 as int, word() as int, l0 as int);
        lemma_low_limb_cancels(x0, inv, m[0], k as nat, l0 as nat);
    }
    (k, l0, h0)
}

/// One reduction round of the multiplication: adds `k * m`, with `k` the
/// factor that clears the low limb, to the five-limb value `t`, and drops
/// that low limb.  Returns the four next limbs, the two carries out of
/// the top limb (from the two carry chains), and `k`.
fn reduce_round(t: [u64; 5], m: &[u64; 4], inv: u64) -> (r: ([u64; 4], u64, u64, u64))
    requires
        is_mont_inv(*m, inv),
    ensures
        r.1 <= 1,
        r.2 <= 1,
        (to_nat(r.0) + radix() * (r.1 + r.2)) * word() == to_nat5(t) + r.3 * to_nat(*m),
{
    let (k, l0, h0) = cancelling_factor(t[0], m, inv);
    let (low, c0) = adc(l0, t[0], 0);
    let (u0, cf) = adc(h0, t[1], c0);
    let (l1, h1) = mul_wide(k, m[1]);
    let (u0, of) = adc(u0, l1, 0);
    let (u1, cf) = adc(h1, t[2], cf);
    let (l2, h2) = mul_wide(k, m[2]);
    let (u1, of) = adc(u1, l2, of);
    let (u2, cf) = adc(h2, t[3], cf);
    let (l3, h3) = mul_wide(k, m[3]);
    let (u2, of) = adc(u2, l3, of);
    let (v, cf) = adc(0, t[4], cf);
    let (u3, of) = adc(h3, v, of);
    proof {
        lemma_mod_unique((l0 + t[0]) as int, c0 as int, word() as int, low as int);
        lemma_distribute_right(k as int, m[0] as int, m[1] as int, m[2] as int, m[3] as int);
    }
    ([u0, u1, u2, u3], cf, of, k)
}

/// The first multiplication row: the five limbs of `a * b` for one limb
/// `b`.
fn first_row(a: &[u64; 4], b: u64) -> (r: [u64; 5])
    ensures
        to_nat5(r) == to_nat(*a) * b,
{
    let (t0, h0) = mul_wide(a[0], b);
    let (l1, h1) = mul_wide(a[1], b);
    let (t1, c) = adc(h0, l1, 0);
    let (l2, h2) = mul_wide(a[2], b);
    let (t2, c) = adc(h1, l2, c);
    let (l3, h3) = mul_wide(a[3], b);
    let (t3, c) = adc(h2, l3, c);
    let (t4, _top) = adc(h3, 0, c);
    proof {
        lemma_distribute_left(a[0] as int, a[1] as int, a[2] as int, a[3] as int, b as int);
    }
    [t0, t1, t2, t3, t4]
}

/// A later multiplication row: adds `a * b` for one limb `b` to the
/// four-limb value `t`, through the two interleaved carry chains, and
/// accumulates both final carries into the fifth limb.  Returns the five
/// limbs and what overflows the fifth limb.
fn next_row(t: [u64; 4], a: &[u64; 4], b: u64) -> (r: ([u64; 5], u64))
    ensures
        to_nat5(r.0) + radix5() * r.1 == to_nat(t) + to_nat(*a) * b,
        r.1 <= 2,
{
    let (l0, h0) = mul_wide(a[0], b);
    let (t0, of) = adc(t[0], l0, 0);
    let (t1, cf) = adc(t[1], h0, 0);
    let (l1, h1) = mul_wide(a[1], b);
    let (t1, of) = adc(t1, l1, of);
    let (t2, cf) = adc(t[2], h1, cf);
    let (l2, h2) = mul_wide(a[2], b);
    let (t2, of) = adc(t2, l2, of);
    let (t3, cf) = adc(t[3], h2, cf);
    let (l3, h3) = mul_wide(a[3], b);
    let (t3, of) = adc(t3, l3, of);
    let (t4, over_cf) = adc(h3, 0, cf);
    let (t4, over_of) = adc(t4, 0, of);
    proof {
        lemma_distribute_left(a[0] as int, a[1] as int, a[2] as int, a[3] as int, b as int);
    }
    ([t0, t1, t2, t3, t4], over_cf + over_of)
}

/// Adds `c` to the fifth limb of `t`.  Returns the five limbs and the
/// carry out of the fifth limb.
fn add_to_top(t: [u64; 5], c: u64) -> (r: ([u64; 5], u64))
    ensures
        to_nat5(r.0) + radix5() * r.1 == to_nat5(t) + radix() * c,
        r.1 <= 1,
{
    let (t4, over) = adc(t[4], c, 0);
    ([t[0], t[1], t[2], t[3], t4], over)
}

/// Bounds on the two products of a round.
proof fn lemma_round_products(a: nat, b: nat, k: nat, m: nat)
    requires
        a < m,
        b < word(),
        k < word(),
    ensures
        a * b <= (m - 1) * (word() - 1),
        k * m <= (word() - 1) * m,
{
    lemma_mul_upper_bound(a as int, m - 1, b as int, word() - 1);
    lemma_mul_inequality(k as int, word() - 1, m as int);
}

/// A round of the multiplication keeps the running value below `2m`.
proof fn lemma_round_bound(u: nat, a: nat, b: nat, k: nat, m: nat, next: nat)
    requires
        u < 2 * m,
        a < m,
        b < word(),
        k < word(),
        next * word() == u + a * b + k * m,
    ensures
        next < 2 * m,
{
    lemma_round_products(a, b, k, m);
}

/// With `a < m` and `2m <= 2^256`, a value below `2m` plus `a` times one
/// limb fits in five limbs.
proof fn lemma_row_fits(u: nat, a: nat, b: nat, m: nat)
    requires
        u < 2 * m,
        a < m,
        b < word(),
        2 * m <= radix(),
    ensures
        u + a * b < radix5(),
{
    lemma_mul_upper_bound(a as int, m - 1, b as int, 18446744073709551615);
    assert((m - 1) * 18446744073709551615int == m * 18446744073709551615int - 18446744073709551615int)
        by (nonlinear_arith);
}

/// Four rounds of a multiplication give `u4 * 2^256 = a * b + k * m` for
/// the four-limb numbers `b` and `k` built from the rounds' limbs.
proof fn lemma_rounds_accumulate(
    a: nat,
    m: nat,
    b: [u64; 4],
    k: [u64; 4],
    u1: nat,
    u2: nat,
    u3: nat,
    u4: nat,
)
    requires
        u1 * word() == a * b[0] + k[0] * m,
        u2 * word() == u1 + a * b[1] + k[1] * m,
        u3 * word() == u2 + a * b[2] + k[2] * m,
        u4 * word() == u3 + a * b[3] + k[3] * m,
    ensures
        u4 * radix() == a * to_nat(b) + to_nat(k) * m,
{
    lemma_distribute_right(a as int, b[0] as int, b[1] as int, b[2] as int, b[3] as int);
    lemma_distribute_left(k[0] as int, k[1] as int, k[2] as int, k[3] as int, m as int);
}

/// Bringing `u < 2m` below `m` by at most one subtraction of `m` keeps
/// `u * 2^256 = x + kk * m` a Montgomery residue of `x`.
proof fn lemma_residue_after_subtraction(u: nat, x: nat, kk: nat, m: nat, r: nat)
    requires
        m > 0,
        u * radix() == x + kk * m,
        u < 2 * m,
        r == (if u < m { u } else { (u - m) as nat }),
    ensures
        is_mont_residue(r, x, m),
{
    lemma_mul_is_commutative(kk as int, m as int);
    if u < m {
        lemma_mod_multiples_vanish(kk as int, x as int, m as int);
    } else {
        lemma_mul_is_distributive_sub(m as int, kk as int, radix() as int);
        assert(r * radix() == m * (kk - radix()) + x);
        lemma_mod_multiples_vanish(kk - radix(), x as int, m as int);
    }
}

/// Montgomery multiplication for a modulus below `2^255`: the result is
/// `a * b * 2^-256 mod m`.  Each of the four rounds multiplies `a` by one
/// limb of `b`, adds the multiple of `m` that clears the low limb and
/// drops that limb; the carries out of a round's top limb are dropped,
/// which the spare bit of the modulus makes harmless.  A final
/// conditional subtraction brings the value below `m`.
///
/// `a` must be reduced (`a < m`); `b` may be any four-limb number.
pub fn mul(a: &[u64; 4], b: &[u64; 4], m: &[u64; 4], inv: u64) -> (r: [u64; 4])
    requires
        is_mont_inv(*m, inv),
        has_spare_bit(*m),
        to_nat(*a) < to_nat(*m),
    ensures
        to_nat(r) == redc(to_nat(*a) * to_nat(*b), to_nat(*m)),
        is_mont_residue(to_nat(r), to_nat(*a) * to_nat(*b), to_nat(*m)),
{
    let ghost mm = to_nat(*m);
    let ghost aa = to_nat(*a);
    proof {
        crate::limbs::lemma_to_nat_bound(*m);
        assert(2 * mm <= radix());
    }
    // Each round's carries out of the top limb are dropped; the bounds
    // show that they are zero.
    let t = first_row(a, b[0]);
    let (u, cf, of, k0) = reduce_round(t, m, inv);
    let ghost u1 = to_nat(u);
    proof {
        lemma_round_bound(0, aa, b[0] as nat, k0 as nat, mm, (u1 + radix() * (cf + of)) as nat);
        lemma_row_fits(u1, aa, b[1] as nat, mm);
    }
    let (t, _over) = next_row(u, a, b[1]);
    let (u, cf, of, k1) = reduce_round(t, m, inv);
    let ghost u2 = to_nat(u);
    proof {
        lemma_round_bound(u1, aa, b[1] as nat, k1 as nat, mm, (u2 + radix() * (cf + of)) as nat);
        lemma_row_fits(u2, aa, b[2] as nat, mm);
    }
    let (t, _over) = next_row(u, a, b[2]);
    let (u, cf, of, k2) = reduce_round(t, m, inv);
    let ghost u3 = to_nat(u);
    proof {
        lemma_round_bound(u2, aa, b[2] as nat, k2 as nat, mm, (u3 + radix() * (cf + of)) as nat);
        lemma_row_fits(u3, aa, b[3] as nat, mm);
    }
    let (t, _over) = next_row(u, a, b[3]);
    let (u, cf, of, k3) = reduce_round(t, m, inv);
    let ghost u4 = to_nat(u);
    proof {
        lemma_round_bound(u3, aa, b[3] as nat, k3 as nat, mm, (u4 + radix() * (cf + of)) as nat);
        assert(cf | of == 0) by (bit_vector)
            requires
                cf == 0,
                of == 0,
        ;
    }
    // The last round's carries form a fifth limb for the final subtraction.
    let fifth = cf | of;
    let r = crate::field_ops::subtract_modulus_unless_below(u, fifth, m);
    proof {
        if u4 >= mm {
            lemma_mod_unique(u4 - mm, 0, radix() as int, u4 - mm);
        }
        let kk = [k0, k1, k2, k3];
        lemma_rounds_accumulate(aa, mm, *b, kk, u1, u2, u3, u4);
        lemma_residue_after_subtraction(u4, aa * to_nat(*b), to_nat(kk), mm, to_nat(r));
        lemma_mont_inv_modulus_odd(*m, inv);
        lemma_redc_is_residue(to_nat(r), aa * to_nat(*b), mm);
    }
    r
}

/// Squares `a` with `mul`: `a * a * 2^-256 mod m`.
pub fn square(a: &[u64; 4], m: &[u64; 4], inv: u64) -> (r: [u64; 4])
    requires
        is_mont_inv(*m, inv),
        has_spare_bit(*m),
        to_nat(*a) < to_nat(*m),
    ensures
        to_nat(r) == redc(to_nat(*a) * to_nat(*a), to_nat(*m)),
        is_mont_residue(to_nat(r), to_nat(*a) * to_nat(*a), to_nat(*m)),
{
    self::mul(a, a, m, inv)
}

/// The sum of the two carries that leave a reduction round, as one limb.
fn capture_carries(cf: u64, of: u64) -> (r: u64)
    requires
        cf <= 1,
        of <= 1,
    ensures
        r == cf + of,
{
    let (c, _) = adc(0, 0, of);
    let (c, _) = adc(c, 0, cf);
    c
}

/// A later round of `mul_256`: multiplies `a` by the limb `b`, adds it to
/// the running value (four limbs and the carry limb of the previous
/// round), adds the multiple of `m` that clears the low limb and drops
/// that limb.  Every carry out of the top limb, of the row as well as of
/// the reduction, goes into the new carry limb.  Returns the four next
/// limbs, the new carry limb and the factor of `m`.
fn carried_round(u: [u64; 4], carry: u64, a: &[u64; 4], b: u64, m: &[u64; 4], inv: u64) -> (r: (
    [u64; 4],
    u64,
    u64,
))
    requires
        is_mont_inv(*m, inv),
        carry <= 5,
    ensures
        (to_nat(r.0) + radix() * (r.1 as nat)) * word() == to_nat(u) + radix() * (carry as nat)
            + to_nat(*a) * b + r.2 * to_nat(*m),
        r.1 <= 5,
{
    let (t, over_row) = next_row(u, a, b);
    let (t, over_top) = add_to_top(t, carry);
    let (u, cf, of, k) = reduce_round(t, m, inv);
    (u, capture_carries(cf, of) + over_row + over_top, k)
}

/// Montgomery multiplication for any odd modulus below `2^256`, the top
/// bit included: the result is `a * b * 2^-256 mod m`.  Unlike `mul`, each
/// round keeps the carries out of its top limb, from the multiplication
/// row and from the reduction, as a carry limb that it adds into the next
/// round, and the final conditional subtraction takes that carry limb into
/// account.
///
/// `a` must be reduced (`a < m`); `b` may be any four-limb number.
pub fn mul_256(a: &[u64; 4], b: &[u64; 4], m: &[u64; 4], inv: u64) -> (r: [u64; 4])
    requires
        is_mont_inv(*m, inv),
        to_nat(*a) < to_nat(*m),
    ensures
        to_nat(r) == redc(to_nat(*a) * to_nat(*b), to_nat(*m)),
        is_mont_residue(to_nat(r), to_nat(*a) * to_nat(*b), to_nat(*m)),
{
    let ghost mm = to_nat(*m);
    let ghost aa = to_nat(*a);
    proof {
        crate::limbs::lemma_to_nat_bound(*m);
    }
    let t = first_row(a, b[0]);
    let (t, over_top) = add_to_top(t, 0);
    let (u, cf, of, k0) = reduce_round(t, m, inv);
    let carry = capture_carries(cf, of) + over_top;
    let ghost v1 = to_nat(u) + radix() * (carry as nat);
    proof {
        lemma_round_bound(0, aa, b[0] as nat, k0 as nat, mm, v1);
    }
    let (u, carry, k1) = carried_round(u, carry, a, b[1], m, inv);
    let ghost v2 = to_nat(u) + radix() * (carry as nat);
    proof {
        lemma_round_bound(v1, aa, b[1] as nat, k1 as nat, mm, v2);
    }
    let (u, carry, k2) = carried_round(u, carry, a, b[2], m, inv);
    let ghost v3 = to_nat(u) + radix() * (carry as nat);
    proof {
        lemma_round_bound(v2, aa, b[2] as nat, k2 as nat, mm, v3);
    }
    let (u, carry, k3) = carried_round(u, carry, a, b[3], m, inv);
    let ghost v4 = to_nat(u) + radix() * (carry as nat);
    proof {
        lemma_round_bound(v3, aa, b[3] as nat, k3 as nat, mm, v4);
        crate::limbs::lemma_to_nat_bound(u);
    }
    let r = crate::field_ops::subtract_modulus_unless_below(u, carry, m);
    proof {
        if v4 >= mm {
            lemma_mod_unique(v4 - mm, 0, radix() as int, v4 - mm);
        }
        let kk = [k0, k1, k2, k3];
        lemma_rounds_accumulate(aa, mm, *b, kk, v1, v2, v3, v4);
        lemma_residue_after_subtraction(v4, aa * to_nat(*b), to_nat(kk), mm, to_nat(r));
        lemma_mont_inv_modulus_odd(*m, inv);
        lemma_redc_is_residue(to_nat(r), aa * to_nat(*b), mm);
    }
    r
}

/// Squares `a` with `mul_256`: `a * a * 2^-256 mod m`.
pub fn square_256(a: &[u64; 4], m: &[u64; 4], inv: u64) -> (r: [u64; 4])
    requires
        is_mont_inv(*m, inv),
        to_nat(*a) < to_nat(*m),
    ensures
        to_nat(r) == redc(to_nat(*a) * to_nat(*a), to_nat(*m)),
        is_mont_residue(to_nat(r), to_nat(*a) * to_nat(*a), to_nat(*m)),
{
    mul_256(a, a, m, inv)
}

/// One round of the reduction of a single value: adds `k * m`, with `k`
/// the factor that clears the low limb, and rotates the limbs so that the
/// cleared limb becomes the top one, into which the last carries go.
/// The two carry flags are threaded from one round into the next; with
/// no incoming carries the round divides
/// `x + k * m` by `2^64`, the outgoing carries standing for `2^256`.
fn reduction_round(x: [u64; 4], cf_in: u64, of_in: u64, m: &[u64; 4], inv: u64) -> (r: (
    [u64; 4],
    u64,
    u64,
    u64,
))
    requires
        is_mont_inv(*m, inv),
        cf_in <= 1,
        of_in <= 1,
    ensures
        r.1 <= 1,
        r.2 <= 1,
        cf_in == 0 && of_in == 0 ==> (to_nat(r.0) + radix() * (r.1 + r.2)) * word() == to_nat(x) + r.3
            * to_nat(*m),
{
    let (k, l0, h0) = cancelling_factor(x[0], m, inv);
    let (y0, o1) = adc(x[0], l0, of_in);
    let (s1, c1) = adc(x[1], h0, cf_in);
    let (l1, h1) = mul_wide(k, m[1]);
    let (y1, o2) = adc(s1, l1, o1);
    let (s2, c2) = adc(x[2], h1, c1);
    let (l2, h2) = mul_wide(k, m[2]);
    let (y2, o3) = adc(s2, l2, o2);
    let (s3, c3) = adc(x[3], h2, c2);
    let (l3, h3) = mul_wide(k, m[3]);
    let (y3, o4) = adc(s3, l3, o3);
    let (s4, cf) = adc(y0, h3, c3);
    let (y4, of) = adc(s4, 0, o4);
    proof {
        lemma_distribute_right(k as int, m[0] as int, m[1] as int, m[2] as int, m[3] as int);
        if of_in == 0 && cf_in == 0 {
            lemma_mod_unique((x[0] + l0) as int, o1 as int, word() as int, y0 as int);
            assert(y0 == 0);
            assert(y1 + word() * (o2 + c1) == x[1] + h0 + l1 + o1);
            assert(y2 + word() * (o3 + c2) == x[2] + h1 + l2 + o2 + c1);
            assert(y3 + word() * (o4 + c3) == x[3] + h2 + l3 + o3 + c2);
            assert(y4 + word() * (cf + of) == y0 + h3 + c3 + o4);
            assert(k * to_nat(*m) == (l0 + word() * h0) + word() * (l1 + word() * h1) + word2() * (l2
                + word() * h2) + word3() * (l3 + word() * h3));
            let kk = k * to_nat(*m);
            assert(word() * (y1 + word() * y2 + word2() * y3 + word3() * y4 + radix() * (cf + of))
                == to_nat(x) + kk) by (nonlinear_arith)
                requires
                    y0 == 0,
                    y0 + word() * o1 == x[0] + l0,
                    y1 + word() * (o2 + c1) == x[1] + h0 + l1 + o1,
                    y2 + word() * (o3 + c2) == x[2] + h1 + l2 + o2 + c1,
                    y3 + word() * (o4 + c3) == x[3] + h2 + l3 + o3 + c2,
                    y4 + word() * (cf + of) == h3 + c3 + o4,
                    kk == (l0 + word() * h0) + word() * (l1 + word() * h1) + word2() * (l2 + word()
                        * h2) + word3() * (l3 + word() * h3),
            ;
        }
    }
    ([y1, y2, y3, y4], cf, of, k)
}

/// A reduction round of a four-limb value leaves no carry out of the top:
/// `(x + k * m) / 2^64 < 2^256` for `x, m < 2^256` and `k < 2^64`.
proof fn lemma_reduction_round_bound(v: nat, k: nat, m: nat, next: nat, f: nat)
    requires
        v < radix(),
        k < word(),
        m < radix(),
        (next + radix() * f) * word() == v + k * m,
    ensures
        f == 0,
{
    lemma_mul_inequality(k as int, 18446744073709551615, m as int);
    assert(18446744073709551615int * m <= 18446744073709551615int * (radix() - 1))
        by (nonlinear_arith)
        requires
            m < radix(),
    ;
}

/// What four reduction rounds give: `r * 2^256 = x + kk * m` with
/// `kk < 2^256` and `x < 2^256` determines `r` as far as the contract of
/// `from_mont` states.
proof fn lemma_reduction_result(x: nat, kk: nat, m: nat, r: nat)
    requires
        m % 2 == 1,
        x < radix(),
        kk < radix(),
        r * radix() == x + kk * m,
    ensures
        r <= m,
        ((r * radix()) as int) % (m as int) == (x as int) % (m as int),
        r == 0 <==> x == 0,
        x < m ==> is_mont_residue(r, x, m),
{
    lemma_mul_inequality(kk as int, radix() - 1, m as int);
    lemma_mul_is_commutative(kk as int, m as int);
    lemma_mul_nonnegative(kk as int, m as int);
    assert((radix() - 1) * m == radix() * m - m) by (nonlinear_arith);
    lemma_mod_multiples_vanish(kk as int, x as int, m as int);
    if x == 0 && r != 0 {
        if r == m {
            lemma_mul_equality_converse(m as int, kk as int, radix() as int);
        } else {
            lemma_small_mod(0, m);
            lemma_residue_unique(r, 0, 0, m);
        }
    }
    if x < m && r == m {
        lemma_mul_is_distributive_sub(m as int, radix() as int, kk as int);
        lemma_mul_inequality(1, radix() - kk, m as int);
    }
}

/// Montgomery reduction of one value: `a * 2^-256 mod m`, which takes a
/// field element out of Montgomery form.  Four rounds each add the
/// multiple of `m` that clears the low limb and drop that limb; there is
/// no final subtraction, the result being at most `m` already.
///
/// For a reduced `a` the result is its Montgomery reduction; for any `a`
/// it is at most `m`, congruent to `a * 2^-256`, and zero exactly when `a`
/// is zero.
pub fn from_mont(a: &[u64; 4], m: &[u64; 4], inv: u64) -> (r: [u64; 4])
    requires
        is_mont_inv(*m, inv),
    ensures
        to_nat(r) <= to_nat(*m),
        ((to_nat(r) * radix()) as int) % (to_nat(*m) as int) == (to_nat(*a) as int) % (to_nat(
            *m,
        ) as int),
        to_nat(r) == 0 <==> to_nat(*a) == 0,
        to_nat(*a) < to_nat(*m) ==> to_nat(r) == redc(to_nat(*a), to_nat(*m)),
{
    let ghost mm = to_nat(*m);
    proof {
        crate::limbs::lemma_to_nat_bound(*m);
        crate::limbs::lemma_to_nat_bound(*a);
    }
    let (x, cf, of, k0) = reduction_round(*a, 0, 0, m, inv);
    let ghost v1 = to_nat(x);
    proof {
        lemma_reduction_round_bound(to_nat(*a), k0 as nat, mm, v1, (cf + of) as nat);
        crate::limbs::lemma_to_nat_bound(x);
    }
    let (x, cf, of, k1) = reduction_round(x, cf, of, m, inv);
    let ghost v2 = to_nat(x);
    proof {
        lemma_reduction_round_bound(v1, k1 as nat, mm, v2, (cf + of) as nat);
        crate::limbs::lemma_to_nat_bound(x);
    }
    let (x, cf, of, k2) = reduction_round(x, cf, of, m, inv);
    let ghost v3 = to_nat(x);
    proof {
        lemma_reduction_round_bound(v2, k2 as nat, mm, v3, (cf + of) as nat);
        crate::limbs::lemma_to_nat_bound(x);
    }
    let (x, cf, of, k3) = reduction_round(x, cf, of, m, inv);
    let ghost v4 = to_nat(x);
    proof {
        lemma_reduction_round_bound(v3, k3 as nat, mm, v4, (cf + of) as nat);
        let kk = [k0, k1, k2, k3];
        lemma_distribute_left(k0 as int, k1 as int, k2 as int, k3 as int, mm as int);
        assert(v4 * radix() == to_nat(*a) + to_nat(kk) * mm);
        crate::limbs::lemma_to_nat_bound(kk);
        lemma_mont_inv_modulus_odd(*m, inv);
        lemma_reduction_result(to_nat(*a), to_nat(kk), mm, v4);
        if to_nat(*a) < mm {
            lemma_redc_is_residue(v4, to_nat(*a), mm);
        }
    }
    x
}

} // verus!
