//! Doubling, addition, subtraction and negation modulo the field modulus.
//! Each routine is a chain of limb additions or subtractions with carry,
//! followed by a selection through a mask rather than a branch.  Each is
//! total: its result is stated for every input, and for reduced inputs it
//! is the modular result.

use vstd::prelude::*;
use crate::limbs::{adc, sbb, to_nat, radix, word, word2, word3};
use crate::modular::{add_result, sub_result, neg_result, lemma_mod_once, lemma_mod_unique};

verus! {

/// Subtracts the four limbs of `b` from those of `a`: the low four limbs
/// of the difference and the borrow out.
fn sub_limbs(a: [u64; 4], b: [u64; 4]) -> (r: ([u64; 4], u64))
    ensures
        to_nat(r.0) as int - radix() * r.1 == to_nat(a) - to_nat(b),
        r.1 <= 1,
        r.1 == 1 <==> to_nat(a) < to_nat(b),
{
    let (d0, bw) = sbb(a[0], b[0], 0);
    let (d1, bw) = sbb(a[1], b[1], bw);
    let (d2, bw) = sbb(a[2], b[2], bw);
    let (d3, bw) = sbb(a[3], b[3], bw);
    let d = [d0, d1, d2, d3];
    proof {
        crate::limbs::lemma_to_nat_bound(d);
        crate::limbs::lemma_to_nat_bound(a);
        crate::limbs::lemma_to_nat_bound(b);
    }
    (d, bw)
}

/// Adds the four limbs of `a` and `b`: the low four limbs and the carry.
fn add4(a: [u64; 4], b: [u64; 4]) -> (r: ([u64; 4], u64))
    ensures
        to_nat(r.0) + radix() * r.1 == to_nat(a) + to_nat(b),
        r.1 <= 1,
{
    let (s0, c) = adc(a[0], b[0], 0);
    let (s1, c) = adc(a[1], b[1], c);
    let (s2, c) = adc(a[2], b[2], c);
    let (s3, c) = adc(a[3], b[3], c);
    ([s0, s1, s2, s3], c)
}

/// Given a five-limb value `t + 2^256 * top`, subtracts the modulus unless
/// the value is below it.
pub fn subtract_modulus_unless_below(t: [u64; 4], top: u64, m: &[u64; 4]) -> (r: [u64; 4])
    requires
        top <= 1,
    ensures
        ({
            let v = to_nat(t) + radix() * (top as nat);
            to_nat(r) == (if v < to_nat(*m) {
                v
            } else {
                ((v - to_nat(*m)) as nat) % radix()
            })
        }),
{
    let (s, bw) = sub_limbs(t, *m);
    let (_rest, under) = sbb(top, 0, bw);
    proof {
        crate::limbs::lemma_to_nat_bound(t);
        crate::limbs::lemma_to_nat_bound(s);
        crate::limbs::lemma_to_nat_bound(*m);
        let v = to_nat(t) + radix() * (top as nat);
        if under == 0 {
            lemma_mod_unique(v - to_nat(*m), top - bw, radix() as int, to_nat(s) as int);
            assert(((v - to_nat(*m)) as nat) % radix() == to_nat(s));
        }
    }
    let (mask, _) = sbb(0, 0, under);
    [select(t[0], s[0], mask), select(t[1], s[1], mask), select(t[2], s[2], mask), select(t[3], s[3], mask)]
}

/// Picks `x` when the mask is all ones and `y` when it is zero.
fn select(x: u64, y: u64, mask: u64) -> (r: u64)
    requires
        mask == 0 || mask == 0xffff_ffff_ffff_ffff,
    ensures
        r == (if mask == 0 { y } else { x }),
{
    proof {
        assert((x & 0) | (y & !0u64) == y) by (bit_vector);
        assert((x & 0xffff_ffff_ffff_ffff) | (y & !0xffff_ffff_ffff_ffffu64) == x) by (bit_vector);
    }
    (x & mask) | (y & !mask)
}

/// Adds `b` to `a` modulo `m`.
pub fn add(a: &[u64; 4], b: &[u64; 4], m: &[u64; 4]) -> (r: [u64; 4])
    ensures
        to_nat(r) == add_result(to_nat(*a), to_nat(*b), to_nat(*m)),
        to_nat(*a) < to_nat(*m) && to_nat(*b) < to_nat(*m) ==> to_nat(r) == (to_nat(*a)
            + to_nat(*b)) % to_nat(*m),
{
    let (t, carry) = add4(*a, *b);
    let r = subtract_modulus_unless_below(t, carry, m);
    proof {
        crate::limbs::lemma_to_nat_bound(*m);
        lemma_add_result_reduced(to_nat(*a), to_nat(*b), to_nat(*m));
    }
    r
}

/// Doubles `a` modulo `m`: the same as adding `a` to itself.
pub fn double(a: &[u64; 4], m: &[u64; 4]) -> (r: [u64; 4])
    ensures
        to_nat(r) == add_result(to_nat(*a), to_nat(*a), to_nat(*m)),
        to_nat(*a) < to_nat(*m) ==> to_nat(r) == (2 * to_nat(*a)) % to_nat(*m),
{
    let (t, carry) = add4(*a, *a);
    let r = subtract_modulus_unless_below(t, carry, m);
    proof {
        crate::limbs::lemma_to_nat_bound(*m);
        lemma_add_result_reduced(to_nat(*a), to_nat(*a), to_nat(*m));
    }
    r
}

/// Keeps the limb when the mask is all ones and clears it when the mask is
/// zero.
fn and_mask(x: u64, mask: u64) -> (r: u64)
    requires
        mask == 0 || mask == 0xffff_ffff_ffff_ffff,
    ensures
        r == (if mask == 0 { 0 } else { x }),
{
    proof {
        assert(x & 0 == 0) by (bit_vector);
        assert(x & 0xffff_ffff_ffff_ffff == x) by (bit_vector);
    }
    x & mask
}

/// Subtracts `b` from `a` modulo `m`: the borrow of `a - b` becomes a mask
/// that selects whether `m` is added back.
pub fn sub(a: &[u64; 4], b: &[u64; 4], m: &[u64; 4]) -> (r: [u64; 4])
    ensures
        to_nat(r) == sub_result(to_nat(*a), to_nat(*b), to_nat(*m)),
        to_nat(*a) < to_nat(*m) && to_nat(*b) < to_nat(*m) ==> to_nat(r) as int == (to_nat(*a)
            - to_nat(*b)) % (to_nat(*m) as int),
{
    let (t, bw) = sub_limbs(*a, *b);
    let (mask, _) = sbb(0, 0, bw);
    let n = [and_mask(m[0], mask), and_mask(m[1], mask), and_mask(m[2], mask), and_mask(m[3], mask)];
    let (r, _carry) = add4(n, t);
    proof {
        crate::limbs::lemma_to_nat_bound(*m);
        crate::limbs::lemma_to_nat_bound(r);
        crate::limbs::lemma_to_nat_bound(t);
        let x = to_nat(*a) as int - to_nat(*b) as int + (if to_nat(*a) < to_nat(*b) {
            to_nat(*m) as int
        } else {
            0int
        });
        assert(to_nat(n) == (if bw == 1 { to_nat(*m) } else { 0 }));
        lemma_mod_unique(x, _carry - bw, radix() as int, to_nat(r) as int);
        lemma_sub_result_reduced(to_nat(*a), to_nat(*b), to_nat(*m));
    }
    r
}

/// Negates `a` modulo `m`: `m - a`, except that zero stays zero.
pub fn neg(a: &[u64; 4], m: &[u64; 4]) -> (r: [u64; 4])
    ensures
        to_nat(r) == neg_result(to_nat(*a), to_nat(*m)),
        to_nat(*a) < to_nat(*m) ==> to_nat(r) as int == (to_nat(*m) - to_nat(*a)) % (to_nat(
            *m,
        ) as int),
{
    let (t, _bw) = sub_limbs(*m, *a);
    let low = a[0] | a[1];
    let high = a[2] | a[3];
    let any = low | high;
    // all ones when `a` is nonzero, zero otherwise
    let (_, nonzero) = sbb(0, any, 0);
    let (mask, _) = sbb(0, 0, nonzero);
    proof {
        let (a0, a1, a2, a3) = (a[0], a[1], a[2], a[3]);
        assert(((a0 | a1) | (a2 | a3)) == 0 <==> (a0 == 0 && a1 == 0 && a2 == 0 && a3 == 0))
            by (bit_vector);
    }
    let r = [and_mask(t[0], mask), and_mask(t[1], mask), and_mask(t[2], mask), and_mask(t[3], mask)];
    proof {
        crate::limbs::lemma_to_nat_bound(*m);
        crate::limbs::lemma_to_nat_bound(*a);
        crate::limbs::lemma_to_nat_bound(t);
        if to_nat(*a) != 0 {
            lemma_mod_unique(
                to_nat(*m) as int - to_nat(*a) as int,
                -_bw,
                radix() as int,
                to_nat(t) as int,
            );
        }
        lemma_neg_result_reduced(to_nat(*a), to_nat(*m));
    }
    r
}

/// For reduced operands, `sub_result` is the difference modulo `m`.
pub proof fn lemma_sub_result_reduced(x: nat, y: nat, m: nat)
    requires
        m <= radix(),
    ensures
        x < m && y < m ==> sub_result(x, y, m) as int == (x - y) % (m as int),
        x < m && y < m ==> sub_result(x, y, m) < m,
{
    if x < m && y < m {
        if x < y {
            lemma_mod_unique(x - y, -1, m as int, x - y + m);
            lemma_mod_unique(x - y + m, 0, radix() as int, x - y + m);
        } else {
            lemma_mod_unique(x - y, 0, m as int, x - y);
            lemma_mod_unique(x - y, 0, radix() as int, x - y);
        }
    }
}

/// For a reduced operand, `neg_result` is the negation modulo `m`.
pub proof fn lemma_neg_result_reduced(x: nat, m: nat)
    requires
        m <= radix(),
    ensures
        x < m ==> neg_result(x, m) as int == (m - x) % (m as int),
        x < m ==> neg_result(x, m) < m,
{
    if x < m {
        if x == 0 {
            lemma_mod_unique(m as int, 1, m as int, 0);
        } else {
            lemma_mod_unique(m - x, 0, m as int, m - x);
            lemma_mod_unique(m - x, 0, radix() as int, m - x);
        }
    }
}

/// For reduced operands, `add_result` is the sum modulo `m`.
pub proof fn lemma_add_result_reduced(x: nat, y: nat, m: nat)
    requires
        m <= radix(),
    ensures
        x < m && y < m ==> add_result(x, y, m) == (x + y) % m,
        x < m && y < m ==> add_result(x, y, m) < m,
{
    if x < m && y < m {
        lemma_mod_once((x + y) as int, m as int);
        if x + y >= m {
            lemma_mod_once((x + y - m) as int, radix() as int);
        }
    }
}

} // verus!
