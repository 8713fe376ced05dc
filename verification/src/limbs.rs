//! Limb radices, the value of a four-limb number, and the word-level
//! primitives (add with carry, subtract with borrow, widening multiply)
//! out of which every operation of the crate is built.

use vstd::prelude::*;

verus! {

/// The radix of one limb, `2^64`.
pub open spec fn word() -> nat {
    18446744073709551616nat
}

/// `2^128`.
pub open spec fn word2() -> nat {
    340282366920938463463374607431768211456nat
}

/// `2^192`.
pub open spec fn word3() -> nat {
    6277101735386680763835789423207666416102355444464034512896nat
}

/// `2^256`: the range of a four-limb number, and the Montgomery radix `R`.
pub open spec fn radix() -> nat {
    115792089237316195423570985008687907853269984665640564039457584007913129639936nat
}

/// `2^320`: the range of a five-limb number.
pub open spec fn radix5() -> nat {
    2135987035920910082395021706169552114602704522356652769947041607822219725780640550022962086936576nat
}

/// The number denoted by four little-endian limbs.
pub open spec fn to_nat(a: [u64; 4]) -> nat {
    a[0] as nat + word() * (a[1] as nat) + word2() * (a[2] as nat) + word3() * (a[3] as nat)
}

/// The number denoted by five little-endian limbs.
pub open spec fn to_nat5(a: [u64; 5]) -> nat {
    a[0] as nat + word() * (a[1] as nat) + word2() * (a[2] as nat) + word3() * (a[3] as nat) + radix() * (a[4] as nat)
}

/// Four limbs are determined by the number they denote.
pub proof fn lemma_to_nat_injective(x: [u64; 4], y: [u64; 4])
    requires
        to_nat(x) == to_nat(y),
    ensures
        x == y,
{
    let w = word() as int;
    let hx = x[1] as int + w * x[2] + word2() * x[3];
    let hy = y[1] as int + w * y[2] + word2() * y[3];
    vstd::arithmetic::div_mod::lemma_fundamental_div_mod_converse(to_nat(x) as int, w, hx, x[0] as int);
    vstd::arithmetic::div_mod::lemma_fundamental_div_mod_converse(to_nat(y) as int, w, hy, y[0] as int);
    let gx = x[2] as int + w * x[3];
    let gy = y[2] as int + w * y[3];
    vstd::arithmetic::div_mod::lemma_fundamental_div_mod_converse(hx, w, gx, x[1] as int);
    vstd::arithmetic::div_mod::lemma_fundamental_div_mod_converse(hy, w, gy, y[1] as int);
    vstd::arithmetic::div_mod::lemma_fundamental_div_mod_converse(gx, w, x[3] as int, x[2] as int);
    vstd::arithmetic::div_mod::lemma_fundamental_div_mod_converse(gy, w, y[3] as int, y[2] as int);
    assert(x =~= y);
}

/// The range of a four-limb number, and its size relative to its top limb.
pub proof fn lemma_to_nat_bound(a: [u64; 4])
    ensures
        to_nat(a) < radix(),
        to_nat(a) >= word3() * a[3],
        to_nat(a) < word3() * (a[3] + 1),
{
}

/// Adds two limbs and an incoming carry: the low limb of the sum and the
/// carry out.
pub fn adc(a: u64, b: u64, carry: u64) -> (r: (u64, u64))
    requires
        carry <= 1,
    ensures
        r.0 + word() * r.1 == a + b + carry,
        r.1 <= 1,
{
    let s: u128 = a as u128 + b as u128 + carry as u128;
    let hi: u128 = s / 0x1_0000_0000_0000_0000;
    let lo: u128 = s % 0x1_0000_0000_0000_0000;
    proof {
        vstd::arithmetic::div_mod::lemma_fundamental_div_mod(s as int, word() as int);
    }
    (lo as u64, hi as u64)
}

/// Subtracts a limb and an incoming borrow from a limb: the low limb of
/// the difference and the borrow out.
pub fn sbb(a: u64, b: u64, borrow: u64) -> (r: (u64, u64))
    requires
        borrow <= 1,
    ensures
        r.0 as int - word() * r.1 == a - b - borrow,
        r.1 <= 1,
        r.1 == 1 <==> a < b + borrow,
{
    // a + 2^64 - b - borrow lies in [1, 2^65): its high bit is the
    // complement of the borrow out.
    let d: u128 = a as u128 + 0x1_0000_0000_0000_0000 - b as u128 - borrow as u128;
    let hi: u128 = d / 0x1_0000_0000_0000_0000;
    let lo: u128 = d % 0x1_0000_0000_0000_0000;
    proof {
        vstd::arithmetic::div_mod::lemma_fundamental_div_mod(d as int, word() as int);
    }
    (lo as u64, (1 - hi) as u64)
}

proof fn lemma_word_product_bound(a: u64, b: u64)
    ensures
        (a as nat) * (b as nat) <= 0xffff_ffff_ffff_fffe_0000_0000_0000_0001nat,
{
    vstd::arithmetic::mul::lemma_mul_upper_bound(
        a as int,
        0xffff_ffff_ffff_ffffint,
        b as int,
        0xffff_ffff_ffff_ffffint,
    );
    assert(0xffff_ffff_ffff_ffffint * 0xffff_ffff_ffff_ffffint
        == 0xffff_ffff_ffff_fffe_0000_0000_0000_0001int);
}

/// The full 128-bit product of two limbs: `(low, high)`.
pub fn mul_wide(a: u64, b: u64) -> (r: (u64, u64))
    ensures
        r.0 + word() * r.1 == a * b,
        r.1 <= word() - 2,
{
    proof {
        lemma_word_product_bound(a, b);
    }
    let p: u128 = (a as u128) * (b as u128);
    let hi: u128 = p / 0x1_0000_0000_0000_0000;
    let lo: u128 = p % 0x1_0000_0000_0000_0000;
    proof {
        assert(p == hi * 0x1_0000_0000_0000_0000 + lo) by {
            vstd::arithmetic::div_mod::lemma_fundamental_div_mod(p as int, word() as int);
        }
        assert(hi <= word() - 2) by {
            vstd::arithmetic::div_mod::lemma_div_is_ordered(
                p as int,
                0xffff_ffff_ffff_fffe_0000_0000_0000_0001int,
                word() as int,
            );
            assert(0xffff_ffff_ffff_fffe_0000_0000_0000_0001int / 0x1_0000_0000_0000_0000int
                == 0xffff_ffff_ffff_fffeint);
        }
    }
    (lo as u64, hi as u64)
}

/// The low limb of the product of two limbs (a wrapping multiply).
pub fn mul_low(a: u64, b: u64) -> (r: u64)
    ensures
        r == (a as nat * b as nat) % word(),
{
    let (lo, hi) = mul_wide(a, b);
    proof {
        vstd::arithmetic::div_mod::lemma_fundamental_div_mod_converse_mod(
            (a as nat * b as nat) as int,
            word() as int,
            hi as int,
            lo as int,
        );
    }
    lo
}

} // verus!
