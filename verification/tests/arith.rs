use limb4_arith::field_ops::{add, double, neg, sub};
use limb4_arith::montgomery::{from_mont, mul, mul_256, square, square_256};

/// The BN254 base field modulus (a modulus with spare bits).
const BN: [u64; 4] = [0x3c208c16d87cfd47, 0x97816a916871ca8d, 0xb85045b68181585d, 0x30644e72e131a029];
const BN_INV: u64 = 0x87d20782e4866389;

/// The secp256k1 base field modulus (full width, top limb all ones).
const SECP: [u64; 4] = [0xfffffffefffffc2f, 0xffffffffffffffff, 0xffffffffffffffff, 0xffffffffffffffff];

/// The NIST P-256 base field modulus (full width, top bit set).
const P256: [u64; 4] = [0xffffffffffffffff, 0x00000000ffffffff, 0x0000000000000000, 0xffffffff00000001];
const P256_INV: u64 = 1;

const A: [u64; 4] = [0x1234567890abcdef, 0x1234567890abcdef, 0x1234567890abcdef, 0x1234567890abcdef];
const B: [u64; 4] = [0x1fedcba098765432, 0x1fedcba098765432, 0x1fedcba098765432, 0x2fedcba098765432];
const ONE: [u64; 4] = [1, 0, 0, 0];
const ZERO: [u64; 4] = [0, 0, 0, 0];
const ALL_ONES: [u64; 4] = [u64::MAX; 4];

#[test]
fn add_small_values() {
    assert_eq!(add(&[1, 0, 0, 0], &[2, 0, 0, 0], &BN), [3, 0, 0, 0]);
}

#[test]
fn add_wraps_past_the_modulus() {
    assert_eq!(
        add(&A, &B, &BN),
        [0xf601960250a524da, 0x9aa0b787c0b05793, 0x79d1dc62a7a0c9c3, 0x11bdd3a647f081f7]
    );
    let m_minus_5 = [0x3c208c16d87cfd42, 0x97816a916871ca8d, 0xb85045b68181585d, 0x30644e72e131a029];
    assert_eq!(
        add(&A, &m_minus_5, &BN),
        [0x1234567890abcdea, 0x1234567890abcdef, 0x1234567890abcdef, 0x1234567890abcdef]
    );
}

#[test]
fn add_carries_out_of_a_full_width_modulus() {
    let p_minus_1 = [0xfffffffefffffc2e, u64::MAX, u64::MAX, u64::MAX];
    let p_minus_2 = [0xfffffffefffffc2d, u64::MAX, u64::MAX, u64::MAX];
    assert_eq!(
        add(&p_minus_1, &p_minus_2, &SECP),
        [0xfffffffefffffc2c, u64::MAX, u64::MAX, u64::MAX]
    );
}

#[test]
fn add_unreduced_operands_subtract_the_modulus_once() {
    // (2^256 - 1) + (2^256 - 1) - m, taken modulo 2^256
    assert_eq!(
        add(&ALL_ONES, &ALL_ONES, &BN),
        [0xc3df73e9278302b7, 0x687e956e978e3572, 0x47afba497e7ea7a2, 0xcf9bb18d1ece5fd6]
    );
}

#[test]
fn double_is_add_to_itself() {
    assert_eq!(
        double(&A, &BN),
        [0x2468acf121579bde, 0x2468acf121579bde, 0x2468acf121579bde, 0x2468acf121579bde]
    );
    assert_eq!(double(&A, &BN), add(&A, &A, &BN));
    assert_eq!(double(&B, &BN), add(&B, &B, &BN));
    assert_eq!(double(&ALL_ONES, &BN), add(&ALL_ONES, &ALL_ONES, &BN));
}

#[test]
fn sub_without_and_with_borrow() {
    assert_eq!(
        sub(&A, &B, &BN),
        [0x2e6716eed0b27704, 0x89c7f56960a7444a, 0xaa96d08e79b6d21a, 0x12aad94ad96719e6]
    );
    assert_eq!(
        sub(&B, &A, &BN),
        [0x0db9752807ca8643, 0x0db9752807ca8643, 0x0db9752807ca8643, 0x1db9752807ca8643]
    );
    assert_eq!(sub(&A, &A, &BN), ZERO);
}

#[test]
fn sub_below_zero_on_a_full_width_modulus() {
    assert_eq!(
        sub(&[1, 0, 0, 0], &[2, 0, 0, 0], &SECP),
        [0xfffffffefffffc2e, u64::MAX, u64::MAX, u64::MAX]
    );
}

#[test]
fn sub_unreduced_operand_adds_the_modulus_modulo_r() {
    // 0 - (2^256 - 1) + m, taken modulo 2^256, is m + 1
    assert_eq!(
        sub(&ZERO, &ALL_ONES, &BN),
        [0x3c208c16d87cfd48, 0x97816a916871ca8d, 0xb85045b68181585d, 0x30644e72e131a029]
    );
}

#[test]
fn neg_of_zero_is_zero() {
    assert_eq!(neg(&ZERO, &BN), ZERO);
    assert_eq!(neg(&ZERO, &SECP), ZERO);
}

#[test]
fn neg_of_nonzero_is_modulus_minus_value() {
    assert_eq!(
        neg(&A, &BN),
        [0x29ec359e47d12f58, 0x854d1418d7c5fc9e, 0xa61bef3df0d58a6e, 0x1e2ff7fa5085d23a]
    );
    assert_eq!(
        neg(&ONE, &SECP),
        [0xfffffffefffffc2e, u64::MAX, u64::MAX, u64::MAX]
    );
    // an unreduced operand: m - (2^256 - 1) taken modulo 2^256
    assert_eq!(
        neg(&ALL_ONES, &BN),
        [0x3c208c16d87cfd48, 0x97816a916871ca8d, 0xb85045b68181585d, 0x30644e72e131a029]
    );
}

#[test]
fn field_laws_on_values() {
    for (x, y) in [(A, B), (B, A), (ZERO, A), (A, ZERO), (ONE, B)] {
        assert_eq!(sub(&add(&x, &y, &BN), &y, &BN), x);
        assert_eq!(add(&sub(&x, &y, &BN), &y, &BN), x);
        assert_eq!(add(&x, &y, &BN), add(&y, &x, &BN));
        assert_eq!(sub(&x, &y, &BN), add(&x, &neg(&y, &BN), &BN));
        assert_eq!(add(&x, &neg(&x, &BN), &BN), ZERO);
        assert_eq!(neg(&neg(&x, &BN), &BN), x);
        assert_eq!(neg(&x, &BN), sub(&ZERO, &x, &BN));
    }
}

#[test]
fn from_mont_reduces_by_r() {
    assert_eq!(
        from_mont(&A, &BN, BN_INV),
        [0xb4868b61289399dd, 0xc45384f1154a5313, 0xb374b17806071544, 0x0c20725bba0f4875]
    );
    assert_eq!(from_mont(&ZERO, &BN, BN_INV), ZERO);
}

#[test]
fn from_mont_of_the_modulus_is_the_modulus() {
    assert_eq!(from_mont(&BN, &BN, BN_INV), BN);
}

#[test]
fn from_mont_on_a_full_width_modulus() {
    let p_minus_1 = [0xfffffffffffffffe, 0x00000000ffffffff, 0x0000000000000000, 0xffffffff00000001];
    assert_eq!(
        from_mont(&p_minus_1, &P256, P256_INV),
        [0xfffffffcffffffff, 0xffffffff00000001, 0x00000002fffffffd, 0x00000000fffffffd]
    );
}

#[test]
fn mul_is_montgomery_multiplication() {
    assert_eq!(
        mul(&A, &B, &BN, BN_INV),
        [0x82e91b7777420176, 0xe4d0955efa931d07, 0xb55eb4357c6ec496, 0x0ef84098d17e2e1b]
    );
    assert_eq!(mul(&A, &B, &BN, BN_INV), mul(&B, &A, &BN, BN_INV));
}

#[test]
fn square_is_mul_by_itself() {
    assert_eq!(
        square(&A, &BN, BN_INV),
        [0xd360de740bdd5253, 0xef1123d76e999d93, 0x42cb91953eaa64dc, 0x15613a65e47ed1b8]
    );
    assert_eq!(square(&B, &BN, BN_INV), mul(&B, &B, &BN, BN_INV));
}

#[test]
fn mul_by_one_is_from_mont() {
    assert_eq!(mul(&A, &ONE, &BN, BN_INV), from_mont(&A, &BN, BN_INV));
    assert_eq!(mul_256(&A, &ONE, &BN, BN_INV), from_mont(&A, &BN, BN_INV));
}

#[test]
fn mul_of_montgomery_forms() {
    let seven_r = [0x4f4bc0b2b5ef64bd, 0x1a4b98fbe78db996, 0x5c65ec9f484e3a79, 0x0180a96573d3d9f8];
    let eleven_r = [0x60a042d2f3ae9dea, 0xacaddb0e56381c00, 0x3dd034a6a8b1facb, 0x094639f8fac1b68c];
    let seventy_seven_r =
        [0x684147add149541f, 0x213f92d2f316f975, 0xf8612ad81b5c8334, 0x1087475bfa1a5dab];
    assert_eq!(mul(&seven_r, &eleven_r, &BN, BN_INV), seventy_seven_r);
    assert_eq!(mul_256(&seven_r, &eleven_r, &BN, BN_INV), seventy_seven_r);
    assert_eq!(from_mont(&seventy_seven_r, &BN, BN_INV), [77, 0, 0, 0]);
}

#[test]
fn mul_by_r_squared_converts_to_montgomery_form() {
    let r2 = [0xf32cfc5b538afa89, 0xb5e71911d44501fb, 0x47ab1eff0a417ff6, 0x06d89f71cab8351f];
    let a_r = [0x1c7bc7cc0ceb3313, 0x43e71fc121834174, 0x0870a59497036f7f, 0x16db3787c008bbc0];
    assert_eq!(mul(&A, &r2, &BN, BN_INV), a_r);
    assert_eq!(from_mont(&a_r, &BN, BN_INV), A);
}

#[test]
fn mul_is_associative_on_values() {
    let c = [5, 6, 7, 8];
    let left = mul(&mul(&A, &B, &BN, BN_INV), &c, &BN, BN_INV);
    let right = mul(&A, &mul(&B, &c, &BN, BN_INV), &BN, BN_INV);
    assert_eq!(left, right);
}

#[test]
fn mul_256_agrees_with_mul() {
    assert_eq!(mul_256(&A, &B, &BN, BN_INV), mul(&A, &B, &BN, BN_INV));
    assert_eq!(square_256(&A, &BN, BN_INV), square(&A, &BN, BN_INV));
}

#[test]
fn mul_256_on_a_full_width_modulus() {
    let p_minus_1 = [0xfffffffffffffffe, 0x00000000ffffffff, 0x0000000000000000, 0xffffffff00000001];
    let p_minus_2 = [0xfffffffffffffffd, 0x00000000ffffffff, 0x0000000000000000, 0xffffffff00000001];
    assert_eq!(
        mul_256(&p_minus_1, &p_minus_2, &P256, P256_INV),
        [0x0000000600000001, 0x00000002fffffffc, 0xfffffffa00000004, 0xfffffffd00000006]
    );
    assert_eq!(
        square_256(&p_minus_1, &P256, P256_INV),
        [0x0000000300000000, 0x00000001fffffffe, 0xfffffffd00000002, 0xfffffffe00000003]
    );
}

const SECP_INV: u64 = 0xd838091dd2253531;

#[test]
fn mul_256_on_a_modulus_with_an_all_ones_top_limb() {
    let p_minus_1 = [0xfffffffefffffc2e, u64::MAX, u64::MAX, u64::MAX];
    let p_minus_2 = [0xfffffffefffffc2d, u64::MAX, u64::MAX, u64::MAX];
    assert_eq!(
        mul_256(&p_minus_1, &p_minus_1, &SECP, SECP_INV),
        [0xd838091d0868192a, 0xbcb223fedc24a059, 0x9c46c2c295f2b761, 0xc9bd190515538399]
    );
    assert_eq!(
        square_256(&p_minus_1, &SECP, SECP_INV),
        mul_256(&p_minus_1, &p_minus_1, &SECP, SECP_INV)
    );
    assert_eq!(
        mul_256(&p_minus_1, &p_minus_2, &SECP, SECP_INV),
        [0xb070123b10d03625, 0x796447fdb84940b3, 0x388d85852be56ec3, 0x937a320a2aa70733]
    );
    assert_eq!(mul_256(&p_minus_1, &ONE, &SECP, SECP_INV), from_mont(&p_minus_1, &SECP, SECP_INV));
}

#[test]
fn mul_256_modulo_two_to_the_256_minus_one() {
    // R = 2^256 is 1 modulo 2^256 - 1, so the Montgomery product is the product.
    assert_eq!(
        mul_256(&[1, 0, 0, 2], &[u64::MAX, 0, 0, 0], &ALL_ONES, 1),
        [0, 1, 0, 0xfffffffffffffffe]
    );
}
