use phantom_zone::arith::{mod_exponent, mod_inverse, mul_mod, shoup_mul, shoup_representation};
use phantom_zone::bit_reverse::reverse_bits;
use phantom_zone::butterfly::{
    forward_butterly_0_to_2q, forward_butterly_0_to_4q, inverse_butterfly_0_to_2q,
};

#[test]
fn shoup_representation_is_scaled_quotient() {
    assert_eq!(shoup_representation(5, 17), 5425512962855750475);
    assert_eq!(shoup_representation(0, 17), 0);
    // floor((q - 1) * 2^64 / q) for q = 2
    assert_eq!(shoup_representation(1, 2), 1u64 << 63);
}

#[test]
fn shoup_mul_is_lazy_modular_product() {
    let w_shoup = shoup_representation(5, 17);
    assert_eq!(shoup_mul(10, 5, w_shoup, 17), 16);
    let q: u64 = 1152921504606748673;
    let w: u64 = 123456789123456789;
    let w_shoup = shoup_representation(w, q);
    for a in [0u64, 1, 2, q - 1, q, 2 * q - 1, 3 * q + 5, u64::MAX] {
        let r = shoup_mul(a, w, w_shoup, q);
        assert!(r < 2 * q);
        let expected = ((a as u128 * w as u128) % q as u128) as u64;
        assert_eq!(r % q, expected);
    }
}

#[test]
fn modular_products_and_powers() {
    assert_eq!(mul_mod(u64::MAX, u64::MAX, 1000000007), 114944269);
    assert_eq!(mod_exponent(3, 200, 1000007), 959082);
    assert_eq!(mod_exponent(7, 95, 97), 14);
    assert_eq!(mod_exponent(5, 0, 97), 1);
    assert_eq!(mod_exponent(5, 0, 1), 0);
    assert_eq!(mod_inverse(7, 97), 14);
    assert_eq!(mul_mod(7, mod_inverse(7, 97), 97), 1);
}

#[test]
fn bit_reversal_of_indices() {
    assert_eq!(reverse_bits(1, 3), 4);
    assert_eq!(reverse_bits(6, 3), 3);
    assert_eq!(reverse_bits(0b1011, 4), 0b1101);
    assert_eq!(reverse_bits(5, 0), 0);
    for i in 0..16usize {
        assert_eq!(reverse_bits(reverse_bits(i, 4), 4), i);
    }
}

#[test]
fn forward_butterfly_into_four_q() {
    let w_shoup = shoup_representation(5, 17);
    let (x, y) = forward_butterly_0_to_4q(50, 60, 5, w_shoup, 17, 34);
    assert_eq!((x, y), (27, 39));
    assert_eq!(x % 17, (50 + 5 * 60) % 17);
    assert_eq!((y + 17 * 20) % 17, (50 + 17 * 20 - 5 * 60) % 17);
}

#[test]
fn forward_butterfly_into_two_q() {
    let w_shoup = shoup_representation(5, 17);
    let (x, y) = forward_butterly_0_to_2q(50, 60, 5, w_shoup, 17, 34);
    assert_eq!((x, y), (27, 5));
    assert!(x < 34 && y < 34);
}

#[test]
fn inverse_butterfly_into_two_q() {
    let w_shoup = shoup_representation(7, 17);
    let (x, y) = inverse_butterfly_0_to_2q(20, 30, 7, w_shoup, 17, 34);
    assert_eq!((x, y), (16, 15));
    assert_eq!(x % 17, (20 + 30) % 17);
    assert_eq!(y % 17, (7 * (20 + 17 - 30)) % 17);
}
