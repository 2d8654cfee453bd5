use docscan::wide::{is_negative, is_zero, mul_i128_u64, mul_u128_u64, mul_wide_u64, wide_add, wide_le, wide_neg, Wide};

fn w(hi: i128, lo: u128) -> Wide {
    Wide { hi, lo }
}

#[test]
fn wide_products_carry_into_the_high_half() {
    let r = mul_u128_u64(u128::MAX, u64::MAX);
    // (2^128 - 1)(2^64 - 1) = (2^64 - 2) * 2^128 + (2^128 - 2^64 + 1)
    assert_eq!(r.hi, (1i128 << 64) - 2);
    assert_eq!(r.lo, 0u128.wrapping_sub(1u128 << 64).wrapping_add(1));
    let r = mul_i128_u64(-3, 5);
    assert_eq!((r.hi, r.lo), (-1, u128::MAX - 14));
    let r = mul_i128_u64(i128::MIN, 2);
    assert_eq!((r.hi, r.lo), (-1, 0));
}

#[test]
fn wide_sums_negations_and_comparisons() {
    let a = w(0, u128::MAX);
    let b = w(0, 1);
    let s = wide_add(a, b);
    assert_eq!((s.hi, s.lo), (1, 0));
    let n = wide_neg(s);
    assert_eq!((n.hi, n.lo), (-1, 0));
    assert!(is_negative(n));
    assert!(is_zero(wide_add(n, s)));
    assert!(wide_le(n, b) && !wide_le(s, a));
    let m = mul_wide_u64(w(2, 3), 4);
    assert_eq!((m.hi, m.lo), (8, 12));
}
