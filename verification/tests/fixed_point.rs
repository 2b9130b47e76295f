use lib::decimal::{bits_per_char, fmt_q24};
use lib::fixed::{isqrt, log2_mantissa, u128_lz, Tables, ONE, SATURATE};

#[test]
fn isqrt_values() {
    assert_eq!(isqrt(0), 0);
    assert_eq!(isqrt(15), 3);
    assert_eq!(isqrt(16), 4);
    assert_eq!(isqrt(100_000_000_000_000_000_000), 10_000_000_000);
    // sqrt(2^-1) in Q32, the first root constant of the tables
    assert_eq!(isqrt((1u128 << 31) << 32), 3_037_000_499);
    assert_eq!(isqrt(u128::MAX), (1u128 << 64) - 1);
}

#[test]
fn log2_mantissa_values() {
    assert_eq!(log2_mantissa(1u64 << 32), 0);
    // log2(1.5) in Q24
    assert_eq!(log2_mantissa(3u64 << 31), 9_814_042);
    assert_eq!(log2_mantissa((1u64 << 33) - 1), (ONE - 1) as i64);
}

#[test]
fn log2_int_values() {
    let t = Tables::new();
    assert_eq!(t.log2_int(1), 0);
    assert_eq!(t.log2_int(2), ONE);
    assert_eq!(t.log2_int(3), 26_591_258);
    assert_eq!(t.log2_int(10), 55_732_705);
    assert_eq!(t.log2_int(1u64 << 40), 40 * ONE);
    assert_eq!(t.log2_int(u64::MAX), 1_073_741_823);
}

#[test]
fn log2_int_of_powers_of_two_is_exact() {
    let t = Tables::new();
    for k in 0..64u32 {
        assert_eq!(t.log2_int(1u64 << k), (k as i64) * ONE);
    }
}

#[test]
fn log2_int_is_monotone() {
    let t = Tables::new();
    let mut prev = t.log2_int(1);
    for v in 2..5000u64 {
        let cur = t.log2_int(v);
        assert!(cur >= prev);
        prev = cur;
    }
}

#[test]
fn log2_1p_and_exp2_neg_values() {
    let t = Tables::new();
    assert_eq!(t.log2_1p(0), 0);
    assert_eq!(t.log2_1p(1u64 << 31), 9_814_042);
    assert_eq!(t.log2_1p((1u64 << 32) - 1), ONE - 1);
    assert_eq!(t.exp2_neg(0), 1u64 << 32);
    assert_eq!(t.exp2_neg(ONE / 2), 3_037_000_499);
    assert_eq!(t.exp2_neg(ONE - 1), 2_147_483_737);
}

#[test]
fn log2_1p_exp2_values() {
    let t = Tables::new();
    assert_eq!(t.log2_1p_exp2(0), ONE);
    assert_eq!(t.log2_1p_exp2(ONE), 26_591_258);
    assert_eq!(t.log2_1p_exp2(-ONE), 9_814_042);
    assert_eq!(t.log2_1p_exp2(SATURATE), SATURATE);
    assert_eq!(t.log2_1p_exp2(-SATURATE), 0);
    assert_eq!(t.log2_1p_exp2(5 * ONE + 123), 84_631_008);
    assert_eq!(t.log2_1p_exp2(-(5 * ONE + 123)), 744_805);
}

#[test]
fn log2_1p_exp2_symmetry() {
    // log2(1 + 2^y) - log2(1 + 2^-y) = y exactly
    let t = Tables::new();
    for y in [0i64, 1, 77, ONE / 3, ONE, 3 * ONE + 5, 24 * ONE, SATURATE - 1, SATURATE, 40 * ONE] {
        assert_eq!(t.log2_1p_exp2(y) - t.log2_1p_exp2(-y), y);
    }
}

#[test]
fn log2_1p_exp2_bounds() {
    let t = Tables::new();
    for y in [-40 * ONE, -ONE, -1, 0, 1, ONE / 7, 2 * ONE, 30 * ONE] {
        let r = t.log2_1p_exp2(y);
        let base = if y > 0 { y } else { 0 };
        assert!(base <= r && r <= base + ONE);
    }
}

#[test]
fn fmt_q24_values() {
    assert_eq!(fmt_q24(ONE, 2), "1.00");
    assert_eq!(fmt_q24(-3 * ONE / 2, 3), "-1.500");
    assert_eq!(fmt_q24(ONE / 3, 6), "0.333333");
    assert_eq!(fmt_q24(0, 0), "0.");
    assert_eq!(fmt_q24(-1, 4), "-0.0000");
    assert_eq!(fmt_q24(300_709_546, 6), "17.923685");
}

#[test]
fn bits_per_char_values() {
    assert_eq!(bits_per_char(300_709_546, 2), "8.961842");
    assert_eq!(bits_per_char(0, 0), "n/a");
    assert_eq!(bits_per_char(8 * ONE, 4), "2.000000");
    assert_eq!(bits_per_char(-7, 2), "-0.000000");
    assert_eq!(bits_per_char(1_609_283_758, 12), "7.993398");
}

#[test]
fn u128_leading_zeros_from_halves() {
    for x in [0u128, 1, 2, 1 << 63, 1 << 64, (1 << 64) + 5, 1 << 100, u128::MAX, 0xFFFF_FFFF_FFFF_FFFF] {
        assert_eq!(u128_lz(x), x.leading_zeros());
    }
    assert_eq!(u128_lz(1 << 64), 63);
    assert_eq!(u128_lz(0), 128);
}

#[test]
fn log2_int_doubling_adds_one() {
    let t = Tables::new();
    for v in [1u64, 3, 5, 7, 1000, 123_456_789, 1 << 40, (1 << 62) + 12345] {
        assert_eq!(t.log2_int(2 * v), t.log2_int(v) + ONE);
    }
}
