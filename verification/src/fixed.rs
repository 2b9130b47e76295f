//! Integer-only fixed-point logarithm and exponent machinery.
use vstd::prelude::*;
use vstd::arithmetic::power2::*;
use vstd::arithmetic::div_mod::*;
use vstd::bits::*;
use vstd::std_specs::bits::u64_leading_zeros;

verus! {

/// Fractional bits of the logarithmic domain: every log2 quantity is an `i64` in Q24.
pub const Q: u32 = 24;

/// One in Q24.
pub const ONE: i64 = 0x100_0000;

/// Table index bits: tables have 2^12 intervals plus linear interpolation.
pub const TB: u32 = 12;

/// Number of table intervals.
pub const TN: usize = 4096;

/// Beyond this distance log2(1 + 2^-d) is below the Q24 resolution.
pub const SATURATE: i64 = 0x1900_0000;

/// 2^32, the unit of the Q32 mantissa domain.
pub open spec fn q32() -> int {
    0x1_0000_0000
}

/// Number of leading zero bits of a `u128` (128 for zero).
pub open spec fn u128_leading_zeros(i: u128) -> int
    decreases i,
{
    if i == 0 {
        128
    } else {
        u128_leading_zeros(i / 2) - 1
    }
}

/// Number of binary digits of x (0 for zero).
pub open spec fn bit_len(x: nat) -> nat
    decreases x,
{
    if x == 0 {
        0
    } else {
        1 + bit_len(x / 2)
    }
}

proof fn lemma_lz128_bit_len(x: u128)
    ensures
        u128_leading_zeros(x) == 128 - bit_len(x as nat),
    decreases x,
{
    if x > 0 {
        lemma_lz128_bit_len(x / 2);
    }
}

proof fn lemma_lz64_bit_len(x: u64)
    ensures
        u64_leading_zeros(x) == 64 - bit_len(x as nat),
    decreases x,
{
    reveal(u64_leading_zeros);
    if x > 0 {
        lemma_lz64_bit_len(x / 2);
    }
}

/// A number in [2^(k-1), 2^k) has k binary digits.
proof fn lemma_bit_len_range(y: nat, k: nat)
    requires
        k >= 1,
        pow2((k - 1) as nat) <= y < pow2(k),
    ensures
        bit_len(y) == k,
    decreases k,
{
    lemma_pow2_unfold(k);
    if k == 1 {
        lemma2_to64();
        assert(y == 1);
        assert(bit_len(0) == 0);
    } else {
        lemma_pow2_unfold((k - 1) as nat);
        lemma_bit_len_range(y / 2, (k - 1) as nat);
    }
}

/// Above 2^64 the high half carries the digits beyond the 64 low ones.
proof fn lemma_bit_len_split(x: nat)
    requires
        x >= 0x1_0000_0000_0000_0000,
    ensures
        bit_len(x) == 64 + bit_len(x / 0x1_0000_0000_0000_0000),
    decreases x,
{
    let big: nat = 0x1_0000_0000_0000_0000;
    assert(bit_len(x) == 1 + bit_len(x / 2));
    lemma_div_denominator(x as int, 2, big as int);
    lemma_div_denominator(x as int, big as int, 2);
    assert((x / 2) / big == (x / big) / 2);
    if x / 2 >= big {
        lemma_bit_len_split(x / 2);
        assert(x / big > 0);
        assert(bit_len(x / big) == 1 + bit_len((x / big) / 2));
    } else {
        lemma2_to64();
        lemma_pow2_unfold(64);
        lemma_bit_len_range(x / 2, 64);
        assert(x / big == 1);
        assert(bit_len(1) == 1 + bit_len(0));
    }
}

/// The number of leading zero bits of a `u128`, from the two halves.
pub fn u128_lz(x: u128) -> (r: u32)
    ensures
        r as int == u128_leading_zeros(x),
{
    let hi = (x >> 64u32) as u64;
    let lo = x as u64;
    proof {
        assert(x >> 64u32 == x / 0x1_0000_0000_0000_0000) by (bit_vector);
        lemma_lz128_bit_len(x);
        lemma_lz64_bit_len(hi);
        lemma_lz64_bit_len(lo);
        if x >= 0x1_0000_0000_0000_0000 {
            lemma_bit_len_split(x as nat);
        }
    }
    if hi != 0 {
        hi.leading_zeros()
    } else {
        64 + lo.leading_zeros()
    }
}

proof fn lemma_u128_leading_zeros_bounds(i: u128)
    requires
        i > 0,
    ensures
        0 <= u128_leading_zeros(i) <= 127,
        pow2((127 - u128_leading_zeros(i)) as nat) <= i,
        i < pow2((128 - u128_leading_zeros(i)) as nat),
    decreases i,
{
    if i == 1 {
        assert(u128_leading_zeros(0) == 128);
        assert(u128_leading_zeros(1) == 127) by {
            assert(1u128 / 2 == 0);
        }
        lemma2_to64();
    } else {
        let h = (i / 2) as u128;
        lemma_u128_leading_zeros_bounds(h);
        let l = u128_leading_zeros(h);
        assert(u128_leading_zeros(i) == l - 1);
        assert(l >= 1) by {
            if l == 0 {
                lemma_pow2_adds(127, 1);
                lemma2_to64();
                assert(pow2(128) == pow2(127) * 2);
                assert(i >= 2 * h);
                assert(pow2(127) * 2 > u128::MAX) by {
                    lemma2_to64_rest();
                    assert(pow2(127) == 0x8000_0000_0000_0000_0000_0000_0000_0000) by {
                        lemma_pow2_adds(64, 63);
                    }
                }
            }
        }
        lemma_pow2_unfold((128 - l) as nat);
        lemma_pow2_unfold((129 - l) as nat);
    }
}

proof fn lemma_shl_one_u128(e: u128)
    requires
        e < 128,
    ensures
        (1u128 << e) == pow2(e as nat),
    decreases e,
{
    if e == 0 {
        assert(1u128 << 0u128 == 1) by (bit_vector);
        lemma2_to64();
    } else {
        lemma_shl_one_u128((e - 1) as u128);
        assert((1u128 << e) == (1u128 << ((e - 1) as u128)) * 2) by (bit_vector)
            requires
                0 < e < 128,
        ;
        lemma_pow2_unfold(e as nat);
    }
}

/// The square of an integer.
pub open spec fn square(z: int) -> int {
    z * z
}

/// `r` is the integer square root of `n`.
pub open spec fn is_isqrt(n: int, r: int) -> bool {
    0 <= r && r * r <= n && n < (r + 1) * (r + 1)
}

proof fn lemma_newton_step_stays_above(n: int, x: int, q: int, y: int, z: int)
    requires
        n >= 1,
        x >= 1,
        q == n / x,
        y == (x + q) / 2,
        z >= 0,
        z * z <= n,
    ensures
        z <= y,
{
    if z > y {
        assert(x + q <= 2 * z - 1);
        assert(n < (q + 1) * x) by (nonlinear_arith)
            requires
                x >= 1,
                q == n / x,
        ;
        assert(4 * ((q + 1) * x) <= (q + 1 + x) * (q + 1 + x)) by (nonlinear_arith);
        assert((q + 1 + x) * (q + 1 + x) <= (2 * z) * (2 * z)) by (nonlinear_arith)
            requires
                0 <= q + 1 + x <= 2 * z,
        ;
        assert((2 * z) * (2 * z) == 4 * (z * z)) by (nonlinear_arith);
        assert(false);
    }
}

/// Integer square root by Newton's iteration.
pub fn isqrt(n: u128) -> (r: u128)
    ensures
        is_isqrt(n as int, r as int),
{
    if n == 0 {
        return 0;
    }
    let lz = u128_lz(n);
    proof {
        lemma_u128_leading_zeros_bounds(n);
    }
    let bits = 128 - lz;
    let e = (bits + 1) / 2;
    let mut x = 1u128 << e;
    proof {
        lemma_shl_one_u128(e as u128);
        lemma_pow2_pos(e as nat);
        lemma_pow2_adds(e as nat, e as nat);
        if 2 * e > bits {
            lemma_pow2_strictly_increases(bits as nat, (2 * e) as nat);
        }
        assert(x * x == pow2((2 * e) as nat));
        assert(forall|z: int| 0 <= z && #[trigger] square(z) <= n ==> z <= x) by {
            assert forall|z: int| 0 <= z && #[trigger] square(z) <= n implies z <= x by {
                if z > x {
                    assert(z * z > x * x) by (nonlinear_arith)
                        requires
                            z > x,
                            x >= 1,
                    ;
                }
            }
        }
        lemma_pow2_strictly_increases(e as nat, 65);
        assert(pow2(65) == 0x2_0000_0000_0000_0000) by {
            lemma2_to64();
            lemma_pow2_adds(64, 1);
            lemma2_to64_rest();
        }
    }
    loop
        invariant
            n >= 1,
            1 <= x <= 0x2_0000_0000_0000_0000,
            forall|z: int| 0 <= z && #[trigger] square(z) <= n ==> z <= x,
        decreases x,
    {
        proof {
            assert((x + 1) * (x + 1) > n) by {
                if (x + 1) * (x + 1) <= n {
                    assert(square(x + 1) <= n);
                    assert(x + 1 <= x);
                }
            }
            assert(n / x <= x + 2) by (nonlinear_arith)
                requires
                    x >= 1,
                    (x + 1) * (x + 1) > n,
                    n >= 0,
            ;
        }
        let q = n / x;
        let sum = x + q;
        let y = sum >> 1;
        proof {
            assert(y == sum / 2) by (bit_vector)
                requires
                    y == sum >> 1,
            ;
            assert forall|z: int| 0 <= z && #[trigger] square(z) <= n implies z <= y by {
                lemma_newton_step_stays_above(n as int, x as int, q as int, y as int, z);
            }
        }
        if y >= x {
            proof {
                assert(q >= x);
                assert(q * x <= n) by (nonlinear_arith)
                    requires
                        x >= 1,
                        q == n / x,
                ;
                assert(x * x <= n) by (nonlinear_arith)
                    requires
                        q >= x,
                        x >= 1,
                        q * x <= n,
                ;
                if (x + 1) * (x + 1) <= n {
                    assert(square(x + 1) <= n);
                    assert(x + 1 <= x);
                }
            }
            return x;
        }
        proof {
            assert(y >= 1) by {
                assert(square(1) <= n);
            }
        }
        x = y;
    }
}

/// One squaring step of the mantissa: the squared mantissa in Q32, halved when it
/// reaches 2.
pub open spec fn mantissa_next(m: int) -> int {
    let sq = (m * m) / q32();
    if sq >= 2 * q32() {
        sq / 2
    } else {
        sq
    }
}

/// The result bit produced by one squaring step.
pub open spec fn mantissa_bit(m: int) -> int {
    if (m * m) / q32() >= 2 * q32() {
        1
    } else {
        0
    }
}

/// `k` more squaring steps from mantissa `m`, with the bits produced so far in `acc`.
pub open spec fn mantissa_bits(m: int, k: nat, acc: int) -> int
    decreases k,
{
    if k == 0 {
        acc
    } else {
        mantissa_bits(mantissa_next(m), (k - 1) as nat, 2 * acc + mantissa_bit(m))
    }
}

/// log2 of a Q32 mantissa in [1, 2) to 24 fractional bits, by successive squaring
/// (each square truncated to Q32).
pub open spec fn log2_mantissa_spec(m: int) -> int {
    mantissa_bits(m, 24, 0)
}

/// A Q32 mantissa in [1, 2).
pub open spec fn in_mantissa_range(m: int) -> bool {
    q32() <= m < 2 * q32()
}

proof fn lemma_mantissa_next_range(m: int)
    requires
        in_mantissa_range(m),
    ensures
        in_mantissa_range(mantissa_next(m)),
        mantissa_bit(m) == 0 || mantissa_bit(m) == 1,
{
    assert(q32() * q32() <= m * m < 4 * q32() * q32()) by (nonlinear_arith)
        requires
            q32() <= m < 2 * q32(),
    ;
    let sq = (m * m) / q32();
    assert(q32() <= sq < 4 * q32()) by (nonlinear_arith)
        requires
            q32() * q32() <= m * m < 4 * q32() * q32(),
            sq == (m * m) / q32(),
            q32() > 0,
    ;
}

/// The bits produced from `acc` stay within the interval that `acc` fixes.
pub proof fn lemma_mantissa_bits_range(m: int, k: nat, acc: int)
    requires
        in_mantissa_range(m),
        acc >= 0,
    ensures
        acc * pow2(k) <= mantissa_bits(m, k, acc) < (acc + 1) * pow2(k),
    decreases k,
{
    if k == 0 {
        lemma2_to64();
    } else {
        lemma_mantissa_next_range(m);
        let b = mantissa_bit(m);
        lemma_mantissa_bits_range(mantissa_next(m), (k - 1) as nat, 2 * acc + b);
        lemma_pow2_unfold(k);
        let p = pow2((k - 1) as nat);
        assert((2 * acc + b) * p >= acc * (2 * p)) by (nonlinear_arith)
            requires
                b >= 0,
                p >= 0,
        ;
        assert((2 * acc + b + 1) * p <= (acc + 1) * (2 * p)) by (nonlinear_arith)
            requires
                b <= 1,
                p >= 0,
        ;
    }
}

/// Successive squaring is monotone in the mantissa.
pub proof fn lemma_mantissa_bits_monotone(m1: int, m2: int, k: nat, acc: int)
    requires
        in_mantissa_range(m1),
        in_mantissa_range(m2),
        m1 <= m2,
        acc >= 0,
    ensures
        mantissa_bits(m1, k, acc) <= mantissa_bits(m2, k, acc),
    decreases k,
{
    if k > 0 {
        lemma_mantissa_next_range(m1);
        lemma_mantissa_next_range(m2);
        assert(m1 * m1 <= m2 * m2) by (nonlinear_arith)
            requires
                0 <= m1 <= m2,
        ;
        lemma_div_is_ordered(m1 * m1, m2 * m2, q32());
        let b1 = mantissa_bit(m1);
        let b2 = mantissa_bit(m2);
        if b1 == b2 {
            if b1 == 1 {
                lemma_div_is_ordered((m1 * m1) / q32(), (m2 * m2) / q32(), 2);
            }
            lemma_mantissa_bits_monotone(
                mantissa_next(m1),
                mantissa_next(m2),
                (k - 1) as nat,
                2 * acc + b1,
            );
        } else {
            lemma_mantissa_bits_range(mantissa_next(m1), (k - 1) as nat, 2 * acc);
            lemma_mantissa_bits_range(mantissa_next(m2), (k - 1) as nat, 2 * acc + 1);
        }
    }
}

/// log2 of a mantissa m in [1, 2) given in Q32, result in Q24.
///
/// Classic successive squaring: at each step m^2 either reaches 2 (then the
/// next result bit is one and m^2 is halved) or not. Q steps give Q fractional
/// bits. Integers only.
pub fn log2_mantissa(m: u64) -> (r: i64)
    requires
        in_mantissa_range(m as int),
    ensures
        r == log2_mantissa_spec(m as int),
        0 <= r < ONE,
{
    let mut m = m;
    let mut res: i64 = 0;
    let ghost m0 = m as int;
    proof {
        lemma2_to64();
    }
    for i in 0..Q
        invariant
            in_mantissa_range(m as int),
            0 <= res < pow2(i as nat),
            mantissa_bits(m0, 24, 0) == mantissa_bits(m as int, (24 - i) as nat, res as int),
            pow2(24) == ONE,
    {
        proof {
            lemma_mantissa_next_range(m as int);
            assert((m as u128) * (m as u128) < 0x4_0000_0000_0000_0000) by (nonlinear_arith)
                requires
                    m < 0x2_0000_0000,
            ;
            lemma_pow2_unfold((i + 1) as nat);
            if i + 1 < 24 {
                lemma_pow2_strictly_increases((i + 1) as nat, 24);
            }
            lemma2_to64();
        }
        let prod = (m as u128) * (m as u128);
        let sq = prod >> 32;
        proof {
            lemma_u128_shr_is_div(prod, 32);
            lemma2_to64_rest();
            assert(sq == (m * m) / q32());
        }
        let mut m2 = sq as u64;
        let r2 = res << 1;
        proof {
            assert(r2 == res * 2) by (bit_vector)
                requires
                    0 <= res < 0x100_0000,
                    r2 == res << 1,
            ;
        }
        res = r2;
        if m2 >= 1u64 << 33 {
            proof {
                assert(1u64 << 33 == 0x2_0000_0000) by (bit_vector);
            }
            let h = m2 >> 1;
            proof {
                assert(h == m2 / 2) by (bit_vector)
                    requires
                        h == m2 >> 1,
                ;
            }
            m2 = h;
            let r3 = res | 1;
            proof {
                assert(r3 == res + 1) by (bit_vector)
                    requires
                        0 <= res < 0x200_0000,
                        res % 2 == 0,
                        r3 == res | 1,
                ;
            }
            res = r3;
        } else {
            proof {
                assert(1u64 << 33 == 0x2_0000_0000) by (bit_vector);
            }
        }
        m = m2;
    }
    proof {
        assert(mantissa_bits(m as int, 0, res as int) == res);
    }
    res
}

/// 2^(-2^-i) in Q32 for i = 1..=12, rounded down: the square-root chain
/// s[1] = sqrt(1/2), s[i + 1] = sqrt(s[i]), each root taken as an integer square
/// root in Q32.
pub open spec fn root_const(i: int) -> int {
    if i == 1 {
        3037000499
    } else if i == 2 {
        3611622602
    } else if i == 3 {
        3938502375
    } else if i == 4 {
        4112874772
    } else if i == 5 {
        4202935002
    } else if i == 6 {
        4248701964
    } else if i == 7 {
        4271771996
    } else if i == 8 {
        4283353945
    } else if i == 9 {
        4289156689
    } else if i == 10 {
        4292061009
    } else if i == 11 {
        4293513906
    } else if i == 12 {
        4294240539
    } else {
        0
    }
}

/// The square-root chain as computed: s[0] = 1/2 in Q32, s[i] = isqrt(s[i - 1] * 2^32).
pub open spec fn root_chain_ok(i: int) -> bool {
    is_isqrt(
        (if i == 1 {
            0x8000_0000
        } else {
            root_const(i - 1)
        }) * q32(),
        root_const(i),
    )
}

/// Product of the roots selected by the low `i` bits of `u` (bit i - 1 selects
/// s[i], the lowest bit s[i]...): the value 2^(-u / 2^i) in Q32, each
/// multiplication truncated to Q32.
pub open spec fn exp_table_value(u: int, i: nat) -> int
    decreases i,
{
    if i == 0 {
        q32()
    } else if u % 2 == 1 {
        exp_table_value(u / 2, (i - 1) as nat) * root_const(i as int) / q32()
    } else {
        exp_table_value(u / 2, (i - 1) as nat)
    }
}

/// Entry j of the exponent table: 2^(-j / 2^12) in Q32, with the last entry 1/2.
pub open spec fn exp2neg_entry(j: int) -> int {
    if j == TN as int {
        0x8000_0000
    } else {
        exp_table_value(j, 12)
    }
}

/// Entry j of the logarithm table: log2(1 + j / 2^12) in Q24, with the last entry one.
pub open spec fn log1p_entry(j: int) -> int {
    if j == TN as int {
        ONE as int
    } else {
        log2_mantissa_spec(q32() + j * 0x10_0000)
    }
}

/// The value reached when every bit below position i is set: the smallest
/// value of level i.
spec fn ones_value(i: int) -> int {
    if i == 0 {
        0x1_0000_0000
    } else if i == 1 {
        3037000499
    } else if i == 2 {
        2553802832
    } else if i == 3 {
        2341847521
    } else if i == 4 {
        2242560868
    } else if i == 5 {
        2194507412
    } else if i == 6 {
        2170868206
    } else if i == 7 {
        2159144265
    } else if i == 8 {
        2153306059
    } else if i == 9 {
        2150392878
    } else if i == 10 {
        2148937765
    } else if i == 11 {
        2148210577
    } else {
        2147847075
    }
}

/// A bound on the ratio between consecutive values of level i.
spec fn ratio_bound(i: int) -> int {
    root_const(i) + 8 * i
}

proof fn lemma_root_constants(i: int)
    requires
        1 <= i <= 12,
    ensures
        root_chain_ok(i),
        0 < root_const(i) <= ratio_bound(i) < q32(),
        ones_value(i) == ones_value(i - 1) * root_const(i) / q32(),
        0x8000_0000 <= ones_value(i) <= ones_value(i - 1) <= q32(),
        i >= 2 ==> ratio_bound(i - 1) * q32() <= root_const(i) * ratio_bound(i) - 2 * ratio_bound(i),
{
    if i == 1 {
        assert(root_const(1) == 3037000499);
        assert(3037000499 * 3037000499 <= 2147483648 * 0x1_0000_0000);
        assert(2147483648 * 0x1_0000_0000 < 3037000500 * 3037000500);
    } else if i == 2 {
        assert(root_const(2) == 3611622602);
        assert(3611622602 * 3611622602 <= 3037000499 * 0x1_0000_0000);
        assert(3037000499 * 0x1_0000_0000 < 3611622603 * 3611622603);
        assert(3037000507 * 0x1_0000_0000 <= 3611622602 * 3611622618 - 2 * 3611622618);
    } else if i == 3 {
        assert(root_const(3) == 3938502375);
        assert(3938502375 * 3938502375 <= 3611622602 * 0x1_0000_0000);
        assert(3611622602 * 0x1_0000_0000 < 3938502376 * 3938502376);
        assert(3611622618 * 0x1_0000_0000 <= 3938502375 * 3938502399 - 2 * 3938502399);
    } else if i == 4 {
        assert(root_const(4) == 4112874772);
        assert(4112874772 * 4112874772 <= 3938502375 * 0x1_0000_0000);
        assert(3938502375 * 0x1_0000_0000 < 4112874773 * 4112874773);
        assert(3938502399 * 0x1_0000_0000 <= 4112874772 * 4112874804 - 2 * 4112874804);
    } else if i == 5 {
        assert(root_const(5) == 4202935002);
        assert(4202935002 * 4202935002 <= 4112874772 * 0x1_0000_0000);
        assert(4112874772 * 0x1_0000_0000 < 4202935003 * 4202935003);
        assert(4112874804 * 0x1_0000_0000 <= 4202935002 * 4202935042 - 2 * 4202935042);
    } else if i == 6 {
        assert(root_const(6) == 4248701964);
        assert(4248701964 * 4248701964 <= 4202935002 * 0x1_0000_0000);
        assert(4202935002 * 0x1_0000_0000 < 4248701965 * 4248701965);
        assert(4202935042 * 0x1_0000_0000 <= 4248701964 * 4248702012 - 2 * 4248702012);
    } else if i == 7 {
        assert(root_const(7) == 4271771996);
        assert(4271771996 * 4271771996 <= 4248701964 * 0x1_0000_0000);
        assert(4248701964 * 0x1_0000_0000 < 4271771997 * 4271771997);
        assert(4248702012 * 0x1_0000_0000 <= 4271771996 * 4271772052 - 2 * 4271772052);
    } else if i == 8 {
        assert(root_const(8) == 4283353945);
        assert(4283353945 * 4283353945 <= 4271771996 * 0x1_0000_0000);
        assert(4271771996 * 0x1_0000_0000 < 4283353946 * 4283353946);
        assert(4271772052 * 0x1_0000_0000 <= 4283353945 * 4283354009 - 2 * 4283354009);
    } else if i == 9 {
        assert(root_const(9) == 4289156689);
        assert(4289156689 * 4289156689 <= 4283353945 * 0x1_0000_0000);
        assert(4283353945 * 0x1_0000_0000 < 4289156690 * 4289156690);
        assert(4283354009 * 0x1_0000_0000 <= 4289156689 * 4289156761 - 2 * 4289156761);
    } else if i == 10 {
        assert(root_const(10) == 4292061009);
        assert(4292061009 * 4292061009 <= 4289156689 * 0x1_0000_0000);
        assert(4289156689 * 0x1_0000_0000 < 4292061010 * 4292061010);
        assert(4289156761 * 0x1_0000_0000 <= 4292061009 * 4292061089 - 2 * 4292061089);
    } else if i == 11 {
        assert(root_const(11) == 4293513906);
        assert(4293513906 * 4293513906 <= 4292061009 * 0x1_0000_0000);
        assert(4292061009 * 0x1_0000_0000 < 4293513907 * 4293513907);
        assert(4292061089 * 0x1_0000_0000 <= 4293513906 * 4293513994 - 2 * 4293513994);
    } else {
        assert(root_const(12) == 4294240539);
        assert(4294240539 * 4294240539 <= 4293513906 * 0x1_0000_0000);
        assert(4293513906 * 0x1_0000_0000 < 4294240540 * 4294240540);
        assert(4293513994 * 0x1_0000_0000 <= 4294240539 * 4294240635 - 2 * 4294240635);
    }
}

proof fn lemma_exp_level(i: nat)
    requires
        i <= 12,
    ensures
        forall|u: int|
            0 <= u < pow2(i) - 1 ==> #[trigger] exp_table_value(u + 1, i) * q32()
                <= exp_table_value(u, i) * ratio_bound(i as int),
        forall|u: int|
            0 <= u < pow2(i) ==> ones_value(i as int) <= #[trigger] exp_table_value(u, i) <= q32(),
    decreases i,
{
    if i == 0 {
        lemma2_to64();
    } else {
        lemma_exp_level((i - 1) as nat);
        lemma_root_constants(i as int);
        lemma2_to64();
        lemma_pow2_unfold(i);
        let b = q32();
        let s = root_const(i as int);
        let c = ratio_bound(i as int);
        assert forall|u: int| 0 <= u < pow2(i) implies ones_value(i as int)
            <= #[trigger] exp_table_value(u, i) <= q32() by {
            let w = u / 2;
            let a = exp_table_value(w, (i - 1) as nat);
            assert(0 <= w < pow2((i - 1) as nat));
            assert(ones_value(i - 1) <= a <= b);
            if u % 2 == 1 {
                lemma_div_is_ordered(ones_value(i - 1) * s, a * s, b);
                assert(ones_value(i - 1) * s <= a * s) by (nonlinear_arith)
                    requires
                        ones_value(i - 1) <= a,
                        s >= 0,
                ;
                lemma_div_is_ordered(ones_value(i - 1) * s, a * s, b);
                assert(a * s / b <= a) by (nonlinear_arith)
                    requires
                        0 <= a,
                        0 <= s < b,
                ;
            }
        }
        assert forall|u: int| 0 <= u < pow2(i) - 1 implies #[trigger] exp_table_value(u + 1, i) * q32()
            <= exp_table_value(u, i) * ratio_bound(i as int) by {
            let w = u / 2;
            let a = exp_table_value(w, (i - 1) as nat);
            assert(0 <= w < pow2((i - 1) as nat));
            assert(ones_value(i - 1) <= a <= b);
            if u % 2 == 0 {
                assert((u + 1) / 2 == w);
                let f = a * s / b;
                assert(exp_table_value(u + 1, i) == f);
                assert(f * b <= a * c) by (nonlinear_arith)
                    requires
                        f == a * s / b,
                        b > 0,
                        0 <= s <= c,
                        a >= 0,
                ;
            } else {
                assert((u + 1) / 2 == w + 1);
                assert(0 <= w < pow2((i - 1) as nat) - 1);
                assert(i >= 2);
                let g = exp_table_value(w + 1, (i - 1) as nat);
                let c1 = ratio_bound(i - 1);
                assert(g * b <= a * c1);
                let f = a * s / b;
                assert(exp_table_value(u, i) == f);
                assert(g * b <= f * c) by (nonlinear_arith)
                    requires
                        f == a * s / b,
                        b == 0x1_0000_0000,
                        g * b <= a * c1,
                        c1 * b <= s * c - 2 * c,
                        2 * a >= b,
                        a >= 0,
                        c > 0,
                        s > 0,
                ;
            }
        }
    }
}

proof fn lemma_exp_bounds()
    ensures
        forall|u: int, i: nat|
            i <= 12 && 0 <= u < pow2(i) ==> #[trigger] exp_table_value(u, i) <= q32(),
{
    assert forall|u: int, i: nat| i <= 12 && 0 <= u < pow2(i) implies #[trigger] exp_table_value(
        u,
        i,
    ) <= q32() by {
        lemma_exp_level(i);
    }
}

/// The exponent table is nonincreasing, from 1 down to 1/2.
pub proof fn lemma_exp2neg_entries()
    ensures
        forall|j: int| 0 <= j < TN ==> #[trigger] exp2neg_entry(j) >= exp2neg_entry(j + 1),
        forall|j: int| 0 <= j <= TN ==> 0x8000_0000 <= #[trigger] exp2neg_entry(j) <= q32(),
        exp2neg_entry(0) == q32(),
{
    lemma_exp_level(12);
    lemma_root_constants(12);
    lemma2_to64();
    assert forall|j: int| 0 <= j < TN implies #[trigger] exp2neg_entry(j) >= exp2neg_entry(j + 1) by {
        if j + 1 < TN {
            assert(exp_table_value(j + 1, 12) * q32() <= exp_table_value(j, 12) * ratio_bound(12));
            assert(exp_table_value(j + 1, 12) <= exp_table_value(j, 12)) by (nonlinear_arith)
                requires
                    exp_table_value(j + 1, 12) * q32() <= exp_table_value(j, 12) * ratio_bound(12),
                    ratio_bound(12) < q32(),
                    exp_table_value(j, 12) >= 0,
            ;
        }
    }
    assert(exp_table_value(0, 12) == q32()) by {
        reveal_with_fuel(exp_table_value, 13);
    }
}

/// The logarithm table is nondecreasing, from 0 up to one.
pub proof fn lemma_log1p_entries()
    ensures
        forall|j: int| 0 <= j < TN ==> #[trigger] log1p_entry(j) <= log1p_entry(j + 1),
        forall|j: int| 0 <= j <= TN ==> 0 <= #[trigger] log1p_entry(j) <= ONE,
        forall|j: int| 0 <= j < TN ==> #[trigger] log1p_entry(j) < ONE,
        log1p_entry(0) == 0,
{
    assert forall|j: int| 0 <= j <= TN implies 0 <= #[trigger] log1p_entry(j) <= ONE && (j < TN
        ==> log1p_entry(j) < ONE) by {
        if j < TN {
            lemma_mantissa_bits_range(q32() + j * 0x10_0000, 24, 0);
            lemma2_to64();
        }
    }
    assert forall|j: int| 0 <= j < TN implies #[trigger] log1p_entry(j) <= log1p_entry(j + 1) by {
        if j + 1 < TN {
            lemma_mantissa_bits_monotone(q32() + j * 0x10_0000, q32() + (j + 1) * 0x10_0000, 24, 0);
        }
    }
    assert(log2_mantissa_spec(q32()) == 0) by {
        lemma_mantissa_zero(24);
    }
}

proof fn lemma_mantissa_zero(k: nat)
    ensures
        mantissa_bits(q32(), k, 0) == 0,
    decreases k,
{
    if k > 0 {
        assert(q32() * q32() / q32() == q32()) by (nonlinear_arith);
        assert(mantissa_next(q32()) == q32());
        assert(mantissa_bit(q32()) == 0);
        lemma_mantissa_zero((k - 1) as nat);
    }
}

/// log2(1 + x / 2^32) in Q24 for x in [0, 2^32): linear interpolation between
/// the two surrounding entries of the logarithm table.
pub open spec fn log2_1p_value(x: int) -> int {
    let idx = x / 0x10_0000;
    let frac = x % 0x10_0000;
    let a = log1p_entry(idx);
    let b = log1p_entry(idx + 1);
    a + ((b - a) * frac) / 0x10_0000
}

/// 2^(-phi / 2^24) in Q32 for phi in [0, 2^24): linear interpolation between
/// the two surrounding entries of the exponent table.
pub open spec fn exp2_neg_value(phi: int) -> int {
    let idx = phi / 0x1000;
    let frac = phi % 0x1000;
    let a = exp2neg_entry(idx);
    let b = exp2neg_entry(idx + 1);
    a - ((a - b) * frac) / 0x1000
}

/// Floor of log2 v, for v >= 1.
pub open spec fn log2_floor(v: int) -> int
    decreases v,
{
    if v <= 1 {
        0
    } else {
        1 + log2_floor(v / 2)
    }
}

/// v scaled by a power of two into the Q32 mantissa range [2^32, 2^33).
pub open spec fn scaled_mantissa(v: int) -> int {
    let k = log2_floor(v);
    if k <= 32 {
        v * (pow2((32 - k) as nat) as int)
    } else {
        v / (pow2((k - 32) as nat) as int)
    }
}

/// log2 v in Q24 for an integer v >= 1: the integer part from the position of the
/// top bit, the fraction from the logarithm table.
pub open spec fn log2_int_value(v: int) -> int {
    log2_floor(v) * ONE + log2_1p_value(scaled_mantissa(v) - q32())
}

/// The larger of y and 0.
pub open spec fn pos_part(y: int) -> int {
    if y > 0 {
        y
    } else {
        0
    }
}

/// log2(1 + 2^y) in Q24 for y in Q24: max(y, 0) + log2(1 + 2^-|y|), the second
/// term read through 2^-|y| = 2^-k 2^-phi with k the integer part of |y| and phi
/// its fraction.
pub open spec fn log2_1p_exp2_value(y: int) -> int {
    let base = pos_part(y);
    let d = if y < 0 {
        -y
    } else {
        y
    };
    if d >= SATURATE {
        base
    } else {
        let k = d / ONE as int;
        let phi = d % ONE as int;
        let e = exp2_neg_value(phi);
        if k == 0 && e >= q32() {
            base + ONE
        } else {
            base + log2_1p_value(e / (pow2(k as nat) as int))
        }
    }
}

/// The interpolated logarithm lies in [0, 1) and between its two table entries.
pub proof fn lemma_log2_1p_value(x: int)
    requires
        0 <= x < q32(),
    ensures
        log1p_entry(x / 0x10_0000) <= log2_1p_value(x) <= log1p_entry(x / 0x10_0000 + 1),
        0 <= log2_1p_value(x) < ONE,
{
    lemma_log1p_entries();
    let idx = x / 0x10_0000;
    let frac = x % 0x10_0000;
    let a = log1p_entry(idx);
    let b = log1p_entry(idx + 1);
    assert(0 <= idx < TN);
    assert(a <= b);
    assert(0 <= (b - a) * frac) by (nonlinear_arith)
        requires
            a <= b,
            frac >= 0,
    ;
    assert((b - a) * frac <= (b - a) * 0x10_0000) by (nonlinear_arith)
        requires
            a <= b,
            frac <= 0x10_0000,
    ;
    lemma_div_is_ordered((b - a) * frac, (b - a) * 0x10_0000, 0x10_0000);
    lemma_div_pos_is_pos((b - a) * frac, 0x10_0000);
    if a < b {
        assert((b - a) * frac < (b - a) * 0x10_0000) by (nonlinear_arith)
            requires
                a < b,
                frac < 0x10_0000,
        ;
        assert(((b - a) * frac) / 0x10_0000 < b - a) by (nonlinear_arith)
            requires
                (b - a) * frac < (b - a) * 0x10_0000,
                (b - a) * frac >= 0,
        ;
    }
}

/// The interpolated logarithm is nondecreasing.
pub proof fn lemma_log2_1p_value_monotone(x1: int, x2: int)
    requires
        0 <= x1 <= x2 < q32(),
    ensures
        log2_1p_value(x1) <= log2_1p_value(x2),
{
    lemma_log1p_entries();
    lemma_log2_1p_value(x1);
    lemma_log2_1p_value(x2);
    let i1 = x1 / 0x10_0000;
    let i2 = x2 / 0x10_0000;
    lemma_div_is_ordered(x1, x2, 0x10_0000);
    if i1 == i2 {
        let a = log1p_entry(i1);
        let b = log1p_entry(i1 + 1);
        assert(x1 % 0x10_0000 <= x2 % 0x10_0000);
        assert((b - a) * (x1 % 0x10_0000) <= (b - a) * (x2 % 0x10_0000)) by (nonlinear_arith)
            requires
                a <= b,
                x1 % 0x10_0000 <= x2 % 0x10_0000,
        ;
        lemma_div_is_ordered((b - a) * (x1 % 0x10_0000), (b - a) * (x2 % 0x10_0000), 0x10_0000);
    } else {
        lemma_log1p_chain(i1 + 1, i2);
    }
}

proof fn lemma_log1p_chain(i: int, j: int)
    requires
        0 <= i <= j <= TN,
    ensures
        log1p_entry(i) <= log1p_entry(j),
    decreases j - i,
{
    lemma_log1p_entries();
    if i < j {
        lemma_log1p_chain(i + 1, j);
    }
}

proof fn lemma_exp2neg_chain(i: int, j: int)
    requires
        0 <= i <= j <= TN,
    ensures
        exp2neg_entry(i) >= exp2neg_entry(j),
    decreases j - i,
{
    lemma_exp2neg_entries();
    if i < j {
        lemma_exp2neg_chain(i + 1, j);
    }
}

/// The interpolated exponent lies in [1/2, 1] and between its two table entries.
pub proof fn lemma_exp2_neg_value(phi: int)
    requires
        0 <= phi < ONE,
    ensures
        exp2neg_entry(phi / 0x1000 + 1) <= exp2_neg_value(phi) <= exp2neg_entry(phi / 0x1000),
        0x8000_0000 <= exp2_neg_value(phi) <= q32(),
        0x8000_0000 <= exp2neg_entry(phi / 0x1000 + 1) <= exp2neg_entry(phi / 0x1000) <= q32(),
{
    lemma_exp2neg_entries();
    let idx = phi / 0x1000;
    let frac = phi % 0x1000;
    let a = exp2neg_entry(idx);
    let b = exp2neg_entry(idx + 1);
    assert(0 <= idx < TN);
    assert(b <= a);
    assert(0 <= (a - b) * frac <= (a - b) * 0x1000) by (nonlinear_arith)
        requires
            b <= a,
            0 <= frac <= 0x1000,
    ;
    lemma_div_is_ordered((a - b) * frac, (a - b) * 0x1000, 0x1000);
    lemma_div_pos_is_pos((a - b) * frac, 0x1000);
}

/// The interpolated exponent is nonincreasing.
pub proof fn lemma_exp2_neg_value_monotone(p1: int, p2: int)
    requires
        0 <= p1 <= p2 < ONE,
    ensures
        exp2_neg_value(p1) >= exp2_neg_value(p2),
{
    lemma_exp2_neg_value(p1);
    lemma_exp2_neg_value(p2);
    let i1 = p1 / 0x1000;
    let i2 = p2 / 0x1000;
    lemma_div_is_ordered(p1, p2, 0x1000);
    lemma_exp2neg_entries();
    if i1 == i2 {
        let a = exp2neg_entry(i1);
        let b = exp2neg_entry(i1 + 1);
        assert((a - b) * (p1 % 0x1000) <= (a - b) * (p2 % 0x1000)) by (nonlinear_arith)
            requires
                b <= a,
                p1 % 0x1000 <= p2 % 0x1000,
        ;
        lemma_div_is_ordered((a - b) * (p1 % 0x1000), (a - b) * (p2 % 0x1000), 0x1000);
    } else {
        lemma_exp2neg_chain(i1 + 1, i2);
    }
}

/// The floor of log2 brackets v between consecutive powers of two.
pub proof fn lemma_log2_floor(v: int)
    requires
        v >= 1,
    ensures
        0 <= log2_floor(v),
        pow2(log2_floor(v) as nat) <= v < pow2((log2_floor(v) + 1) as nat),
    decreases v,
{
    if v == 1 {
        lemma2_to64();
    } else {
        lemma_log2_floor(v / 2);
        let k = log2_floor(v / 2);
        lemma_pow2_unfold((k + 1) as nat);
        lemma_pow2_unfold((k + 2) as nat);
    }
}

/// `63 - leading_zeros` of a nonzero u64 is the floor of its log2.
proof fn lemma_u64_top_bit(v: u64)
    requires
        v >= 1,
    ensures
        63 - u64_leading_zeros(v) == log2_floor(v as int),
    decreases v,
{
    reveal(u64_leading_zeros);
    if v == 1 {
        assert(u64_leading_zeros(0) == 64);
        assert(1u64 / 2 == 0);
    } else {
        lemma_u64_top_bit((v / 2) as u64);
    }
}

/// log2 of a power of two, and of values between powers of two.
pub proof fn lemma_log2_floor_unique(v: int, k: nat)
    requires
        pow2(k) <= v < pow2(k + 1),
    ensures
        log2_floor(v) == k,
{
    lemma_pow2_pos(k);
    lemma_log2_floor(v);
    let j = log2_floor(v);
    if j < k {
        lemma_pow2_increases((j + 1) as nat, k);
    } else if j > k {
        lemma_pow2_increases(k + 1, j as nat);
    }
}

proof fn lemma_pow2_increases(a: nat, b: nat)
    requires
        a <= b,
    ensures
        pow2(a) <= pow2(b),
{
    if a < b {
        lemma_pow2_strictly_increases(a, b);
    }
}

/// The scaled mantissa lies in [2^32, 2^33).
pub proof fn lemma_scaled_mantissa(v: int)
    requires
        1 <= v,
    ensures
        in_mantissa_range(scaled_mantissa(v)),
{
    lemma_log2_floor(v);
    let k = log2_floor(v);
    lemma2_to64();
    lemma2_to64_rest();
    if k <= 32 {
        let p = pow2((32 - k) as nat);
        lemma_pow2_adds(k as nat, (32 - k) as nat);
        lemma_pow2_adds((k + 1) as nat, (32 - k) as nat);
        assert(pow2(k as nat) * p == q32());
        assert(pow2((k + 1) as nat) * p == 2 * q32());
        lemma_pow2_pos((32 - k) as nat);
        assert(pow2(k as nat) * p <= v * p < pow2((k + 1) as nat) * p) by (nonlinear_arith)
            requires
                pow2(k as nat) <= v < pow2((k + 1) as nat),
                p > 0,
        ;
        assert(scaled_mantissa(v) == v * p);
    } else {
        let p = pow2((k - 32) as nat);
        lemma_pow2_pos((k - 32) as nat);
        lemma_pow2_adds(32, (k - 32) as nat);
        lemma_pow2_adds(33, (k - 32) as nat);
        assert(pow2(k as nat) == q32() * p);
        assert(pow2((k + 1) as nat) == (2 * q32()) * p);
        lemma_div_is_ordered(pow2(k as nat) as int, v, p as int);
        lemma_div_by_multiple(q32(), p as int);
        assert(v < p * (2 * q32())) by (nonlinear_arith)
            requires
                v < (2 * q32()) * p,
        ;
        lemma_div_strictly_bounded_helper(v, p as int, 2 * q32());
        assert(scaled_mantissa(v) == v / (p as int));
    }
}

/// The logarithm of an integer lies in [k, k + 1) for k the floor of its log2.
pub proof fn lemma_log2_int_value(v: int)
    requires
        v >= 1,
    ensures
        log2_floor(v) * ONE <= log2_int_value(v) < (log2_floor(v) + 1) * ONE,
{
    lemma_scaled_mantissa(v);
    lemma_log2_1p_value(scaled_mantissa(v) - q32());
}

/// The integer logarithm is exact on powers of two.
pub proof fn lemma_log2_int_pow2(k: nat)
    ensures
        log2_int_value(pow2(k) as int) == k * ONE,
{
    lemma_pow2_pos(k);
    lemma_pow2_unfold(k + 1);
    lemma_log2_floor_unique(pow2(k) as int, k);
    lemma_log1p_entries();
    lemma2_to64();
    if k <= 32 {
        lemma_pow2_adds(k, (32 - k) as nat);
    } else {
        lemma_pow2_adds(32, (k - 32) as nat);
        lemma_div_by_multiple(q32(), pow2((k - 32) as nat) as int);
    }
    assert(scaled_mantissa(pow2(k) as int) == q32());
}

/// The integer logarithm is nondecreasing.
pub proof fn lemma_log2_int_monotone(v1: int, v2: int)
    requires
        1 <= v1 <= v2,
    ensures
        log2_int_value(v1) <= log2_int_value(v2),
{
    lemma_log2_int_value(v1);
    lemma_log2_int_value(v2);
    lemma_log2_floor(v1);
    lemma_log2_floor(v2);
    let k1 = log2_floor(v1);
    let k2 = log2_floor(v2);
    if k1 > k2 {
        lemma_pow2_increases((k2 + 1) as nat, k1 as nat);
    } else if k1 == k2 {
        lemma_scaled_mantissa(v1);
        lemma_scaled_mantissa(v2);
        if k1 <= 32 {
            let p = pow2((32 - k1) as nat);
            assert(v1 * p <= v2 * p) by (nonlinear_arith)
                requires
                    v1 <= v2,
                    p >= 0,
            ;
        } else {
            lemma_pow2_pos((k1 - 32) as nat);
            lemma_div_is_ordered(v1, v2, pow2((k1 - 32) as nat) as int);
        }
        lemma_log2_1p_value_monotone(scaled_mantissa(v1) - q32(), scaled_mantissa(v2) - q32());
    } else {
        assert((k1 + 1) * ONE <= k2 * ONE) by (nonlinear_arith)
            requires
                k1 < k2,
        ;
    }
}

/// log2(1 + 2^y) lies between max(y, 0) and max(y, 0) + 1.
pub proof fn lemma_log2_1p_exp2_bounds(y: int)
    ensures
        pos_part(y) <= log2_1p_exp2_value(y) <= pos_part(y) + ONE,
{
    let d = if y < 0 {
        -y
    } else {
        y
    };
    if d < SATURATE {
        let k = d / ONE as int;
        let phi = d % ONE as int;
        lemma_exp2_neg_value(phi);
        let e = exp2_neg_value(phi);
        if !(k == 0 && e >= q32()) {
            lemma_pow2_pos(k as nat);
            lemma_div_pos_is_pos(e, pow2(k as nat) as int);
            if k == 0 {
                lemma2_to64();
            } else {
                lemma_pow2_unfold(k as nat);
                lemma_div_is_ordered_by_denominator(e, 2, pow2(k as nat) as int);
            }
            lemma_log2_1p_value(e / (pow2(k as nat) as int));
        }
    }
}

/// log2(1 + 2^y) - log2(1 + 2^-y) == y holds exactly, rounding included.
pub proof fn lemma_log2_1p_exp2_symmetric(y: int)
    ensures
        log2_1p_exp2_value(y) - log2_1p_exp2_value(-y) == y,
{
}

/// Doubling adds exactly one to the integer logarithm: log2(2v) = log2(v) + 1,
/// rounding included.
pub proof fn lemma_log2_int_double(v: int)
    requires
        v >= 1,
    ensures
        log2_int_value(2 * v) == log2_int_value(v) + ONE,
{
    lemma_log2_floor(v);
    let k = log2_floor(v);
    let kn = k as nat;
    lemma_pow2_unfold(kn + 1);
    lemma_pow2_unfold(kn + 2);
    lemma_log2_floor_unique(2 * v, kn + 1);
    assert(log2_floor(2 * v) == k + 1);
    if k + 1 <= 32 {
        lemma_pow2_unfold((32 - k) as nat);
        let p = pow2((31 - k) as nat) as int;
        assert(pow2((32 - k) as nat) == 2 * p);
        assert((2 * v) * p == v * (2 * p)) by (nonlinear_arith);
        assert(scaled_mantissa(2 * v) == (2 * v) * p);
        assert(scaled_mantissa(v) == v * (2 * p));
    } else if k == 32 {
        lemma2_to64();
        assert(pow2(1) == 2);
        assert(scaled_mantissa(2 * v) == (2 * v) / 2);
        assert(scaled_mantissa(v) == v * 1);
    } else {
        lemma_pow2_unfold((k + 1 - 32) as nat);
        let p = pow2((k - 32) as nat) as int;
        lemma_pow2_pos((k - 32) as nat);
        assert(pow2((k + 1 - 32) as nat) == 2 * p);
        vstd::arithmetic::div_mod::lemma_div_denominator(2 * v, 2, p);
        assert((2 * v) / 2 == v);
        assert(scaled_mantissa(2 * v) == (2 * v) / (2 * p));
        assert(scaled_mantissa(v) == v / p);
    }
    assert(scaled_mantissa(2 * v) == scaled_mantissa(v));
}

/// Logarithm and exponent tables, built once, with integers only.
pub struct Tables {
    /// log2(1 + j / 2^TB) in Q24, j = 0..=TN.
    log1p: Vec<i64>,
    /// 2^(-j / 2^TB) in Q32, j = 0..=TN. Decreases from 2^32 to 2^31.
    exp2neg: Vec<u64>,
}

impl Tables {
    /// Both tables hold exactly their entries.
    pub closed spec fn wf(&self) -> bool {
        &&& self.log1p@.len() == TN + 1
        &&& self.exp2neg@.len() == TN + 1
        &&& forall|j: int| 0 <= j <= TN ==> #[trigger] self.log1p@[j] == log1p_entry(j)
        &&& forall|j: int| 0 <= j <= TN ==> #[trigger] self.exp2neg@[j] == exp2neg_entry(j)
    }

    /// Builds both tables.
    pub fn new() -> (t: Tables)
        ensures
            t.wf(),
    {
        let mut log1p: Vec<i64> = Vec::with_capacity(TN + 1);
        for j in 0..TN + 1
            invariant
                log1p@.len() == j,
                forall|i: int| 0 <= i < j ==> #[trigger] log1p@[i] == log1p_entry(i),
        {
            proof {
                lemma2_to64();
                lemma_u64_shl_is_mul(j as u64, 20);
                lemma_u64_shl_is_mul(1, 32);
            }
            let m = (1u64 << 32) + ((j as u64) << (32 - TB));
            log1p.push(if j == TN { ONE } else { log2_mantissa(m) });
        }

        // Constants s[i] = 2^(-2^-i) in Q32, i = 1..=TB, by repeated roots:
        // s[1] = sqrt(2^-1), s[i + 1] = sqrt(s[i]).
        let mut s = vec![0u64; TB as usize + 1];
        let mut cur = 1u64 << 31;
        proof {
            assert(1u64 << 31 == 0x8000_0000) by (bit_vector);
        }
        for i in 1..TB as usize + 1
            invariant
                s@.len() == 13,
                i == 1 ==> cur == 0x8000_0000,
                i > 1 ==> cur == root_const(i - 1),
                forall|k: int| 1 <= k < i ==> #[trigger] s@[k] == root_const(k),
        {
            proof {
                lemma_root_constants(i as int);
                assert(cur < 0x1_0000_0000);
                assert(((cur as u128) << 32u128) == (cur as u128) * 0x1_0000_0000) by (bit_vector)
                    requires
                        cur < 0x1_0000_0000,
                ;
            }
            let r = isqrt((cur as u128) << 32);
            proof {
                let n = cur as int * q32();
                let c = root_const(i as int);
                assert(is_isqrt(n, c));
                lemma_isqrt_unique(n, r as int, c);
            }
            cur = r as u64;
            s.set(i, cur);
        }

        let mut exp2neg: Vec<u64> = Vec::with_capacity(TN + 1);
        proof {
            lemma_exp_bounds();
            lemma2_to64();
        }
        for j in 0..TN + 1
            invariant
                exp2neg@.len() == j,
                s@.len() == 13,
                forall|k: int| 1 <= k < 13 ==> #[trigger] s@[k] == root_const(k),
                forall|i: int| 0 <= i < j ==> #[trigger] exp2neg@[i] == exp2neg_entry(i),
                forall|u: int, i: nat|
                    i <= 12 && 0 <= u < pow2(i) ==> #[trigger] exp_table_value(u, i) <= q32(),
                pow2(12) == 4096,
        {
            if j == TN {
                // phi = 1 does not decompose into TB bits: set it explicitly to 1/2.
                // Without this entry the table loses monotonicity on the last
                // interval, and the subtraction a - b in exp2_neg overflows.
                exp2neg.push(1u64 << 31);
                proof {
                    assert(1u64 << 31 == 0x8000_0000) by (bit_vector);
                }
            } else {
                // phi = j / 2^TB = sum of b_i 2^-i, so 2^-phi = product of s[i]^b_i.
                let mut acc: u128 = 1u128 << 32;
                proof {
                    assert(1u128 << 32u128 == 0x1_0000_0000) by (bit_vector);
                }
                for i in 1..TB as usize + 1
                    invariant
                        j < 4096,
                        s@.len() == 13,
                        forall|k: int| 1 <= k < 13 ==> #[trigger] s@[k] == root_const(k),
                        forall|u: int, i: nat|
                            i <= 12 && 0 <= u < pow2(i) ==> #[trigger] exp_table_value(u, i) <= q32(),
                        acc == exp_table_value(j as int / pow2((13 - i) as nat) as int, (i - 1) as nat),
                {
                    let sh = TB as usize - i;
                    let ghost u = j as int / pow2(sh as nat) as int;
                    proof {
                        lemma2_to64();
                        lemma_usize_shr_is_div(j, sh);
                        lemma_pow2_pos(sh as nat);
                        lemma_pow2_unfold((sh + 1) as nat);
                        lemma_div_denominator(j as int, pow2(sh as nat) as int, 2);
                        assert(((j >> sh) & 1usize) == (j >> sh) % 2) by (bit_vector);
                        assert(u / 2 == j as int / pow2((13 - i) as nat) as int);
                        lemma_pow2_adds(sh as nat, i as nat);
                        assert(pow2(sh as nat) * pow2(i as nat) == 4096);
                        lemma_pow2_pos(i as nat);
                        lemma_div_strictly_bounded_helper(j as int, pow2(sh as nat) as int, pow2(i as nat) as int);
                        assert(0 <= u < pow2(i as nat));
                        lemma_div_pos_is_pos(u, 2);
                        assert(u / 2 <= u);
                        lemma_pow2_strictly_increases((i - 1) as nat, i as nat);
                        lemma_div_strictly_bounded_helper(u, 2, pow2((i - 1) as nat) as int);
                        assert(0 <= u / 2 < pow2((i - 1) as nat));
                    }
                    if (j >> sh) & 1 == 1 {
                        proof {
                            assert(acc * (s@[i as int] as u128) < 0x1_0000_0000_0000_0000) by (nonlinear_arith)
                                requires
                                    acc <= 0x1_0000_0000,
                                    s@[i as int] < 0x1_0000_0000,
                            ;
                        }
                        let prod = acc * s[i] as u128;
                        acc = prod >> 32;
                        proof {
                            lemma_u128_shr_is_div(prod, 32);
                        }
                    }
                    proof {
                        assert(acc == exp_table_value(u, i as nat));
                    }
                }
                proof {
                    lemma2_to64();
                    assert(j as int / 1 == j as int);
                    assert(acc == exp_table_value(j as int, 12));
                    assert(acc <= q32());
                }
                exp2neg.push(acc as u64);
            }
        }
        Tables { log1p, exp2neg }
    }

    /// log2(1 + x) for x in [0, 1) given in Q32. Result in Q24.
    pub fn log2_1p(&self, x: u64) -> (r: i64)
        requires
            self.wf(),
            x < 0x1_0000_0000,
        ensures
            r == log2_1p_value(x as int),
            0 <= r < ONE,
    {
        proof {
            lemma_u64_shr_is_div(x, 20);
            lemma2_to64();
            lemma_log2_1p_value(x as int);
            lemma_log1p_entries();
            assert(x & 0xF_FFFF == x % 0x10_0000) by (bit_vector);
            assert((1u64 << 20u32) - 1 == 0xF_FFFF) by (bit_vector);
        }
        let idx = (x >> (32 - TB)) as usize;
        let frac = (x & ((1u64 << (32 - TB)) - 1)) as i64;
        let a = self.log1p[idx];
        let b = self.log1p[idx + 1];
        let v = (b - a) * frac;
        proof {
            assert(0 <= v <= 0x100_0000 * 0x10_0000) by (nonlinear_arith)
                requires
                    v == (b - a) * frac,
                    0 <= b - a <= 0x100_0000,
                    0 <= frac < 0x10_0000,
            ;
            assert(v >> 20u32 == v / 0x10_0000) by (bit_vector)
                requires
                    v >= 0,
            ;
        }
        a + (v >> (32 - TB))
    }

    /// 2^(-phi) for phi in [0, 1) given in Q24. Result in Q32.
    pub fn exp2_neg(&self, phi: i64) -> (r: u64)
        requires
            self.wf(),
            0 <= phi < ONE,
        ensures
            r == exp2_neg_value(phi as int),
            0x8000_0000 <= r <= 0x1_0000_0000,
    {
        proof {
            lemma_exp2_neg_value(phi as int);
            assert(phi >> 12u32 == phi / 0x1000) by (bit_vector)
                requires
                    phi >= 0,
            ;
            assert(phi & 0xFFF == phi % 0x1000) by (bit_vector)
                requires
                    phi >= 0,
            ;
            assert((1i64 << 12u32) - 1 == 0xFFF) by (bit_vector);
        }
        let idx = (phi >> (Q - TB)) as usize;
        let frac = (phi & ((1 << (Q - TB)) - 1)) as u64;
        let a = self.exp2neg[idx];
        let b = self.exp2neg[idx + 1];  // a >= b: the function decreases
        let v = (a - b) * frac;
        proof {
            assert(v <= 0x1_0000_0000 * 0x1000) by (nonlinear_arith)
                requires
                    v == (a - b) * frac,
                    0 <= a - b <= 0x1_0000_0000,
                    0 <= frac < 0x1000,
            ;
            lemma_u64_shr_is_div(v, 12);
            assert((v >> 12u32) == (v >> 12u64)) by (bit_vector);
            lemma2_to64();
            assert(v / 0x1000 <= (a - b)) by (nonlinear_arith)
                requires
                    v == (a - b) * frac,
                    0 <= frac < 0x1000,
                    a >= b,
            ;
        }
        a - (v >> (Q - TB))
    }

    /// log2(v) for an integer v >= 1. Result in Q24.
    pub fn log2_int(&self, v: u64) -> (r: i64)
        requires
            self.wf(),
            v >= 1,
        ensures
            r == log2_int_value(v as int),
    {
        let lz = v.leading_zeros();
        proof {
            lemma_u64_top_bit(v);
            lemma_log2_floor(v as int);
            assert(pow2(64) == 0x1_0000_0000_0000_0000) by {
                lemma2_to64();
                lemma2_to64_rest();
                lemma_pow2_adds(32, 32);
            }
            if log2_floor(v as int) > 63 {
                lemma_pow2_increases(64, log2_floor(v as int) as nat);
            }
            lemma_scaled_mantissa(v as int);
            lemma2_to64();
            lemma2_to64_rest();
            assert(1u64 << 32u64 == 0x1_0000_0000) by (bit_vector);
        }
        let k = 63 - lz;  // position of the top bit
        let m = if k <= 32 {
            proof {
                lemma_pow2_adds((k + 1) as nat, (32 - k) as nat);
                assert(v * pow2((32 - k) as nat) <= u64::MAX) by (nonlinear_arith)
                    requires
                        v < pow2((k + 1) as nat),
                        pow2((k + 1) as nat) * pow2((32 - k) as nat) == pow2(33),
                        pow2(33) == 0x2_0000_0000,
                ;
                lemma_u64_shl_is_mul(v, (32 - k) as u64);
                let sh: u32 = (32 - k) as u32;
                assert((v << sh) == (v << (sh as u64))) by (bit_vector);
            }
            v << (32 - k)
        } else {
            proof {
                lemma_u64_shr_is_div(v, (k - 32) as u64);
                let sh: u32 = (k - 32) as u32;
                assert((v >> sh) == (v >> (sh as u64))) by (bit_vector);
            }
            v >> (k - 32)
        };
        proof {
            assert(((k as i64) << 24u32) == (k as i64) * 0x100_0000) by (bit_vector)
                requires
                    k <= 63,
            ;
            assert(m == scaled_mantissa(v as int));
        }
        ((k as i64) << Q) + self.log2_1p(m - (1u64 << 32))
    }

    /// log2(1 + 2^y), the Jacobian logarithm: y in Q24, result in Q24.
    ///
    /// Identity: log2(1 + 2^y) = max(y, 0) + log2(1 + 2^-|y|). The second term
    /// splits as 2^-|y| = 2^-k 2^-phi with k the integer part of |y| and phi its
    /// fraction, so two tables serve in place of a separate Jacobian table.
    pub fn log2_1p_exp2(&self, y: i64) -> (r: i64)
        requires
            self.wf(),
            i64::MIN < y,
        ensures
            r == log2_1p_exp2_value(y as int),
    {
        let base = if y > 0 { y } else { 0 };
        let d = if y < 0 { -y } else { y };
        if d >= SATURATE {
            return base;  // the correction is below Q24 resolution
        }
        proof {
            assert(d >> 24u32 == d / 0x100_0000) by (bit_vector)
                requires
                    0 <= d,
            ;
            assert(d & 0xFF_FFFF == d % 0x100_0000) by (bit_vector)
                requires
                    0 <= d,
            ;
        }
        let k = (d >> Q) as u32;
        let phi = d & (ONE - 1);
        let e = self.exp2_neg(phi);  // Q32, in [2^31, 2^32]
        proof {
            assert(1u64 << 32u64 == 0x1_0000_0000) by (bit_vector);
        }
        if k == 0 && e >= 1u64 << 32 {
            return base + ONE;  // exactly 2^0: log2(1 + 1) = 1
        }
        proof {
            assert(k < 25);
            lemma_u64_shr_is_div(e, k as u64);
            assert((e >> k) == (e >> (k as u64))) by (bit_vector);
            lemma_pow2_pos(k as nat);
            if k == 0 {
                lemma2_to64();
            } else {
                lemma_pow2_unfold(k as nat);
                lemma_div_is_ordered_by_denominator(e as int, 2, pow2(k as nat) as int);
            }
        }
        base + self.log2_1p(e >> k)
    }
}

proof fn lemma_div_strictly_bounded_helper(x: int, a: int, b: int)
    requires
        0 <= x < a * b,
        a > 0,
        b > 0,
    ensures
        0 <= x / a < b,
{
    lemma_div_pos_is_pos(x, a);
    lemma_fundamental_div_mod(x, a);
    assert(x / a < b) by (nonlinear_arith)
        requires
            x == a * (x / a) + x % a,
            x % a >= 0,
            x < a * b,
            a > 0,
    ;
}

proof fn lemma_isqrt_unique(n: int, r: int, c: int)
    requires
        is_isqrt(n, r),
        is_isqrt(n, c),
    ensures
        r == c,
{
    if r < c {
        assert((r + 1) * (r + 1) <= c * c) by (nonlinear_arith)
            requires
                0 <= r + 1 <= c,
        ;
    } else if c < r {
        assert((c + 1) * (c + 1) <= r * r) by (nonlinear_arith)
            requires
                0 <= c + 1 <= r,
        ;
    }
}

} // verus!
