//! Decimal rendering of Q24 fixed-point quantities, with no floating point.
use vstd::prelude::*;
use vstd::arithmetic::div_mod::*;
use crate::fixed::{Q, ONE};

verus! {

/// The character of decimal digit d.
pub open spec fn digit_char(d: int) -> char {
    (d + 48) as char
}

/// The decimal representation of n, without leading zeros.
pub open spec fn decimal_digits(n: nat) -> Seq<char>
    decreases n,
{
    if n < 10 {
        seq![digit_char(n as int)]
    } else {
        decimal_digits(n / 10).push(digit_char((n % 10) as int))
    }
}

/// The last `len` decimal digits of n, padded with zeros on the left.
pub open spec fn fixed_digits(n: nat, len: nat) -> Seq<char>
    decreases len,
{
    if len == 0 {
        Seq::empty()
    } else {
        fixed_digits(n / 10, (len - 1) as nat).push(digit_char((n % 10) as int))
    }
}

/// 10^n.
pub open spec fn pow10(n: nat) -> nat
    decreases n,
{
    if n == 0 {
        1
    } else {
        10 * pow10((n - 1) as nat)
    }
}

/// |v| for an integer.
pub open spec fn abs_int(v: int) -> nat {
    if v < 0 {
        (-v) as nat
    } else {
        v as nat
    }
}

/// The Q24 value v written in decimal: sign, integer part, point, and the first
/// `decimals` digits of the fraction, truncated.
pub open spec fn q24_text(v: int, decimals: nat) -> Seq<char> {
    let a = abs_int(v);
    (if v < 0 {
        seq!['-']
    } else {
        Seq::empty()
    }) + decimal_digits(a / 0x100_0000) + seq!['.'] + fixed_digits(
        (a % 0x100_0000) * pow10(decimals) / 0x100_0000,
        decimals,
    )
}

/// Whether c is a decimal digit.
pub open spec fn is_digit(c: char) -> bool {
    '0' <= c && c <= '9'
}

/// The number that a string of decimal digits denotes.
pub open spec fn digits_value(s: Seq<char>) -> int
    decreases s.len(),
{
    if s.len() == 0 {
        0
    } else {
        10 * digits_value(s.drop_last()) + (s.last() as int - '0' as int)
    }
}

proof fn lemma_digit_char(d: int)
    requires
        0 <= d < 10,
    ensures
        is_digit(digit_char(d)),
        digit_char(d) as int - '0' as int == d,
{
}

proof fn lemma_decimal_digits_value(n: nat)
    ensures
        decimal_digits(n).len() >= 1,
        forall|i: int| 0 <= i < decimal_digits(n).len() ==> is_digit(#[trigger] decimal_digits(n)[i]),
        digits_value(decimal_digits(n)) == n,
    decreases n,
{
    reveal_with_fuel(digits_value, 2);
    if n < 10 {
        lemma_digit_char(n as int);
        assert(seq![digit_char(n as int)].drop_last() =~= Seq::<char>::empty());
    } else {
        lemma_decimal_digits_value(n / 10);
        lemma_digit_char((n % 10) as int);
        let s = decimal_digits(n);
        assert(s.drop_last() == decimal_digits(n / 10));
        assert(s.last() == digit_char((n % 10) as int));
        lemma_fundamental_div_mod(n as int, 10);
        assert forall|i: int| 0 <= i < s.len() implies is_digit(#[trigger] s[i]) by {
            if i < s.len() - 1 {
                assert(s[i] == decimal_digits(n / 10)[i]);
            }
        }
    }
}

proof fn lemma_fixed_digits_value(n: nat, len: nat)
    ensures
        fixed_digits(n, len).len() == len,
        forall|i: int| 0 <= i < len ==> is_digit(#[trigger] fixed_digits(n, len)[i]),
        digits_value(fixed_digits(n, len)) == n % pow10(len),
    decreases len,
{
    if len > 0 {
        lemma_fixed_digits_value(n / 10, (len - 1) as nat);
        lemma_digit_char((n % 10) as int);
        let s = fixed_digits(n, len);
        assert(s.drop_last() == fixed_digits(n / 10, (len - 1) as nat));
        assert forall|i: int| 0 <= i < len implies is_digit(#[trigger] s[i]) by {
            if i < len - 1 {
                assert(s[i] == fixed_digits(n / 10, (len - 1) as nat)[i]);
            }
        }
        let p = pow10((len - 1) as nat) as int;
        assert(p > 0) by {
            lemma_pow10_pos((len - 1) as nat);
        }
        // 10 * ((n / 10) % p) + n % 10 == n % (10 * p)
        lemma_mod_breakdown(n as int, 10, p);
        assert(digits_value(s) == 10 * ((n / 10) % (p as nat)) + n % 10);
    } else {
        assert(n % 1 == 0);
    }
}

proof fn lemma_pow10_pos(n: nat)
    ensures
        pow10(n) >= 1,
    decreases n,
{
    if n > 0 {
        lemma_pow10_pos((n - 1) as nat);
    }
}

/// The rendered text reads back as the value: a minus sign exactly for a
/// negative value, then the integer part floor(|v| / 2^24) in full, a point,
/// and `decimals` digits of the fraction, truncated.
pub proof fn lemma_q24_text_reads_back(v: int, decimals: nat)
    ensures
        ({
            let s = q24_text(v, decimals);
            let a = abs_int(v);
            let start: int = if v < 0 { 1 } else { 0 };
            let dot = s.len() - decimals - 1;
            &&& (s[0] == '-') <==> v < 0
            &&& start < dot < s.len()
            &&& s[dot] == '.'
            &&& forall|i: int| start <= i < dot ==> is_digit(#[trigger] s[i])
            &&& digits_value(s.subrange(start, dot)) == a / 0x100_0000
            &&& forall|i: int| dot < i < s.len() ==> is_digit(#[trigger] s[i])
            &&& digits_value(s.subrange(dot + 1, s.len() as int)) == (a % 0x100_0000) * pow10(decimals) / 0x100_0000
                % pow10(decimals)
        }),
{
    let a = abs_int(v);
    let s = q24_text(v, decimals);
    let sign: Seq<char> = if v < 0 { seq!['-'] } else { Seq::empty() };
    let ip = decimal_digits(a / 0x100_0000);
    let fr = fixed_digits((a % 0x100_0000) * pow10(decimals) / 0x100_0000, decimals);
    lemma_decimal_digits_value(a / 0x100_0000);
    lemma_fixed_digits_value((a % 0x100_0000) * pow10(decimals) / 0x100_0000, decimals);
    assert(s == sign + ip + seq!['.'] + fr);
    let start: int = if v < 0 { 1 } else { 0 };
    let dot = s.len() - decimals - 1;
    assert(dot == start + ip.len());
    assert(s.subrange(start, dot) =~= ip);
    assert(s.subrange(dot + 1, s.len() as int) =~= fr);
    assert(s[dot] == '.');
    assert forall|i: int| start <= i < dot implies is_digit(#[trigger] s[i]) by {
        assert(s[i] == ip[i - start]);
    }
    assert forall|i: int| dot < i < s.len() implies is_digit(#[trigger] s[i]) by {
        assert(s[i] == fr[i - dot - 1]);
    }
    if v < 0 {
        assert(s[0] == '-');
    } else {
        assert(s[0] == ip[0]);
        assert(is_digit(ip[0]));
    }
}

fn digit_str(d: u8) -> (s: &'static str)
    requires
        d < 10,
    ensures
        s@ == seq![digit_char(d as int)],
{
    proof {
        reveal_strlit("0");
        reveal_strlit("1");
        reveal_strlit("2");
        reveal_strlit("3");
        reveal_strlit("4");
        reveal_strlit("5");
        reveal_strlit("6");
        reveal_strlit("7");
        reveal_strlit("8");
        reveal_strlit("9");
    }
    match d {
        0 => "0",
        1 => "1",
        2 => "2",
        3 => "3",
        4 => "4",
        5 => "5",
        6 => "6",
        7 => "7",
        8 => "8",
        _ => "9",
    }
}

/// Appends the decimal representation of n.
pub fn push_decimal(s: &mut String, n: u64)
    ensures
        final(s)@ == old(s)@ + decimal_digits(n as nat),
    decreases n,
{
    if n >= 10 {
        push_decimal(s, n / 10);
    }
    s.append(digit_str((n % 10) as u8));
    proof {
        if n >= 10 {
            assert(old(s)@ + decimal_digits((n / 10) as nat) + seq![digit_char((n % 10) as int)]
                =~= old(s)@ + decimal_digits(n as nat));
        } else {
            assert(n % 10 == n);
        }
    }
}

/// Prints a Q24 value as a decimal fraction, without floating point.
pub fn fmt_q24(v: i64, decimals: u32) -> (s: String)
    requires
        v > i64::MIN,
    ensures
        s@ == q24_text(v as int, decimals as nat),
{
    let neg = v < 0;
    let mut a = if neg { -v } else { v };
    let int_part = a >> Q;
    proof {
        assert(int_part == a / 0x100_0000) by (bit_vector)
            requires
                a >= 0,
                int_part == a >> 24u32,
        ;
        assert(a & 0xFF_FFFF == a % 0x100_0000) by (bit_vector)
            requires
                a >= 0,
        ;
    }
    a &= ONE - 1;
    let ghost a0 = a as nat;
    let mut frac = String::new();
    proof {
        assert(a < 0x100_0000);
        lemma_small_mod(a0, 0x100_0000);
        assert(pow10(0) == 1);
        assert(a0 * pow10(0) == a0);
    }
    for i in 0..decimals
        invariant
            0 <= a < 0x100_0000,
            a0 < 0x100_0000,
            a == (a0 * pow10(i as nat)) % 0x100_0000,
            frac@ == fixed_digits(a0 * pow10(i as nat) / 0x100_0000, i as nat),
    {
        let ghost before = a0 * pow10(i as nat);
        let ghost q = before / 0x100_0000;
        a *= 10;
        let d = a >> Q;
        proof {
            assert(d == a / 0x100_0000) by (bit_vector)
                requires
                    a >= 0,
                    d == a >> 24u32,
            ;
            assert(a & 0xFF_FFFF == a % 0x100_0000) by (bit_vector)
                requires
                    a >= 0,
            ;
            lemma_fundamental_div_mod(before as int, 0x100_0000);
            let after = a0 * pow10((i + 1) as nat);
            assert(after == before * 10) by (nonlinear_arith)
                requires
                    after == a0 * pow10((i + 1) as nat),
                    before == a0 * pow10(i as nat),
                    pow10((i + 1) as nat) == 10 * pow10(i as nat),
            ;
            assert(after == (10 * q) * 0x100_0000 + a);
            lemma_fundamental_div_mod(a as int, 0x100_0000);
            assert(after == (10 * q + d) * 0x100_0000 + a % 0x100_0000);
            lemma_div_mod_unique_helper(after as int, 10 * q + d, (a % 0x100_0000) as int);
            assert(d < 10);
            assert((10 * q + d) / 10 == q);
            assert((10 * q + d) % 10 == d);
        }
        frac.append(digit_str(d as u8));
        a &= ONE - 1;
    }
    let mut s = String::new();
    proof {
        reveal_strlit("-");
        reveal_strlit(".");
    }
    if neg {
        s.append("-");
    }
    push_decimal(&mut s, int_part as u64);
    s.append(".");
    s.append(frac.as_str());
    proof {
        assert(s@ =~= q24_text(v as int, decimals as nat));
    }
    s
}

proof fn lemma_div_mod_unique_helper(x: int, q: int, r: int)
    requires
        x == q * 0x100_0000 + r,
        0 <= r < 0x100_0000,
    ensures
        x / 0x100_0000 == q,
        x % 0x100_0000 == r,
{
    lemma_fundamental_div_mod_converse(x, 0x100_0000, q, r);
}

/// Bits per byte as a decimal string, or "n/a" for an empty input.
pub fn bits_per_char(bits_q24: i64, bytes: u64) -> (s: String)
    requires
        bytes <= i64::MAX,
        bits_q24 > i64::MIN,
    ensures
        bytes == 0 ==> s@ == "n/a"@,
        bytes > 0 ==> s@ == q24_text(trunc_div(bits_q24 as int, bytes as int), 6),
{
    if bytes == 0 {
        return String::from_str("n/a");
    }
    let q = bits_q24 / bytes as i64;
    proof {
        assert(q == trunc_div(bits_q24 as int, bytes as int));
    }
    fmt_q24(q, 6)
}

/// Division rounding toward zero, as Rust's `/` on signed integers.
pub open spec fn trunc_div(a: int, b: int) -> int {
    if a >= 0 {
        a / b
    } else {
        -((-a) / b)
    }
}

/// Division rounds toward zero: the quotient of a by a positive b has the
/// sign of a (or is 0) and its magnitude is floor(|a| / b).
pub proof fn lemma_trunc_div(a: int, b: int)
    requires
        b > 0,
    ensures
        a >= 0 ==> trunc_div(a, b) * b <= a < (trunc_div(a, b) + 1) * b,
        a < 0 ==> (trunc_div(a, b) - 1) * b < a <= trunc_div(a, b) * b,
{
    let m = if a >= 0 { a } else { -a };
    lemma_fundamental_div_mod(m, b);
    lemma_mod_bound(m, b);
    let q = m / b;
    assert(q * b <= m < (q + 1) * b) by (nonlinear_arith)
        requires
            m == b * q + m % b,
            0 <= m % b < b,
    ;
    if a < 0 {
        assert((-q - 1) * b < a <= -q * b) by (nonlinear_arith)
            requires
                q * b <= m < (q + 1) * b,
                m == -a,
        ;
    }
}

} // verus!
