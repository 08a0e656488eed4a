//! Positive binary64 (IEEE 754 double precision) values as integers: a value
//! is `m * 2^e` with a 53-bit significand `m` in [2^52, 2^53). Conversion from
//! an integer and division round to the nearest value, ties to an even
//! significand, as binary64 arithmetic does.

use vstd::prelude::*;

verus! {

/// 2^52, the smallest 53-bit significand.
pub const SIG_MIN: u128 = 0x10_0000_0000_0000;

/// 2^53, one past the largest 53-bit significand.
pub const SIG_END: u128 = 0x20_0000_0000_0000;

/// Two to the power `n`.
pub open spec fn two_pow(n: nat) -> nat
    decreases n,
{
    if n == 0 {
        1
    } else {
        2 * two_pow((n - 1) as nat)
    }
}

/// `num / den` rounded to the nearest integer, ties to the even neighbour.
pub open spec fn round_half_even_div(num: nat, den: nat) -> nat {
    let q = num / den;
    let r = num % den;
    if 2 * r > den {
        q + 1
    } else if 2 * r == den && q % 2 == 1 {
        q + 1
    } else {
        q
    }
}

/// Doubles a significand below 2^52 (halving the scale) until it has 53 bits.
pub open spec fn normalize_up(m: nat, e: int) -> (nat, int)
    decreases (if m < SIG_MIN {
        (SIG_MIN - m) as nat
    } else {
        0nat
    }),
{
    if 1 <= m && m < SIG_MIN {
        normalize_up(2 * m, e - 1)
    } else {
        (m, e)
    }
}

/// How many bits `b` has beyond 53.
pub open spec fn excess_bits(b: nat) -> nat
    decreases b,
{
    if b < SIG_END {
        0
    } else {
        1 + excess_bits(b / 2)
    }
}

/// The binary64 value nearest to the integer `b >= 1`.
pub open spec fn from_integer(b: nat) -> (nat, int) {
    if b < SIG_END {
        normalize_up(b, 0)
    } else {
        let s = excess_bits(b);
        let m = round_half_even_div(b, two_pow(s));
        if m == SIG_END {
            (SIG_MIN as nat, s + 1int)
        } else {
            (m, s as int)
        }
    }
}

/// The binary64 value nearest to `x / d`, for `d` 1000 or 1024.
pub open spec fn divide(x: (nat, int), d: nat) -> (nat, int) {
    if d == 1024 {
        (x.0, x.1 - 10)
    } else {
        let t: nat = if x.0 * 1024 < SIG_END * 1000 {
            10
        } else {
            9
        };
        let r = round_half_even_div(x.0 * two_pow(t), 1000);
        if r == SIG_END {
            (SIG_MIN as nat, x.1 - t + 1)
        } else {
            (r, x.1 - t)
        }
    }
}

/// `x >= d`.
pub open spec fn at_least(x: (nat, int), d: nat) -> bool {
    if x.1 >= 0 {
        x.0 * two_pow(x.1 as nat) >= d
    } else {
        x.0 >= d * two_pow((-x.1) as nat)
    }
}

/// The value `x` as a fraction `num / den`.
pub open spec fn fraction(x: (nat, int)) -> (nat, nat) {
    if x.1 >= 0 {
        (x.0 * two_pow(x.1 as nat), 1)
    } else {
        (x.0, two_pow((-x.1) as nat))
    }
}

/// `num / den` rounded to the nearest integer, ties to the even neighbour.
pub fn round_half_even(num: u128, den: u128) -> (r: u128)
    requires
        den > 0,
        num / den < u128::MAX,
    ensures
        r == round_half_even_div(num as nat, den as nat),
{
    let q = num / den;
    let rem = num % den;
    if rem > den - rem {
        q + 1
    } else if rem == den - rem && q % 2 == 1 {
        q + 1
    } else {
        q
    }
}

/// Rounding lands on the quotient or the next integer.
pub proof fn lemma_round_bounds(num: nat, den: nat)
    requires
        den > 0,
    ensures
        num / den <= round_half_even_div(num, den) <= num / den + 1,
{
}

/// `2^(a + b) == 2^a * 2^b`.
pub proof fn lemma_two_pow_add(a: nat, b: nat)
    ensures
        two_pow(a + b) == two_pow(a) * two_pow(b),
    decreases a,
{
    if a > 0 {
        let a1 = (a - 1) as nat;
        lemma_two_pow_add(a1, b);
        let x = two_pow(a1);
        let y = two_pow(b);
        assert(a1 + b == (a + b - 1) as nat);
        assert(two_pow(a + b) == 2 * two_pow(a1 + b));
        assert(two_pow(a) == 2 * x);
        assert(2 * (x * y) == (2 * x) * y) by (nonlinear_arith);
    } else {
        assert(two_pow(a) == 1);
        assert(a + b == b);
    }
}

/// `2^n <= 2^126` for `n <= 126`.
pub proof fn lemma_two_pow_le_126(n: nat)
    requires
        n <= 126,
    ensures
        two_pow(n) <= 0x4000_0000_0000_0000_0000_0000_0000_0000,
{
    assert(two_pow(21) == 0x20_0000) by {
        reveal_with_fuel(two_pow, 22);
    }
    lemma_two_pow_add(21, 21);
    assert(two_pow(42) == 0x400_0000_0000);
    lemma_two_pow_add(42, 42);
    assert(two_pow(84) == 0x10_0000_0000_0000_0000_0000);
    lemma_two_pow_add(84, 42);
    assert(two_pow(126) == 0x4000_0000_0000_0000_0000_0000_0000_0000);
    lemma_two_pow_add(n, (126 - n) as nat);
    lemma_two_pow_pos((126 - n) as nat);
    assert(two_pow(n) <= two_pow(n) * two_pow((126 - n) as nat)) by (nonlinear_arith)
        requires
            two_pow((126 - n) as nat) >= 1,
    ;
}

/// Two to the power `n`, for `n` up to 126.
pub fn two_pow_exec(n: u32) -> (p: u128)
    requires
        n <= 126,
    ensures
        p == two_pow(n as nat),
{
    let mut p: u128 = 1;
    let mut i: u32 = 0;
    while i < n
        invariant
            i <= n <= 126,
            p == two_pow(i as nat),
        decreases n - i,
    {
        proof {
            lemma_two_pow_le_126(i as nat);
        }
        p = p * 2;
        i = i + 1;
    }
    p
}

/// Powers of two are positive.
pub proof fn lemma_two_pow_pos(n: nat)
    ensures
        two_pow(n) >= 1,
    decreases n,
{
    if n > 0 {
        lemma_two_pow_pos((n - 1) as nat);
    }
}

/// Powers of two grow with the exponent.
pub proof fn lemma_two_pow_mono(a: nat, b: nat)
    requires
        a <= b,
    ensures
        two_pow(a) <= two_pow(b),
{
    lemma_two_pow_add(a, (b - a) as nat);
    lemma_two_pow_pos((b - a) as nat);
    assert(two_pow(a) <= two_pow(a) * two_pow((b - a) as nat)) by (nonlinear_arith)
        requires
            two_pow((b - a) as nat) >= 1,
    ;
}

/// `2^9`, `2^10`, `2^13` and `2^53`.
pub proof fn lemma_two_pow_values()
    ensures
        two_pow(9) == 512,
        two_pow(10) == 1024,
        two_pow(13) == 8192,
        two_pow(53) == SIG_END,
{
    assert(two_pow(21) == 0x20_0000) by {
        reveal_with_fuel(two_pow, 22);
    }
    lemma_two_pow_add(21, 21);
    assert(two_pow(11) == 2048) by {
        reveal_with_fuel(two_pow, 12);
    }
    assert(two_pow(13) == 8192) by {
        reveal_with_fuel(two_pow, 14);
    }
    lemma_two_pow_add(42, 11);
}

/// `2^n <= 2^112` for `n <= 112`.
pub proof fn lemma_two_pow_le_112(n: nat)
    requires
        n <= 112,
    ensures
        two_pow(n) <= 0x1_0000_0000_0000_0000_0000_0000_0000,
{
    assert(two_pow(21) == 0x20_0000) by {
        reveal_with_fuel(two_pow, 22);
    }
    assert(two_pow(7) == 128) by {
        reveal_with_fuel(two_pow, 8);
    }
    lemma_two_pow_add(21, 21);
    assert(two_pow(42) == 0x400_0000_0000);
    lemma_two_pow_add(42, 42);
    assert(two_pow(84) == 0x10_0000_0000_0000_0000_0000);
    lemma_two_pow_add(21, 7);
    assert(two_pow(28) == 0x1000_0000);
    lemma_two_pow_add(84, 28);
    assert(two_pow(112) == 0x1_0000_0000_0000_0000_0000_0000_0000);
    lemma_two_pow_mono(n, 112);
}

/// The binary64 value nearest to an integer `b >= 1`.
pub fn from_integer_exec(b: u64) -> (x: (u128, i64))
    requires
        b >= 1,
    ensures
        x.0 == from_integer(b as nat).0,
        x.1 == from_integer(b as nat).1,
        SIG_MIN <= x.0 < SIG_END,
        -52 <= x.1 <= 13,
{
    proof {
        lemma_two_pow_values();
    }
    if (b as u128) < SIG_END {
        let mut m: u128 = b as u128;
        let mut e: i64 = 0;
        while m < SIG_MIN
            invariant
                1 <= m < SIG_END,
                -53 < e <= 0,
                m >= two_pow((-e) as nat),
                normalize_up(b as nat, 0) == normalize_up(m as nat, e as int),
            decreases SIG_END - m,
        {
            proof {
                lemma_two_pow_values();
                assert(two_pow((-(e - 1)) as nat) == 2 * two_pow((-e) as nat));
                assert(-(e - 1) < 53) by {
                    if -(e - 1) >= 53 {
                        lemma_two_pow_mono(53, (-(e - 1)) as nat);
                        assert(two_pow((-(e - 1)) as nat) >= SIG_END);
                        assert(2 * m < SIG_END);
                    }
                }
            }
            m = 2 * m;
            e = e - 1;
        }
        (m, e)
    } else {
        let mut t: u128 = b as u128;
        let mut p: u128 = 1;
        let mut s: i64 = 0;
        while t >= SIG_END
            invariant
                0 <= s <= 12,
                p >= 1,
                p == two_pow(s as nat),
                t == b as nat / p as nat,
                p * SIG_MIN <= b,
                excess_bits(b as nat) == s + excess_bits(t as nat),
            decreases t,
        {
            proof {
                lemma_two_pow_values();
                vstd::arithmetic::div_mod::lemma_div_denominator(b as int, p as int, 2);
                assert(p * 2 * SIG_MIN <= b) by (nonlinear_arith)
                    requires
                        t == b as nat / p as nat,
                        t >= SIG_END,
                        p >= 1,
                        SIG_END == 2 * SIG_MIN,
                ;
                assert(two_pow((s + 1) as nat) == p * 2);
                assert(s + 1 <= 12) by {
                    if s + 1 > 12 {
                        lemma_two_pow_mono(13, (s + 1) as nat);
                        assert(p * 2 * SIG_MIN >= 8192 * SIG_MIN) by (nonlinear_arith)
                            requires
                                p * 2 >= 8192,
                        ;
                    }
                }
            }
            t = t / 2;
            p = p * 2;
            s = s + 1;
        }
        assert(t >= SIG_MIN) by (nonlinear_arith)
            requires
                t == b as nat / p as nat,
                p * SIG_MIN <= b,
                p >= 1,
        ;
        let m = round_half_even(b as u128, p);
        proof {
            lemma_round_bounds(b as nat, p as nat);
        }
        if m == SIG_END {
            (SIG_MIN, s + 1)
        } else {
            (m, s)
        }
    }
}

/// The binary64 value nearest to `x / d`, for `d` 1000 or 1024.
pub fn divide_exec(x: (u128, i64), d: u128) -> (y: (u128, i64))
    requires
        SIG_MIN <= x.0 < SIG_END,
        d == 1000 || d == 1024,
        x.1 >= -1000,
    ensures
        y.0 == divide((x.0 as nat, x.1 as int), d as nat).0,
        y.1 == divide((x.0 as nat, x.1 as int), d as nat).1,
        SIG_MIN <= y.0 < SIG_END,
        x.1 - 10 <= y.1 <= x.1 - 8,
{
    proof {
        lemma_two_pow_values();
    }
    if d == 1024 {
        (x.0, x.1 - 10)
    } else {
        let m = x.0;
        let (t, num): (i64, u128) = if m * 1024 < SIG_END * 1000 {
            (10, m * 1024)
        } else {
            (9, m * 512)
        };
        assert(SIG_MIN <= num / 1000 < SIG_END);
        let r = round_half_even(num, 1000);
        proof {
            lemma_round_bounds(num as nat, 1000);
        }
        if r == SIG_END {
            (SIG_MIN, x.1 - t + 1)
        } else {
            (r, x.1 - t)
        }
    }
}

/// Whether `x >= d`, for an exponent of `x` in [-112, 13].
pub fn at_least_exec(x: (u128, i64), d: u128) -> (r: bool)
    requires
        SIG_MIN <= x.0 < SIG_END,
        -112 <= x.1 <= 13,
        d <= 1024,
    ensures
        r == at_least((x.0 as nat, x.1 as int), d as nat),
{
    proof {
        lemma_two_pow_values();
    }
    if x.1 >= 0 {
        let p = two_pow_exec(x.1 as u32);
        proof {
            lemma_two_pow_mono(x.1 as nat, 13);
        }
        assert(x.0 * p <= SIG_END * 8192) by (nonlinear_arith)
            requires
                x.0 < SIG_END,
                p <= 8192,
        ;
        x.0 * p >= d
    } else {
        let p = two_pow_exec((-x.1) as u32);
        proof {
            lemma_two_pow_le_112((-x.1) as nat);
        }
        assert(d * p <= 1024 * 0x1_0000_0000_0000_0000_0000_0000_0000u128) by (nonlinear_arith)
            requires
                d <= 1024,
                p <= 0x1_0000_0000_0000_0000_0000_0000_0000u128,
        ;
        x.0 >= d * p
    }
}

/// Normalizing keeps the value: the significand is the given one times a
/// power of two, and the exponent goes down by that power; below 2^52 the
/// exponent ends negative or zero.
pub proof fn lemma_normalize_up_value(m: nat, e: int)
    requires
        1 <= m < SIG_END,
    ensures
        normalize_up(m, e).1 <= e,
        normalize_up(m, e).0 == m * two_pow((e - normalize_up(m, e).1) as nat),
        two_pow((e - normalize_up(m, e).1) as nat) >= 1,
    decreases SIG_END - m,
{
    if m < SIG_MIN {
        assert(normalize_up(m, e) == normalize_up(2 * m, e - 1));
        lemma_normalize_up_value(2 * m, e - 1);
        let e2 = normalize_up(2 * m, e - 1).1;
        let j = (e - 1 - e2) as nat;
        assert((e - e2) as nat == j + 1);
        assert(two_pow(j + 1) == 2 * two_pow(j));
        assert((2 * m) * two_pow(j) == m * (2 * two_pow(j))) by (nonlinear_arith);
        assert(normalize_up(m, e).0 == m * two_pow(j + 1));
    } else {
        assert(normalize_up(m, e) == (m, e));
        assert(two_pow(0) == 1);
        assert(m * two_pow(0) == m);
    }
}

} // verus!
