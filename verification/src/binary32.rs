//! Binary32 (IEEE 754 single precision) arithmetic on non-negative values, as
//! integers: a non-zero value is `m * 2^e` with a 24-bit significand `m` in
//! [2^23, 2^24); zero is `(0, 0)`. Every operation takes its exact result and
//! rounds it to the nearest such value, ties to an even significand, as
//! binary32 arithmetic does for results in its normal range (the values met
//! here stay far from overflow and from subnormals).

use vstd::prelude::*;
use crate::binary64::{
    lemma_round_bounds, lemma_two_pow_le_112, lemma_two_pow_add, lemma_two_pow_mono, lemma_two_pow_pos, round_half_even,
    round_half_even_div, two_pow, two_pow_exec,
};

verus! {

/// 2^23, the smallest 24-bit significand.
pub const SIG32_MIN: u128 = 0x80_0000;

/// 2^24, one past the largest 24-bit significand.
pub const SIG32_END: u128 = 0x100_0000;

/// Brings `n / d * 2^e` into the form `n' / d' * 2^e'` with `n' / d'` in
/// [2^23, 2^24): doubling `n` (and lowering the exponent) while the ratio is
/// below 2^23, doubling `d` (and raising it) while the ratio is 2^24 or more.
pub open spec fn binade(n: nat, d: nat, e: int) -> (nat, nat, int)
    decreases (if n < SIG32_MIN * d {
        SIG32_MIN * d - n
    } else if n >= SIG32_END * d {
        n + 1 - SIG32_END * d
    } else {
        0
    }),
{
    if n == 0 || d == 0 {
        (n, d, e)
    } else if n < SIG32_MIN * d {
        binade(2 * n, d, e - 1)
    } else if n >= SIG32_END * d {
        binade(n, 2 * d, e + 1)
    } else {
        (n, d, e)
    }
}

/// The binary32 value nearest to `n / d * 2^e`, ties to an even significand.
pub open spec fn nearest(n: nat, d: nat, e: int) -> (nat, int) {
    if n == 0 || d == 0 {
        (0, 0)
    } else {
        let b = binade(n, d, e);
        let m = round_half_even_div(b.0, b.1);
        if m == SIG32_END {
            (SIG32_MIN as nat, b.2 + 1)
        } else {
            (m, b.2)
        }
    }
}

/// `x as f32` for an integer `x`.
pub open spec fn f32_from_int(x: nat) -> (nat, int) {
    nearest(x, 1, 0)
}

/// `x / y` for a non-zero `y`.
pub open spec fn f32_div(x: (nat, int), y: (nat, int)) -> (nat, int) {
    nearest(x.0, y.0, x.1 - y.1)
}

/// `1.0 - x`, for `x` at most one.
pub open spec fn f32_one_minus(x: (nat, int)) -> (nat, int) {
    nearest((two_pow((-x.1) as nat) - x.0) as nat, 1, x.1)
}

/// `x * y`.
pub open spec fn f32_mul(x: (nat, int), y: (nat, int)) -> (nat, int) {
    nearest(x.0 * y.0, 1, x.1 + y.1)
}

/// `x + y`.
pub open spec fn f32_add(x: (nat, int), y: (nat, int)) -> (nat, int) {
    let e = if x.1 <= y.1 {
        x.1
    } else {
        y.1
    };
    nearest(x.0 * two_pow((x.1 - e) as nat) + y.0 * two_pow((y.1 - e) as nat), 1, e)
}

/// `x as u8`: the integer part, at most 255.
pub open spec fn f32_to_u8(x: (nat, int)) -> u8 {
    let v = if x.1 >= 0 {
        x.0 * two_pow(x.1 as nat)
    } else {
        x.0 / two_pow((-x.1) as nat)
    };
    if v > 255 {
        255
    } else {
        v as u8
    }
}

/// `x <= y` for values in the form above: zero is the least; otherwise the
/// exponents decide, then the significands.
pub open spec fn f32_le(x: (nat, int), y: (nat, int)) -> bool {
    x.0 == 0 || (y.0 != 0 && (x.1 < y.1 || (x.1 == y.1 && x.0 <= y.0)))
}

/// `1.0`.
pub open spec fn f32_one() -> (nat, int) {
    (SIG32_MIN as nat, -23)
}

/// `2^(a + 1) == 2 * 2^a`.
proof fn lemma_two_pow_succ(a: nat)
    ensures
        two_pow(a + 1) == 2 * two_pow(a),
{
    assert(two_pow(a + 1) == 2 * two_pow(((a + 1) - 1) as nat));
}

/// A smaller power of two has a smaller exponent.
proof fn lemma_two_pow_lt_exp(a: nat, b: nat)
    requires
        two_pow(a) < two_pow(b),
    ensures
        a < b,
{
    if a >= b {
        lemma_two_pow_mono(b, a);
    }
}

/// `2^23` and `2^24`.
proof fn lemma_sig32_pows()
    ensures
        two_pow(23) == SIG32_MIN,
        two_pow(24) == SIG32_END,
{
    assert(two_pow(24) == SIG32_END) by {
        reveal_with_fuel(two_pow, 25);
    }
}

/// What `binade` gives: a ratio in [2^23, 2^24), reached either by doubling
/// the numerator `a` times (the exponent goes down by `a`) or by doubling the
/// denominator `b` times (the exponent goes up by `b`).
pub proof fn lemma_binade_shape(n: nat, d: nat, e: int)
    requires
        n >= 1,
        d >= 1,
    ensures
        SIG32_MIN * binade(n, d, e).1 <= binade(n, d, e).0 < SIG32_END * binade(n, d, e).1,
        ({
            let b = binade(n, d, e);
            ||| (b.2 <= e && b.1 == d && b.0 == n * two_pow((e - b.2) as nat))
            ||| (b.2 >= e && b.0 == n && b.1 == d * two_pow((b.2 - e) as nat))
        }),
    decreases (if n < SIG32_MIN * d {
        SIG32_MIN * d - n
    } else if n >= SIG32_END * d {
        n + 1 - SIG32_END * d
    } else {
        0
    }),
{
    let b = binade(n, d, e);
    assert(two_pow(1) == 2) by {
        reveal_with_fuel(two_pow, 2);
    }
    if n < SIG32_MIN * d {
        lemma_binade_shape(2 * n, d, e - 1);
        assert(b == binade(2 * n, d, e - 1));
        if b.2 <= e - 1 && b.1 == d && b.0 == (2 * n) * two_pow((e - 1 - b.2) as nat) {
            let j = (e - 1 - b.2) as nat;
            lemma_two_pow_succ(j);
            assert((e - b.2) as nat == j + 1);
            assert((2 * n) * two_pow(j) == n * (2 * two_pow(j))) by (nonlinear_arith);
        } else {
            assert(b.2 >= e - 1 && b.0 == 2 * n && b.1 == d * two_pow((b.2 - (e - 1)) as nat));
            let k = (b.2 - (e - 1)) as nat;
            if k >= 1 {
                lemma_two_pow_mono(1, k);
                assert(d * two_pow(k) >= 2 * d) by (nonlinear_arith)
                    requires
                        two_pow(k) >= 2,
                ;
                assert(SIG32_MIN * (d * two_pow(k)) >= SIG32_MIN * (2 * d)) by (nonlinear_arith)
                    requires
                        d * two_pow(k) >= 2 * d,
                ;
                assert(false);
            }
            assert(k == 0);
            assert(two_pow(k) == 1);
            assert(b.1 == d * 1);
            assert(b.2 == e - 1);
            assert((e - b.2) as nat == 1);
        }
    } else if n >= SIG32_END * d {
        lemma_binade_shape(n, 2 * d, e + 1);
        assert(b == binade(n, 2 * d, e + 1));
        if b.2 >= e + 1 && b.0 == n && b.1 == (2 * d) * two_pow((b.2 - (e + 1)) as nat) {
            let j = (b.2 - (e + 1)) as nat;
            lemma_two_pow_succ(j);
            assert((b.2 - e) as nat == j + 1);
            assert((2 * d) * two_pow(j) == d * (2 * two_pow(j))) by (nonlinear_arith);
        } else {
            assert(b.2 <= e + 1 && b.1 == 2 * d && b.0 == n * two_pow((e + 1 - b.2) as nat));
            let k = (e + 1 - b.2) as nat;
            if k >= 1 {
                lemma_two_pow_mono(1, k);
                assert(n * two_pow(k) >= 2 * n) by (nonlinear_arith)
                    requires
                        two_pow(k) >= 2,
                ;
                assert(SIG32_END * (2 * d) <= 2 * n) by (nonlinear_arith)
                    requires
                        n >= SIG32_END * d,
                ;
                assert(false);
            }
            assert(k == 0);
            assert(two_pow(k) == 1);
            assert(b.0 == n * 1);
            assert(b.2 == e + 1);
            assert((b.2 - e) as nat == 1);
        }
    } else {
        assert(b == (n, d, e));
        assert(two_pow(0) == 1);
    }
}

/// When the ratio `n / (d * 2^k)` lies in [2^23, 2^24), `binade` doubles the
/// denominator exactly `k` times.
pub proof fn lemma_binade_at_den(n: nat, d: nat, e: int, k: nat)
    requires
        n >= 1,
        d >= 1,
        SIG32_MIN * (d * two_pow(k)) <= n < SIG32_END * (d * two_pow(k)),
    ensures
        binade(n, d, e) == (n, d * two_pow(k), e + k),
    decreases k,
{
    if k == 0 {
        assert(d * two_pow(k) == d * 1);
    } else {
        let k1 = (k - 1) as nat;
        lemma_two_pow_succ(k1);
        lemma_two_pow_pos(k1);
        assert(d * two_pow(k) == (2 * d) * two_pow(k1)) by (nonlinear_arith)
            requires
                two_pow(k) == 2 * two_pow(k1),
        ;
        assert(SIG32_MIN * (d * two_pow(k)) >= SIG32_END * d) by (nonlinear_arith)
            requires
                d * two_pow(k) == (2 * d) * two_pow(k1),
                two_pow(k1) >= 1,
        ;
        lemma_binade_at_den(n, 2 * d, e + 1, k1);
        assert(binade(n, d, e) == binade(n, 2 * d, e + 1));
    }
}

/// When the ratio `n * 2^k / d` lies in [2^23, 2^24), `binade` doubles the
/// numerator exactly `k` times.
pub proof fn lemma_binade_at_num(n: nat, d: nat, e: int, k: nat)
    requires
        n >= 1,
        d >= 1,
        SIG32_MIN * d <= n * two_pow(k) < SIG32_END * d,
    ensures
        binade(n, d, e) == (n * two_pow(k), d, e - k),
    decreases k,
{
    if k == 0 {
        assert(n * two_pow(k) == n * 1);
    } else {
        let k1 = (k - 1) as nat;
        lemma_two_pow_succ(k1);
        lemma_two_pow_pos(k1);
        assert(n * two_pow(k) == (2 * n) * two_pow(k1)) by (nonlinear_arith)
            requires
                two_pow(k) == 2 * two_pow(k1),
        ;
        assert(2 * n <= n * two_pow(k)) by (nonlinear_arith)
            requires
                n * two_pow(k) == (2 * n) * two_pow(k1),
                two_pow(k1) >= 1,
        ;
        lemma_binade_at_num(2 * n, d, e - 1, k1);
        assert(binade(n, d, e) == binade(2 * n, d, e - 1));
    }
}

/// Rounding a ratio in [2^23, 2^24) gives a significand in [2^23, 2^24].
pub proof fn lemma_round_in_binade(n: nat, d: nat)
    requires
        d >= 1,
        SIG32_MIN * d <= n < SIG32_END * d,
    ensures
        SIG32_MIN <= round_half_even_div(n, d) <= SIG32_END,
{
    lemma_round_bounds(n, d);
    assert(SIG32_MIN <= n / d < SIG32_END) by (nonlinear_arith)
        requires
            d >= 1,
            SIG32_MIN * d <= n < SIG32_END * d,
    ;
}

/// A non-zero result of `nearest` has a 24-bit significand.
pub proof fn lemma_nearest_sig(n: nat, d: nat, e: int)
    requires
        n >= 1,
        d >= 1,
    ensures
        SIG32_MIN <= nearest(n, d, e).0 < SIG32_END,
{
    lemma_binade_shape(n, d, e);
    let b = binade(n, d, e);
    lemma_round_in_binade(b.0, b.1);
}

/// `2^124`.
proof fn lemma_two_pow_124()
    ensures
        two_pow(124) == 0x1000_0000_0000_0000_0000_0000_0000_0000u128,
{
    assert(two_pow(31) == 0x8000_0000) by {
        reveal_with_fuel(two_pow, 32);
    }
    lemma_two_pow_add(31, 31);
    assert(two_pow(62) == 0x4000_0000_0000_0000);
    lemma_two_pow_add(62, 62);
    assert(two_pow(124) == 0x4000_0000_0000_0000 * 0x4000_0000_0000_0000);
}

/// The binary32 value nearest to `n / d * 2^e`.
pub fn nearest_exec(n: u128, d: u128, e: i64) -> (r: (u128, i64))
    requires
        n < 0x400_0000_0000_0000_0000_0000_0000_0000u128,
        1 <= d < 0x10_0000_0000_0000_0000_0000_0000u128,
        -0x100_0000_0000 <= e <= 0x100_0000_0000,
    ensures
        r.0 == nearest(n as nat, d as nat, e as int).0,
        r.1 == nearest(n as nat, d as nat, e as int).1,
        n >= 1 ==> SIG32_MIN <= r.0 < SIG32_END,
        -0x100_0000_0100 <= r.1 <= 0x100_0000_0100,
{
    if n == 0 {
        return (0, 0);
    }
    proof {
        lemma_two_pow_124();
        assert(two_pow(0) == 1);
    }
    let mut nn: u128 = n;
    let mut dd: u128 = d;
    let mut ee: i64 = e;
    let ghost mut a: nat = 0;
    let ghost mut b: nat = 0;
    while nn < SIG32_MIN * dd || nn >= SIG32_END * dd
        invariant
            1 <= nn,
            1 <= dd < 0x10_0000_0000_0000_0000_0000_0000u128,
            nn < 0x400_0000_0000_0000_0000_0000_0000_0000u128 || nn < SIG32_END * dd,
            nn == n * two_pow(a),
            dd == d * two_pow(b),
            ee == e - a + b,
            a < 124,
            b < 124,
            -0x100_0000_0000 <= e <= 0x100_0000_0000,
            two_pow(124) == 0x1000_0000_0000_0000_0000_0000_0000_0000u128,
            binade(nn as nat, dd as nat, ee as int) == binade(n as nat, d as nat, e as int),
        decreases (if nn < SIG32_MIN * dd {
            SIG32_MIN * dd - nn
        } else if nn >= SIG32_END * dd {
            nn + 1 - SIG32_END * dd
        } else {
            0
        }),
    {
        if nn < SIG32_MIN * dd {
            proof {
                lemma_two_pow_succ(a);
                assert(n * two_pow(a + 1) == 2 * nn) by (nonlinear_arith)
                    requires
                        nn == n * two_pow(a),
                        two_pow(a + 1) == 2 * two_pow(a),
                ;
                assert(two_pow(a + 1) <= 2 * nn) by (nonlinear_arith)
                    requires
                        n * two_pow(a + 1) == 2 * nn,
                        n >= 1,
                ;
                lemma_two_pow_lt_exp(a + 1, 124);
                assert(binade(nn as nat, dd as nat, ee as int) == binade(2 * nn as nat, dd as nat, ee - 1));
            }
            nn = 2 * nn;
            ee = ee - 1;
            proof {
                a = a + 1;
            }
        } else {
            proof {
                lemma_two_pow_succ(b);
                assert(d * two_pow(b + 1) == 2 * dd) by (nonlinear_arith)
                    requires
                        dd == d * two_pow(b),
                        two_pow(b + 1) == 2 * two_pow(b),
                ;
                assert(two_pow(b + 1) <= 2 * dd) by (nonlinear_arith)
                    requires
                        d * two_pow(b + 1) == 2 * dd,
                        d >= 1,
                ;
                lemma_two_pow_lt_exp(b + 1, 124);
                assert(binade(nn as nat, dd as nat, ee as int) == binade(nn as nat, 2 * dd as nat, ee + 1));
            }
            dd = 2 * dd;
            ee = ee + 1;
            proof {
                b = b + 1;
            }
        }
    }
    proof {
        lemma_round_in_binade(nn as nat, dd as nat);
    }
    let m = round_half_even(nn, dd);
    if m == SIG32_END {
        (SIG32_MIN, ee + 1)
    } else {
        (m, ee)
    }
}

/// The exponent of the value nearest to `n * 2^e`, for `2^p <= n < 2^q`, lies
/// in [p + e - 23, q + e - 23].
pub proof fn lemma_nearest_int_range(n: nat, e: int, p: nat, q: nat)
    requires
        two_pow(p) <= n < two_pow(q),
    ensures
        p + e - 23 <= nearest(n, 1, e).1 <= q + e - 23,
{
    lemma_two_pow_pos(p);
    lemma_sig32_pows();
    lemma_binade_shape(n, 1, e);
    let b = binade(n, 1, e);
    if b.2 <= e && b.1 == 1 && b.0 == n * two_pow((e - b.2) as nat) {
        let a = (e - b.2) as nat;
        lemma_two_pow_pos(a);
        lemma_two_pow_add(p, a);
        lemma_two_pow_add(q, a);
        assert(two_pow(p) * two_pow(a) <= n * two_pow(a)) by (nonlinear_arith)
            requires
                two_pow(p) <= n,
        ;
        assert(n * two_pow(a) < two_pow(q) * two_pow(a)) by (nonlinear_arith)
            requires
                n < two_pow(q),
                two_pow(a) >= 1,
        ;
        lemma_two_pow_lt_exp(p + a, 24);
        lemma_two_pow_lt_exp(23, q + a);
    } else {
        let c = (b.2 - e) as nat;
        assert(b.0 == n && b.1 == two_pow(c));
        lemma_two_pow_add(24, c);
        lemma_two_pow_add(23, c);
        lemma_two_pow_lt_exp(p, 24 + c);
        lemma_two_pow_lt_exp(23 + c, q);
    }
}

/// `x / y` for 24-bit significands: the ratio is brought into [2^23, 2^24) by
/// 2^24 when `x < y` and by 2^23 otherwise.
pub proof fn lemma_nearest_ratio(x: nat, y: nat, e: int)
    requires
        SIG32_MIN <= x < SIG32_END,
        SIG32_MIN <= y < SIG32_END,
    ensures
        ({
            let k: nat = if x < y {
                24
            } else {
                23
            };
            let m = round_half_even_div(x * two_pow(k), y);
            &&& SIG32_MIN * y <= x * two_pow(k) < SIG32_END * y
            &&& binade(x, y, e) == (x * two_pow(k), y, e - k)
            &&& nearest(x, y, e) == (if m == SIG32_END {
                (SIG32_MIN as nat, e - k + 1)
            } else {
                (m, e - k)
            })
        }),
{
    lemma_sig32_pows();
    let k: nat = if x < y {
        24
    } else {
        23
    };
    if x < y {
        assert(SIG32_MIN * y <= x * SIG32_END < SIG32_END * y) by (nonlinear_arith)
            requires
                SIG32_MIN <= x < y < SIG32_END,
        ;
    } else {
        assert(SIG32_MIN * y <= x * SIG32_MIN < SIG32_END * y) by (nonlinear_arith)
            requires
                SIG32_MIN <= y <= x < SIG32_END,
        ;
    }
    lemma_binade_at_num(x, y, e, k);
}

/// Rounding to the nearest integer does not decrease as the numerator grows.
pub proof fn lemma_round_mono(n1: nat, n2: nat, d: nat)
    requires
        n1 <= n2,
        d >= 1,
    ensures
        round_half_even_div(n1, d) <= round_half_even_div(n2, d),
{
    lemma_round_bounds(n1, d);
    lemma_round_bounds(n2, d);
    vstd::arithmetic::div_mod::lemma_div_is_ordered(n1 as int, n2 as int, d as int);
    vstd::arithmetic::div_mod::lemma_fundamental_div_mod(n1 as int, d as int);
    vstd::arithmetic::div_mod::lemma_fundamental_div_mod(n2 as int, d as int);
    if n1 / d == n2 / d {
        assert(n1 % d <= n2 % d);
    }
}

/// For integers the binade exponent does not decrease as the integer grows.
proof fn lemma_binade_int_mono(x: nat, y: nat)
    requires
        1 <= x <= y,
    ensures
        binade(x, 1, 0).2 <= binade(y, 1, 0).2,
{
    lemma_sig32_pows();
    lemma_binade_shape(x, 1, 0);
    lemma_binade_shape(y, 1, 0);
    let bx = binade(x, 1, 0);
    let by = binade(y, 1, 0);
    if bx.2 > by.2 {
        if bx.2 >= 0 && bx.0 == x && bx.1 == two_pow(bx.2 as nat) {
            let p = bx.2 as nat;
            if by.2 >= 0 && by.0 == y && by.1 == two_pow(by.2 as nat) {
                let q = by.2 as nat;
                lemma_two_pow_succ(q);
                lemma_two_pow_mono(q + 1, p);
                assert(SIG32_MIN * two_pow(p) >= SIG32_END * two_pow(q)) by (nonlinear_arith)
                    requires
                        two_pow(p) >= 2 * two_pow(q),
                ;
            } else {
                let c = (-by.2) as nat;
                assert(by.1 == 1 && by.0 == y * two_pow(c));
                lemma_two_pow_pos(p);
                if p >= 1 {
                    lemma_two_pow_mono(1, p);
                    assert(two_pow(1) == 2) by {
                        reveal_with_fuel(two_pow, 2);
                    }
                    assert(SIG32_MIN * two_pow(p) >= SIG32_END) by (nonlinear_arith)
                        requires
                            two_pow(p) >= 2,
                    ;
                    lemma_two_pow_pos(c);
                    assert(y <= y * two_pow(c)) by (nonlinear_arith)
                        requires
                            two_pow(c) >= 1,
                    ;
                } else {
                    assert(c >= 1);
                    lemma_two_pow_mono(1, c);
                    assert(two_pow(1) == 2) by {
                        reveal_with_fuel(two_pow, 2);
                    }
                    assert(2 * y <= y * two_pow(c)) by (nonlinear_arith)
                        requires
                            two_pow(c) >= 2,
                    ;
                    assert(two_pow(p) == 1);
                }
            }
        } else {
            let a = (-bx.2) as nat;
            assert(bx.1 == 1 && bx.0 == x * two_pow(a));
            let c = (-by.2) as nat;
            assert(by.1 == 1 && by.0 == y * two_pow(c));
            lemma_two_pow_succ(a);
            lemma_two_pow_mono(a + 1, c);
            assert(y * two_pow(c) >= 2 * (x * two_pow(a))) by (nonlinear_arith)
                requires
                    two_pow(c) >= 2 * two_pow(a),
                    x <= y,
            ;
        }
    }
}

/// Converting integers to binary32 keeps their order.
pub proof fn lemma_from_int_le(x: nat, y: nat)
    requires
        x <= y,
    ensures
        f32_le(f32_from_int(x), f32_from_int(y)),
{
    if x >= 1 {
        lemma_binade_int_mono(x, y);
        lemma_binade_shape(x, 1, 0);
        lemma_binade_shape(y, 1, 0);
        lemma_nearest_sig(x, 1, 0);
        lemma_nearest_sig(y, 1, 0);
        let bx = binade(x, 1, 0);
        let by = binade(y, 1, 0);
        if bx.2 == by.2 {
            if bx.2 >= 0 {
                assert(two_pow(0) == 1);
                assert(bx.0 == x && bx.1 == two_pow(bx.2 as nat)) by {
                    if bx.2 == 0 {
                        assert((0 - bx.2) as nat == 0);
                        assert(bx.0 == x * two_pow(0) || bx.0 == x);
                    } else {
                        assert(bx.1 == 1 * two_pow((bx.2 - 0) as nat));
                    }
                }
                assert(by.0 == y && by.1 == two_pow(by.2 as nat)) by {
                    if by.2 == 0 {
                        assert((0 - by.2) as nat == 0);
                        assert(by.0 == y * two_pow(0) || by.0 == y);
                    } else {
                        assert(by.1 == 1 * two_pow((by.2 - 0) as nat));
                    }
                }
            } else {
                let a = (-bx.2) as nat;
                assert(bx.1 == 1 && by.1 == 1);
                assert(bx.0 == x * two_pow(a) && by.0 == y * two_pow(a));
                assert(x * two_pow(a) <= y * two_pow(a)) by (nonlinear_arith)
                    requires
                        x <= y,
                ;
            }
            lemma_round_mono(bx.0, by.0, bx.1);
            lemma_round_in_binade(bx.0, bx.1);
            lemma_round_in_binade(by.0, by.1);
        } else {
            lemma_round_in_binade(bx.0, bx.1);
            lemma_round_in_binade(by.0, by.1);
        }
    }
}

/// The quotient of two binary32 values, the first at most the second, is at most one.
pub proof fn lemma_div_at_most_one(x: (nat, int), y: (nat, int))
    requires
        x.0 == 0 || SIG32_MIN <= x.0 < SIG32_END,
        SIG32_MIN <= y.0 < SIG32_END,
        f32_le(x, y),
    ensures
        f32_le(f32_div(x, y), f32_one()),
{
    if x.0 != 0 {
        lemma_sig32_pows();
        lemma_nearest_ratio(x.0, y.0, x.1 - y.1);
        let k: nat = if x.0 < y.0 {
            24
        } else {
            23
        };
        let m = round_half_even_div(x.0 * two_pow(k), y.0);
        lemma_round_in_binade(x.0 * two_pow(k), y.0);
        if x.1 == y.1 && x.0 == y.0 {
            let c: nat = SIG32_MIN as nat;
            assert(k == 23);
            assert(two_pow(k) == c);
            assert(x.0 * two_pow(k) == c * y.0) by (nonlinear_arith)
                requires
                    x.0 == y.0,
                    two_pow(k) == c,
            ;
            assert((c * y.0) / y.0 == c && (c * y.0) % y.0 == 0) by (nonlinear_arith)
                requires
                    y.0 >= 1,
            ;
        }
    }
}

/// A 24-bit significand `m` scaled by `2^E`, written as `m * 2^(E - e)` times
/// `2^e` for some `e <= E`, is its own nearest value.
pub proof fn lemma_nearest_exact(m: nat, big_e: int, e: int)
    requires
        SIG32_MIN <= m < SIG32_END,
        e <= big_e,
    ensures
        nearest(m * two_pow((big_e - e) as nat), 1, e) == (m, big_e),
{
    let j = (big_e - e) as nat;
    lemma_two_pow_pos(j);
    let n = m * two_pow(j);
    assert(n >= 1) by (nonlinear_arith)
        requires
            n == m * two_pow(j),
            m >= 1,
            two_pow(j) >= 1,
    ;
    assert(SIG32_MIN * (1 * two_pow(j)) <= n < SIG32_END * (1 * two_pow(j))) by (nonlinear_arith)
        requires
            n == m * two_pow(j),
            SIG32_MIN <= m < SIG32_END,
            two_pow(j) >= 1,
    ;
    lemma_binade_at_den(n, 1, e, j);
    assert(n / two_pow(j) == m && n % two_pow(j) == 0) by (nonlinear_arith)
        requires
            n == m * two_pow(j),
            two_pow(j) >= 1,
    ;
}

/// `2^64`.
proof fn lemma_two_pow_64()
    ensures
        two_pow(64) == 0x1_0000_0000_0000_0000u128,
        two_pow(8) == 256,
{
    assert(two_pow(32) == 0x1_0000_0000) by {
        reveal_with_fuel(two_pow, 33);
    }
    assert(two_pow(8) == 256) by {
        reveal_with_fuel(two_pow, 9);
    }
    lemma_two_pow_add(32, 32);
}

/// `x as f32`.
pub fn from_int_exec(x: u64) -> (r: (u128, i64))
    ensures
        r.0 == f32_from_int(x as nat).0,
        r.1 == f32_from_int(x as nat).1,
        x == 0 ==> r.0 == 0 && r.1 == 0,
        x >= 1 ==> SIG32_MIN <= r.0 < SIG32_END && -23 <= r.1 <= 41,
        1 <= x < 256 ==> r.1 <= -15,
{
    proof {
        lemma_two_pow_64();
        assert(two_pow(0) == 1);
        if x >= 1 {
            lemma_nearest_int_range(x as nat, 0, 0, 64);
            if x < 256 {
                lemma_nearest_int_range(x as nat, 0, 0, 8);
            }
        }
    }
    nearest_exec(x as u128, 1, 0)
}

/// `x / y`.
pub fn div_exec(x: (u128, i64), y: (u128, i64)) -> (r: (u128, i64))
    requires
        x.0 == 0 || SIG32_MIN <= x.0 < SIG32_END,
        SIG32_MIN <= y.0 < SIG32_END,
        -0x80_0000_0000 <= x.1 <= 0x80_0000_0000,
        -0x80_0000_0000 <= y.1 <= 0x80_0000_0000,
    ensures
        r.0 == f32_div((x.0 as nat, x.1 as int), (y.0 as nat, y.1 as int)).0,
        r.1 == f32_div((x.0 as nat, x.1 as int), (y.0 as nat, y.1 as int)).1,
        x.0 == 0 ==> r.0 == 0 && r.1 == 0,
        x.0 != 0 ==> SIG32_MIN <= r.0 < SIG32_END && x.1 - y.1 - 24 <= r.1 <= x.1 - y.1 - 22,
{
    proof {
        if x.0 != 0 {
            lemma_nearest_ratio(x.0 as nat, y.0 as nat, x.1 - y.1);
            lemma_nearest_sig(x.0 as nat, y.0 as nat, x.1 - y.1);
        }
    }
    nearest_exec(x.0, y.0, x.1 - y.1)
}

/// `1.0 - t`, for `t` at most one.
pub fn one_minus_exec(t: (u128, i64)) -> (r: (u128, i64))
    requires
        t.0 == 0 ==> t.1 == 0,
        t.0 == 0 || SIG32_MIN <= t.0 < SIG32_END,
        f32_le((t.0 as nat, t.1 as int), f32_one()),
        t.1 >= -99,
    ensures
        r.0 == f32_one_minus((t.0 as nat, t.1 as int)).0,
        r.1 == f32_one_minus((t.0 as nat, t.1 as int)).1,
        r.0 == 0 ==> r.1 == 0,
        r.0 == 0 || (SIG32_MIN <= r.0 < SIG32_END && -47 <= r.1 <= -23),
{
    proof {
        lemma_sig32_pows();
        if t.0 != 0 && t.1 < -23 {
            lemma_two_pow_mono(24, (-t.1) as nat);
        }
    }
    let p = two_pow_exec((-t.1) as u32);
    let n = p - t.0;
    proof {
        lemma_two_pow_le_112((-t.1) as nat);
        if n >= 1 {
            lemma_nearest_sig(n as nat, 1, t.1 as int);
            if t.0 == 0 {
                assert(n == 1);
                assert(two_pow(0) == 1);
                lemma_binade_at_num(1, 1, 0, 23);
            } else {
                lemma_nearest_int_range(n as nat, t.1 as int, 0, (-t.1) as nat);
                if t.1 <= -25 {
                    let h = (-t.1 - 1) as nat;
                    lemma_two_pow_succ(h);
                    lemma_two_pow_mono(24, h);
                    assert((h + 1) == (-t.1) as nat);
                    lemma_nearest_int_range(n as nat, t.1 as int, h, (-t.1) as nat);
                }
            }
        }
    }
    nearest_exec(n, 1, t.1)
}

/// `x * y`.
pub fn mul_exec(x: (u128, i64), y: (u128, i64)) -> (r: (u128, i64))
    requires
        x.0 == 0 || SIG32_MIN <= x.0 < SIG32_END,
        y.0 == 0 || SIG32_MIN <= y.0 < SIG32_END,
        -0x80_0000_0000 <= x.1 <= 0x80_0000_0000,
        -0x80_0000_0000 <= y.1 <= 0x80_0000_0000,
    ensures
        r.0 == f32_mul((x.0 as nat, x.1 as int), (y.0 as nat, y.1 as int)).0,
        r.1 == f32_mul((x.0 as nat, x.1 as int), (y.0 as nat, y.1 as int)).1,
        x.0 == 0 || y.0 == 0 ==> r.0 == 0 && r.1 == 0,
        x.0 != 0 && y.0 != 0 ==> SIG32_MIN <= r.0 < SIG32_END && x.1 + y.1 + 23 <= r.1 <= x.1 + y.1 + 25,
{
    assert(x.0 * y.0 < SIG32_END * SIG32_END) by (nonlinear_arith)
        requires
            x.0 < SIG32_END,
            y.0 < SIG32_END,
    ;
    let n = x.0 * y.0;
    proof {
        if x.0 != 0 && y.0 != 0 {
            lemma_sig32_pows();
            lemma_two_pow_add(23, 23);
            lemma_two_pow_add(24, 24);
            assert(SIG32_MIN * SIG32_MIN <= n) by (nonlinear_arith)
                requires
                    n == x.0 * y.0,
                    SIG32_MIN <= x.0,
                    SIG32_MIN <= y.0,
            ;
            lemma_nearest_int_range(n as nat, x.1 + y.1, 46, 48);
            lemma_nearest_sig(n as nat, 1, x.1 + y.1);
        } else {
            assert(n == 0) by (nonlinear_arith)
                requires
                    n == x.0 * y.0,
                    x.0 == 0 || y.0 == 0,
            ;
        }
    }
    nearest_exec(n, 1, x.1 + y.1)
}

/// `x + y`, for exponents at most 96 apart.
pub fn add_exec(x: (u128, i64), y: (u128, i64)) -> (r: (u128, i64))
    requires
        x.0 == 0 ==> x.1 == 0,
        y.0 == 0 ==> y.1 == 0,
        x.0 == 0 || SIG32_MIN <= x.0 < SIG32_END,
        y.0 == 0 || SIG32_MIN <= y.0 < SIG32_END,
        -0x80_0000_0000 <= x.1 <= 0x80_0000_0000,
        -0x80_0000_0000 <= y.1 <= 0x80_0000_0000,
        x.0 != 0 && y.0 != 0 ==> -96 <= x.1 - y.1 <= 96,
    ensures
        r.0 == f32_add((x.0 as nat, x.1 as int), (y.0 as nat, y.1 as int)).0,
        r.1 == f32_add((x.0 as nat, x.1 as int), (y.0 as nat, y.1 as int)).1,
        r.0 == 0 || SIG32_MIN <= r.0 < SIG32_END,
{
    let e: i64 = if x.1 <= y.1 {
        x.1
    } else {
        y.1
    };
    if x.0 == 0 {
        proof {
            assert(0 * two_pow((x.1 - e) as nat) == 0);
            if y.0 != 0 {
                lemma_nearest_exact(y.0 as nat, y.1 as int, e as int);
            } else {
                assert(0 * two_pow((y.1 - e) as nat) == 0);
            }
        }
        return y;
    }
    if y.0 == 0 {
        proof {
            assert(0 * two_pow((y.1 - e) as nat) == 0);
            lemma_nearest_exact(x.0 as nat, x.1 as int, e as int);
        }
        return x;
    }
    let px = two_pow_exec((x.1 - e) as u32);
    let py = two_pow_exec((y.1 - e) as u32);
    proof {
        lemma_two_pow_mono((x.1 - e) as nat, 96);
        lemma_two_pow_mono((y.1 - e) as nat, 96);
        lemma_two_pow_add(24, 96);
        lemma_sig32_pows();
        lemma_two_pow_124();
        lemma_two_pow_succ(120);
        lemma_two_pow_add(120, 4);
        assert(two_pow(4) == 16) by {
            reveal_with_fuel(two_pow, 5);
        }
        assert(x.0 * px <= SIG32_END * two_pow(96)) by (nonlinear_arith)
            requires
                x.0 < SIG32_END,
                px <= two_pow(96),
        ;
        assert(y.0 * py <= SIG32_END * two_pow(96)) by (nonlinear_arith)
            requires
                y.0 < SIG32_END,
                py <= two_pow(96),
        ;
    }
    let n = x.0 * px + y.0 * py;
    proof {
        lemma_two_pow_pos((x.1 - e) as nat);
        assert(n >= 1) by (nonlinear_arith)
            requires
                n == x.0 * px + y.0 * py,
                x.0 >= 1,
                px >= 1,
        ;
    }
    nearest_exec(n, 1, e)
}

/// `x as u8`: the integer part of `x`, at most 255.
pub fn to_u8_exec(x: (u128, i64)) -> (r: u8)
    requires
        x.0 == 0 || SIG32_MIN <= x.0 < SIG32_END,
    ensures
        r == f32_to_u8((x.0 as nat, x.1 as int)),
{
    proof {
        lemma_sig32_pows();
    }
    if x.0 == 0 {
        proof {
            if x.1 >= 0 {
                assert(0 * two_pow(x.1 as nat) == 0);
            } else {
                lemma_two_pow_pos((-x.1) as nat);
                assert(0nat / two_pow((-x.1) as nat) == 0);
            }
        }
        return 0;
    }
    if x.1 >= 0 {
        proof {
            lemma_two_pow_pos(x.1 as nat);
            assert(x.0 * two_pow(x.1 as nat) >= x.0) by (nonlinear_arith)
                requires
                    two_pow(x.1 as nat) >= 1,
            ;
        }
        return 255;
    }
    if x.1 <= -24 {
        proof {
            lemma_two_pow_mono(24, (-x.1) as nat);
            let m: nat = x.0 as nat;
            assert(m / two_pow((-x.1) as nat) == 0) by (nonlinear_arith)
                requires
                    m < two_pow((-x.1) as nat),
            ;
        }
        return 0;
    }
    let p = two_pow_exec((-x.1) as u32);
    proof {
        lemma_two_pow_pos((-x.1) as nat);
    }
    let v = x.0 / p;
    if v > 255 {
        255
    } else {
        v as u8
    }
}

/// Multiplying by one, adding zero and dividing a value by itself are exact;
/// `1.0 - 0.0` is one and `1.0 - 1.0` is zero.
pub proof fn lemma_unit_ops(x: (nat, int))
    requires
        SIG32_MIN <= x.0 < SIG32_END,
    ensures
        f32_mul(x, f32_one()) == x,
        f32_mul(x, (0, 0)) == (0nat, 0int),
        f32_add(x, (0, 0)) == x,
        f32_add((0, 0), x) == x,
        f32_div(x, x) == f32_one(),
        f32_one_minus((0, 0)) == f32_one(),
        f32_one_minus(f32_one()) == (0nat, 0int),
{
    lemma_sig32_pows();
    assert(two_pow(0) == 1);
    let one: nat = SIG32_MIN as nat;
    assert(x.0 * one == x.0 * two_pow(23));
    lemma_nearest_exact(x.0, x.1, x.1 - 23);
    assert((x.1 - (x.1 - 23)) as nat == 23);
    assert(x.0 * 0 == 0);
    if x.1 <= 0 {
        lemma_nearest_exact(x.0, x.1, x.1);
        assert((x.1 - x.1) as nat == 0);
        assert(x.0 * two_pow(0) == x.0);
        assert(0 * two_pow((0 - x.1) as nat) == 0);
    } else {
        lemma_nearest_exact(x.0, x.1, 0);
        assert(0 * two_pow(0) == 0);
    }
    lemma_nearest_ratio(x.0, x.0, 0);
    assert((one * x.0) / x.0 == one && (one * x.0) % x.0 == 0) by (nonlinear_arith)
        requires
            x.0 >= 1,
    ;
    assert(x.0 * two_pow(23) == one * x.0);
    lemma_binade_at_num(1, 1, 0, 23);
    assert(one / 1 == one && one % 1 == 0);
}

/// A byte converted to binary32 and back is unchanged.
pub proof fn lemma_byte_round_trip(a: u8)
    ensures
        f32_to_u8(f32_from_int(a as nat)) == a,
        a == 0 ==> f32_from_int(a as nat) == (0nat, 0int),
        a != 0 ==> SIG32_MIN <= f32_from_int(a as nat).0 < SIG32_END && f32_from_int(a as nat).1 <= 0,
{
    if a != 0 {
        lemma_sig32_pows();
        lemma_binade_shape(a as nat, 1, 0);
        let b = binade(a as nat, 1, 0);
        if b.2 >= 0 && b.0 == a && b.1 == two_pow(b.2 as nat) {
            lemma_two_pow_pos(b.2 as nat);
            assert(SIG32_MIN * two_pow(b.2 as nat) >= SIG32_MIN) by (nonlinear_arith)
                requires
                    two_pow(b.2 as nat) >= 1,
            ;
            assert(false);
        }
        let k = (-b.2) as nat;
        assert(b.1 == 1 && b.0 == a * two_pow(k));
        assert(b.0 / 1 == b.0 && b.0 % 1 == 0);
        assert(round_half_even_div(b.0, 1) == b.0);
        lemma_two_pow_pos(k);
        let an: nat = a as nat;
        assert((an * two_pow(k)) / two_pow(k) == an) by (nonlinear_arith)
            requires
                two_pow(k) >= 1,
        ;
    }
}

} // verus!
