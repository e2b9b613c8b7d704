//! How often a counting loop runs. The number is computed in single precision: every intermediate
//! result is rounded to a significand of 24 bits, to the nearest such number, ties to even.
use vstd::arithmetic::div_mod::lemma_fundamental_div_mod;
use vstd::arithmetic::power2::lemma_pow2_pos;
use vstd::arithmetic::power2::lemma_pow2_unfold;
use vstd::arithmetic::power2::pow2;
use vstd::prelude::*;

verus! {

/// The first number that does not fit a significand.
pub const SIGNIFICAND_END: u128 = 0x100_0000;

/// `p` divided by `q`, rounded to the nearest whole number, ties to even.
pub open spec fn half_even(p: nat, q: nat) -> nat {
    let f = p / q;
    let r = p % q;
    if 2 * r < q {
        f
    } else if 2 * r > q {
        f + 1
    } else {
        f + f % 2
    }
}

/// How many low bits of `n` a significand cannot hold.
pub open spec fn spare_bits(n: nat) -> nat
    decreases n,
{
    if n < SIGNIFICAND_END {
        0
    } else {
        1 + spare_bits(n / 2)
    }
}

/// `n` rounded to single precision.
pub open spec fn round_nat(n: nat) -> nat {
    let u = pow2(spare_bits(n));
    half_even(n, u) * u
}

/// `x` rounded to single precision.
pub open spec fn single(x: int) -> int {
    if x < 0 {
        -(round_nat((-x) as nat) as int)
    } else {
        round_nat(x as nat) as int
    }
}

/// How often `a` can be doubled while it stays below `SIGNIFICAND_END` times `b`.
pub open spec fn doublings(a: nat, b: nat) -> nat
    decreases SIGNIFICAND_END * b - a,
{
    if a == 0 || 2 * a >= SIGNIFICAND_END * b {
        0
    } else {
        1 + doublings(2 * a, b)
    }
}

/// `a` divided by `b`, with a minus sign where `negative`, rounded to single precision and then up
/// to a whole number.
pub open spec fn quotient_up(a: nat, b: nat, negative: bool) -> int {
    if a >= SIGNIFICAND_END * b {
        let u = pow2(spare_bits(a / b));
        let v = (half_even(a, b * u) * u) as int;
        if negative {
            -v
        } else {
            v
        }
    } else {
        let u = pow2(doublings(a, b));
        let m = half_even(a * u, b);
        if negative {
            -((m / u) as int)
        } else {
            ((m + u - 1) / (u as int)) as int
        }
    }
}

/// The absolute value of `x`.
pub open spec fn magnitude(x: int) -> nat {
    if x < 0 {
        (-x) as nat
    } else {
        x as nat
    }
}

/// `x`, or the nearest 32-bit integer where `x` is none.
pub open spec fn clamp_i32(x: int) -> int {
    if x > i32::MAX {
        i32::MAX as int
    } else if x < i32::MIN {
        i32::MIN as int
    } else {
        x
    }
}

/// How often a loop runs that counts from `start` by `step` until it reaches `end`.
pub open spec fn trips(start: int, end: int, step: int) -> int {
    let n = single(single(end) - single(start));
    let d = single(step);
    if d == 0 {
        if n == 0 {
            0
        } else if n > 0 {
            i32::MAX as int
        } else {
            i32::MIN as int
        }
    } else {
        clamp_i32(quotient_up(magnitude(n), magnitude(d), (n < 0) != (d < 0)))
    }
}

fn get_half_even(p: u128, q: u128) -> (r: u128)
    requires
        0 < q <= 0x1_0000_0000_0000_0000_0000,
        p <= 0x1_0000_0000_0000_0000_0000,
    ensures
        r == half_even(p as nat, q as nat),
        r <= p + 1,
{
    let f: u128 = p / q;
    let m: u128 = p % q;
    assert(f <= p) by (nonlinear_arith)
        requires
            f == p / q,
            q >= 1,
    ;
    if 2 * m < q {
        f
    } else if 2 * m > q {
        f + 1
    } else {
        f + f % 2
    }
}

/// Computes two to the power of the spare bits of `n`.
fn spare_unit(n: u128) -> (r: u128)
    requires
        n <= 0x2_0000_0000,
    ensures
        r == pow2(spare_bits(n as nat)),
        1 <= r <= 0x400,
{
    let mut m: u128 = n;
    let mut u: u128 = 1;
    let ghost mut k: nat = 0;
    proof {
        vstd::arithmetic::power2::lemma2_to64();
    }
    while m >= SIGNIFICAND_END
        invariant
            n <= 0x2_0000_0000,
            u == pow2(k),
            spare_bits(n as nat) == k + spare_bits(m as nat),
            1 <= u <= 0x400,
            u * m <= n,
        decreases m,
    {
        assert(u <= 0x200) by (nonlinear_arith)
            requires
                u * m <= 0x2_0000_0000,
                m >= 0x100_0000,
        ;
        assert((u * 2) * (m / 2) <= u * m) by (nonlinear_arith)
            requires
                u >= 1,
        ;
        proof {
            lemma_pow2_unfold(k + 1);
            k = k + 1;
        }
        m = m / 2;
        u = u * 2;
    }
    u
}

fn get_round(n: u128) -> (r: u128)
    requires
        n <= 0x1_0000_0000,
    ensures
        r == round_nat(n as nat),
        r <= 0x1_0000_0000,
{
    let u: u128 = spare_unit(n);
    let h: u128 = get_half_even(n, u);
    proof {
        lemma_round_bound(n as nat, spare_bits(n as nat));
    }
    h * u
}

/// Rounding to a multiple of a power of two does not pass a larger power of two.
proof fn lemma_round_bound(n: nat, k: nat)
    requires
        n <= 0x1_0000_0000,
        1 <= pow2(k) <= 0x400,
    ensures
        half_even(n, pow2(k)) * pow2(k) <= 0x1_0000_0000,
{
    let u = pow2(k);
    assert(k <= 10) by {
        if k > 10 {
            vstd::arithmetic::power2::lemma2_to64();
            vstd::arithmetic::power2::lemma_pow2_strictly_increases(10, k);
        }
    }
    vstd::arithmetic::power2::lemma2_to64();
    let top = pow2((32 - k) as nat);
    vstd::arithmetic::power2::lemma_pow2_adds(k, (32 - k) as nat);
    assert(u * top == 0x1_0000_0000);
    lemma_half_even_at_most(n, u, top);
    assert(half_even(n, u) * u <= top * u) by (nonlinear_arith)
        requires
            half_even(n, u) <= top,
    ;
    assert(top * u == u * top) by (nonlinear_arith);
}

/// What is at most a whole number rounds to at most that number.
proof fn lemma_half_even_at_most(p: nat, q: nat, m: nat)
    requires
        q > 0,
        p <= m * q || p <= q * m,
    ensures
        half_even(p, q) <= m,
{
    let f = p / q;
    let r = p % q;
    lemma_fundamental_div_mod(p as int, q as int);
    assert(m * q == q * m) by (nonlinear_arith);
    if f >= m {
        assert(f == m && r == 0) by (nonlinear_arith)
            requires
                f >= m,
                p == q * f + r,
                p <= q * m,
                0 <= r,
                q > 0,
        ;
    }
}

/// What is at least a whole number rounds to at least that number.
proof fn lemma_half_even_at_least(p: nat, q: nat, m: nat)
    requires
        q > 0,
        p >= m * q,
    ensures
        half_even(p, q) >= m,
{
    let f = p / q;
    lemma_fundamental_div_mod(p as int, q as int);
    assert(f >= m) by (nonlinear_arith)
        requires
            p == q * f + p % q,
            p % q < q,
            p >= m * q,
            q > 0,
    ;
}

fn get_single(x: i64) -> (r: i64)
    requires
        -0x1_0000_0000 <= x <= 0x1_0000_0000,
    ensures
        r == single(x as int),
        -0x1_0000_0000 <= r <= 0x1_0000_0000,
{
    if x < 0 {
        -(get_round((-x) as u128) as i64)
    } else {
        get_round(x as u128) as i64
    }
}

fn get_quotient_up(a: u128, b: u128, negative: bool) -> (r: i128)
    requires
        a <= 0x1_0000_0000,
        1 <= b <= 0x1_0000_0000,
    ensures
        r == quotient_up(a as nat, b as nat, negative),
{
    if a >= SIGNIFICAND_END * b {
        assert(a / b <= a) by (nonlinear_arith)
            requires
                b >= 1,
        ;
        let u: u128 = spare_unit(a / b);
        assert(1 <= b * u <= 0x1_0000_0000 * 0x400) by (nonlinear_arith)
            requires
                1 <= b <= 0x1_0000_0000,
                1 <= u <= 0x400,
        ;
        let h: u128 = get_half_even(a, b * u);
        assert(0 <= h * u <= 0x1_0000_0001 * 0x400) by (nonlinear_arith)
            requires
                0 <= h <= 0x1_0000_0001,
                0 <= u <= 0x400,
        ;
        let v: i128 = (h * u) as i128;
        if negative {
            -v
        } else {
            v
        }
    } else {
        let mut c: u128 = a;
        let mut u: u128 = 1;
        let ghost mut k: nat = 0;
        proof {
            vstd::arithmetic::power2::lemma2_to64();
        }
        while c != 0 && 2 * c < SIGNIFICAND_END * b
            invariant
                1 <= b <= 0x1_0000_0000,
                c < SIGNIFICAND_END * b,
                c == a * u,
                u == pow2(k),
                doublings(a as nat, b as nat) == k + doublings(c as nat, b as nat),
                1 <= u,
                u == 1 || u <= c,
            decreases SIGNIFICAND_END * b - c,
        {
            assert(a * (u * 2) == 2 * (a * u)) by (nonlinear_arith);
            assert(u <= c) by (nonlinear_arith)
                requires
                    c == a * u,
                    c != 0,
                    u >= 1,
            ;
            proof {
                lemma_pow2_unfold(k + 1);
                k = k + 1;
            }
            c = 2 * c;
            u = u * 2;
        }
        let m: u128 = get_half_even(c, b);
        if negative {
            assert(m / u <= m) by (nonlinear_arith)
                requires
                    u >= 1,
            ;
            -((m / u) as i128)
        } else {
            assert((m + u - 1) / (u as int) <= m + u - 1) by (nonlinear_arith)
                requires
                    u >= 1,
            ;
            ((m + u - 1) / u) as i128
        }
    }
}

/// Computes how often a loop runs that counts from `start` by `step` until it reaches `end`.
pub fn trip_count(start: i32, end: i32, step: i32) -> (r: i32)
    ensures
        r == trips(start as int, end as int, step as int),
{
    let e: i64 = get_single_i32(end);
    let s: i64 = get_single_i32(start);
    let n: i64 = get_single(e - s);
    let d: i64 = get_single_i32(step);
    if d == 0 {
        if n == 0 {
            0
        } else if n > 0 {
            i32::MAX
        } else {
            i32::MIN
        }
    } else {
        let a: u128 = if n < 0 {
            (-n) as u128
        } else {
            n as u128
        };
        let b: u128 = if d < 0 {
            (-d) as u128
        } else {
            d as u128
        };
        let q: i128 = get_quotient_up(a, b, (n < 0) != (d < 0));
        if q > i32::MAX as i128 {
            i32::MAX
        } else if q < i32::MIN as i128 {
            i32::MIN
        } else {
            q as i32
        }
    }
}

fn get_single_i32(x: i32) -> (r: i64)
    ensures
        r == single(x as int),
        -0x8000_0000 <= r <= 0x8000_0000,
{
    proof {
        lemma_single_i32(x as int);
    }
    get_single(x as i64)
}

/// Rounding a 32-bit integer does not pass the bounds of such integers.
proof fn lemma_single_i32(x: int)
    requires
        -0x8000_0000 <= x <= 0x8000_0000,
    ensures
        -0x8000_0000 <= single(x) <= 0x8000_0000,
{
    let n = magnitude(x);
    let k = spare_bits(n);
    vstd::arithmetic::power2::lemma2_to64();
    lemma_spare_bits(n, 7);
    let top = pow2((31 - k) as nat);
    vstd::arithmetic::power2::lemma_pow2_adds(k, (31 - k) as nat);
    lemma_pow2_pos(k);
    lemma_half_even_at_most(n, pow2(k), top);
    assert(half_even(n, pow2(k)) * pow2(k) <= top * pow2(k)) by (nonlinear_arith)
        requires
            half_even(n, pow2(k)) <= top,
    ;
    assert(top * pow2(k) == pow2(k) * top) by (nonlinear_arith);
}

/// A number below two to the power of 24 + `m` + 1 has at most `m` + 1 spare bits.
proof fn lemma_spare_bits(n: nat, m: nat)
    requires
        n < pow2(25 + m),
    ensures
        spare_bits(n) <= m + 1,
    decreases m,
{
    vstd::arithmetic::power2::lemma2_to64();
    if n >= SIGNIFICAND_END {
        if m == 0 {
            assert(spare_bits(n / 2) == 0);
        } else {
            lemma_pow2_unfold(25 + m);
            lemma_spare_bits(n / 2, (m - 1) as nat);
        }
    }
}

/// `x` divided by `d`, rounded up.
pub open spec fn ceil_div(x: int, d: int) -> int {
    if d > 0 {
        -((-x) / d)
    } else {
        -(x / (-d))
    }
}

/// What `doublings` stops at: one more doubling would pass the bound.
proof fn lemma_doublings(a: nat, b: nat)
    requires
        0 < a < SIGNIFICAND_END * b,
    ensures
        2 * (a * pow2(doublings(a, b))) >= SIGNIFICAND_END * b,
    decreases SIGNIFICAND_END * b - a,
{
    vstd::arithmetic::power2::lemma2_to64();
    if 2 * a < SIGNIFICAND_END * b {
        lemma_doublings(2 * a, b);
        let k = doublings(2 * a, b);
        lemma_pow2_unfold(k + 1);
        assert(doublings(a, b) == k + 1);
        assert((2 * a) * pow2(k) == a * (2 * pow2(k))) by (nonlinear_arith);
    } else {
        assert(doublings(a, b) == 0);
        assert(a * 1 == a);
    }
}

/// Rounding to single precision does not carry a quotient of a small number over a whole number.
proof fn lemma_quotient_exact(a: nat, b: nat)
    requires
        a < SIGNIFICAND_END,
        b > 0,
    ensures
        quotient_up(a, b, false) == ceil_div(a as int, b as int),
        quotient_up(a, b, true) == ceil_div(-(a as int), b as int),
{
    assert(SIGNIFICAND_END * b >= SIGNIFICAND_END) by (nonlinear_arith)
        requires
            b >= 1,
    ;
    let u = pow2(doublings(a, b));
    lemma_pow2_pos(doublings(a, b));
    let m = half_even(a * u, b);
    let f = a / b;
    let r = a % b;
    lemma_fundamental_div_mod(a as int, b as int);
    lemma_neg_div(a, b);
    if a == 0 {
        assert(0 * u == 0) by (nonlinear_arith);
        assert(0nat / b == 0) by (nonlinear_arith)
            requires
                b > 0,
        ;
        assert(0nat % b == 0) by (nonlinear_arith)
            requires
                b > 0,
        ;
        assert(m == 0);
        assert((u - 1) / (u as int) == 0) by (nonlinear_arith)
            requires
                u > 0,
        ;
        assert(0nat / u == 0) by (nonlinear_arith)
            requires
                u > 0,
        ;
    } else {
        lemma_doublings(a, b);
        // A doubling more passes the bound, so twice the unit is greater than the divisor.
        assert(2 * u > b) by (nonlinear_arith)
            requires
                2 * (a * u) >= 0x100_0000 * b,
                a < 0x100_0000,
                a > 0,
                b > 0,
        ;
        assert(a * u == (f * u) * b + r * u) by (nonlinear_arith)
            requires
                a == b * f + r,
        ;
        assert(r * u >= 0) by (nonlinear_arith)
            requires
                r >= 0,
                u >= 0,
        ;
        lemma_half_even_at_least(a * u, b, f * u);
        if r == 0 {
            assert(a * u <= (f * u) * b);
            lemma_half_even_at_most(a * u, b, f * u);
            assert(m == f * u);
            assert((f * u) / u == f) by (nonlinear_arith)
                requires
                    u > 0,
            ;
            assert((f * u + u - 1) / (u as int) == f) by (nonlinear_arith)
                requires
                    u > 0,
            ;
        } else {
            assert(r * u >= u) by (nonlinear_arith)
                requires
                    r >= 1,
                    u >= 0,
            ;
            assert((f + 1) * u * b == (f * u) * b + u * b) by (nonlinear_arith);
            assert(r * u + u <= u * b) by (nonlinear_arith)
                requires
                    r + 1 <= b,
                    u >= 0,
            ;
            lemma_half_even_above(a * u, b, f * u);
            lemma_half_even_below(a * u, b, (f + 1) * u);
            assert(f * u < m < (f + 1) * u);
            assert(m / u == f) by (nonlinear_arith)
                requires
                    u > 0,
                    f * u < m < (f + 1) * u,
            ;
            assert((m + u - 1) / (u as int) == f + 1) by (nonlinear_arith)
                requires
                    u > 0,
                    f * u < m < (f + 1) * u,
            ;
        }
    }
}

/// The quotient of a negative number, rounded down.
proof fn lemma_neg_div(a: nat, b: nat)
    requires
        b > 0,
    ensures
        (-(a as int)) / (b as int) == (if a % b == 0 {
            -((a / b) as int)
        } else {
            -((a / b) as int) - 1
        }),
{
    lemma_fundamental_div_mod(a as int, b as int);
    let q = (a / b) as int;
    let r = (a % b) as int;
    let d = b as int;
    if r == 0 {
        assert(-(a as int) == d * (-q) + 0) by (nonlinear_arith)
            requires
                a == d * q,
        ;
        vstd::arithmetic::div_mod::lemma_fundamental_div_mod_converse(-(a as int), d, -q, 0);
    } else {
        assert(-(a as int) == d * (-q - 1) + (d - r)) by (nonlinear_arith)
            requires
                a == d * q + r,
        ;
        vstd::arithmetic::div_mod::lemma_fundamental_div_mod_converse(
            -(a as int),
            d,
            -q - 1,
            d - r,
        );
    }
}

/// More than half above a whole number rounds to more than that number.
proof fn lemma_half_even_above(p: nat, q: nat, m: nat)
    requires
        q > 0,
        2 * p > 2 * (m * q) + q,
    ensures
        half_even(p, q) > m,
{
    let f = p / q;
    lemma_fundamental_div_mod(p as int, q as int);
    assert(f >= m) by (nonlinear_arith)
        requires
            p == q * f + p % q,
            p % q < q,
            2 * p > 2 * (m * q) + q,
            q > 0,
    ;
    if f == m {
        assert(q * f == m * q) by (nonlinear_arith)
            requires
                f == m,
        ;
    }
}

/// More than half below a whole number rounds to less than that number.
proof fn lemma_half_even_below(p: nat, q: nat, m: nat)
    requires
        q > 0,
        2 * p + q < 2 * (m * q),
    ensures
        half_even(p, q) < m,
{
    let f = p / q;
    lemma_fundamental_div_mod(p as int, q as int);
    assert(f < m) by (nonlinear_arith)
        requires
            p == q * f + p % q,
            0 <= p % q,
            2 * p + q < 2 * (m * q),
            q > 0,
    ;
    if f == m - 1 {
        assert(q * f == m * q - q) by (nonlinear_arith)
            requires
                f == m - 1,
        ;
    }
}

/// A number that fits a significand is not rounded.
proof fn lemma_single_exact(x: int)
    requires
        -SIGNIFICAND_END <= x <= SIGNIFICAND_END,
    ensures
        single(x) == x,
{
    let n = magnitude(x);
    vstd::arithmetic::power2::lemma2_to64();
    if n == SIGNIFICAND_END {
        assert(spare_bits(n / 2) == 0);
        assert(spare_bits(n) == 1);
        assert(half_even(n, 2) == n / 2);
        assert(round_nat(n) == n);
    } else {
        assert(pow2(spare_bits(n)) == 1);
        assert(half_even(n, 1) == n);
        assert(n * 1 == n);
        assert(round_nat(n) == n);
    }
}

/// Where the bounds and the step are at most two to the power of 24, and the bounds are closer than
/// that, the number of rounds is exact: the distance divided by the step, rounded up.
pub proof fn law_trips_exact(start: int, end: int, step: int)
    requires
        -SIGNIFICAND_END <= start <= SIGNIFICAND_END,
        -SIGNIFICAND_END <= end <= SIGNIFICAND_END,
        -SIGNIFICAND_END <= step <= SIGNIFICAND_END,
        -SIGNIFICAND_END < end - start < SIGNIFICAND_END,
        step != 0,
    ensures
        trips(start, end, step) == ceil_div(end - start, step),
{
    lemma_single_exact(start);
    lemma_single_exact(end);
    lemma_single_exact(step);
    lemma_single_exact(end - start);
    let n = end - start;
    let a = magnitude(n);
    let b = magnitude(step);
    lemma_quotient_exact(a, b);
    let q = quotient_up(a, b, (n < 0) != (step < 0));
    assert(q == ceil_div(n, step));
    assert(0 <= a / b <= a) by (nonlinear_arith)
        requires
            b >= 1,
            a >= 0,
    ;
    lemma_neg_div(a, b);
    assert(clamp_i32(q) == q);
}

/// Where numbers are small enough to be exact, a loop that counts up runs for as long as the
/// counter is below the end, and one that counts down for as long as it is above.
pub proof fn law_trips_are_the_rounds_of_the_loop(start: int, end: int, step: int, k: int)
    requires
        -SIGNIFICAND_END <= start <= SIGNIFICAND_END,
        -SIGNIFICAND_END <= end <= SIGNIFICAND_END,
        -SIGNIFICAND_END <= step <= SIGNIFICAND_END,
        -SIGNIFICAND_END < end - start < SIGNIFICAND_END,
        step != 0,
        k >= 0,
    ensures
        step > 0 ==> (k < trips(start, end, step) <==> start + k * step < end),
        step < 0 ==> (k < trips(start, end, step) <==> start + k * step > end),
{
    law_trips_exact(start, end, step);
    let d = if step > 0 {
        step
    } else {
        -step
    };
    let x = if step > 0 {
        end - start
    } else {
        start - end
    };
    let n = trips(start, end, step);
    assert(n == -((-x) / d));
    let q = (-x) / d;
    let r = (-x) % d;
    lemma_fundamental_div_mod(-x, d);
    assert(0 <= r < d);
    assert(k < n <==> k * d < x) by (nonlinear_arith)
        requires
            d > 0,
            -x == d * q + r,
            0 <= r < d,
            n == -q,
    {
        if k < n {
            assert(k * d <= (n - 1) * d) by (nonlinear_arith)
                requires
                    k <= n - 1,
                    d > 0,
            ;
            assert((n - 1) * d == -(d * q) - d) by (nonlinear_arith)
                requires
                    n == -q,
            ;
        } else {
            assert(k * d >= n * d) by (nonlinear_arith)
                requires
                    k >= n,
                    d > 0,
            ;
            assert(n * d == -(d * q)) by (nonlinear_arith)
                requires
                    n == -q,
            ;
        }
    }
    if step < 0 {
        assert(k * d == -(k * step)) by (nonlinear_arith)
            requires
                d == -step,
        ;
    }
}

/// A loop that counts the other way between mirrored bounds runs as often.
pub proof fn law_mirrored_loop_runs_as_often(start: int, end: int, step: int)
    requires
        single(step) != 0,
    ensures
        trips(-start, -end, -step) == trips(start, end, step),
{
    lemma_single_odd(start);
    lemma_single_odd(end);
    lemma_single_odd(step);
    lemma_single_odd(single(end) - single(start));
    let n = single(single(end) - single(start));
    let b = magnitude(single(step));
    if n == 0 {
        assert(0nat % b == 0 && 0nat / b == 0) by (nonlinear_arith)
            requires
                b > 0,
        ;
        vstd::arithmetic::power2::lemma2_to64();
        assert(doublings(0, b) == 0);
        assert(half_even(0, b) == 0);
        assert(0nat * pow2(0) == 0);
        assert(quotient_up(0, b, true) == 0);
        assert(quotient_up(0, b, false) == 0);
    }
}

/// Rounding does not depend on the sign.
proof fn lemma_single_odd(x: int)
    ensures
        single(-x) == -single(x),
{
    if x == 0 {
        vstd::arithmetic::power2::lemma2_to64();
        assert(spare_bits(0) == 0);
        assert(half_even(0, 1) == 0);
        assert(round_nat(0) == 0);
    }
}

/// A loop with a step of zero does not run where it starts at its end, runs as often as a number of
/// rounds can say where its end is ahead, and not at all where its end is behind.
pub proof fn law_loop_without_step(start: int, end: int)
    requires
        -SIGNIFICAND_END <= start <= SIGNIFICAND_END,
        -SIGNIFICAND_END <= end <= SIGNIFICAND_END,
        -SIGNIFICAND_END < end - start < SIGNIFICAND_END,
    ensures
        end == start ==> trips(start, end, 0) == 0,
        end > start ==> trips(start, end, 0) == i32::MAX,
        end < start ==> trips(start, end, 0) == i32::MIN,
{
    lemma_single_exact(start);
    lemma_single_exact(end);
    lemma_single_exact(0);
    lemma_single_exact(end - start);
}

/// Whether `r` times `q` is the multiple of `q` that is nearest to `p`; of two equally near ones,
/// the one with an even `r`.
pub open spec fn is_nearest(r: int, p: int, q: int) -> bool {
    &&& -q <= 2 * (r * q - p) <= q
    &&& 2 * (r * q - p) == q || 2 * (r * q - p) == -q ==> r % 2 == 0
}

proof fn lemma_half_even_nearest(p: nat, q: nat)
    requires
        q > 0,
    ensures
        is_nearest(half_even(p, q) as int, p as int, q as int),
{
    let f = p / q;
    let r = p % q;
    vstd::arithmetic::div_mod::lemma_fundamental_div_mod(p as int, q as int);
    vstd::arithmetic::div_mod::lemma_mod_bound(p as int, q as int);
    assert(f * q == p - r) by (nonlinear_arith)
        requires
            p == q * f + r,
    ;
    assert((f + 1) * q == f * q + q) by (nonlinear_arith);
    if 2 * r == q {
        assert((f + f % 2) * q == f * q + (f % 2) * q) by (nonlinear_arith);
        assert((f % 2) * q == if f % 2 == 0 {
            0
        } else {
            q as int
        }) by (nonlinear_arith)
            requires
                f % 2 == 0 || f % 2 == 1,
        ;
    }
}

proof fn lemma_spare_bits_normal(n: nat)
    requires
        n >= SIGNIFICAND_END,
    ensures
        0x80_0000 * pow2(spare_bits(n)) <= n < 0x100_0000 * pow2(spare_bits(n)),
    decreases n,
{
    let k = spare_bits(n / 2);
    lemma_pow2_unfold(k + 1);
    assert(spare_bits(n) == k + 1);
    if n / 2 >= SIGNIFICAND_END {
        lemma_spare_bits_normal(n / 2);
    } else {
        vstd::arithmetic::power2::lemma2_to64();
        assert(k == 0);
    }
}

/// Rounding to single precision gives the nearest number with 24 significant bits; of two equally
/// near ones, the one whose last bit is zero. Whole numbers below two to the power of 24 stay as
/// they are.
pub proof fn law_single_is_nearest(x: int)
    ensures
        ({
            let n = magnitude(x);
            let u = pow2(spare_bits(n)) as int;
            &&& exists|r: int| #[trigger]
                is_nearest(r, n as int, u) && magnitude(single(x)) == r * u
            &&& n < SIGNIFICAND_END ==> u == 1
            &&& n >= SIGNIFICAND_END ==> 0x80_0000 * u <= n < 0x100_0000 * u
            &&& x >= 0 ==> single(x) >= 0
            &&& x <= 0 ==> single(x) <= 0
        }),
{
    let n = magnitude(x);
    let u = pow2(spare_bits(n));
    vstd::arithmetic::power2::lemma_pow2_pos(spare_bits(n));
    vstd::arithmetic::power2::lemma2_to64();
    lemma_half_even_nearest(n, u);
    if n >= SIGNIFICAND_END {
        lemma_spare_bits_normal(n);
    }
    let r = half_even(n, u) as int;
    assert(is_nearest(r, n as int, u as int));
    assert(half_even(n, u) * u >= 0) by (nonlinear_arith);
    if x == 0 {
        lemma_single_odd(0);
    }
}

/// A quotient is rounded to the nearest number with 24 significant bits, and then up to a whole
/// number: `u` is the value of the last bit where the quotient is large, and the number of parts
/// into which a whole is divided where it is not.
pub proof fn law_quotient_is_rounded_twice(a: nat, b: nat, negative: bool)
    requires
        b > 0,
    ensures
        ({
            let q = quotient_up(a, b, negative);
            if a >= SIGNIFICAND_END * b {
                let u = pow2(spare_bits(a / b)) as int;
                exists|r: int| #[trigger]
                    is_nearest(r, a as int, b * u) && q == (if negative {
                        -(r * u)
                    } else {
                        r * u
                    })
            } else {
                let u = pow2(doublings(a, b)) as int;
                exists|m: int| #[trigger]
                    is_nearest(m, a * u, b as int) && if negative {
                        (-q) * u <= m < (-q + 1) * u
                    } else {
                        (q - 1) * u < m <= q * u
                    }
            }
        }),
{
    if a >= SIGNIFICAND_END * b {
        let u = pow2(spare_bits(a / b));
        vstd::arithmetic::power2::lemma_pow2_pos(spare_bits(a / b));
        assert(b * u > 0) by (nonlinear_arith)
            requires
                b > 0,
                u > 0,
        ;
        lemma_half_even_nearest(a, b * u);
        let r = half_even(a, b * u) as int;
        assert(is_nearest(r, a as int, b * (u as int)));
    } else {
        let u = pow2(doublings(a, b));
        vstd::arithmetic::power2::lemma_pow2_pos(doublings(a, b));
        lemma_half_even_nearest(a * u, b);
        let m = half_even(a * u, b) as int;
        let v = u as int;
        assert(is_nearest(m, a * v, b as int));
        if negative {
            vstd::arithmetic::div_mod::lemma_fundamental_div_mod(m, v);
            vstd::arithmetic::div_mod::lemma_mod_bound(m, v);
            let f = m / v;
            assert(f * v <= m < (f + 1) * v) by (nonlinear_arith)
                requires
                    m == v * f + m % v,
                    0 <= m % v < v,
            ;
            assert(quotient_up(a, b, negative) == -f);
        } else {
            let n = m + v - 1;
            vstd::arithmetic::div_mod::lemma_fundamental_div_mod(n, v);
            vstd::arithmetic::div_mod::lemma_mod_bound(n, v);
            let f = n / v;
            assert((f - 1) * v < m <= f * v) by (nonlinear_arith)
                requires
                    m + v - 1 == v * f + n % v,
                    0 <= n % v < v,
            ;
            assert(quotient_up(a, b, negative) == f);
        }
    }
}

} // verus!
