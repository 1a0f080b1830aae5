//! Round-to-nearest-even at 53 significant bits, on integers.
//!
//! A double holds 53 significant bits. A product of a 53-bit fraction with an
//! integer, truncated back to an integer, is therefore a matter of rounding an
//! exact integer product: no floating-point unit is needed to say or to compute
//! what comes out.
use vstd::arithmetic::power2::*;
use vstd::prelude::*;

verus! {

/// 2^53: the first integer with more significant bits than a double keeps.
pub const TWO53: u64 = 9_007_199_254_740_992;

/// The spacing of 53-bit values at `n`: the least power of two `u` with `n / u < 2^53`.
pub open spec fn ulp(n: nat) -> nat
    decreases n,
{
    if n < TWO53 {
        1
    } else {
        2 * ulp(n / 2)
    }
}

/// `n` rounded to 53 significant bits, to the nearest, ties to an even last bit.
pub open spec fn round53(n: nat) -> nat {
    let u = ulp(n);
    let q = n / u;
    let r = n % u;
    if 2 * r < u || (2 * r == u && q % 2 == 0) {
        q * u
    } else {
        (q + 1) * u
    }
}

/// The integer part of the double product `(k / 2^53) * n`, for `k < 2^53`:
/// `n` is rounded to a double, so is the product, and the fraction is dropped.
pub open spec fn scaled(k: nat, n: nat) -> nat {
    round53(k * round53(n)) / (TWO53 as nat)
}

/// The quotient by the spacing fits 53 bits, and uses all of them where the spacing exceeds one.
pub proof fn lemma_ulp(n: nat)
    ensures
        ulp(n) >= 1,
        n / ulp(n) < TWO53,
        ulp(n) > 1 ==> n / ulp(n) >= TWO53 / 2,
        ulp(n) > 1 ==> ulp(n) >= 2 && ulp(n) % 2 == 0,
        n < TWO53 <==> ulp(n) == 1,
    decreases n,
{
    if n >= TWO53 {
        lemma_ulp(n / 2);
        let v = ulp(n / 2);
        vstd::arithmetic::div_mod::lemma_div_denominator(n as int, 2, v as int);
        if v == 1 {
            assert(n / 2 >= TWO53 / 2);
        }
    }
}


/// Where the spacing exceeds one, half of it is an integer and `n` lies in the
/// binade `[2^52 * ulp, 2^53 * ulp)`; the rounding keeps `n` in its closure.
proof fn lemma_round_bounds(n: nat)
    ensures
        (n / ulp(n)) * ulp(n) <= n < (n / ulp(n) + 1) * ulp(n),
        (n / ulp(n)) * ulp(n) <= round53(n) <= (n / ulp(n) + 1) * ulp(n),
        round53(n) <= TWO53 * ulp(n),
        ulp(n) > 1 ==> (TWO53 / 2) * ulp(n) <= round53(n),
        n < TWO53 ==> round53(n) == n,
        round53(n) <= 2 * n,
{
    lemma_ulp(n);
    let u = ulp(n);
    let q = n / u;
    vstd::arithmetic::div_mod::lemma_fundamental_div_mod(n as int, u as int);
    vstd::arithmetic::div_mod::lemma_mod_bound(n as int, u as int);
    assert(u * q == q * u) by (nonlinear_arith);
    assert((q + 1) * u == q * u + u) by (nonlinear_arith);
    assert(q + 1 <= TWO53 ==> (q + 1) * u <= TWO53 * u) by (nonlinear_arith)
        requires
            u >= 1,
    ;
    if u > 1 {
        assert((TWO53 / 2) * u <= q * u) by (nonlinear_arith)
            requires
                u >= 1,
                q >= TWO53 / 2,
        ;
        assert(u <= q * u) by (nonlinear_arith)
            requires
                q >= TWO53 / 2,
        ;
    }
}

proof fn lemma_ulp_monotone(a: nat, b: nat)
    requires
        a <= b,
    ensures
        ulp(a) == ulp(b) || 2 * ulp(a) <= ulp(b),
    decreases b,
{
    lemma_ulp(a);
    lemma_ulp(b);
    if a >= TWO53 {
        lemma_ulp_monotone(a / 2, b / 2);
    }
}

/// Rounding keeps order.
pub proof fn lemma_round53_monotone(a: nat, b: nat)
    requires
        a <= b,
    ensures
        round53(a) <= round53(b),
{
    lemma_ulp_monotone(a, b);
    lemma_ulp(a);
    lemma_ulp(b);
    lemma_round_bounds(a);
    lemma_round_bounds(b);
    let u = ulp(a);
    let w = ulp(b);
    if u == w {
        let qa = a / u;
        let qb = b / u;
        vstd::arithmetic::div_mod::lemma_div_is_ordered(a as int, b as int, u as int);
        vstd::arithmetic::div_mod::lemma_fundamental_div_mod(a as int, u as int);
        vstd::arithmetic::div_mod::lemma_fundamental_div_mod(b as int, u as int);
        if qa == qb {
        } else {
            assert((qa + 1) * u <= qb * u) by (nonlinear_arith)
                requires
                    qa + 1 <= qb,
                    u >= 1,
            ;
        }
    } else {
        assert(TWO53 * u <= (TWO53 / 2) * w) by (nonlinear_arith)
            requires
                2 * u <= w,
        ;
    }
}


/// The exponent of the spacing at `n`.
spec fn ulp_exp(n: nat) -> nat
    decreases n,
{
    if n < TWO53 {
        0
    } else {
        1 + ulp_exp(n / 2)
    }
}

proof fn lemma_ulp_is_power(n: nat)
    ensures
        ulp(n) == pow2(ulp_exp(n)),
    decreases n,
{
    lemma2_to64();
    if n >= TWO53 {
        lemma_ulp_is_power(n / 2);
        lemma_pow2_unfold(ulp_exp(n));
    }
}

/// Of two powers of two, the one that is not the larger divides the other.
proof fn lemma_power_divides(a: nat, b: nat)
    requires
        pow2(a) < 2 * pow2(b),
    ensures
        a <= b,
        pow2(b) == pow2(a) * pow2((b - a) as nat),
{
    if a > b {
        lemma_pow2_unfold(b + 1);
        if a > b + 1 {
            lemma_pow2_strictly_increases(b + 1, a);
        }
    }
    lemma_pow2_adds(a, (b - a) as nat);
}

/// The largest product of a fraction below one with the double `m = c * u`, where
/// `u` is a power of two and `c <= 2^53`, rounds to at least one spacing below `m * 2^53`.
proof fn lemma_top_product(c: nat, eu: nat)
    requires
        1 <= c <= TWO53,
    ensures
        ({
            let m = c * pow2(eu);
            let top = ((TWO53 - 1) * m) as nat;
            &&& round53(top) < m * TWO53
            &&& c > TWO53 / 2 ==> round53(top) <= m * TWO53 - TWO53 * pow2(eu)
        }),
{
    let t = TWO53 as nat;
    let u = pow2(eu);
    lemma_pow2_pos(eu);
    let m = c * u;
    let top = ((t - 1) * m) as nat;
    let big = m * t;
    assert(m >= 1) by (nonlinear_arith)
        requires
            c >= 1,
            u >= 1,
            m == c * u,
    ;
    assert(top == big - m) by (nonlinear_arith)
        requires
            top == (t - 1) * m,
            big == m * t,
    ;
    let w = ulp(top);
    lemma_ulp(top);
    lemma_ulp_is_power(top);
    lemma_round_bounds(top);
    let ew = ulp_exp(top);
    if w == 1 {
        assert(m == 1) by (nonlinear_arith)
            requires
                (t - 1) * m < t,
                m >= 1,
                t > 10,
        ;
        assert(c == 1) by (nonlinear_arith)
            requires
                c >= 1,
                u >= 1,
                c * u == 1,
        ;
    } else {
        let q = top / w;
        let r = top % w;
        vstd::arithmetic::div_mod::lemma_fundamental_div_mod(top as int, w as int);
        assert(w * q == q * w) by (nonlinear_arith);
        // 2^52 * w <= top < 2^53 * w
        assert((t / 2) * w <= top) by (nonlinear_arith)
            requires
                q >= t / 2,
                q * w <= top,
        ;
        // w < 2^54 * u
        assert(w < 2 * (t * u)) by (nonlinear_arith)
            requires
                (t / 2) * w <= top,
                top < m * t,
                m == c * u,
                c <= t,
                u >= 1,
                t == 9_007_199_254_740_992,
        ;
        lemma2_to64_rest();
        lemma2_to64();
        assert(pow2(53) == t);
        lemma_pow2_adds(53, eu);
        lemma_power_divides(ew, 53 + eu);
        let d = pow2((53 + eu - ew) as nat);
        let j = c * d;
        assert(big == j * w) by (nonlinear_arith)
            requires
                big == m * t,
                m == c * u,
                t * u == w * d,
                j == c * d,
        ;
        // top == big - m is below j * w, and m > w / 2
        assert(w < 2 * m) by (nonlinear_arith)
            requires
                (t / 2) * w <= top,
                top == (t - 1) * m,
                m >= 1,
                t == 9_007_199_254_740_992,
        ;
        assert(q < j) by (nonlinear_arith)
            requires
                q * w <= top,
                top < j * w,
                w >= 1,
        ;
        if q == j - 1 {
            assert(q * w == j * w - w) by (nonlinear_arith)
                requires
                    q == j - 1,
            ;
            assert(r == w - m);
            assert(round53(top) == q * w);
        } else {
            assert((q + 1) * w <= j * w - w) by (nonlinear_arith)
                requires
                    q + 1 <= j - 1,
                    w >= 1,
            ;
        }
        assert(round53(top) <= big - w);
        if c > t / 2 {
            // top >= 2^105 * u, so w >= 2^53 * u
            assert(top < t * w) by (nonlinear_arith)
                requires
                    top < (q + 1) * w,
                    q + 1 <= t,
            ;
            assert(t * u < 2 * w) by (nonlinear_arith)
                requires
                    top < t * w,
                    top == (t - 1) * m,
                    m == c * u,
                    c >= t / 2 + 1,
                    u >= 1,
                    t == 9_007_199_254_740_992,
            ;
            assert(top >= (t / 2) * (t * u)) by (nonlinear_arith)
                requires
                    top == (t - 1) * m,
                    m == c * u,
                    c >= t / 2 + 1,
                    u >= 1,
                    t == 9_007_199_254_740_992,
            ;
            lemma_power_divides(53 + eu, ew);
            if ew == 53 + eu {
            } else {
                lemma_pow2_strictly_increases(53 + eu, ew);
            }
            assert(w >= t * u);
        }
    }
}

/// The spacing of 53-bit values at `n`.
pub fn spacing(n: u128) -> (u: u128)
    requires
        n < 0x100_0000_0000_0000_0000_0000_0000_0000,
    ensures
        u == ulp(n as nat),
        u >= 1,
        u == 1 || u <= n,
{
    let mut u: u128 = 1;
    let mut v: u128 = n;
    assert(n as nat / 1 == n);
    while v >= TWO53 as u128
        invariant
            n < 0x100_0000_0000_0000_0000_0000_0000_0000,
            u >= 1,
            u * v <= n,
            u == 1 || v >= 1,
            v as nat == n as nat / (u as nat),
            ulp(n as nat) == u * ulp(v as nat),
        decreases v,
    {
        proof {
            vstd::arithmetic::div_mod::lemma_div_denominator(n as int, u as int, 2);
            assert(2 * u * (v / 2) <= n) by (nonlinear_arith)
                requires
                    u * v <= n,
            ;
            assert(2 * u <= n) by (nonlinear_arith)
                requires
                    u * v <= n,
                    v >= 2,
            ;
            assert(u * (2 * ulp(v as nat / 2)) == (2 * u) * ulp(v as nat / 2)) by (nonlinear_arith);
            assert(u * 2 == 2 * u);
        }
        u = u * 2;
        v = v / 2;
    }
    proof {
        assert(ulp(v as nat) == 1);
        assert(u * 1 == u);
        assert(u <= n || u == 1) by (nonlinear_arith)
            requires
                u * v <= n,
                u == 1 || v >= 1,
                u >= 1,
        ;
    }
    u
}

/// `n` rounded to 53 significant bits.
fn round_to_53(n: u128) -> (r: u128)
    requires
        n < 0x100_0000_0000_0000_0000_0000_0000_0000,
    ensures
        r == round53(n as nat),
{
    let u: u128 = spacing(n);
    let v: u128 = n / u;
    let r: u128 = n % u;
    proof {
        lemma_round_bounds(n as nat);
        vstd::arithmetic::div_mod::lemma_fundamental_div_mod(n as int, u as int);
        assert((v + 1) * u == v * u + u) by (nonlinear_arith);
        assert(u * v == v * u) by (nonlinear_arith);
    }
    if 2 * r < u || (2 * r == u && v % 2 == 0) {
        v * u
    } else {
        (v + 1) * u
    }
}

/// A fraction of nothing is nothing.
pub proof fn lemma_scaled_zero(k: nat)
    ensures
        scaled(k, 0) == 0,
{
    lemma_round_bounds(0);
    assert(k * round53(0) == 0) by (nonlinear_arith)
        requires
            round53(0) == 0,
    ;
}

/// The integer part of the double product `(k / 2^53) * n`.
pub fn scale(k: u64, n: usize) -> (r: usize)
    requires
        k < TWO53,
    ensures
        r == scaled(k as nat, n as nat),
        n >= 1 ==> r < n,
        n == 0 ==> r == 0,
{
    let m: u128 = round_to_53(n as u128);
    proof {
        lemma_round_bounds(n as nat);
        if n >= 1 {
            law_scaled_in_range(k as nat, n as nat);
        } else {
            lemma_scaled_zero(k as nat);
        }
    }
    assert(m <= 0x2_0000_0000_0000_0000);
    assert(k * m < 0x100_0000_0000_0000_0000_0000_0000_0000) by (nonlinear_arith)
        requires
            k < TWO53,
            m <= 0x2_0000_0000_0000_0000,
    ;
    let p: u128 = round_to_53(k as u128 * m);
    (p / TWO53 as u128) as usize
}

/// A fraction below one of `n` truncates to an integer below `n`: a draw scaled
/// to `n` is always a valid index, for every `n`.
pub proof fn law_scaled_in_range(k: nat, n: nat)
    requires
        k < TWO53,
        n >= 1,
    ensures
        scaled(k, n) < n,
{
    let t = TWO53 as nat;
    let u = ulp(n);
    let m = round53(n);
    lemma_ulp(n);
    lemma_ulp_is_power(n);
    lemma_round_bounds(n);
    let q = n / u;
    let r = n % u;
    vstd::arithmetic::div_mod::lemma_fundamental_div_mod(n as int, u as int);
    assert(u * q == q * u) by (nonlinear_arith);
    let c = if 2 * r < u || (2 * r == u && q % 2 == 0) { q } else { q + 1 };
    assert(m == c * u);
    assert(q >= 1) by (nonlinear_arith)
        requires
            u == 1 ==> q == n,
            n >= 1,
            u > 1 ==> q >= t / 2,
            u >= 1,
            t > 10,
    ;
    lemma_top_product(c, ulp_exp(n));
    let top = ((t - 1) * m) as nat;
    assert(k * m <= top) by (nonlinear_arith)
        requires
            k <= t - 1,
            top == (t - 1) * m,
    ;
    lemma_round53_monotone(k * m, top);
    assert(round53(top) < n * t) by {
        if c == q {
            assert(m * t <= n * t) by (nonlinear_arith)
                requires
                    m <= n,
            ;
        } else {
            assert(u > 1);
            assert(m * t - t * u == (q * u) * t) by (nonlinear_arith)
                requires
                    m == (q + 1) * u,
            ;
            assert((q * u) * t < n * t) by (nonlinear_arith)
                requires
                    q * u < n,
                    t >= 1,
            ;
        }
    }
    assert(round53(k * m) / t < n) by (nonlinear_arith)
        requires
            round53(k * m) < n * t,
            t >= 1,
    ;
}

/// Rounding adds at most one spacing, which is small against the number.
pub proof fn lemma_round_adds_little(n: nat)
    ensures
        round53(n) <= n + ulp(n),
        n < TWO53 ==> round53(n) == n,
        n >= TWO53 ==> ulp(n) * (TWO53 / 2) <= n,
{
    lemma_ulp(n);
    lemma_round_bounds(n);
    let u = ulp(n);
    let q = n / u;
    assert((q + 1) * u == q * u + u) by (nonlinear_arith);
    if n >= TWO53 {
        assert(u * (TWO53 / 2) <= q * u) by (nonlinear_arith)
            requires
                q >= TWO53 / 2,
                u >= 1,
        ;
    }
}

/// A number scaled by `k / 2^53` is `k * n / 2^53` without its fraction, or, where rounding
/// carries it over an integer, one more.
pub proof fn law_scaled_is_the_product(k: nat, n: nat)
    requires
        k < TWO53,
        n < TWO53,
    ensures
        k * n / (TWO53 as nat) <= scaled(k, n) <= k * n / (TWO53 as nat) + 1,
{
    let t = TWO53 as nat;
    let x = k * n;
    let u = ulp(x);
    let q = x / u;
    let f = x / t;
    lemma_round_bounds(n);
    lemma_ulp(x);
    lemma_ulp_is_power(x);
    lemma_round_bounds(x);
    assert(x < t * t) by (nonlinear_arith)
        requires
            x == k * n,
            k < t,
            n < t,
            t >= 1,
    ;
    lemma2_to64_rest();
    assert(pow2(53) == t);
    if u > 1 {
        assert(u < 2 * t) by (nonlinear_arith)
            requires
                q * u <= x,
                q >= t / 2,
                x < t * t,
                t == 9_007_199_254_740_992,
        ;
    }
    lemma_power_divides(ulp_exp(x), 53);
    let w = pow2((53 - ulp_exp(x)) as nat);
    assert(t == u * w);
    vstd::arithmetic::div_mod::lemma_fundamental_div_mod(x as int, t as int);
    vstd::arithmetic::div_mod::lemma_mod_bound(x as int, t as int);
    let (a, b) = (f * w, (f + 1) * w);
    assert(f * t == a * u && (f + 1) * t == b * u) by (nonlinear_arith)
        requires
            t == u * w,
            a == f * w,
            b == (f + 1) * w,
    ;
    assert(f * t <= x < (f + 1) * t) by (nonlinear_arith)
        requires
            x == t * f + x % t,
            0 <= x % t < t,
    ;
    assert(a <= q) by (nonlinear_arith)
        requires
            a * u <= x,
            x < (q + 1) * u,
            u >= 1,
    ;
    assert(q + 1 <= b) by (nonlinear_arith)
        requires
            q * u <= x,
            x < b * u,
            u >= 1,
    ;
    assert(a * u <= q * u && (q + 1) * u <= b * u) by (nonlinear_arith)
        requires
            a <= q,
            q + 1 <= b,
            u >= 1,
    ;
    let r = round53(x);
    assert(f * t <= r <= (f + 1) * t);
    assert(f <= r / t <= f + 1) by (nonlinear_arith)
        requires
            f * t <= r <= (f + 1) * t,
            t > 0,
    ;
}

/// Rounding gives a multiple of the spacing, and none is nearer.
pub proof fn law_rounding_is_to_nearest(n: nat)
    ensures
        ulp(n) >= 1,
        round53(n) % ulp(n) == 0,
        2 * (round53(n) - n) <= ulp(n),
        2 * (n - round53(n)) <= ulp(n),
{
    lemma_ulp(n);
    let u = ulp(n);
    let q = n / u;
    vstd::arithmetic::div_mod::lemma_fundamental_div_mod(n as int, u as int);
    vstd::arithmetic::div_mod::lemma_mod_bound(n as int, u as int);
    assert(u * q == q * u) by (nonlinear_arith);
    assert((q + 1) * u == q * u + u) by (nonlinear_arith);
    vstd::arithmetic::div_mod::lemma_mod_multiples_basic(q as int, u as int);
    vstd::arithmetic::div_mod::lemma_mod_multiples_basic((q + 1) as int, u as int);
}

} // verus!
