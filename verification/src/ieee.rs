//! IEEE-754 bit patterns as integers: what they are worth, how they compare, and
//! which pattern a dyadic fraction has.
//!
//! Every single that is not a NaN is an integer multiple of 2^-149, every double
//! of 2^-1074. Written in that unit, the values of both formats are integers, and
//! the infinities take the place that follows the largest finite value.
use vstd::arithmetic::power2::*;
use vstd::prelude::*;

verus! {

/// The magnitude that exponent-and-fraction bits stand for, in units of the
/// format's smallest step; `hidden` is two to the number of fraction bits.
pub open spec fn magnitude(hidden: nat, x: nat) -> nat {
    let e = x / hidden;
    let m = x % hidden;
    if e == 0 {
        m
    } else {
        (hidden + m) * pow2((e - 1) as nat)
    }
}

/// The value of a single's bit pattern in units of 2^-149.
pub open spec fn single_value(bits: u32) -> int {
    if bits < 0x8000_0000 {
        magnitude(0x80_0000, bits as nat) as int
    } else {
        -(magnitude(0x80_0000, (bits - 0x8000_0000) as nat) as int)
    }
}

/// The value of a double's bit pattern in units of 2^-1074.
pub open spec fn double_value(bits: u64) -> int {
    if bits < 0x8000_0000_0000_0000 {
        magnitude(0x10_0000_0000_0000, bits as nat) as int
    } else {
        -(magnitude(0x10_0000_0000_0000, (bits - 0x8000_0000_0000_0000) as nat) as int)
    }
}

/// A single's pattern is a NaN: all exponent bits set and a fraction that is not zero.
pub open spec fn single_nan(bits: u32) -> bool {
    bits as nat % 0x8000_0000 > 0x7f80_0000
}

/// A double's pattern is a NaN.
pub open spec fn double_nan(bits: u64) -> bool {
    bits as nat % 0x8000_0000_0000_0000 > 0x7ff0_0000_0000_0000
}

/// `a < b` on singles: false where either is a NaN.
pub open spec fn single_less(a: u32, b: u32) -> bool {
    !single_nan(a) && !single_nan(b) && single_value(a) < single_value(b)
}

/// `a < b` on doubles: false where either is a NaN.
pub open spec fn double_less(a: u64, b: u64) -> bool {
    !double_nan(a) && !double_nan(b) && double_value(a) < double_value(b)
}

/// A larger pattern without its sign stands for a larger magnitude.
pub proof fn lemma_magnitude_increases(hidden: nat, x: nat, y: nat)
    requires
        hidden >= 1,
        x < y,
    ensures
        magnitude(hidden, x) < magnitude(hidden, y),
{
    let (ex, mx) = (x / hidden, x % hidden);
    let (ey, my) = (y / hidden, y % hidden);
    vstd::arithmetic::div_mod::lemma_fundamental_div_mod(x as int, hidden as int);
    vstd::arithmetic::div_mod::lemma_fundamental_div_mod(y as int, hidden as int);
    vstd::arithmetic::div_mod::lemma_mod_bound(x as int, hidden as int);
    vstd::arithmetic::div_mod::lemma_mod_bound(y as int, hidden as int);
    vstd::arithmetic::div_mod::lemma_div_is_ordered(x as int, y as int, hidden as int);
    lemma2_to64();
    if ex == ey {
        if ex > 0 {
            let p = pow2((ex - 1) as nat);
            lemma_pow2_pos((ex - 1) as nat);
            assert((hidden + mx) * p < (hidden + my) * p) by (nonlinear_arith)
                requires
                    mx < my,
                    p >= 1,
            ;
        }
    } else {
        let p = pow2((ey - 1) as nat);
        lemma_pow2_pos((ey - 1) as nat);
        assert(hidden * p <= (hidden + my) * p) by (nonlinear_arith);
        if ex == 0 {
            assert(hidden <= hidden * p) by (nonlinear_arith)
                requires
                    p >= 1,
            ;
        } else {
            let o = pow2((ex - 1) as nat);
            lemma_pow2_pos((ex - 1) as nat);
            lemma_pow2_unfold(ex);
            if ex < ey - 1 {
                lemma_pow2_strictly_increases(ex, (ey - 1) as nat);
            }
            assert(2 * o <= p);
            assert((hidden + mx) * o < hidden * p) by (nonlinear_arith)
                requires
                    mx < hidden,
                    2 * o <= p,
                    o >= 1,
            ;
        }
    }
}

/// An integer that orders singles as their values do: equal for both zeros.
pub open spec fn single_rank(bits: u32) -> int {
    if bits < 0x8000_0000 {
        bits as int
    } else {
        0x8000_0000 - bits
    }
}

/// An integer that orders doubles as their values do.
pub open spec fn double_rank(bits: u64) -> int {
    if bits < 0x8000_0000_0000_0000 {
        bits as int
    } else {
        0x8000_0000_0000_0000 - bits
    }
}

/// Ranks order singles exactly as their values do.
pub proof fn lemma_single_rank(a: u32, b: u32)
    ensures
        single_rank(a) < single_rank(b) <==> single_value(a) < single_value(b),
        single_rank(a) == single_rank(b) <==> single_value(a) == single_value(b),
{
    let h = 0x80_0000nat;
    let x: nat = if a < 0x8000_0000 { a as nat } else { (a - 0x8000_0000) as nat };
    let y: nat = if b < 0x8000_0000 { b as nat } else { (b - 0x8000_0000) as nat };
    lemma_ranks(h, x, y);
}

/// Ranks order doubles exactly as their values do.
pub proof fn lemma_double_rank(a: u64, b: u64)
    ensures
        double_rank(a) < double_rank(b) <==> double_value(a) < double_value(b),
        double_rank(a) == double_rank(b) <==> double_value(a) == double_value(b),
{
    let h = 0x10_0000_0000_0000nat;
    let x: nat = if a < 0x8000_0000_0000_0000 {
        a as nat
    } else {
        (a - 0x8000_0000_0000_0000) as nat
    };
    let y: nat = if b < 0x8000_0000_0000_0000 {
        b as nat
    } else {
        (b - 0x8000_0000_0000_0000) as nat
    };
    lemma_ranks(h, x, y);
}

proof fn lemma_ranks(h: nat, x: nat, y: nat)
    requires
        h >= 1,
    ensures
        x < y <==> magnitude(h, x) < magnitude(h, y),
        x == y <==> magnitude(h, x) == magnitude(h, y),
        magnitude(h, 0) == 0,
        x > 0 ==> magnitude(h, x) > 0,
        y > 0 ==> magnitude(h, y) > 0,
{
    vstd::arithmetic::div_mod::lemma_small_mod(0, h);
    vstd::arithmetic::div_mod::lemma_basic_div(0, h as int);
    if x < y {
        lemma_magnitude_increases(h, x, y);
    } else if y < x {
        lemma_magnitude_increases(h, y, x);
    }
    if x > 0 {
        lemma_magnitude_increases(h, 0, x);
    }
    if y > 0 {
        lemma_magnitude_increases(h, 0, y);
    }
}

/// The rank of a single's bit pattern.
pub fn rank_of_single(bits: u32) -> (r: i64)
    ensures
        r == single_rank(bits),
        -0x8000_0000 < r < 0x8000_0000,
{
    if bits < 0x8000_0000 {
        bits as i64
    } else {
        0x8000_0000i64 - bits as i64
    }
}

/// Whether a single's bit pattern is a NaN.
pub fn is_nan_single(bits: u32) -> (r: bool)
    ensures
        r == single_nan(bits),
{
    bits % 0x8000_0000 > 0x7f80_0000
}

/// `a < b` on singles given as bit patterns.
pub fn single_lt(a: u32, b: u32) -> (r: bool)
    ensures
        r == single_less(a, b),
{
    proof {
        lemma_single_rank(a, b);
    }
    !is_nan_single(a) && !is_nan_single(b) && rank_of_single(a) < rank_of_single(b)
}

/// Whether a double's bit pattern is a NaN.
pub fn is_nan_double(bits: u64) -> (r: bool)
    ensures
        r == double_nan(bits),
{
    bits % 0x8000_0000_0000_0000 > 0x7ff0_0000_0000_0000
}

fn rank_of_double(bits: u64) -> (r: i128)
    ensures
        r == double_rank(bits),
{
    if bits < 0x8000_0000_0000_0000 {
        bits as i128
    } else {
        0x8000_0000_0000_0000i128 - bits as i128
    }
}

/// `a < b` on doubles given as bit patterns.
pub fn double_lt(a: u64, b: u64) -> (r: bool)
    ensures
        r == double_less(a, b),
{
    proof {
        lemma_double_rank(a, b);
    }
    !is_nan_double(a) && !is_nan_double(b) && rank_of_double(a) < rank_of_double(b)
}

/// What the normalised pattern with exponent `e` and significand `m` is worth, where
/// `m` came from `k` by `top - e` doublings.
proof fn lemma_fraction(hidden: nat, k: nat, m: nat, e: nat, top: nat)
    requires
        hidden >= 1,
        1 <= e <= top,
        m == k * pow2((top - e) as nat),
        hidden <= m < 2 * hidden,
    ensures
        magnitude(hidden, (e * hidden + (m - hidden)) as nat) == k * pow2((top - 1) as nat),
{
    let x = (e * hidden + (m - hidden)) as nat;
    let f = (m - hidden) as nat;
    assert(x / hidden == e && x % hidden == f) by {
        assert(x == hidden * e + f) by (nonlinear_arith)
            requires
                x == e * hidden + f,
        ;
        vstd::arithmetic::div_mod::lemma_fundamental_div_mod_converse(
            x as int,
            hidden as int,
            e as int,
            f as int,
        );
    }
    let a = pow2((top - e) as nat);
    let b = pow2((e - 1) as nat);
    lemma_pow2_adds((top - e) as nat, (e - 1) as nat);
    assert((k * a) * b == k * (a * b)) by (nonlinear_arith);
}

/// The single that is worth `k / 2^24`.
pub fn single_fraction(k: u32) -> (bits: u32)
    requires
        k < 0x100_0000,
    ensures
        single_value(bits) == k * pow2(125),
        bits < 0x3f80_0000,
        !single_nan(bits),
{
    proof {
        lemma2_to64();
    }
    if k == 0 {
        proof {
            lemma_ranks(0x80_0000, 0, 0);
        }
        return 0;
    }
    let mut m: u32 = k;
    let mut e: u32 = 126;
    assert(k * pow2(0) == k);
    while m < 0x80_0000
        invariant
            1 <= k,
            1 <= m < 0x100_0000,
            103 <= e <= 126,
            m == k * pow2((126 - e) as nat),
        decreases 0x100_0000 - m,
    {
        proof {
            let d = (126 - e) as nat;
            lemma2_to64();
            lemma_pow2_pos(d);
            assert(pow2(d) <= m) by (nonlinear_arith)
                requires
                    m == k * pow2(d),
                    k >= 1,
            ;
            if d > 23 {
                lemma_pow2_strictly_increases(23, d);
            }
            lemma_pow2_unfold(d + 1);
            assert(k * (2 * pow2(d)) == 2 * (k * pow2(d))) by (nonlinear_arith);
        }
        m = m * 2;
        e = e - 1;
    }
    proof {
        lemma_fraction(0x80_0000, k as nat, m as nat, e as nat, 126);
    }
    e * 0x80_0000 + (m - 0x80_0000)
}

/// The double that is worth `k / 2^53`.
pub fn double_fraction(k: u64) -> (bits: u64)
    requires
        k < 0x20_0000_0000_0000,
    ensures
        double_value(bits) == k * pow2(1021),
        bits < 0x3ff0_0000_0000_0000,
        !double_nan(bits),
{
    proof {
        lemma2_to64();
        lemma2_to64_rest();
    }
    if k == 0 {
        proof {
            lemma_ranks(0x10_0000_0000_0000, 0, 0);
        }
        return 0;
    }
    let mut m: u64 = k;
    let mut e: u64 = 1022;
    assert(k * pow2(0) == k);
    while m < 0x10_0000_0000_0000
        invariant
            1 <= k,
            1 <= m < 0x20_0000_0000_0000,
            970 <= e <= 1022,
            m == k * pow2((1022 - e) as nat),
        decreases 0x20_0000_0000_0000 - m,
    {
        proof {
            let d = (1022 - e) as nat;
            lemma2_to64();
            lemma2_to64_rest();
            lemma_pow2_pos(d);
            assert(pow2(d) <= m) by (nonlinear_arith)
                requires
                    m == k * pow2(d),
                    k >= 1,
            ;
            if d > 52 {
                lemma_pow2_strictly_increases(52, d);
            }
            lemma_pow2_unfold(d + 1);
            assert(k * (2 * pow2(d)) == 2 * (k * pow2(d))) by (nonlinear_arith);
        }
        m = m * 2;
        e = e - 1;
    }
    proof {
        lemma_fraction(0x10_0000_0000_0000, k as nat, m as nat, e as nat, 1022);
    }
    e * 0x10_0000_0000_0000 + (m - 0x10_0000_0000_0000)
}

/// `bits` is the single in `[0, 1)` that is worth `k / 2^24`.
pub open spec fn is_single_fraction(bits: u32, k: nat) -> bool {
    bits < 0x3f80_0000 && single_value(bits) == k * pow2(125)
}

/// The single that is worth `k / 2^24`.
pub open spec fn single_of(k: nat) -> u32 {
    choose|bits: u32| is_single_fraction(bits, k)
}

/// Only one single in `[0, 1)` is worth `k / 2^24`.
pub proof fn lemma_single_of(bits: u32, k: nat)
    requires
        is_single_fraction(bits, k),
    ensures
        bits == single_of(k),
{
    lemma_single_rank(bits, single_of(k));
}

/// `bits` is the double in `[0, 1)` that is worth `k / 2^53`.
pub open spec fn is_double_fraction(bits: u64, k: nat) -> bool {
    bits < 0x3ff0_0000_0000_0000 && double_value(bits) == k * pow2(1021)
}

/// The double that is worth `k / 2^53`.
pub open spec fn double_of(k: nat) -> u64 {
    choose|bits: u64| is_double_fraction(bits, k)
}

/// Only one double in `[0, 1)` is worth `k / 2^53`.
pub proof fn lemma_double_of(bits: u64, k: nat)
    requires
        is_double_fraction(bits, k),
    ensures
        bits == double_of(k),
{
    lemma_double_rank(bits, double_of(k));
}

/// A pattern below that of one is a number from zero up to, but not including, one.
pub proof fn law_below_one(bits: u32)
    requires
        bits < 0x3f80_0000,
    ensures
        0 <= single_value(bits) < single_value(0x3f80_0000),
        !single_nan(bits),
{
    lemma_single_rank(bits, 0x3f80_0000);
}

/// A pattern below that of one is a number from zero up to, but not including, one.
pub proof fn law_double_below_one(bits: u64)
    requires
        bits < 0x3ff0_0000_0000_0000,
    ensures
        0 <= double_value(bits) < double_value(0x3ff0_0000_0000_0000),
        !double_nan(bits),
{
    lemma_double_rank(bits, 0x3ff0_0000_0000_0000);
}

} // verus!
