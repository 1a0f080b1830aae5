//! Decimal floating-point literals and the integer part of the double nearest to one.
//!
//! A literal denotes a ratio of two integers. Which double lies nearest, and what
//! stays when its fraction is dropped, is decided on the digits alone.
use crate::rounding;
use crate::rounding::TWO53;
use crate::text;
use vstd::arithmetic::div_mod::*;
use vstd::arithmetic::power2::*;
use vstd::prelude::*;

verus! {

/// `10^k`.
pub open spec fn ten(k: nat) -> nat
    decreases k,
{
    if k == 0 {
        1
    } else {
        10 * ten((k - 1) as nat)
    }
}

/// The integer nearest to `num / den`, ties to the even one.
pub open spec fn nearest(num: nat, den: nat) -> nat {
    let q = num / den;
    let r = num % den;
    if 2 * r < den || (2 * r == den && q % 2 == 0) {
        q
    } else {
        q + 1
    }
}

/// How many steps a double takes from `i` to `i + 1`, for `i < 2^53`: two to the
/// number of significant bits that `i` leaves unused.
pub open spec fn steps_per_unit(i: nat) -> nat
    decreases TWO53 - i,
{
    if i >= TWO53 / 2 {
        1
    } else {
        2 * steps_per_unit(2 * i + 1)
    }
}

/// The integer part of the double nearest to `num / den`.
pub open spec fn double_floor(num: nat, den: nat) -> nat {
    let i = num / den;
    if i >= TWO53 {
        let u = rounding::ulp(i);
        nearest(num, den * u) * u
    } else {
        let f = steps_per_unit(i);
        nearest(num * f, den) / f
    }
}

/// The number of digits in `s` from `i` on, up to the first character that is none.
pub open spec fn run(s: Seq<char>, i: int) -> nat
    decreases s.len() - i,
{
    if 0 <= i < s.len() && text::is_digit(s[i]) {
        1 + run(s, i + 1)
    } else {
        0
    }
}

/// The length of an optional sign at `i`.
pub open spec fn sign_len(s: Seq<char>, i: int) -> nat {
    if 0 <= i < s.len() && (s[i] == '+' || s[i] == '-') {
        1
    } else {
        0
    }
}

/// Where the parts of a literal stand: `[int_from, int_to)` and `[frac_from, frac_to)`
/// hold the digits before and after the point, `[exp_from, exp_to)` those of the exponent.
pub struct Parts {
    pub int_from: int,
    pub int_to: int,
    pub frac_from: int,
    pub frac_to: int,
    pub exp_from: int,
    pub exp_to: int,
}

/// The parts of `s`, read from the left.
pub open spec fn parts(s: Seq<char>) -> Parts {
    let a = sign_len(s, 0) as int;
    let b = a + run(s, a);
    let dot = b < s.len() && s[b] == '.';
    let c = if dot {
        b + 1
    } else {
        b
    };
    let d = if dot {
        c + run(s, c)
    } else {
        c
    };
    if d < s.len() {
        let f = d + 1 + sign_len(s, d + 1);
        Parts { int_from: a, int_to: b, frac_from: c, frac_to: d, exp_from: f, exp_to: f + run(s, f) }
    } else {
        Parts { int_from: a, int_to: b, frac_from: c, frac_to: d, exp_from: d, exp_to: d }
    }
}

/// `s` is a decimal literal: an optional sign, digits with at most one point among
/// them and at least one digit, and an optional exponent with at least one digit.
pub open spec fn is_literal(s: Seq<char>) -> bool {
    let p = parts(s);
    &&& p.int_from < p.int_to || p.frac_from < p.frac_to
    &&& p.frac_to < s.len() ==> {
        &&& s[p.frac_to] == 'e' || s[p.frac_to] == 'E'
        &&& p.exp_from < p.exp_to
        &&& p.exp_to == s.len()
    }
}

/// All digits of the literal, before and after the point.
pub open spec fn mantissa(s: Seq<char>) -> Seq<char> {
    let p = parts(s);
    s.subrange(p.int_from, p.int_to) + s.subrange(p.frac_from, p.frac_to)
}

/// The power of ten that the literal's exponent states.
pub open spec fn exponent(s: Seq<char>) -> int {
    let p = parts(s);
    let e = text::digits_value(s.subrange(p.exp_from, p.exp_to)) as int;
    if p.frac_to < s.len() && s[p.frac_to + 1] == '-' {
        -e
    } else {
        e
    }
}

/// The power of ten by which the mantissa, read as an integer, is scaled.
pub open spec fn scale10(s: Seq<char>) -> int {
    exponent(s) - (parts(s).frac_to - parts(s).frac_from)
}

/// The integer part of the double nearest to `m * 10^x`.
pub open spec fn scaled_floor(m: nat, x: int) -> nat {
    if x >= 0 {
        double_floor(m * ten(x as nat), 1)
    } else {
        double_floor(m, ten((-x) as nat))
    }
}

/// What the literal is worth as an index no larger than `max`: the nearest double
/// without its fraction; a negative one counts as 0, one beyond `max` as `max`.
pub open spec fn literal_index(s: Seq<char>, max: nat) -> nat {
    if s[0] == '-' {
        0
    } else {
        let v = scaled_floor(text::digits_value(mantissa(s)), scale10(s));
        if v <= max {
            v
        } else {
            max
        }
    }
}

proof fn lemma_ten(a: nat, b: nat)
    ensures
        ten(a) >= 1,
        ten(a + b) == ten(a) * ten(b),
    decreases a,
{
    if a > 0 {
        lemma_ten((a - 1) as nat, b);
        let x = ten((a - 1) as nat);
        let y = ten(b);
        assert(10 * (x * y) == (10 * x) * y) by (nonlinear_arith);
    } else {
        assert(1 * ten(b) == ten(b));
    }
}

proof fn lemma_ten_grows(a: nat, b: nat)
    requires
        a <= b,
    ensures
        1 <= ten(a) <= ten(b),
{
    lemma_ten(a, (b - a) as nat);
    lemma_ten((b - a) as nat, 0);
    assert(ten(a) <= ten(a) * ten((b - a) as nat)) by (nonlinear_arith)
        requires
            ten((b - a) as nat) >= 1,
    ;
}

/// A row of digits splits into high and low digits.
pub proof fn lemma_digits_concat(a: Seq<char>, b: Seq<char>)
    ensures
        text::digits_value(a + b) == text::digits_value(a) * ten(b.len()) + text::digits_value(b),
    decreases b.len(),
{
    if b.len() == 0 {
        assert(a + b =~= a);
        assert(ten(0) == 1);
    } else {
        lemma_digits_concat(a, b.drop_last());
        assert((a + b).drop_last() =~= a + b.drop_last());
        assert((a + b).last() == b.last());
        let x = text::digits_value(a);
        let y = ten((b.len() - 1) as nat);
        assert(10 * (x * y) == x * (10 * y)) by (nonlinear_arith);
    }
}

proof fn lemma_digits_bound(s: Seq<char>)
    requires
        text::all_digits(s),
    ensures
        text::digits_value(s) < ten(s.len()),
        s.len() > 0 && s[0] != '0' ==> text::digits_value(s) >= ten((s.len() - 1) as nat),
    decreases s.len(),
{
    if s.len() > 0 {
        assert(text::is_digit(s.last()));
        assert(text::is_digit(s[0]));
        assert forall|i: int| 0 <= i < s.drop_last().len() implies text::is_digit(
            #[trigger] s.drop_last()[i],
        ) by {
            assert(text::is_digit(s[i]));
        }
        lemma_digits_bound(s.drop_last());
        if s.len() == 1 {
            assert(s.drop_last() =~= Seq::empty());
        }
    }
}

proof fn lemma_leading_zeros(s: Seq<char>, z: int)
    requires
        0 <= z <= s.len(),
        forall|i: int| 0 <= i < z ==> s[i] == '0',
    ensures
        text::digits_value(s.skip(z)) == text::digits_value(s),
    decreases z,
{
    if z > 0 {
        lemma_leading_zeros(s, z - 1);
        let t = s.skip(z - 1);
        assert(t =~= seq!['0'] + s.skip(z));
        lemma_digits_concat(seq!['0'], s.skip(z));
        assert(seq!['0'].drop_last() =~= Seq::<char>::empty());
        assert(seq!['0'].last() == '0');
        assert(text::digits_value(Seq::<char>::empty()) == 0);
        assert(text::digits_value(seq!['0']) == 0);
        assert(0 * ten(s.skip(z).len()) == 0);
    } else {
        assert(s.skip(0) =~= s);
    }
}

proof fn lemma_run(s: Seq<char>, i: int)
    requires
        0 <= i <= s.len(),
    ensures
        i + run(s, i) <= s.len(),
        text::all_digits(s.subrange(i, i + run(s, i))),
    decreases s.len() - i,
{
    if i < s.len() && text::is_digit(s[i]) {
        lemma_run(s, i + 1);
        let t = s.subrange(i, i + run(s, i));
        assert forall|j: int| 0 <= j < t.len() implies text::is_digit(#[trigger] t[j]) by {
            if j > 0 {
                assert(t[j] == s.subrange(i + 1, i + 1 + run(s, i + 1))[j - 1]);
            }
        }
    }
}


/// The number that decimal digits denote, most significant first.
spec fn weight(d: Seq<u8>) -> nat
    decreases d.len(),
{
    if d.len() == 0 {
        0
    } else {
        d[0] as nat * ten((d.len() - 1) as nat) + weight(d.skip(1))
    }
}

spec fn decimal_digits(d: Seq<u8>) -> bool {
    forall|i: int| 0 <= i < d.len() ==> #[trigger] d[i] < 10
}

proof fn lemma_weight_bound(d: Seq<u8>)
    requires
        decimal_digits(d),
    ensures
        weight(d) < ten(d.len()),
    decreases d.len(),
{
    if d.len() > 0 {
        assert forall|i: int| 0 <= i < d.skip(1).len() implies #[trigger] d.skip(1)[i] < 10 by {
            assert(d[i + 1] < 10);
        }
        lemma_weight_bound(d.skip(1));
        let t = ten((d.len() - 1) as nat);
        assert(d[0] * t <= 9 * t) by (nonlinear_arith)
            requires
                d[0] < 10,
        ;
    }
}

/// Doubles a decimal fraction in place; returns the unit that it carries out.
fn double_digits(d: &mut Vec<u8>) -> (carry: bool)
    requires
        decimal_digits(old(d)@),
    ensures
        final(d)@.len() == old(d)@.len(),
        decimal_digits(final(d)@),
        weight(final(d)@) + (if carry {
            ten(old(d)@.len())
        } else {
            0
        }) == 2 * weight(old(d)@),
{
    let ghost was = d@;
    let n: usize = d.len();
    let mut i: usize = n;
    let mut carry: u8 = 0;
    assert(d@.skip(n as int).len() == 0);
    while i > 0
        invariant
            was == old(d)@,
            n == d@.len(),
            n == was.len(),
            i <= n,
            carry <= 1,
            decimal_digits(d@),
            decimal_digits(was),
            forall|j: int| 0 <= j < i ==> d@[j] == was[j],
            weight(d@.skip(i as int)) + carry * ten((n - i) as nat) == 2 * weight(
                was.skip(i as int),
            ),
        decreases i,
    {
        let ghost before = d@;
        i -= 1;
        assert(d@[i as int] < 10);
        let x: u8 = d[i] * 2 + carry;
        let ghost c = carry;
        d[i] = x % 10;
        carry = x / 10;
        proof {
            let t = ten((n - i - 1) as nat);
            assert(d@.skip(i as int).skip(1) =~= before.skip(i + 1));
            assert(was.skip(i as int).skip(1) =~= was.skip(i + 1));
            assert(d@.skip(i as int)[0] == x % 10);
            assert(was.skip(i as int)[0] == was[i as int]);
            let lo = (x % 10) as nat;
            let hi = (x / 10) as nat;
            let o = was[i as int] as nat;
            assert(lo * t + hi * (10 * t) == 2 * (o * t) + c * t) by (nonlinear_arith)
                requires
                    lo + 10 * hi == 2 * o + c,
            ;
            assert(carry * ten((n - i) as nat) == hi * (10 * t));
        }
    }
    assert(d@.skip(0) =~= d@);
    assert(was.skip(0) =~= was);
    assert(0 * ten(n as nat) == 0);
    assert(1 * ten(n as nat) == ten(n as nat));
    carry == 1
}

/// Whether the decimal fraction lies within `2^-j` of one, that is whether its first
/// `j` binary digits are all ones. The fraction is left multiplied out.
fn near_one(d: &mut Vec<u8>, j: u32) -> (r: bool)
    requires
        decimal_digits(old(d)@),
    ensures
        r == (weight(old(d)@) * pow2(j as nat) >= (pow2(j as nat) - 1) * ten(old(d)@.len())),
        r ==> weight(final(d)@) == weight(old(d)@) * pow2(j as nat) - (pow2(j as nat) - 1) * ten(
            old(d)@.len(),
        ),
        final(d)@.len() == old(d)@.len(),
        decimal_digits(final(d)@),
{
    let ghost w0 = weight(d@);
    let ghost t = ten(d@.len());
    let mut i: u32 = 0;
    proof {
        lemma2_to64();
        lemma_weight_bound(d@);
        assert(w0 * 1 - 0 * t == w0);
    }
    while i < j
        invariant
            i <= j,
            t == ten(d@.len()),
            w0 == weight(old(d)@),
            d@.len() == old(d)@.len(),
            decimal_digits(d@),
            weight(d@) == w0 * pow2(i as nat) - (pow2(i as nat) - 1) * t,
        decreases j - i,
    {
        let ghost p = pow2(i as nat);
        let ghost w = weight(d@);
        let carry = double_digits(d);
        proof {
            lemma_weight_bound(d@);
            lemma_pow2_unfold(i as nat + 1);
            assert(2 * (w0 * p - (p - 1) * t) == w0 * (2 * p) - (2 * p - 1) * t + t)
                by (nonlinear_arith);
            if !carry {
                // 2 * w < t, so the first i + 1 binary digits are not all ones
                lemma_weight_lost(w0, t, i as nat + 1, j as nat);
            }
        }
        if !carry {
            return false;
        }
        i += 1;
    }
    true
}

/// A fraction that falls short of `1 - 2^-a` falls short of `1 - 2^-b` for `b >= a`.
proof fn lemma_weight_lost(w: nat, t: nat, a: nat, b: nat)
    requires
        a <= b,
        w * pow2(a) < (pow2(a) - 1) * t,
    ensures
        w * pow2(b) < (pow2(b) - 1) * t,
    decreases b - a,
{
    if a < b {
        lemma_pow2_unfold(a + 1);
        lemma_pow2_pos(a);
        let p = pow2(a);
        assert(w * (2 * p) < (2 * p - 1) * t) by (nonlinear_arith)
            requires
                w * p < (p - 1) * t,
                p >= 1,
        ;
        lemma_weight_lost(w, t, a + 1, b);
    }
}


/// Dropping the fraction of the double nearest to `i + rem / den` leaves `i` or `i + 1`.
proof fn lemma_floor_small(num: nat, den: nat, i: nat, rem: nat)
    requires
        num == i * den + rem,
        rem < den,
        i < TWO53,
    ensures
        ({
            let f = steps_per_unit(i);
            &&& f == 1 ==> double_floor(num, den) == nearest(num, den)
            &&& f >= 2 && f % 2 == 0 ==> double_floor(num, den) == if rem * (2 * f) >= (2 * f - 1)
                * den {
                i + 1
            } else {
                i
            }
        }),
{
    let f = steps_per_unit(i);
    assert(num == den * i + rem) by (nonlinear_arith)
        requires
            num == i * den + rem,
    ;
    lemma_fundamental_div_mod_converse(num as int, den as int, i as int, rem as int);
    if f == 1 {
        assert(num * f == num);
        lemma_div_basics_1(nearest(num, den) as int);
    } else if f >= 2 && f % 2 == 0 {
        let x = rem * f;
        let q1 = x / den;
        let r = x % den;
        lemma_fundamental_div_mod(x as int, den as int);
        lemma_mod_bound(x as int, den as int);
        assert(q1 < f) by (nonlinear_arith)
            requires
                den * q1 + r == rem * f,
                rem < den,
                r >= 0,
                f >= 1,
        ;
        let q = i * f + q1;
        assert(num * f == den * q + r) by (nonlinear_arith)
            requires
                num == i * den + rem,
                den * q1 + r == rem * f,
                q == i * f + q1,
        ;
        lemma_fundamental_div_mod_converse((num * f) as int, den as int, q as int, r as int);
        let v = nearest(num * f, den);
        assert(v == q || v == q + 1);
        assert((i * f) % 2 == 0) by {
            let g = f / 2;
            assert(i * f == 2 * (i * g)) by (nonlinear_arith)
                requires
                    f == 2 * g,
            ;
        }
        let up = rem * (2 * f) >= (2 * f - 1) * den;
        assert(rem * (2 * f) == 2 * x) by (nonlinear_arith)
            requires
                x == rem * f,
        ;
        assert(up <==> (q1 == f - 1 && 2 * r >= den)) by {
            if q1 == f - 1 {
                assert(2 * x == (2 * f - 2) * den + 2 * r) by (nonlinear_arith)
                    requires
                        x == den * q1 + r,
                        q1 == f - 1,
                ;
                assert((2 * f - 1) * den == (2 * f - 2) * den + den) by (nonlinear_arith);
            } else {
                assert(2 * x < (2 * f - 2) * den) by (nonlinear_arith)
                    requires
                        x == den * q1 + r,
                        r < den,
                        q1 + 1 <= f - 1,
                        den >= 1,
                ;
                assert((2 * f - 2) * den <= (2 * f - 1) * den) by (nonlinear_arith);
            }
        }
        assert((i + 1) * f == i * f + f) by (nonlinear_arith);
        if up {
            assert(v == (i + 1) * f);
            lemma_div_by_multiple((i + 1) as int, f as int);
        } else {
            assert(i * f <= v < i * f + f);
            lemma_fundamental_div_mod_converse(v as int, f as int, i as int, (v - i * f) as int);
        }
    }
}

/// The same for an integer part with more bits than a double keeps.
proof fn lemma_floor_large(num: nat, den: nat, i: nat, rem: nat)
    requires
        num == i * den + rem,
        rem < den,
        i >= TWO53,
    ensures
        ({
            let u = rounding::ulp(i);
            double_floor(num, den) == if 2 * (i % u) < u || (2 * (i % u) == u && rem == 0 && (i / u)
                % 2 == 0) {
                (i / u) * u
            } else {
                (i / u + 1) * u
            }
        }),
{
    let u = rounding::ulp(i);
    rounding::lemma_ulp(i);
    assert(num == den * i + rem) by (nonlinear_arith)
        requires
            num == i * den + rem,
    ;
    lemma_fundamental_div_mod_converse(num as int, den as int, i as int, rem as int);
    let q = i / u;
    let ri = i % u;
    lemma_fundamental_div_mod(i as int, u as int);
    lemma_mod_bound(i as int, u as int);
    let d = den * u;
    let r = ri * den + rem;
    assert(num == d * q + r) by (nonlinear_arith)
        requires
            num == i * den + rem,
            i == u * q + ri,
            d == den * u,
            r == ri * den + rem,
    ;
    assert(r < d) by (nonlinear_arith)
        requires
            r == ri * den + rem,
            rem < den,
            ri < u,
            d == den * u,
    ;
    lemma_fundamental_div_mod_converse(num as int, d as int, q as int, r as int);
    assert(2 * r == (2 * ri) * den + 2 * rem) by (nonlinear_arith)
        requires
            r == ri * den + rem,
    ;
    if 2 * ri < u {
        assert((2 * ri) * den + 2 * rem < d) by (nonlinear_arith)
            requires
                2 * ri + 2 <= u,
                rem < den,
                d == den * u,
        ;
    } else if 2 * ri == u {
        assert((2 * ri) * den == d) by (nonlinear_arith)
            requires
                2 * ri == u,
                d == den * u,
        ;
    } else {
        assert((2 * ri) * den > d) by (nonlinear_arith)
            requires
                2 * ri > u,
                d == den * u,
                den >= 1,
        ;
    }
}

proof fn lemma_steps(i: nat)
    requires
        i < TWO53,
    ensures
        steps_per_unit(i) >= 1,
    decreases TWO53 - i,
{
    if i < TWO53 / 2 {
        lemma_steps(2 * i + 1);
    }
}

/// Whether all digits are zero.
fn is_zero(d: &Vec<u8>) -> (r: bool)
    requires
        decimal_digits(d@),
    ensures
        r == (weight(d@) == 0),
{
    let mut i: usize = d.len();
    while i > 0
        invariant
            i <= d.len(),
            weight(d@.skip(i as int)) == 0,
        decreases i,
    {
        i -= 1;
        proof {
            assert(d@.skip(i as int).skip(1) =~= d@.skip(i + 1));
            let t = ten((d@.len() - i - 1) as nat);
            lemma_ten_grows(0, (d@.len() - i - 1) as nat);
            assert(d@[i as int] > 0 ==> d@[i as int] * t > 0) by (nonlinear_arith)
                requires
                    t >= 1,
            ;
            assert(0 * t == 0);
        }
        if d[i] != 0 {
            proof {
                lemma_weight_suffix(d@, i as int);
            }
            return false;
        }
    }
    assert(d@.skip(0) =~= d@);
    true
}

proof fn lemma_weight_suffix(d: Seq<u8>, i: int)
    requires
        0 <= i <= d.len(),
    ensures
        weight(d.skip(i)) <= weight(d),
    decreases i,
{
    if i > 0 {
        lemma_weight_suffix(d, i - 1);
        assert(d.skip(i - 1).skip(1) =~= d.skip(i));
        assert(d[i - 1] as nat * ten((d.len() - i) as nat) >= 0) by (nonlinear_arith);
    } else {
        assert(d.skip(0) =~= d);
    }
}

/// The integer part of the double nearest to `i` plus the decimal fraction `frac`.
fn nearest_floor(i: u128, mut frac: Vec<u8>) -> (r: u128)
    requires
        i < 0x100_0000_0000_0000_0000,
        decimal_digits(frac@),
    ensures
        r == double_floor(i as nat * ten(frac@.len()) + weight(frac@), ten(frac@.len())),
{
    let ghost den = ten(frac@.len());
    let ghost w = weight(frac@);
    let ghost num = i as nat * den + w;
    proof {
        lemma_weight_bound(frac@);
    }
    if i >= TWO53 as u128 {
        proof {
            lemma_floor_large(num, den, i as nat, w);
            rounding::lemma_ulp(i as nat);
        }
        let u: u128 = rounding::spacing(i);
        let q: u128 = i / u;
        let r: u128 = i % u;
        proof {
            lemma_fundamental_div_mod(i as int, u as int);
            assert((q + 1) * u == u * q + u) by (nonlinear_arith);
            assert(q * u == u * q) by (nonlinear_arith);
        }
        if 2 * r < u || (2 * r == u && q % 2 == 0 && is_zero(&frac)) {
            q * u
        } else {
            (q + 1) * u
        }
    } else {
        let mut k: u128 = i;
        let mut j: u32 = 0;
        proof {
            lemma2_to64();
            lemma_floor_small(num, den, i as nat, w);
            lemma_steps(i as nat);
        }
        while k < (TWO53 / 2) as u128
            invariant
                i < TWO53,
                k < TWO53,
                k >= j,
                j <= 53,
                k + 1 == (i + 1) * pow2(j as nat),
                steps_per_unit(i as nat) == pow2(j as nat) * steps_per_unit(k as nat),
            decreases TWO53 - k,
        {
            proof {
                lemma_pow2_unfold(j as nat + 1);
                let p = pow2(j as nat);
                let y = steps_per_unit((2 * k + 1) as nat);
                assert(p * (2 * y) == (2 * p) * y) by (nonlinear_arith);
                assert((i + 1) * (2 * p) == 2 * ((i + 1) * p)) by (nonlinear_arith);
                assert(j < 53) by {
                    if j >= 53 {
                        lemma2_to64_rest();
                        assert((i + 1) * p >= p) by (nonlinear_arith)
                            requires
                                i >= 0,
                                p >= 0,
                        ;
                    }
                }
            }
            k = 2 * k + 1;
            j += 1;
        }
        let ghost f = steps_per_unit(i as nat);
        assert(pow2(j as nat) * 1 == pow2(j as nat));
        assert(f == pow2(j as nat));
        if j == 0 {
            proof {
                assert(num == den * (i as nat) + w) by (nonlinear_arith)
                    requires
                        num == i as nat * den + w,
                ;
                lemma_fundamental_div_mod_converse(num as int, den as int, i as int, w as int);
                lemma_pow2_unfold(1);
                assert(pow2(1) == 2);
                assert(w * 2 == 2 * w && (2 - 1) * den == den);
            }
            // at least one half; exactly one half where nothing is left after the doubling
            if near_one(&mut frac, 1) && (i % 2 == 1 || !is_zero(&frac)) {
                i + 1
            } else {
                i
            }
        } else {
            proof {
                lemma_pow2_unfold(j as nat);
                lemma_pow2_pos((j - 1) as nat);
                lemma_pow2_unfold(j as nat + 1);
            }
            if near_one(&mut frac, j + 1) {
                i + 1
            } else {
                i
            }
        }
    }
}


proof fn lemma_weight_of_chars(d: Seq<u8>, s: Seq<char>)
    requires
        d.len() == s.len(),
        text::all_digits(s),
        forall|i: int| 0 <= i < d.len() ==> d[i] as nat == text::digit_value(s[i]),
    ensures
        weight(d) == text::digits_value(s),
    decreases d.len(),
{
    if d.len() > 0 {
        let t = s.skip(1);
        assert forall|i: int| 0 <= i < t.len() implies text::is_digit(#[trigger] t[i]) by {
            assert(text::is_digit(s[i + 1]));
        }
        assert forall|i: int| 0 <= i < t.len() implies d.skip(1)[i] as nat == text::digit_value(
            t[i],
        ) by {
            assert(d[i + 1] as nat == text::digit_value(s[i + 1]));
        }
        lemma_weight_of_chars(d.skip(1), t);
        let h = seq![s[0]];
        assert(s =~= h + t);
        lemma_digits_concat(h, t);
        assert(h.drop_last() =~= Seq::<char>::empty());
        assert(text::digits_value(Seq::<char>::empty()) == 0);
        assert(text::digits_value(h) == text::digit_value(s[0]));
    }
}

proof fn lemma_value_zero(x: int)
    ensures
        scaled_floor(0, x) == 0,
{
    let den = if x >= 0 { 1nat } else { ten((-x) as nat) };
    lemma_ten_grows(0, if x >= 0 { x as nat } else { (-x) as nat });
    if x >= 0 {
        assert(0 * ten(x as nat) == 0);
    }
    assert(0 * den + 0 == 0);
    lemma_small_floor(0, den);
}

/// A tenth or less rounds to less than one.
proof fn lemma_small_floor(num: nat, den: nat)
    requires
        den >= 1,
        10 * num <= den,
    ensures
        double_floor(num, den) == 0,
{
    assert(num == 0 * den + num);
    lemma_floor_small(num, den, 0, num);
    let f = steps_per_unit(0);
    assert(f == 2 * steps_per_unit(1));
    lemma_steps(1);
    assert(f % 2 == 0);
    assert(num * (2 * f) < (2 * f - 1) * den) by (nonlinear_arith)
        requires
            10 * num <= den,
            den >= 1,
            f >= 2,
    ;
}

/// A value of 10^20 or more rounds to more than any 64-bit index.
proof fn lemma_huge_floor(num: nat, den: nat)
    requires
        den >= 1,
        num >= 100_000_000_000_000_000_000 * den,
    ensures
        double_floor(num, den) > 0xffff_ffff_ffff_ffff,
{
    let i = num / den;
    let rem = num % den;
    lemma_fundamental_div_mod(num as int, den as int);
    lemma_mod_bound(num as int, den as int);
    assert(num == i * den + rem) by (nonlinear_arith)
        requires
            num == den * i + rem,
    ;
    assert(i >= 100_000_000_000_000_000_000) by (nonlinear_arith)
        requires
            num == i * den + rem,
            rem < den,
            num >= 100_000_000_000_000_000_000 * den,
    ;
    lemma_floor_large(num, den, i, rem);
    let u = rounding::ulp(i);
    rounding::lemma_ulp(i);
    let q = i / u;
    lemma_fundamental_div_mod(i as int, u as int);
    lemma_mod_bound(i as int, u as int);
    assert((q + 1) * u >= q * u) by (nonlinear_arith);
    assert(2 * (q * u) >= i) by (nonlinear_arith)
        requires
            i < u * q + u,
            q >= 1,
    ;
}

proof fn lemma_scaled_huge(m: nat, n: nat, p: int, x: int)
    requires
        n >= 1,
        m >= ten((n - 1) as nat),
        x == p - n,
        p >= 21,
    ensures
        scaled_floor(m, x) > 0xffff_ffff_ffff_ffff,
{
    lemma_ten_grows(20, (p - 1) as nat);
    assert(ten(20) == 100_000_000_000_000_000_000) by {
        reveal_with_fuel(ten, 21);
    }
    if x >= 0 {
        lemma_ten((n - 1) as nat, x as nat);
        lemma_ten(x as nat, 0);
        assert(m * ten(x as nat) >= ten((n - 1) as nat) * ten(x as nat)) by (nonlinear_arith)
            requires
                m >= ten((n - 1) as nat),
        ;
        lemma_huge_floor(m * ten(x as nat), 1);
    } else {
        let d = ten((-x) as nat);
        lemma_ten((-x) as nat, (p - 1) as nat);
        assert(m >= 100_000_000_000_000_000_000 * d) by (nonlinear_arith)
            requires
                m >= d * ten((p - 1) as nat),
                ten((p - 1) as nat) >= 100_000_000_000_000_000_000,
        ;
        lemma_huge_floor(m, d);
    }
}

proof fn lemma_scaled_small(m: nat, n: nat, p: int, x: int)
    requires
        m < ten(n),
        x == p - n,
        p <= -1,
    ensures
        scaled_floor(m, x) == 0,
{
    let d = ten((-x) as nat);
    lemma_ten(n, (-p) as nat);
    lemma_ten_grows(1, (-p) as nat);
    assert(ten(1) == 10) by {
        reveal_with_fuel(ten, 2);
    }
    assert(10 * m <= d) by (nonlinear_arith)
        requires
            d == ten(n) * ten((-p) as nat),
            ten((-p) as nat) >= 10,
            m < ten(n),
    ;
    lemma_ten(((-x) as nat), 0);
    lemma_small_floor(m, d);
}

/// The end of the digits that start at `i`.
fn digits_end(v: &[char], i: usize) -> (e: usize)
    requires
        i <= v.len(),
    ensures
        e == i + run(v@, i as int),
        i <= e <= v.len(),
        text::all_digits(v@.subrange(i as int, e as int)),
{
    let mut e: usize = i;
    while e < v.len() && '0' <= v[e] && v[e] <= '9'
        invariant
            i <= e <= v.len(),
            i + run(v@, i as int) == e + run(v@, e as int),
        decreases v.len() - e,
    {
        e += 1;
    }
    proof {
        lemma_run(v@, i as int);
    }
    e
}

/// The end of an optional sign at `i`.
fn sign_end(v: &[char], i: usize) -> (e: usize)
    requires
        i <= v.len(),
    ensures
        e == i + sign_len(v@, i as int),
        e <= v.len(),
{
    if i < v.len() && (v[i] == '+' || v[i] == '-') {
        i + 1
    } else {
        i
    }
}

/// The digits `[from, to)` of an exponent; 2^80 where it is larger than that.
fn exponent_magnitude(v: &[char], from: usize, to: usize) -> (e: i128)
    requires
        from <= to <= v.len(),
        text::all_digits(v@.subrange(from as int, to as int)),
    ensures
        ({
            let x = text::digits_value(v@.subrange(from as int, to as int));
            0 <= e <= 0x1_0000_0000_0000_0000_0000 && (e == x || (e == 0x1_0000_0000_0000_0000_0000 && x >= e))
        }),
{
    let ghost s = v@.subrange(from as int, to as int);
    let mut e: i128 = 0;
    let mut i: usize = from;
    assert(s.take(0) =~= Seq::<char>::empty());
    while i < to
        invariant
            from <= i <= to <= v.len(),
            s == v@.subrange(from as int, to as int),
            text::all_digits(s),
            0 <= e <= 0x1_0000_0000_0000_0000_0000,
            e == text::digits_value(s.take(i - from)) || (e == 0x1_0000_0000_0000_0000_0000
                && text::digits_value(s.take(i - from)) >= e),
        decreases to - i,
    {
        let c: char = v[i];
        assert(c == s[i - from]);
        assert(text::is_digit(s[i - from]));
        assert(s.take(i + 1 - from).drop_last() =~= s.take(i - from));
        assert(s.take(i + 1 - from).last() == c);
        e = e * 10 + (c as i128 - 48);
        if e > 0x1_0000_0000_0000_0000_0000 {
            e = 0x1_0000_0000_0000_0000_0000;
        }
        i += 1;
    }
    assert(s.take(to - from) =~= s);
    e
}

/// The integer part of `0.d * 10^p`.
fn leading_value(d: &[char], p: usize) -> (i: u128)
    requires
        text::all_digits(d@),
        p <= 20,
    ensures
        p <= d@.len() ==> i == text::digits_value(d@.take(p as int)),
        p > d@.len() ==> i == text::digits_value(d@) * ten((p - d@.len()) as nat),
        i < 100_000_000_000_000_000_000,
{
    let ghost n = d@.len();
    let ghost m = text::digits_value(d@);
    let mut i: u128 = 0;
    let mut t: usize = 0;
    assert(d@.take(0) =~= Seq::<char>::empty());
    assert(ten(20) == 100_000_000_000_000_000_000) by {
        reveal_with_fuel(ten, 21);
    }
    while t < p && t < d.len()
        invariant
            t <= p <= 20,
            t <= d.len(),
            text::all_digits(d@),
            i == text::digits_value(d@.take(t as int)),
            i < ten(t as nat),
            ten(20) == 100_000_000_000_000_000_000,
        decreases p - t,
    {
        assert(text::is_digit(d@[t as int]));
        assert(d@.take(t + 1).drop_last() =~= d@.take(t as int));
        proof {
            lemma_ten_grows(t as nat, 20);
        }
        i = i * 10 + (d[t] as u128 - 48);
        t += 1;
    }
    proof {
        lemma_ten_grows(t as nat, 20);
    }
    if p <= d.len() {
        return i;
    }
    proof {
        assert(d@.take(t as int) =~= d@);
        assert(ten(0) == 1);
        assert(m * 1 == m);
    }
    while t < p
        invariant
            n <= t <= p <= 20,
            i == m * ten((t - n) as nat),
            i < ten(t as nat),
            ten(20) == 100_000_000_000_000_000_000,
        decreases p - t,
    {
        proof {
            let k = ten((t - n) as nat);
            assert(m * (10 * k) == 10 * (m * k)) by (nonlinear_arith);
            lemma_ten_grows(t as nat, 20);
        }
        i = i * 10;
        t += 1;
    }
    proof {
        lemma_ten_grows(t as nat, 20);
    }
    i
}

/// The values of the digits from `p` on.
fn trailing_digits(d: &[char], p: usize) -> (frac: Vec<u8>)
    requires
        text::all_digits(d@),
        p <= d@.len(),
    ensures
        frac@.len() == d@.len() - p,
        decimal_digits(frac@),
        weight(frac@) == text::digits_value(d@.skip(p as int)),
{
    let mut frac: Vec<u8> = Vec::new();
    let mut j: usize = p;
    while j < d.len()
        invariant
            p <= j <= d.len(),
            text::all_digits(d@),
            frac@.len() == j - p,
            forall|k: int|
                0 <= k < j - p ==> (#[trigger] frac@[k]) as nat == text::digit_value(d@[p + k])
                    && frac@[k] < 10,
        decreases d.len() - j,
    {
        assert(text::is_digit(d@[j as int]));
        frac.push((d[j] as u32 - 48) as u8);
        j += 1;
    }
    proof {
        let tail = d@.skip(p as int);
        assert forall|k: int| 0 <= k < tail.len() implies text::is_digit(#[trigger] tail[k]) by {
            assert(text::is_digit(d@[p + k]));
        }
        lemma_weight_of_chars(frac@, tail);
    }
    frac
}

/// The index that `0.d * 10^p` is worth, `d` being digits of which the first is not zero.
fn positioned_index(d: &[char], p: i128) -> (r: usize)
    requires
        text::all_digits(d@),
        d.len() >= 1,
        d@[0] != '0',
    ensures
        ({
            let v = scaled_floor(text::digits_value(d@), p - d@.len());
            r == if v <= usize::MAX {
                v
            } else {
                usize::MAX as nat
            }
        }),
{
    let ghost m = text::digits_value(d@);
    let ghost n = d@.len();
    proof {
        lemma_digits_bound(d@);
    }
    if p >= 21 {
        proof {
            lemma_scaled_huge(m, n, p as int, p - n);
        }
        return usize::MAX;
    }
    if p < 0 {
        proof {
            lemma_scaled_small(m, n, p as int, p - n);
        }
        return 0;
    }
    let p: usize = p as usize;
    let i: u128 = leading_value(d, p);
    let frac: Vec<u8> = if p <= d.len() {
        trailing_digits(d, p)
    } else {
        Vec::new()
    };
    proof {
        assert(ten(0) == 1);
        if p <= n {
            lemma_digits_concat(d@.take(p as int), d@.skip(p as int));
            assert(d@.take(p as int) + d@.skip(p as int) =~= d@);
            if p == n {
                assert(m * 1 == m);
            }
        } else {
            assert(i as nat * 1 + 0 == i);
        }
    }
    let v: u128 = nearest_floor(i, frac);
    if v <= usize::MAX as u128 {
        v as usize
    } else {
        usize::MAX
    }
}

/// Positions of the parts of a literal, as `Parts` has them.
struct Marks {
    a: usize,
    b: usize,
    c: usize,
    d: usize,
    f: usize,
    g: usize,
}

fn find_parts(v: &[char]) -> (m: Marks)
    ensures
        ({
            let p = parts(v@);
            &&& p.int_from == m.a && p.int_to == m.b && p.frac_from == m.c && p.frac_to == m.d
            &&& p.exp_from == m.f && p.exp_to == m.g
            &&& m.a <= m.b <= m.c <= m.d <= m.f <= m.g <= v@.len()
            &&& m.a <= 1
            &&& text::all_digits(v@.subrange(m.a as int, m.b as int))
            &&& text::all_digits(v@.subrange(m.c as int, m.d as int))
            &&& text::all_digits(v@.subrange(m.f as int, m.g as int))
        }),
{
    let a: usize = sign_end(v, 0);
    let b: usize = digits_end(v, a);
    let dot: bool = b < v.len() && v[b] == '.';
    let c: usize = if dot {
        b + 1
    } else {
        b
    };
    let d: usize = if dot {
        digits_end(v, c)
    } else {
        c
    };
    assert(text::all_digits(v@.subrange(c as int, c as int)));
    if d < v.len() {
        let f: usize = sign_end(v, d + 1);
        let g: usize = digits_end(v, f);
        Marks { a, b, c, d, f, g }
    } else {
        assert(text::all_digits(v@.subrange(d as int, d as int)));
        Marks { a, b, c, d, f: d, g: d }
    }
}

/// The digits `[a, b)` of `v` followed by the digits `[c, d)`.
fn joined_digits(v: &[char], a: usize, b: usize, c: usize, d: usize) -> (digits: Vec<char>)
    requires
        a <= b <= c <= d <= v@.len(),
        text::all_digits(v@.subrange(a as int, b as int)),
        text::all_digits(v@.subrange(c as int, d as int)),
    ensures
        digits@ == v@.subrange(a as int, b as int) + v@.subrange(c as int, d as int),
        text::all_digits(digits@),
{
    let mut digits: Vec<char> = Vec::new();
    let mut i: usize = a;
    while i < b
        invariant
            a <= i <= b <= v.len(),
            digits@ == v@.subrange(a as int, i as int),
        decreases b - i,
    {
        digits.push(v[i]);
        i += 1;
    }
    let mut j: usize = c;
    while j < d
        invariant
            a <= b <= c <= j <= d <= v.len(),
            digits@ == v@.subrange(a as int, b as int) + v@.subrange(c as int, j as int),
        decreases d - j,
    {
        digits.push(v[j]);
        j += 1;
    }
    assert forall|k: int| 0 <= k < digits@.len() implies text::is_digit(#[trigger] digits@[k]) by {
        if k < b - a {
            assert(digits@[k] == v@.subrange(a as int, b as int)[k]);
        } else {
            assert(digits@[k] == v@.subrange(c as int, d as int)[k - (b - a)]);
        }
    }
    digits
}

/// The index that `digits * 10^(e - below)` is worth, `below` of the digits standing
/// behind the point; where `e` is 2^80 away from 0, any exponent further away does too.
fn scaled_index(digits: &Vec<char>, below: usize, e: i128, Ghost(exact): Ghost<int>) -> (r: usize)
    requires
        text::all_digits(digits@),
        below <= digits@.len(),
        e == exact || (e == 0x1_0000_0000_0000_0000_0000 && exact >= e) || (e
            == -0x1_0000_0000_0000_0000_0000 && exact <= e),
        -0x1_0000_0000_0000_0000_0000 <= e <= 0x1_0000_0000_0000_0000_0000,
    ensures
        ({
            let v = scaled_floor(text::digits_value(digits@), exact - below);
            r == if v <= usize::MAX {
                v
            } else {
                usize::MAX as nat
            }
        }),
{
    let mut z: usize = 0;
    while z < digits.len() && digits[z] == '0'
        invariant
            z <= digits.len(),
            forall|k: int| 0 <= k < z ==> digits@[k] == '0',
        decreases digits.len() - z,
    {
        z += 1;
    }
    proof {
        lemma_leading_zeros(digits@, z as int);
    }
    if z == digits.len() {
        proof {
            assert(digits@.skip(z as int).len() == 0);
            lemma_value_zero(exact - below);
        }
        return 0;
    }
    let n: usize = digits.len();
    let tail = vstd::slice::slice_subrange(digits.as_slice(), z, n);
    assert(tail@ =~= digits@.skip(z as int));
    assert forall|k: int| 0 <= k < tail@.len() implies text::is_digit(#[trigger] tail@[k]) by {
        assert(text::is_digit(digits@[z + k]));
    }
    assert(tail@[0] == digits@[z as int]);
    let p: i128 = (n as i128 - below as i128) - z as i128 + e;
    proof {
        let m = text::digits_value(tail@);
        let len = tail@.len();
        let q = exact + n - below - z;
        if e != exact {
            lemma_digits_bound(tail@);
            if e > 0 {
                lemma_scaled_huge(m, len, q, exact - below);
                lemma_scaled_huge(m, len, p as int, p - len);
            } else {
                lemma_scaled_small(m, len, q, exact - below);
                lemma_scaled_small(m, len, p as int, p - len);
            }
        }
    }
    positioned_index(tail, p)
}

/// Reads a decimal literal as an index; `None` where `v` is none.
pub fn read_index(v: &[char]) -> (r: Option<usize>)
    ensures
        match r {
            Some(n) => is_literal(v@) && n == literal_index(v@, usize::MAX as nat),
            None => !is_literal(v@),
        },
{
    let m = find_parts(v);
    if m.a == m.b && m.c == m.d {
        return None;
    }
    if m.d < v.len() && ((v[m.d] != 'e' && v[m.d] != 'E') || m.f == m.g || m.g != v.len()) {
        return None;
    }
    if v[0] == '-' {
        return Some(0);
    }
    let mut e: i128 = exponent_magnitude(v, m.f, m.g);
    if m.d < v.len() && v[m.d + 1] == '-' {
        e = -e;
    }
    let digits = joined_digits(v, m.a, m.b, m.c, m.d);
    Some(scaled_index(&digits, m.d - m.c, e, Ghost(exponent(v@))))
}

proof fn lemma_run_all(s: Seq<char>, i: int)
    requires
        0 <= i <= s.len(),
        text::all_digits(s),
    ensures
        run(s, i) == s.len() - i,
    decreases s.len() - i,
{
    if i < s.len() {
        assert(text::is_digit(s[i]));
        lemma_run_all(s, i + 1);
    }
}

/// A number below 2^53 written in decimal is a literal that is worth that number.
pub proof fn law_decimal_is_exact(n: nat, max: nat)
    requires
        n < TWO53,
        n <= max,
    ensures
        is_literal(text::decimal(n)),
        literal_index(text::decimal(n), max) == n,
{
    let s = text::decimal(n);
    text::lemma_decimal(n);
    assert(text::is_digit(s[0]));
    lemma_run_all(s, 0);
    assert(mantissa(s) =~= s);
    let e = s.subrange(s.len() as int, s.len() as int);
    assert(e =~= Seq::<char>::empty());
    assert(text::digits_value(e) == 0);
    assert(scale10(s) == 0);
    assert(ten(0) == 1);
    assert(n * 1 == n);
    assert(n / 1 == n);
    let f = steps_per_unit(n);
    lemma_steps(n);
    assert((n * f) / 1 == n * f);
    assert((n * f) % 1 == 0);
    assert(nearest(n * f, 1) == n * f);
    lemma_div_multiples_vanish(n as int, f as int);
    assert(f * n == n * f) by (nonlinear_arith);
}

} // verus!
