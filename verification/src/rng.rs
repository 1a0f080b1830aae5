//! SplitMix64-seeded xoshiro256++ generator.
use crate::ieee;
use crate::rounding;
use crate::scalar;
use crate::scalar::{Num, Scalar, Term, WideNum, WideTerm, WideUnary};
use vstd::arithmetic::power2::*;
use vstd::prelude::*;

verus! {

/// `x` turned left by `k` bits.
pub open spec fn rotl(x: u64, k: u64) -> u64 {
    (x << k) | (x >> ((64 - k) as u64))
}

/// The SplitMix64 counter after one step from `x`.
pub open spec fn splitmix_next(x: u64) -> u64 {
    x.wrapping_add(0x9E3779B97F4A7C15)
}

/// The SplitMix64 output for the counter value `x`.
pub open spec fn splitmix_mix(x: u64) -> u64 {
    let a = (x ^ (x >> 30)).wrapping_mul(0xBF58476D1CE4E5B9);
    let b = (a ^ (a >> 27)).wrapping_mul(0x94D049BB133111EB);
    b ^ (b >> 31)
}

/// One step of SplitMix64: advances the counter and returns its mix.
pub fn splitmix64(x: &mut u64) -> (z: u64)
    ensures
        *final(x) == splitmix_next(*old(x)),
        z == splitmix_mix(splitmix_next(*old(x))),
{
    *x = x.wrapping_add(0x9E3779B97F4A7C15);
    let z: u64 = *x;
    let a: u64 = (z ^ (z >> 30)).wrapping_mul(0xBF58476D1CE4E5B9);
    let b: u64 = (a ^ (a >> 27)).wrapping_mul(0x94D049BB133111EB);
    b ^ (b >> 31)
}

fn rotate_left(x: u64, k: u64) -> (r: u64)
    requires
        0 < k < 64,
    ensures
        r == rotl(x, k),
{
    (x << k) | (x >> (64 - k))
}


/// The four words of generator state.
#[verifier::ext_equal]
pub struct State {
    pub a: u64,
    pub b: u64,
    pub c: u64,
    pub d: u64,
}

/// The word that xoshiro256++ gives out in the state `s`.
pub open spec fn output(s: State) -> u64 {
    rotl(s.a.wrapping_add(s.d), 23).wrapping_add(s.a)
}

/// The state that follows `s`.
pub open spec fn advance(s: State) -> State {
    let c = s.c ^ s.a;
    let d = s.d ^ s.b;
    State { a: s.a ^ d, b: s.b ^ c, c: c ^ (s.b << 17), d: rotl(d, 45) }
}

/// The state after `n` words were drawn from `s`.
pub open spec fn advance_by(s: State, n: nat) -> State
    decreases n,
{
    if n == 0 {
        s
    } else {
        advance(advance_by(s, (n - 1) as nat))
    }
}

/// The state that a seed starts in: four SplitMix64 words.
pub open spec fn seeded(seed: u64) -> State {
    let x1 = splitmix_next(seed);
    let x2 = splitmix_next(x1);
    let x3 = splitmix_next(x2);
    let x4 = splitmix_next(x3);
    State { a: splitmix_mix(x1), b: splitmix_mix(x2), c: splitmix_mix(x3), d: splitmix_mix(x4) }
}

/// The top 24 bits of the next word: the numerator of a uniform single.
pub open spec fn draw24(s: State) -> nat {
    (output(s) >> 40) as nat
}

/// The top 53 bits of the next word: the numerator of a uniform double.
pub open spec fn draw53(s: State) -> nat {
    (output(s) >> 11) as nat
}

/// The bit pattern of the single in `[0, 1)` that the state `s` gives: 24 bits over 2^24.
pub open spec fn uniform_single(s: State) -> u32 {
    ieee::single_of(draw24(s))
}

/// The bit pattern of the double in `[0, 1)` that the state `s` gives: 53 bits over 2^53.
pub open spec fn uniform_double(s: State) -> u64 {
    ieee::double_of(draw53(s))
}

/// The integer below `n` that the state `s` gives.
pub open spec fn draw_below(s: State, n: nat) -> nat {
    rounding::scaled(draw53(s), n)
}

/// The standard normal sample that Box-Muller makes of two uniform doubles, given by their
/// bit patterns: the root of `-2 ln u1`, with `u1` kept from zero by 1e-12, times the cosine
/// of `2 pi u2`.
pub open spec fn box_muller<T>(u1: u64, u2: u64) -> WideTerm<T> {
    let u = scalar::wide_maximum(WideTerm::Bits(u1), WideTerm::Bits(0x3d71_9799_812d_ea11));
    let turn = scalar::wide_product(
        WideTerm::Bits(0x4000_0000_0000_0000),
        WideTerm::Bits(0x4009_21fb_5444_2d18),
    );
    scalar::wide_product(
        scalar::wide_apply(
            WideUnary::Sqrt,
            scalar::wide_product(
                WideTerm::Bits(0xc000_0000_0000_0000),
                scalar::wide_apply(WideUnary::Ln, u),
            ),
        ),
        scalar::wide_apply(WideUnary::Cos, scalar::wide_product(turn, WideTerm::Bits(u2))),
    )
}

/// The normal sample that the state `s` gives.
pub open spec fn normal_term<T>(mean: Term<T>, std: Term<T>, s: State) -> Term<T> {
    let z = box_muller(uniform_double(s), uniform_double(advance(s)));
    scalar::sum(mean, scalar::product(std, Term::Narrow(z)))
}

/// A xoshiro256++ generator.
pub struct Rng {
    s: [u64; 4],
}

impl View for Rng {
    type V = State;

    closed spec fn view(&self) -> State {
        State { a: self.s@[0], b: self.s@[1], c: self.s@[2], d: self.s@[3] }
    }
}

impl Rng {
    /// A generator seeded by four words of SplitMix64.
    pub fn new(seed: u64) -> (rng: Self)
        ensures
            rng@ == seeded(seed),
    {
        let mut x: u64 = seed;
        let a: u64 = splitmix64(&mut x);
        let b: u64 = splitmix64(&mut x);
        let c: u64 = splitmix64(&mut x);
        let d: u64 = splitmix64(&mut x);
        Rng { s: [a, b, c, d] }
    }

    /// The next word.
    pub fn next_u64(&mut self) -> (w: u64)
        ensures
            w == output(old(self)@),
            final(self)@ == advance(old(self)@),
    {
        let a: u64 = self.s[0];
        let b: u64 = self.s[1];
        let w: u64 = rotate_left(a.wrapping_add(self.s[3]), 23).wrapping_add(a);
        let t: u64 = b << 17;
        let c: u64 = self.s[2] ^ a;
        let d: u64 = self.s[3] ^ b;
        self.s = [a ^ d, b ^ c, c ^ t, rotate_left(d, 45)];
        w
    }

    /// The bit pattern of a uniform single in `[0, 1)`: 24 random bits over 2^24.
    pub fn uniform_f32(&mut self) -> (bits: u32)
        ensures
            bits == uniform_single(old(self)@),
            ieee::single_value(bits) == draw24(old(self)@) * pow2(125),
            bits < 0x3f80_0000,
            final(self)@ == advance(old(self)@),
    {
        let w: u64 = self.next_u64();
        assert(w >> 40 < 0x100_0000) by (bit_vector);
        let bits: u32 = ieee::single_fraction((w >> 40) as u32);
        proof {
            ieee::lemma_single_of(bits, draw24(old(self)@));
        }
        bits
    }

    fn numerator53(&mut self) -> (k: u64)
        ensures
            k == draw53(old(self)@),
            k < rounding::TWO53,
            final(self)@ == advance(old(self)@),
    {
        let w: u64 = self.next_u64();
        assert(w >> 11 < 0x20_0000_0000_0000) by (bit_vector);
        w >> 11
    }

    /// The bit pattern of a uniform double in `[0, 1)`: 53 random bits over 2^53.
    pub fn uniform_f64(&mut self) -> (bits: u64)
        ensures
            bits == uniform_double(old(self)@),
            ieee::double_value(bits) == draw53(old(self)@) * pow2(1021),
            bits < 0x3ff0_0000_0000_0000,
            final(self)@ == advance(old(self)@),
    {
        let k: u64 = self.numerator53();
        let bits: u64 = ieee::double_fraction(k);
        proof {
            ieee::lemma_double_of(bits, k as nat);
        }
        bits
    }

    /// A normal sample with the given mean and standard deviation, made of two uniform
    /// doubles.
    pub fn normal_f32<T: Scalar>(&mut self, mean: Num<T>, std: Num<T>) -> (r: Num<T>)
        ensures
            r@ == normal_term(mean@, std@, old(self)@),
            final(self)@ == advance_by(old(self)@, 2),
    {
        proof {
            reveal_with_fuel(advance_by, 3);
        }
        let u1: WideNum<T> = WideNum::bits(self.uniform_f64()).maximum(
            WideNum::bits(0x3d71_9799_812d_ea11),
        );
        let u2: WideNum<T> = WideNum::bits(self.uniform_f64());
        let two: WideNum<T> = WideNum::bits(0x4000_0000_0000_0000);
        let pi: WideNum<T> = WideNum::bits(0x4009_21fb_5444_2d18);
        let minus_two: WideNum<T> = WideNum::bits(0xc000_0000_0000_0000);
        let z: WideNum<T> = minus_two.times(u1.ln()).sqrt().times(two.times(pi).times(u2).cos());
        mean.plus(std.times(z.narrow()))
    }

    /// A uniform integer in `[0, n)`; 0 where `n` is 0.
    pub fn rand_below(&mut self, n: usize) -> (i: usize)
        ensures
            i == draw_below(old(self)@, n as nat),
            n >= 1 ==> i < n,
            n == 0 ==> i == 0,
            final(self)@ == advance(old(self)@),
    {
        let k: u64 = self.numerator53();
        rounding::scale(k, n)
    }
}

/// Whatever the state, the integer drawn for a bound lies below it.
pub proof fn law_draw_below_in_range(s: State, n: nat)
    requires
        n >= 1,
    ensures
        draw_below(s, n) < n,
{
    let w = output(s);
    assert(w >> 11 < 0x20_0000_0000_0000) by (bit_vector);
    rounding::law_scaled_in_range(draw53(s), n);
}

/// Drawing twice is drawing once.
pub proof fn law_draws_add_up(s: State, a: nat, b: nat)
    ensures
        advance_by(advance_by(s, a), b) == advance_by(s, a + b),
    decreases b,
{
    if b > 0 {
        law_draws_add_up(s, a, (b - 1) as nat);
    }
}

/// The integer drawn for a bound is the bound times the drawn fraction, without its own
/// fraction, or one more where rounding carries it over.
pub proof fn law_draw_below_is_proportional(s: State, n: nat)
    requires
        n < 0x20_0000_0000_0000,
    ensures
        draw53(s) * n / 0x20_0000_0000_0000 <= draw_below(s, n),
        draw_below(s, n) <= draw53(s) * n / 0x20_0000_0000_0000 + 1,
{
    let w = output(s);
    assert(w >> 11 < 0x20_0000_0000_0000) by (bit_vector);
    rounding::law_scaled_is_the_product(draw53(s), n);
}

/// Two states, bit by bit: where they differ.
pub open spec fn differing(s: State, t: State) -> State {
    State { a: s.a ^ t.a, b: s.b ^ t.b, c: s.c ^ t.c, d: s.d ^ t.d }
}

/// The step from a state to the next is linear over the bits: where two states differ settles
/// where their successors differ.
pub proof fn law_advance_is_linear(s: State, t: State)
    ensures
        advance(differing(s, t)) == differing(advance(s), advance(t)),
{
    let (a, b, c, d) = (s.a, s.b, s.c, s.d);
    let (e, f, g, h) = (t.a, t.b, t.c, t.d);
    assert((a ^ e) ^ ((d ^ h) ^ (b ^ f)) == (a ^ (d ^ b)) ^ (e ^ (h ^ f))) by (bit_vector);
    assert((b ^ f) ^ ((c ^ g) ^ (a ^ e)) == (b ^ (c ^ a)) ^ (f ^ (g ^ e))) by (bit_vector);
    assert(((c ^ g) ^ (a ^ e)) ^ ((b ^ f) << 17) == ((c ^ a) ^ (b << 17)) ^ ((g ^ e) ^ (f << 17)))
        by (bit_vector);
    let (x, y) = (d ^ b, h ^ f);
    assert((d ^ h) ^ (b ^ f) == (d ^ b) ^ (h ^ f)) by (bit_vector);
    assert(((x ^ y) << 45) | ((x ^ y) >> 19) == ((x << 45) | (x >> 19)) ^ ((y << 45) | (y >> 19)))
        by (bit_vector);
    assert((64 - 45) as u64 == 19u64);
}

/// A rotation loses nothing.
proof fn lemma_rotation(x: u64, y: u64)
    ensures
        rotl(x, 45) == rotl(y, 45) ==> x == y,
        rotl(x, 23) == rotl(y, 23) ==> x == y,
{
    assert((64 - 45) as u64 == 19u64 && (64 - 23) as u64 == 41u64);
    assert((x << 45) | (x >> 19) == (y << 45) | (y >> 19) ==> x == y) by (bit_vector);
    assert((x << 23) | (x >> 41) == (y << 23) | (y >> 41) ==> x == y) by (bit_vector);
}

/// No two states have the same successor.
pub proof fn law_states_do_not_merge(s: State, t: State)
    requires
        advance(s) == advance(t),
    ensures
        s == t,
{
    let (a, b, c, d) = (s.a, s.b, s.c, s.d);
    let (e, f, g, h) = (t.a, t.b, t.c, t.d);
    lemma_rotation(d ^ b, h ^ f);
    let (x, y) = (d ^ b, h ^ f);
    assert(a ^ x == e ^ x ==> a == e) by (bit_vector);
    assert(b ^ (c ^ a) == f ^ (g ^ a) && (c ^ a) ^ (b << 17) == (g ^ a) ^ (f << 17) ==> b == f && c
        == g) by (bit_vector);
    assert(d ^ b == h ^ b ==> d == h) by (bit_vector);
}

/// The word that a state gives out tells its last part from its first.
pub proof fn law_word_tells_the_last_part(s: State, t: State)
    requires
        s.a == t.a,
        output(s) == output(t),
    ensures
        s.d == t.d,
{
    lemma_rotation(s.a.wrapping_add(s.d), t.a.wrapping_add(t.d));
}

/// Multiplying by a number with an inverse modulo 2^64 loses nothing.
proof fn lemma_odd_factor(x: u64, y: u64, k: u64, inverse: u64)
    requires
        x.wrapping_mul(k) == y.wrapping_mul(k),
        (k * inverse) % 0x1_0000_0000_0000_0000 == 1,
    ensures
        x == y,
{
    let m = 0x1_0000_0000_0000_0000int;
    assert((x * k) % m == (y * k) % m);
    vstd::arithmetic::div_mod::lemma_mul_mod_noop_left(x * k, inverse as int, m);
    vstd::arithmetic::div_mod::lemma_mul_mod_noop_left(y * k, inverse as int, m);
    vstd::arithmetic::mul::lemma_mul_is_associative(x as int, k as int, inverse as int);
    vstd::arithmetic::mul::lemma_mul_is_associative(y as int, k as int, inverse as int);
    vstd::arithmetic::div_mod::lemma_mul_mod_noop_right(x as int, k * inverse, m);
    vstd::arithmetic::div_mod::lemma_mul_mod_noop_right(y as int, k * inverse, m);
    vstd::arithmetic::div_mod::lemma_small_mod(x as nat, m as nat);
    vstd::arithmetic::div_mod::lemma_small_mod(y as nat, m as nat);
}

/// No two seeds start in the same state: already the first of its words tells the seed.
pub proof fn law_seeds_do_not_collide(x: u64, y: u64)
    requires
        seeded(x).a == seeded(y).a,
    ensures
        x == y,
{
    let (p, q) = (splitmix_next(x), splitmix_next(y));
    let (p1, q1) = (p ^ (p >> 30), q ^ (q >> 30));
    let (p2, q2) = (p1.wrapping_mul(0xBF58476D1CE4E5B9), q1.wrapping_mul(0xBF58476D1CE4E5B9));
    let (p3, q3) = (p2 ^ (p2 >> 27), q2 ^ (q2 >> 27));
    let (p4, q4) = (p3.wrapping_mul(0x94D049BB133111EB), q3.wrapping_mul(0x94D049BB133111EB));
    assert(p4 ^ (p4 >> 31) == q4 ^ (q4 >> 31));
    assert(p4 ^ (p4 >> 31) == q4 ^ (q4 >> 31) ==> p4 == q4) by (bit_vector);
    lemma_odd_factor(p3, q3, 0x94D049BB133111EB, 0x319642B2D24D8EC3);
    assert(p2 ^ (p2 >> 27) == q2 ^ (q2 >> 27) ==> p2 == q2) by (bit_vector);
    lemma_odd_factor(p1, q1, 0xBF58476D1CE4E5B9, 0x96DE1B173F119089);
    assert(p ^ (p >> 30) == q ^ (q >> 30) ==> p == q) by (bit_vector);
}

/// The words that a seed starts with are those of the SplitMix64 counter walking on: each but
/// the first is the one before it for the next value of the counter.
pub proof fn law_seed_words_walk_on(x: u64)
    ensures
        seeded(x).b == seeded(splitmix_next(x)).a,
        seeded(x).c == seeded(splitmix_next(x)).b,
        seeded(x).d == seeded(splitmix_next(x)).c,
{
}

/// Uniform numbers are made of the top bits of a word: the word without its low 40 bits for a
/// single, without its low 11 bits for a double.
pub proof fn law_draws_are_top_bits(s: State)
    ensures
        draw24(s) == output(s) as nat / 0x100_0000_0000,
        draw53(s) == output(s) as nat / 0x800,
        draw24(s) < 0x100_0000,
        draw53(s) < 0x20_0000_0000_0000,
{
    let w = output(s);
    assert(w >> 40 == w / 0x100_0000_0000 && w >> 40 < 0x100_0000) by (bit_vector);
    assert(w >> 11 == w / 0x800 && w >> 11 < 0x20_0000_0000_0000) by (bit_vector);
}

} // verus!
