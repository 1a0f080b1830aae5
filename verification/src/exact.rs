//! Formulas in exact arithmetic: their values, and the rates at which these change.
use crate::scalar;
use crate::scalar::{Binary, Scalar, Term, Unary, WideBinary, WideTerm, WideUnary};
use vstd::prelude::*;

verus! {

/// The product of two reals.
#[verifier::opaque]
pub open spec fn times(a: real, b: real) -> real {
    a * b
}

/// The quotient of two reals.
#[verifier::opaque]
pub open spec fn over(a: real, b: real) -> real {
    a / b
}

pub proof fn lemma_commutes(a: real, b: real)
    ensures
        times(a, b) == times(b, a),
{
    reveal(times);
}

pub proof fn lemma_associates(a: real, b: real, c: real)
    ensures
        times(times(a, b), c) == times(a, times(b, c)),
{
    reveal(times);
    assert((a * b) * c == a * (b * c)) by (nonlinear_arith);
}

pub proof fn lemma_distributes(a: real, b: real, c: real)
    ensures
        times(a, b + c) == times(a, b) + times(a, c),
        times(b + c, a) == times(b, a) + times(c, a),
        times(a, b - c) == times(a, b) - times(a, c),
        times(b - c, a) == times(b, a) - times(c, a),
{
    reveal(times);
    assert(a * (b + c) == a * b + a * c) by (nonlinear_arith);
    assert((b + c) * a == b * a + c * a) by (nonlinear_arith);
    assert(a * (b - c) == a * b - a * c) by (nonlinear_arith);
    assert((b - c) * a == b * a - c * a) by (nonlinear_arith);
}

pub proof fn lemma_units(a: real)
    ensures
        times(a, 0real) == 0real,
        times(0real, a) == 0real,
        times(a, 1real) == a,
        times(1real, a) == a,
{
    reveal(times);
    assert(a * 0real == 0real && 0real * a == 0real) by (nonlinear_arith);
    assert(a * 1real == a && 1real * a == a) by (nonlinear_arith);
}

pub proof fn lemma_swaps(a: real, b: real, c: real)
    ensures
        times(times(a, b), c) == times(times(a, c), b),
{
    lemma_associates(a, b, c);
    lemma_associates(a, c, b);
    lemma_commutes(b, c);
}

pub proof fn lemma_negates(a: real, b: real)
    ensures
        times(-a, b) == -times(a, b),
        times(a, -b) == -times(a, b),
{
    lemma_distributes(b, 0real, a);
    lemma_distributes(a, 0real, b);
    lemma_units(a);
    lemma_units(b);
}

/// Equal multiples of a number that is not zero.
pub proof fn lemma_cancels(a: real, b: real, n: real)
    requires
        times(a, n) == times(b, n),
        n != 0real,
    ensures
        a == b,
{
    reveal(times);
    let d = a - b;
    assert(d * n == a * n - b * n) by (nonlinear_arith)
        requires
            d == a - b,
    ;
    assert(d == 0real) by (nonlinear_arith)
        requires
            d * n == 0real,
            n != 0real,
    ;
}

/// A quotient is what gives the dividend when multiplied by the divisor.
pub proof fn lemma_divides(a: real, b: real)
    requires
        b != 0real,
    ensures
        times(over(a, b), b) == a,
{
    reveal(times);
    reveal(over);
    let q = a / b;
    assert(q * b == a) by (nonlinear_arith)
        requires
            q == a / b,
            b != 0real,
    ;
}

/// The product of two numbers that are not zero is not zero.
pub proof fn lemma_not_zero(a: real, b: real)
    requires
        a != 0real,
        b != 0real,
    ensures
        times(a, b) != 0real,
{
    if times(a, b) == 0real {
        lemma_units(b);
        lemma_cancels(a, 0real, b);
    }
}

/// A square is not negative.
pub proof fn lemma_square(a: real)
    ensures
        times(a, a) >= 0real,
{
    reveal(times);
    assert(a * a >= 0real) by (nonlinear_arith);
}

/// What formulas stand for in exact arithmetic. Numbers from outside have a value and a rate
/// of change; bit patterns have a value and do not change; a function has an image and a
/// slope at each place. The rates of sums, products and quotients, and of functions of
/// functions, follow by the rules of differentiation.
#[verifier::reject_recursive_types(T)]
pub struct Exact<T> {
    pub leaf: spec_fn(Term<T>) -> real,
    pub leaf_rate: spec_fn(Term<T>) -> real,
    pub bits: spec_fn(u32) -> real,
    pub image: spec_fn(Unary, real) -> real,
    pub slope: spec_fn(Unary, real) -> real,
    /// What bit patterns of the higher precision stand for.
    pub wide_bits: spec_fn(u64) -> real,
}

impl<T> Exact<T> {
    /// The bit patterns that the model is made with stand for their numbers, and the
    /// functions are what they are called: an exponential is its own slope, and so on.
    pub open spec fn ok(self) -> bool {
        &&& (self.bits)(0) == 0real
        &&& (self.bits)(0x3f80_0000) == 1real
        &&& (self.bits)(0x4040_0000) == 3real
        &&& (self.bits)(0x3727_c5ac) > 0real
        &&& forall|x: real|
            #![trigger (self.image)(Unary::Exp, x)]
            #![trigger (self.slope)(Unary::Exp, x)]
            (self.image)(Unary::Exp, x) > 0real && (self.slope)(Unary::Exp, x) == (self.image)(
                Unary::Exp,
                x,
            )
        &&& forall|x: real|
            x > 0real ==> times(x, #[trigger] (self.slope)(Unary::Ln, x)) == 1real
        &&& forall|x: real|
            #![trigger (self.image)(Unary::Sqrt, x)]
            #![trigger (self.slope)(Unary::Sqrt, x)]
            x > 0real ==> {
                let s = (self.image)(Unary::Sqrt, x);
                &&& s > 0real
                &&& times(s, s) == x
                &&& 2real * times(s, (self.slope)(Unary::Sqrt, x)) == 1real
            }
        &&& forall|x: real|
            #[trigger] (self.slope)(Unary::Tanh, x) == 1real - times(
                (self.image)(Unary::Tanh, x),
                (self.image)(Unary::Tanh, x),
            )
    }

    /// The value of a formula.
    pub open spec fn value(self, t: Term<T>) -> real
        decreases t,
    {
        match t {
            Term::Bits(b) => (self.bits)(b),
            Term::Count(n) => n as real,
            Term::Apply1(op, a) => (self.image)(op, self.value(*a)),
            Term::Apply2(op, a, b) => {
                let x = self.value(*a);
                let y = self.value(*b);
                match op {
                    Binary::Plus => x + y,
                    Binary::Minus => x - y,
                    Binary::Times => times(x, y),
                    Binary::Over => over(x, y),
                    Binary::Maximum => if x < y {
                        y
                    } else {
                        x
                    },
                }
            },
            Term::Larger(a, b) => if self.value(*a) < self.value(*b) {
                self.value(*b)
            } else {
                self.value(*a)
            },
            Term::AddUnlessZero(s, a, b) => self.value(*s) + times(
                self.value(*a),
                self.value(*b),
            ),
            _ => (self.leaf)(t),
        }
    }

    /// The rate at which the value of a formula changes.
    pub open spec fn rate(self, t: Term<T>) -> real
        decreases t,
    {
        match t {
            Term::Bits(b) => 0real,
            Term::Count(n) => 0real,
            Term::Apply1(op, a) => times((self.slope)(op, self.value(*a)), self.rate(*a)),
            Term::Apply2(op, a, b) => {
                let x = self.value(*a);
                let y = self.value(*b);
                let p = self.rate(*a);
                let q = self.rate(*b);
                match op {
                    Binary::Plus => p + q,
                    Binary::Minus => p - q,
                    Binary::Times => times(p, y) + times(x, q),
                    Binary::Over => over(times(p, y) - times(x, q), times(y, y)),
                    Binary::Maximum => if x < y {
                        q
                    } else {
                        p
                    },
                }
            },
            Term::Larger(a, b) => if self.value(*a) < self.value(*b) {
                self.rate(*b)
            } else {
                self.rate(*a)
            },
            Term::AddUnlessZero(s, a, b) => self.rate(*s) + (times(
                self.rate(*a),
                self.value(*b),
            ) + times(self.value(*a), self.rate(*b))),
            _ => (self.leaf_rate)(t),
        }
    }

    /// The value of a formula of higher precision.
    pub open spec fn wide(self, w: WideTerm<T>) -> real
        decreases w,
    {
        match w {
            WideTerm::Bits(b) => (self.wide_bits)(b),
            WideTerm::Plus(s, a) => self.wide(*s) + self.value(*a),
            WideTerm::PlusSquare(s, a) => self.wide(*s) + times(self.value(*a), self.value(*a)),
            WideTerm::Apply(op, s) => {
                let x = self.wide(*s);
                match op {
                    WideUnary::OverCount(n) => over(x, n as real),
                    WideUnary::Ln => (self.image)(Unary::Ln, x),
                    WideUnary::Sqrt => (self.image)(Unary::Sqrt, x),
                    WideUnary::Cos => (self.image)(Unary::Cos, x),
                }
            },
            WideTerm::Apply2(op, a, b) => {
                let x = self.wide(*a);
                let y = self.wide(*b);
                match op {
                    WideBinary::Times => times(x, y),
                    WideBinary::Maximum => if x < y {
                        y
                    } else {
                        x
                    },
                }
            },
        }
    }

    /// The higher precision is of no matter: a number brought back from it is the same number.
    pub open spec fn narrows(self) -> bool {
        &&& (self.wide_bits)(0) == 0real
        &&& forall|w: WideTerm<T>| #[trigger] (self.leaf)(Term::Narrow(w)) == self.wide(w)
    }

    /// A square root is not negative and has the number as its square.
    pub open spec fn takes_roots(self) -> bool {
        forall|x: real|
            #![trigger (self.image)(Unary::Sqrt, x)]
            x >= 0real ==> (self.image)(Unary::Sqrt, x) >= 0real && times(
                (self.image)(Unary::Sqrt, x),
                (self.image)(Unary::Sqrt, x),
            ) == x
    }

    /// A power is the product of as many factors.
    pub open spec fn takes_powers(self) -> bool {
        forall|n: i32, x: real|
            n >= 0 ==> #[trigger] (self.image)(Unary::Power(n), x) == power(x, n as nat)
    }

    /// The exponential turns sums into products and rises.
    pub open spec fn takes_exponentials(self) -> bool {
        &&& forall|x: real| #[trigger] (self.image)(Unary::Exp, x) > 0real
        &&& forall|x: real, y: real|
            #![trigger times((self.image)(Unary::Exp, x), (self.image)(Unary::Exp, y))]
            times((self.image)(Unary::Exp, x), (self.image)(Unary::Exp, y)) == (self.image)(
                Unary::Exp,
                x + y,
            )
        &&& forall|x: real, y: real|
            #![trigger (self.image)(Unary::Exp, x), (self.image)(Unary::Exp, y)]
            x < y ==> (self.image)(Unary::Exp, x) < (self.image)(Unary::Exp, y)
    }

    /// What the bit pattern nearest to pi stands for.
    pub open spec fn pi(self) -> real {
        (self.bits)(0x4049_0fdb)
    }

    /// The cosine falls from one to minus one as its argument goes from zero to pi.
    pub open spec fn takes_cosines(self) -> bool {
        &&& self.pi() > 0real
        &&& (self.image)(Unary::Cos, 0real) == 1real
        &&& (self.image)(Unary::Cos, self.pi()) == -1real
        &&& forall|x: real, y: real|
            #![trigger (self.image)(Unary::Cos, x), (self.image)(Unary::Cos, y)]
            0real <= x <= y <= self.pi() ==> (self.image)(Unary::Cos, x) >= (self.image)(
                Unary::Cos,
                y,
            )
    }
}

/// Asking whether `a` is less than `b` comes out as in exact arithmetic.
pub open spec fn less_is_exact<T: Scalar>(m: Exact<T>, a: Term<T>, b: Term<T>) -> bool {
    forall|z: bool| #[trigger]
        scalar::may_be_less(a, b, z) ==> (z == (m.value(a) < m.value(b)))
}

/// Asking whether `a` is at least `b` comes out as in exact arithmetic.
pub open spec fn at_least_is_exact<T: Scalar>(m: Exact<T>, a: Term<T>, b: Term<T>) -> bool {
    forall|z: bool| #[trigger]
        scalar::may_be_at_least(a, b, z) ==> (z == (m.value(a) >= m.value(b)))
}

/// The product of `n` factors `x`.
pub open spec fn power(x: real, n: nat) -> real
    decreases n,
{
    if n == 0 {
        1real
    } else {
        times(x, power(x, (n - 1) as nat))
    }
}

/// A power with at least one factor below one is below one.
pub proof fn lemma_power(x: real, n: nat)
    requires
        0real <= x < 1real,
    ensures
        0real <= power(x, n) <= 1real,
        n >= 1 ==> power(x, n) < 1real,
    decreases n,
{
    if n > 0 {
        let p = power(x, (n - 1) as nat);
        lemma_power(x, (n - 1) as nat);
        lemma_orders(0real, p, x);
        lemma_orders(p, 1real, x);
        lemma_commutes(x, p);
        lemma_commutes(x, 1real);
        lemma_commutes(x, 0real);
        lemma_units(x);
    }
}

/// Multiplying by a number that is not negative keeps the order; by a positive one, it keeps
/// it strictly.
pub proof fn lemma_orders(a: real, b: real, n: real)
    requires
        n >= 0real,
    ensures
        a <= b ==> times(a, n) <= times(b, n),
        a < b && n > 0real ==> times(a, n) < times(b, n),
        times(a, n) < times(b, n) ==> a < b,
        times(a, n) <= times(b, n) && n > 0real ==> a <= b,
{
    reveal(times);
    if a <= b {
        assert(a * n <= b * n) by (nonlinear_arith)
            requires
                a <= b,
                n >= 0real,
        ;
    } else {
        assert(a * n >= b * n) by (nonlinear_arith)
            requires
                a > b,
                n >= 0real,
        ;
    }
    if a < b && n > 0real {
        assert(a * n < b * n) by (nonlinear_arith)
            requires
                a < b,
                n > 0real,
        ;
    }
    if b < a && n > 0real {
        assert(b * n < a * n) by (nonlinear_arith)
            requires
                b < a,
                n > 0real,
        ;
    }
}

/// Two numbers that are not negative and have equal squares are equal.
pub proof fn lemma_same_square(a: real, b: real)
    requires
        a >= 0real,
        b >= 0real,
        times(a, a) == times(b, b),
    ensures
        a == b,
{
    if a < b {
        lemma_orders(a, b, a);
        lemma_orders(a, b, b);
        lemma_commutes(a, b);
    } else if b < a {
        lemma_orders(b, a, b);
        lemma_orders(b, a, a);
        lemma_commutes(a, b);
    }
}

/// The square of a product is the product of the squares.
pub proof fn lemma_squares_product(a: real, b: real)
    ensures
        times(times(a, b), times(a, b)) == times(times(a, a), times(b, b)),
{
    lemma_associates(a, b, times(a, b));
    lemma_associates(b, a, b);
    lemma_commutes(a, b);
    lemma_associates(a, b, b);
    lemma_associates(a, a, times(b, b));
}

/// The sum of `f` over the first `n` numbers.
pub open spec fn sum(n: int, f: spec_fn(int) -> real) -> real
    decreases n,
{
    if n <= 0 {
        0real
    } else {
        sum(n - 1, f) + f(n - 1)
    }
}

/// The sum of `f` over the first `a` numbers and the first `b`.
pub open spec fn sum2(a: int, b: int, f: spec_fn(int, int) -> real) -> real {
    sum(a, |i: int| sum(b, |j: int| f(i, j)))
}

pub proof fn lemma_same(n: int, f: spec_fn(int) -> real, g: spec_fn(int) -> real)
    requires
        forall|i: int| 0 <= i < n ==> #[trigger] f(i) == g(i),
    ensures
        sum(n, f) == sum(n, g),
    decreases n,
{
    if n > 0 {
        lemma_same(n - 1, f, g);
        assert(f(n - 1) == g(n - 1));
    }
}

pub proof fn lemma_plus(
    n: int,
    f: spec_fn(int) -> real,
    g: spec_fn(int) -> real,
    h: spec_fn(int) -> real,
)
    requires
        forall|i: int| 0 <= i < n ==> #[trigger] h(i) == f(i) + g(i),
    ensures
        sum(n, h) == sum(n, f) + sum(n, g),
    decreases n,
{
    if n > 0 {
        lemma_plus(n - 1, f, g, h);
        assert(h(n - 1) == f(n - 1) + g(n - 1));
    }
}

pub proof fn lemma_scaled(n: int, c: real, f: spec_fn(int) -> real, h: spec_fn(int) -> real)
    requires
        forall|i: int| 0 <= i < n ==> #[trigger] h(i) == times(c, f(i)),
    ensures
        sum(n, h) == times(c, sum(n, f)),
    decreases n,
{
    if n > 0 {
        lemma_scaled(n - 1, c, f, h);
        assert(h(n - 1) == times(c, f(n - 1)));
        lemma_distributes(c, sum(n - 1, f), f(n - 1));
    } else {
        lemma_units(c);
    }
}

pub proof fn lemma_none(n: int, f: spec_fn(int) -> real)
    requires
        forall|i: int| 0 <= i < n ==> #[trigger] f(i) == 0real,
    ensures
        sum(n, f) == 0real,
    decreases n,
{
    if n > 0 {
        lemma_none(n - 1, f);
        assert(f(n - 1) == 0real);
    }
}

/// A sum with one number in it that counts.
pub proof fn lemma_picked(n: int, k: int, f: spec_fn(int) -> real)
    requires
        0 <= k < n,
        forall|i: int| 0 <= i < n && i != k ==> #[trigger] f(i) == 0real,
    ensures
        sum(n, f) == f(k),
    decreases n,
{
    if k == n - 1 {
        lemma_none(n - 1, f);
    } else {
        assert(f(n - 1) == 0real);
        lemma_picked(n - 1, k, f);
    }
}

pub proof fn lemma_split(a: int, b: int, f: spec_fn(int) -> real, g: spec_fn(int) -> real)
    requires
        0 <= a,
        0 <= b,
        forall|i: int| 0 <= i < b ==> #[trigger] g(i) == f(a + i),
    ensures
        sum(a + b, f) == sum(a, f) + sum(b, g),
    decreases b,
{
    if b > 0 {
        lemma_split(a, b - 1, f, g);
        assert(g(b - 1) == f(a + (b - 1)));
    }
}

pub proof fn lemma_same2(
    a: int,
    b: int,
    f: spec_fn(int, int) -> real,
    g: spec_fn(int, int) -> real,
)
    requires
        forall|i: int, j: int| 0 <= i < a && 0 <= j < b ==> #[trigger] f(i, j) == g(i, j),
    ensures
        sum2(a, b, f) == sum2(a, b, g),
{
    let x = |i: int| sum(b, |j: int| f(i, j));
    let y = |i: int| sum(b, |j: int| g(i, j));
    assert forall|i: int| 0 <= i < a implies #[trigger] x(i) == y(i) by {
        let p = |j: int| f(i, j);
        let q = |j: int| g(i, j);
        assert forall|j: int| 0 <= j < b implies #[trigger] p(j) == q(j) by {
            assert(f(i, j) == g(i, j));
        }
        lemma_same(b, p, q);
    }
    lemma_same(a, x, y);
}

pub proof fn lemma_plus2(
    a: int,
    b: int,
    f: spec_fn(int, int) -> real,
    g: spec_fn(int, int) -> real,
    h: spec_fn(int, int) -> real,
)
    requires
        forall|i: int, j: int|
            0 <= i < a && 0 <= j < b ==> #[trigger] h(i, j) == f(i, j) + g(i, j),
    ensures
        sum2(a, b, h) == sum2(a, b, f) + sum2(a, b, g),
{
    let x = |i: int| sum(b, |j: int| f(i, j));
    let y = |i: int| sum(b, |j: int| g(i, j));
    let z = |i: int| sum(b, |j: int| h(i, j));
    assert forall|i: int| 0 <= i < a implies #[trigger] z(i) == x(i) + y(i) by {
        let p = |j: int| f(i, j);
        let q = |j: int| g(i, j);
        let r = |j: int| h(i, j);
        assert forall|j: int| 0 <= j < b implies #[trigger] r(j) == p(j) + q(j) by {
            assert(h(i, j) == f(i, j) + g(i, j));
        }
        lemma_plus(b, p, q, r);
    }
    lemma_plus(a, x, y, z);
}

/// The order of two sums does not matter.
pub proof fn lemma_swapped(
    a: int,
    b: int,
    f: spec_fn(int, int) -> real,
    g: spec_fn(int, int) -> real,
)
    requires
        forall|i: int, j: int| 0 <= i < a && 0 <= j < b ==> #[trigger] f(i, j) == g(j, i),
    ensures
        sum2(a, b, f) == sum2(b, a, g),
    decreases a,
{
    let y = |j: int| sum(a, |i: int| g(j, i));
    if a <= 0 {
        lemma_none(b, y);
    } else {
        lemma_swapped(a - 1, b, f, g);
        let p = |j: int| f(a - 1, j);
        let w = |j: int| sum(a - 1, |i: int| g(j, i));
        assert forall|j: int| 0 <= j < b implies #[trigger] y(j) == w(j) + p(j) by {
            let u = |i: int| g(j, i);
            assert(sum(a, u) == sum(a - 1, u) + u(a - 1));
            assert(f(a - 1, j) == g(j, a - 1));
        }
        lemma_plus(b, w, p, y);
        let x = |i: int| sum(b, |j: int| f(i, j));
        assert(sum(a, x) == sum(a - 1, x) + x(a - 1));
    }
}

/// A sum over the places of a matrix with `b` columns, row by row.
pub proof fn lemma_by_rows(
    a: int,
    b: int,
    f: spec_fn(int) -> real,
    g: spec_fn(int, int) -> real,
)
    requires
        0 <= a,
        0 <= b,
        forall|i: int, j: int|
            0 <= i < a && 0 <= j < b ==> #[trigger] g(i, j) == f(i * b + j),
    ensures
        sum(a * b, f) == sum2(a, b, g),
    decreases a,
{
    if a == 0 {
        assert(0 * b == 0);
    } else {
        lemma_by_rows(a - 1, b, f, g);
        let p = |j: int| g(a - 1, j);
        let k = (a - 1) * b;
        assert(k >= 0 && a * b == k + b) by (nonlinear_arith)
            requires
                a >= 1,
                b >= 0,
                k == (a - 1) * b,
        ;
        assert forall|j: int| 0 <= j < b implies #[trigger] p(j) == f(k + j) by {
            assert(g(a - 1, j) == f((a - 1) * b + j));
        }
        lemma_split(k, b, f, p);
        let x = |i: int| sum(b, |j: int| g(i, j));
        assert(sum(a, x) == sum(a - 1, x) + x(a - 1));
    }
}

/// A sum over the first `k` of `n` numbers, as one over all.
pub proof fn lemma_up_to(n: int, k: int, f: spec_fn(int) -> real, g: spec_fn(int) -> real)
    requires
        0 <= k <= n,
        forall|i: int| 0 <= i < n ==> #[trigger] g(i) == if i < k {
            f(i)
        } else {
            0real
        },
    ensures
        sum(k, f) == sum(n, g),
    decreases n,
{
    if k == n {
        lemma_same(n, g, f);
    } else {
        assert(g(n - 1) == 0real);
        lemma_up_to(n - 1, k, f, g);
    }
}

/// A sum over the numbers from `k` on, as one over all.
pub proof fn lemma_from(n: int, k: int, f: spec_fn(int) -> real, g: spec_fn(int) -> real)
    requires
        0 <= k <= n,
        forall|i: int| 0 <= i < k ==> #[trigger] g(i) == 0real,
        forall|i: int| 0 <= i < n - k ==> #[trigger] f(i) == g(k + i),
    ensures
        sum(n - k, f) == sum(n, g),
{
    lemma_none(k, g);
    lemma_split(k, n - k, g, f);
}

} // verus!
