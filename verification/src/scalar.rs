//! Numbers that know how they were computed.
//!
//! A model computes with numbers of some type, given by its operations alone. Each number
//! is held together with the formula that it is the value of. The formula exists in ghost
//! code only. Contracts speak of formulas: which operations led to a number, on which
//! operands, in which order.
use vstd::prelude::*;

verus! {

/// The operations on numbers. Nothing is claimed of what they return.
pub trait Scalar: Copy {
    /// Numbers of higher precision, for long sums.
    type Wide: Copy;

    /// The number with the given IEEE single bit pattern.
    fn from_bits(bits: u32) -> Self;

    /// The IEEE single bit pattern of the number.
    fn to_bits(self) -> u32;

    /// The number nearest to `n`.
    fn from_count(n: usize) -> Self;

    fn plus(self, other: Self) -> Self;

    fn minus(self, other: Self) -> Self;

    fn times(self, other: Self) -> Self;

    fn over(self, other: Self) -> Self;

    /// The larger of the two; the other one where one is not a number.
    fn maximum(self, other: Self) -> Self;

    fn exp(self) -> Self;

    fn ln(self) -> Self;

    fn sqrt(self) -> Self;

    fn tanh(self) -> Self;

    fn cos(self) -> Self;

    /// The number to the power `n`.
    fn powi(self, n: i32) -> Self;

    fn less(self, other: Self) -> bool;

    fn at_least(self, other: Self) -> bool;

    fn is_zero(self) -> bool;

    /// The number of higher precision with the given IEEE double bit pattern.
    fn wide_from_bits(bits: u64) -> Self::Wide;

    /// `sum + x`, in the higher precision.
    fn wide_plus(sum: Self::Wide, x: Self) -> Self::Wide;

    /// `sum + x * x`, in the higher precision.
    fn wide_plus_square(sum: Self::Wide, x: Self) -> Self::Wide;

    /// `sum / n`, in the higher precision.
    fn wide_over_count(sum: Self::Wide, n: usize) -> Self::Wide;

    fn wide_times(a: Self::Wide, b: Self::Wide) -> Self::Wide;

    /// The larger of the two; the other one where one is not a number.
    fn wide_maximum(a: Self::Wide, b: Self::Wide) -> Self::Wide;

    fn wide_ln(a: Self::Wide) -> Self::Wide;

    fn wide_sqrt(a: Self::Wide) -> Self::Wide;

    fn wide_cos(a: Self::Wide) -> Self::Wide;

    /// The number, brought back to the ordinary precision.
    fn narrow(a: Self::Wide) -> Self;

    /// The IEEE double bit pattern of a number of higher precision.
    fn wide_to_bits(a: Self::Wide) -> u64;
}

/// Operations of one operand.
pub enum Unary {
    Exp,
    Ln,
    Sqrt,
    Tanh,
    Cos,
    /// The power with a whole exponent.
    Power(i32),
}

/// Operations of two operands.
pub enum Binary {
    Plus,
    Minus,
    Times,
    Over,
    Maximum,
}

/// A formula over numbers.
pub enum Term<T> {
    /// A number as it came from outside.
    Given(T),
    /// The number with a bit pattern.
    Bits(u32),
    /// The number nearest to a count.
    Count(usize),
    Apply1(Unary, Box<Term<T>>),
    Apply2(Binary, Box<Term<T>>, Box<Term<T>>),
    /// The second operand where it is larger than the first, else the first.
    Larger(Box<Term<T>>, Box<Term<T>>),
    /// `sum + a * b`, or `sum` where `a` is zero.
    AddUnlessZero(Box<Term<T>>, Box<Term<T>>, Box<Term<T>>),
    /// A number of higher precision, brought back to the ordinary one.
    Narrow(WideTerm<T>),
}

/// Operations of one operand in the higher precision.
pub enum WideUnary {
    /// Division by a count.
    OverCount(usize),
    Ln,
    Sqrt,
    Cos,
}

/// Operations of two operands in the higher precision.
pub enum WideBinary {
    Times,
    Maximum,
}

/// A formula over numbers of higher precision.
pub enum WideTerm<T> {
    /// The number with a bit pattern.
    Bits(u64),
    Plus(Box<WideTerm<T>>, Box<Term<T>>),
    PlusSquare(Box<WideTerm<T>>, Box<Term<T>>),
    Apply(WideUnary, Box<WideTerm<T>>),
    Apply2(WideBinary, Box<WideTerm<T>>, Box<WideTerm<T>>),
}

/// `r` is a possible result of the operation on `x`.
pub open spec fn gives1<T: Scalar>(op: Unary, x: T, r: T) -> bool {
    match op {
        Unary::Exp => call_ensures(T::exp, (x,), r),
        Unary::Ln => call_ensures(T::ln, (x,), r),
        Unary::Sqrt => call_ensures(T::sqrt, (x,), r),
        Unary::Tanh => call_ensures(T::tanh, (x,), r),
        Unary::Cos => call_ensures(T::cos, (x,), r),
        Unary::Power(n) => call_ensures(T::powi, (x, n), r),
    }
}

/// `r` is a possible result of the operation on `x` and `y`.
pub open spec fn gives2<T: Scalar>(op: Binary, x: T, y: T, r: T) -> bool {
    match op {
        Binary::Plus => call_ensures(T::plus, (x, y), r),
        Binary::Minus => call_ensures(T::minus, (x, y), r),
        Binary::Times => call_ensures(T::times, (x, y), r),
        Binary::Over => call_ensures(T::over, (x, y), r),
        Binary::Maximum => call_ensures(T::maximum, (x, y), r),
    }
}

/// `r` is a possible outcome of keeping `x` or taking `y` where it is larger.
pub open spec fn gives_larger<T: Scalar>(x: T, y: T, r: T) -> bool {
    exists|z: bool| #[trigger]
        call_ensures(T::less, (x, y), z) && r == if z {
            y
        } else {
            x
        }
}

/// `r` is a possible outcome of adding `a * b` to `x` unless `a` is zero.
pub open spec fn gives_add_unless_zero<T: Scalar>(x: T, a: T, b: T, r: T) -> bool {
    exists|z: bool| #[trigger]
        call_ensures(T::is_zero, (a,), z) && if z {
            r == x
        } else {
            exists|p: T| #[trigger]
                call_ensures(T::times, (a, b), p) && call_ensures(T::plus, (x, p), r)
        }
}

/// `r` is a possible result of the operation on `x`.
pub open spec fn wide_gives<T: Scalar>(op: WideUnary, x: T::Wide, r: T::Wide) -> bool {
    match op {
        WideUnary::OverCount(n) => call_ensures(T::wide_over_count, (x, n), r),
        WideUnary::Ln => call_ensures(T::wide_ln, (x,), r),
        WideUnary::Sqrt => call_ensures(T::wide_sqrt, (x,), r),
        WideUnary::Cos => call_ensures(T::wide_cos, (x,), r),
    }
}

/// `r` is a possible result of the operation on `x` and `y`.
pub open spec fn wide_gives2<T: Scalar>(
    op: WideBinary,
    x: T::Wide,
    y: T::Wide,
    r: T::Wide,
) -> bool {
    match op {
        WideBinary::Times => call_ensures(T::wide_times, (x, y), r),
        WideBinary::Maximum => call_ensures(T::wide_maximum, (x, y), r),
    }
}

/// `v` is a value of the formula `t`.
pub open spec fn evaluates<T: Scalar>(t: Term<T>, v: T) -> bool
    decreases t,
{
    match t {
        Term::Given(x) => v == x,
        Term::Bits(b) => call_ensures(T::from_bits, (b,), v),
        Term::Count(n) => call_ensures(T::from_count, (n,), v),
        Term::Apply1(op, a) => exists|x: T| #[trigger] gives1(op, x, v) && evaluates(*a, x),
        Term::Apply2(op, a, b) => exists|x: T, y: T| #[trigger]
            gives2(op, x, y, v) && evaluates(*a, x) && evaluates(*b, y),
        Term::Larger(a, b) => exists|x: T, y: T| #[trigger]
            gives_larger(x, y, v) && evaluates(*a, x) && evaluates(*b, y),
        Term::AddUnlessZero(s, a, b) => exists|x: T, y: T, w: T| #[trigger]
            gives_add_unless_zero(x, y, w, v) && evaluates(*s, x) && evaluates(*a, y) && evaluates(
                *b,
                w,
            ),
        Term::Narrow(w) => exists|x: T::Wide| #[trigger]
            call_ensures(T::narrow, (x,), v) && wide_evaluates::<T>(w, x),
    }
}

/// `v` is a value of the formula `t`, in the higher precision.
pub open spec fn wide_evaluates<T: Scalar>(t: WideTerm<T>, v: T::Wide) -> bool
    decreases t,
{
    match t {
        WideTerm::Bits(b) => call_ensures(T::wide_from_bits, (b,), v),
        WideTerm::Plus(s, a) => exists|x: T::Wide, y: T| #[trigger]
            call_ensures(T::wide_plus, (x, y), v) && wide_evaluates::<T>(*s, x) && evaluates(*a, y),
        WideTerm::PlusSquare(s, a) => exists|x: T::Wide, y: T| #[trigger]
            call_ensures(T::wide_plus_square, (x, y), v) && wide_evaluates::<T>(*s, x)
                && evaluates(*a, y),
        WideTerm::Apply(op, s) => exists|x: T::Wide| #[trigger]
            wide_gives::<T>(op, x, v) && wide_evaluates::<T>(*s, x),
        WideTerm::Apply2(op, a, b) => exists|x: T::Wide, y: T::Wide| #[trigger]
            wide_gives2::<T>(op, x, y, v) && wide_evaluates::<T>(*a, x) && wide_evaluates::<T>(
                *b,
                y,
            ),
    }
}

pub open spec fn apply1<T>(op: Unary, a: Term<T>) -> Term<T> {
    Term::Apply1(op, Box::new(a))
}

pub open spec fn apply2<T>(op: Binary, a: Term<T>, b: Term<T>) -> Term<T> {
    Term::Apply2(op, Box::new(a), Box::new(b))
}

pub open spec fn sum<T>(a: Term<T>, b: Term<T>) -> Term<T> {
    apply2(Binary::Plus, a, b)
}

pub open spec fn difference<T>(a: Term<T>, b: Term<T>) -> Term<T> {
    apply2(Binary::Minus, a, b)
}

pub open spec fn product<T>(a: Term<T>, b: Term<T>) -> Term<T> {
    apply2(Binary::Times, a, b)
}

pub open spec fn quotient<T>(a: Term<T>, b: Term<T>) -> Term<T> {
    apply2(Binary::Over, a, b)
}

pub open spec fn larger<T>(a: Term<T>, b: Term<T>) -> Term<T> {
    Term::Larger(Box::new(a), Box::new(b))
}

pub open spec fn add_unless_zero<T>(s: Term<T>, a: Term<T>, b: Term<T>) -> Term<T> {
    Term::AddUnlessZero(Box::new(s), Box::new(a), Box::new(b))
}

pub open spec fn wide_apply<T>(op: WideUnary, a: WideTerm<T>) -> WideTerm<T> {
    WideTerm::Apply(op, Box::new(a))
}

pub open spec fn wide_product<T>(a: WideTerm<T>, b: WideTerm<T>) -> WideTerm<T> {
    WideTerm::Apply2(WideBinary::Times, Box::new(a), Box::new(b))
}

pub open spec fn wide_maximum<T>(a: WideTerm<T>, b: WideTerm<T>) -> WideTerm<T> {
    WideTerm::Apply2(WideBinary::Maximum, Box::new(a), Box::new(b))
}

/// The square root of a sum of higher precision, brought back to the ordinary one.
pub open spec fn root<T>(a: WideTerm<T>) -> Term<T> {
    Term::Narrow(wide_apply(WideUnary::Sqrt, a))
}

pub open spec fn over_count<T>(s: WideTerm<T>, n: usize) -> WideTerm<T> {
    WideTerm::Apply(WideUnary::OverCount(n), Box::new(s))
}

/// The number zero.
pub open spec fn zero<T>() -> Term<T> {
    Term::Bits(0)
}

/// The number one.
pub open spec fn one<T>() -> Term<T> {
    Term::Bits(0x3f80_0000)
}

/// `z` is a possible outcome of asking whether `a` is less than `b`.
pub open spec fn may_be_less<T: Scalar>(a: Term<T>, b: Term<T>, z: bool) -> bool {
    exists|x: T, y: T| #[trigger]
        evaluates(a, x) && #[trigger] evaluates(b, y) && call_ensures(T::less, (x, y), z)
}

/// `z` is a possible outcome of asking whether `a` is at least `b`.
pub open spec fn may_be_at_least<T: Scalar>(a: Term<T>, b: Term<T>, z: bool) -> bool {
    exists|x: T, y: T| #[trigger]
        evaluates(a, x) && #[trigger] evaluates(b, y) && call_ensures(T::at_least, (x, y), z)
}

/// `b` is a possible bit pattern of `a`.
pub open spec fn may_have_bits<T: Scalar>(a: Term<T>, b: u32) -> bool {
    exists|x: T| #[trigger] evaluates(a, x) && call_ensures(T::to_bits, (x,), b)
}

/// A number and the formula that it is a value of.
pub struct Num<T: Scalar> {
    val: T,
    term: Ghost<Term<T>>,
}

impl<T: Scalar> Clone for Num<T> {
    fn clone(&self) -> (r: Self)
        ensures
            r == *self,
    {
        *self
    }
}

impl<T: Scalar> Copy for Num<T> {

}

impl<T: Scalar> View for Num<T> {
    type V = Term<T>;

    closed spec fn view(&self) -> Term<T> {
        self.term@
    }
}

impl<T: Scalar> Num<T> {
    #[verifier::type_invariant]
    spec fn holds(self) -> bool {
        evaluates(self.term@, self.val)
    }

    /// A number from outside.
    pub fn given(v: T) -> (r: Self)
        ensures
            r@ == Term::Given(v),
    {
        Num { val: v, term: Ghost(Term::Given(v)) }
    }

    /// The number by itself.
    pub fn raw(self) -> (v: T)
        ensures
            evaluates(self@, v),
    {
        proof {
            use_type_invariant(self);
        }
        self.val
    }

    /// The number with the given bit pattern.
    pub fn bits(b: u32) -> (r: Self)
        ensures
            r@ == Term::<T>::Bits(b),
    {
        Num { val: T::from_bits(b), term: Ghost(Term::Bits(b)) }
    }

    /// The number nearest to `n`.
    pub fn count(n: usize) -> (r: Self)
        ensures
            r@ == Term::<T>::Count(n),
    {
        Num { val: T::from_count(n), term: Ghost(Term::Count(n)) }
    }

    /// The bit pattern of the number.
    pub fn pattern(self) -> (b: u32)
        ensures
            may_have_bits(self@, b),
    {
        proof {
            use_type_invariant(self);
        }
        self.val.to_bits()
    }

    pub fn plus(self, other: Self) -> (r: Self)
        ensures
            r@ == apply2(Binary::Plus, self@, other@),
    {
        proof {
            use_type_invariant(self);
            use_type_invariant(other);
        }
        let v: T = self.val.plus(other.val);
        assert(gives2(Binary::Plus, self.val, other.val, v));
        Num { val: v, term: Ghost(apply2(Binary::Plus, self.term@, other.term@)) }
    }

    pub fn minus(self, other: Self) -> (r: Self)
        ensures
            r@ == apply2(Binary::Minus, self@, other@),
    {
        proof {
            use_type_invariant(self);
            use_type_invariant(other);
        }
        let v: T = self.val.minus(other.val);
        assert(gives2(Binary::Minus, self.val, other.val, v));
        Num { val: v, term: Ghost(apply2(Binary::Minus, self.term@, other.term@)) }
    }

    pub fn times(self, other: Self) -> (r: Self)
        ensures
            r@ == apply2(Binary::Times, self@, other@),
    {
        proof {
            use_type_invariant(self);
            use_type_invariant(other);
        }
        let v: T = self.val.times(other.val);
        assert(gives2(Binary::Times, self.val, other.val, v));
        Num { val: v, term: Ghost(apply2(Binary::Times, self.term@, other.term@)) }
    }

    pub fn over(self, other: Self) -> (r: Self)
        ensures
            r@ == apply2(Binary::Over, self@, other@),
    {
        proof {
            use_type_invariant(self);
            use_type_invariant(other);
        }
        let v: T = self.val.over(other.val);
        assert(gives2(Binary::Over, self.val, other.val, v));
        Num { val: v, term: Ghost(apply2(Binary::Over, self.term@, other.term@)) }
    }

    pub fn maximum(self, other: Self) -> (r: Self)
        ensures
            r@ == apply2(Binary::Maximum, self@, other@),
    {
        proof {
            use_type_invariant(self);
            use_type_invariant(other);
        }
        let v: T = self.val.maximum(other.val);
        assert(gives2(Binary::Maximum, self.val, other.val, v));
        Num { val: v, term: Ghost(apply2(Binary::Maximum, self.term@, other.term@)) }
    }

    pub fn exp(self) -> (r: Self)
        ensures
            r@ == apply1(Unary::Exp, self@),
    {
        proof {
            use_type_invariant(self);
        }
        let v: T = self.val.exp();
        assert(gives1(Unary::Exp, self.val, v));
        Num { val: v, term: Ghost(apply1(Unary::Exp, self.term@)) }
    }

    pub fn ln(self) -> (r: Self)
        ensures
            r@ == apply1(Unary::Ln, self@),
    {
        proof {
            use_type_invariant(self);
        }
        let v: T = self.val.ln();
        assert(gives1(Unary::Ln, self.val, v));
        Num { val: v, term: Ghost(apply1(Unary::Ln, self.term@)) }
    }

    pub fn sqrt(self) -> (r: Self)
        ensures
            r@ == apply1(Unary::Sqrt, self@),
    {
        proof {
            use_type_invariant(self);
        }
        let v: T = self.val.sqrt();
        assert(gives1(Unary::Sqrt, self.val, v));
        Num { val: v, term: Ghost(apply1(Unary::Sqrt, self.term@)) }
    }

    pub fn tanh(self) -> (r: Self)
        ensures
            r@ == apply1(Unary::Tanh, self@),
    {
        proof {
            use_type_invariant(self);
        }
        let v: T = self.val.tanh();
        assert(gives1(Unary::Tanh, self.val, v));
        Num { val: v, term: Ghost(apply1(Unary::Tanh, self.term@)) }
    }

    pub fn cos(self) -> (r: Self)
        ensures
            r@ == apply1(Unary::Cos, self@),
    {
        proof {
            use_type_invariant(self);
        }
        let v: T = self.val.cos();
        assert(gives1(Unary::Cos, self.val, v));
        Num { val: v, term: Ghost(apply1(Unary::Cos, self.term@)) }
    }

    pub fn powi(self, n: i32) -> (r: Self)
        ensures
            r@ == apply1(Unary::Power(n), self@),
    {
        proof {
            use_type_invariant(self);
        }
        let v: T = self.val.powi(n);
        assert(gives1(Unary::Power(n), self.val, v));
        Num { val: v, term: Ghost(apply1(Unary::Power(n), self.term@)) }
    }

    /// `other` where it is larger, else `self`.
    pub fn larger(self, other: Self) -> (r: Self)
        ensures
            r@ == larger(self@, other@),
    {
        proof {
            use_type_invariant(self);
            use_type_invariant(other);
        }
        let z: bool = self.val.less(other.val);
        assert(call_ensures(T::less, (self.val, other.val), z));
        let v: T = if z {
            other.val
        } else {
            self.val
        };
        assert(gives_larger(self.val, other.val, v));
        Num { val: v, term: Ghost(larger(self.term@, other.term@)) }
    }

    /// `self + a * b`, or `self` where `a` is zero.
    pub fn add_unless_zero(self, a: Self, b: Self) -> (r: Self)
        ensures
            r@ == add_unless_zero(self@, a@, b@),
    {
        proof {
            use_type_invariant(self);
            use_type_invariant(a);
            use_type_invariant(b);
        }
        let z: bool = a.val.is_zero();
        assert(call_ensures(T::is_zero, (a.val,), z));
        if z {
            assert(gives_add_unless_zero(self.val, a.val, b.val, self.val));
            Num { val: self.val, term: Ghost(add_unless_zero(self.term@, a.term@, b.term@)) }
        } else {
            let p: T = a.val.times(b.val);
            assert(call_ensures(T::times, (a.val, b.val), p));
            let v: T = self.val.plus(p);
            assert(gives_add_unless_zero(self.val, a.val, b.val, v));
            Num { val: v, term: Ghost(add_unless_zero(self.term@, a.term@, b.term@)) }
        }
    }

    pub fn less(self, other: Self) -> (z: bool)
        ensures
            may_be_less(self@, other@, z),
    {
        proof {
            use_type_invariant(self);
            use_type_invariant(other);
        }
        self.val.less(other.val)
    }

    pub fn at_least(self, other: Self) -> (z: bool)
        ensures
            may_be_at_least(self@, other@, z),
    {
        proof {
            use_type_invariant(self);
            use_type_invariant(other);
        }
        self.val.at_least(other.val)
    }
}

proof fn lemma_wide_apply<T: Scalar>(op: WideUnary, s: WideTerm<T>, x: T::Wide, v: T::Wide)
    requires
        wide_gives::<T>(op, x, v),
        wide_evaluates::<T>(s, x),
    ensures
        wide_evaluates::<T>(WideTerm::Apply(op, Box::new(s)), v),
{
    let t = WideTerm::Apply(op, Box::new(s));
    assert(t->Apply_0 == op);
    assert(*t->Apply_1 == s);
    assert(wide_evaluates::<T>(t, v) == (exists|y: T::Wide| #[trigger]
        wide_gives::<T>(t->Apply_0, y, v) && wide_evaluates::<T>(*t->Apply_1, y)));
}

proof fn lemma_wide_apply2<T: Scalar>(
    op: WideBinary,
    a: WideTerm<T>,
    b: WideTerm<T>,
    x: T::Wide,
    y: T::Wide,
    v: T::Wide,
)
    requires
        wide_gives2::<T>(op, x, y, v),
        wide_evaluates::<T>(a, x),
        wide_evaluates::<T>(b, y),
    ensures
        wide_evaluates::<T>(WideTerm::Apply2(op, Box::new(a), Box::new(b)), v),
{
    let t = WideTerm::Apply2(op, Box::new(a), Box::new(b));
    assert(t->Apply2_0 == op);
    assert(*t->Apply2_1 == a);
    assert(*t->Apply2_2 == b);
    assert(wide_evaluates::<T>(t, v) == (exists|x: T::Wide, y: T::Wide| #[trigger]
        wide_gives2::<T>(t->Apply2_0, x, y, v) && wide_evaluates::<T>(*t->Apply2_1, x)
            && wide_evaluates::<T>(*t->Apply2_2, y)));
}

/// A number of higher precision and the formula that it is a value of.
pub struct WideNum<T: Scalar> {
    val: T::Wide,
    term: Ghost<WideTerm<T>>,
}

impl<T: Scalar> Clone for WideNum<T> {
    fn clone(&self) -> (r: Self)
        ensures
            r == *self,
    {
        *self
    }
}

impl<T: Scalar> Copy for WideNum<T> {

}

impl<T: Scalar> View for WideNum<T> {
    type V = WideTerm<T>;

    closed spec fn view(&self) -> WideTerm<T> {
        self.term@
    }
}

/// `b` is a possible bit pattern of `a`.
pub open spec fn may_have_wide_bits<T: Scalar>(a: WideTerm<T>, b: u64) -> bool {
    exists|x: T::Wide| #[trigger]
        wide_evaluates::<T>(a, x) && call_ensures(T::wide_to_bits, (x,), b)
}

impl<T: Scalar> WideNum<T> {
    #[verifier::type_invariant]
    spec fn holds(self) -> bool {
        wide_evaluates::<T>(self.term@, self.val)
    }

    /// The number with the given bit pattern.
    pub fn bits(b: u64) -> (r: Self)
        ensures
            r@ == WideTerm::<T>::Bits(b),
    {
        WideNum { val: T::wide_from_bits(b), term: Ghost(WideTerm::Bits(b)) }
    }

    pub fn plus(self, x: Num<T>) -> (r: Self)
        ensures
            r@ == WideTerm::Plus(Box::new(self@), Box::new(x@)),
    {
        proof {
            use_type_invariant(self);
            use_type_invariant(x);
        }
        let v: T::Wide = T::wide_plus(self.val, x.val);
        WideNum { val: v, term: Ghost(WideTerm::Plus(Box::new(self.term@), Box::new(x.term@))) }
    }

    pub fn plus_square(self, x: Num<T>) -> (r: Self)
        ensures
            r@ == WideTerm::PlusSquare(Box::new(self@), Box::new(x@)),
    {
        proof {
            use_type_invariant(self);
            use_type_invariant(x);
        }
        let v: T::Wide = T::wide_plus_square(self.val, x.val);
        WideNum {
            val: v,
            term: Ghost(WideTerm::PlusSquare(Box::new(self.term@), Box::new(x.term@))),
        }
    }

    pub fn over_count(self, n: usize) -> (r: Self)
        ensures
            r@ == over_count(self@, n),
    {
        proof {
            use_type_invariant(self);
        }
        let v: T::Wide = T::wide_over_count(self.val, n);
        proof {
            lemma_wide_apply::<T>(WideUnary::OverCount(n), self.term@, self.val, v);
        }
        WideNum { val: v, term: Ghost(over_count(self.term@, n)) }
    }

    pub fn ln(self) -> (r: Self)
        ensures
            r@ == wide_apply(WideUnary::Ln, self@),
    {
        proof {
            use_type_invariant(self);
        }
        let v: T::Wide = T::wide_ln(self.val);
        proof {
            lemma_wide_apply::<T>(WideUnary::Ln, self.term@, self.val, v);
        }
        WideNum { val: v, term: Ghost(wide_apply(WideUnary::Ln, self.term@)) }
    }

    pub fn sqrt(self) -> (r: Self)
        ensures
            r@ == wide_apply(WideUnary::Sqrt, self@),
    {
        proof {
            use_type_invariant(self);
        }
        let v: T::Wide = T::wide_sqrt(self.val);
        proof {
            lemma_wide_apply::<T>(WideUnary::Sqrt, self.term@, self.val, v);
        }
        WideNum { val: v, term: Ghost(wide_apply(WideUnary::Sqrt, self.term@)) }
    }

    pub fn cos(self) -> (r: Self)
        ensures
            r@ == wide_apply(WideUnary::Cos, self@),
    {
        proof {
            use_type_invariant(self);
        }
        let v: T::Wide = T::wide_cos(self.val);
        proof {
            lemma_wide_apply::<T>(WideUnary::Cos, self.term@, self.val, v);
        }
        WideNum { val: v, term: Ghost(wide_apply(WideUnary::Cos, self.term@)) }
    }

    pub fn times(self, other: Self) -> (r: Self)
        ensures
            r@ == wide_product(self@, other@),
    {
        proof {
            use_type_invariant(self);
            use_type_invariant(other);
        }
        let v: T::Wide = T::wide_times(self.val, other.val);
        proof {
            lemma_wide_apply2::<T>(
                WideBinary::Times,
                self.term@,
                other.term@,
                self.val,
                other.val,
                v,
            );
        }
        WideNum { val: v, term: Ghost(wide_product(self.term@, other.term@)) }
    }

    pub fn maximum(self, other: Self) -> (r: Self)
        ensures
            r@ == wide_maximum(self@, other@),
    {
        proof {
            use_type_invariant(self);
            use_type_invariant(other);
        }
        let v: T::Wide = T::wide_maximum(self.val, other.val);
        proof {
            lemma_wide_apply2::<T>(
                WideBinary::Maximum,
                self.term@,
                other.term@,
                self.val,
                other.val,
                v,
            );
        }
        WideNum { val: v, term: Ghost(wide_maximum(self.term@, other.term@)) }
    }

    /// The number, brought back to the ordinary precision.
    pub fn narrow(self) -> (r: Num<T>)
        ensures
            r@ == Term::Narrow(self@),
    {
        proof {
            use_type_invariant(self);
        }
        let v: T = T::narrow(self.val);
        Num { val: v, term: Ghost(Term::Narrow(self.term@)) }
    }

    /// The bit pattern of the number.
    pub fn pattern(self) -> (b: u64)
        ensures
            may_have_wide_bits(self@, b),
    {
        proof {
            use_type_invariant(self);
        }
        T::wide_to_bits(self.val)
    }
}

/// The formulas of a row of numbers.
pub open spec fn terms<T: Scalar>(v: Seq<Num<T>>) -> Seq<Term<T>> {
    Seq::new(v.len(), |i: int| v[i]@)
}

} // verus!
