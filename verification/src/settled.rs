//! Numbers whose operations have one outcome each.
//!
//! Nothing is assumed of the operations of a number type, not even that they give the same
//! result when they are asked twice. Where they do, formulas have one value, and what is read
//! off them is settled.
use crate::scalar;
use crate::scalar::{Binary, Scalar, Term, Unary, WideBinary, WideTerm, WideUnary};
use vstd::prelude::*;

verus! {

/// Every operation on numbers has at most one outcome on the same operands.
pub open spec fn single_valued<T: Scalar>() -> bool {
    &&& forall|b: u32, v: T, w: T| #[trigger]
        call_ensures(T::from_bits, (b,), v) && #[trigger] call_ensures(T::from_bits, (b,), w)
            ==> v == w
    &&& forall|n: usize, v: T, w: T| #[trigger]
        call_ensures(T::from_count, (n,), v) && #[trigger] call_ensures(T::from_count, (n,), w)
            ==> v == w
    &&& forall|x: T, v: u32, w: u32| #[trigger]
        call_ensures(T::to_bits, (x,), v) && #[trigger] call_ensures(T::to_bits, (x,), w) ==> v == w
    &&& forall|op: Unary, x: T, v: T, w: T| #[trigger]
        scalar::gives1(op, x, v) && #[trigger] scalar::gives1(op, x, w) ==> v == w
    &&& forall|op: Binary, x: T, y: T, v: T, w: T| #[trigger]
        scalar::gives2(op, x, y, v) && #[trigger] scalar::gives2(op, x, y, w) ==> v == w
    &&& forall|x: T, y: T, v: bool, w: bool| #[trigger]
        call_ensures(T::less, (x, y), v) && #[trigger] call_ensures(T::less, (x, y), w) ==> v == w
    &&& forall|x: T, y: T, v: bool, w: bool| #[trigger]
        call_ensures(T::at_least, (x, y), v) && #[trigger] call_ensures(T::at_least, (x, y), w)
            ==> v == w
    &&& forall|x: T, v: bool, w: bool| #[trigger]
        call_ensures(T::is_zero, (x,), v) && #[trigger] call_ensures(T::is_zero, (x,), w) ==> v == w
    &&& wide_single_valued::<T>()
}

/// Every operation in the higher precision has at most one outcome on the same operands.
pub open spec fn wide_single_valued<T: Scalar>() -> bool {
    &&& forall|x: T::Wide, v: T, w: T| #[trigger]
        call_ensures(T::narrow, (x,), v) && #[trigger] call_ensures(T::narrow, (x,), w) ==> v == w
    &&& forall|b: u64, v: T::Wide, w: T::Wide| #[trigger]
        call_ensures(T::wide_from_bits, (b,), v) && #[trigger] call_ensures(
            T::wide_from_bits,
            (b,),
            w,
        ) ==> v == w
    &&& forall|x: T::Wide, y: T, v: T::Wide, w: T::Wide| #[trigger]
        call_ensures(T::wide_plus, (x, y), v) && #[trigger] call_ensures(T::wide_plus, (x, y), w)
            ==> v == w
    &&& forall|x: T::Wide, y: T, v: T::Wide, w: T::Wide| #[trigger]
        call_ensures(T::wide_plus_square, (x, y), v) && #[trigger] call_ensures(
            T::wide_plus_square,
            (x, y),
            w,
        ) ==> v == w
    &&& forall|op: WideUnary, x: T::Wide, v: T::Wide, w: T::Wide| #[trigger]
        scalar::wide_gives::<T>(op, x, v) && #[trigger] scalar::wide_gives::<T>(op, x, w) ==> v == w
    &&& forall|op: WideBinary, x: T::Wide, y: T::Wide, v: T::Wide, w: T::Wide| #[trigger]
        scalar::wide_gives2::<T>(op, x, y, v) && #[trigger] scalar::wide_gives2::<T>(op, x, y, w)
            ==> v == w
}

proof fn lemma_larger<T: Scalar>(x: T, y: T, v: T, w: T)
    requires
        single_valued::<T>(),
        scalar::gives_larger(x, y, v),
        scalar::gives_larger(x, y, w),
    ensures
        v == w,
{
}

proof fn lemma_add_unless_zero<T: Scalar>(x: T, a: T, b: T, v: T, w: T)
    requires
        single_valued::<T>(),
        scalar::gives_add_unless_zero(x, a, b, v),
        scalar::gives_add_unless_zero(x, a, b, w),
    ensures
        v == w,
{
    let z1 = choose|z: bool| #[trigger]
        call_ensures(T::is_zero, (a,), z) && if z {
            v == x
        } else {
            exists|p: T| #[trigger]
                call_ensures(T::times, (a, b), p) && call_ensures(T::plus, (x, p), v)
        };
    let z2 = choose|z: bool| #[trigger]
        call_ensures(T::is_zero, (a,), z) && if z {
            w == x
        } else {
            exists|p: T| #[trigger]
                call_ensures(T::times, (a, b), p) && call_ensures(T::plus, (x, p), w)
        };
    assert(z1 == z2);
    if !z1 {
        let p1 = choose|p: T| #[trigger]
            call_ensures(T::times, (a, b), p) && call_ensures(T::plus, (x, p), v);
        let p2 = choose|p: T| #[trigger]
            call_ensures(T::times, (a, b), p) && call_ensures(T::plus, (x, p), w);
        assert(scalar::gives2(Binary::Times, a, b, p1));
        assert(scalar::gives2(Binary::Times, a, b, p2));
        assert(scalar::gives2(Binary::Plus, x, p1, v));
        assert(scalar::gives2(Binary::Plus, x, p1, w));
    }
}

/// Where every operation has one outcome, a formula has one value.
pub proof fn law_formulas_have_one_value<T: Scalar>(t: Term<T>, v: T, w: T)
    requires
        single_valued::<T>(),
        scalar::evaluates(t, v),
        scalar::evaluates(t, w),
    ensures
        v == w,
    decreases t,
{
    match t {
        Term::Given(x) => {},
        Term::Bits(b) => {},
        Term::Count(n) => {},
        Term::Apply1(op, a) => {
            let x = choose|x: T| #[trigger] scalar::gives1(op, x, v) && scalar::evaluates(*a, x);
            let y = choose|x: T| #[trigger] scalar::gives1(op, x, w) && scalar::evaluates(*a, x);
            law_formulas_have_one_value(*a, x, y);
        },
        Term::Apply2(op, a, b) => {
            let (x1, y1) = choose|x: T, y: T| #[trigger]
                scalar::gives2(op, x, y, v) && scalar::evaluates(*a, x) && scalar::evaluates(*b, y);
            let (x2, y2) = choose|x: T, y: T| #[trigger]
                scalar::gives2(op, x, y, w) && scalar::evaluates(*a, x) && scalar::evaluates(*b, y);
            law_formulas_have_one_value(*a, x1, x2);
            law_formulas_have_one_value(*b, y1, y2);
        },
        Term::Larger(a, b) => {
            let (x1, y1) = choose|x: T, y: T| #[trigger]
                scalar::gives_larger(x, y, v) && scalar::evaluates(*a, x) && scalar::evaluates(*b, y);
            let (x2, y2) = choose|x: T, y: T| #[trigger]
                scalar::gives_larger(x, y, w) && scalar::evaluates(*a, x) && scalar::evaluates(*b, y);
            law_formulas_have_one_value(*a, x1, x2);
            law_formulas_have_one_value(*b, y1, y2);
            lemma_larger(x1, y1, v, w);
        },
        Term::AddUnlessZero(s, a, b) => {
            let (x1, y1, z1) = choose|x: T, y: T, z: T| #[trigger]
                scalar::gives_add_unless_zero(x, y, z, v) && scalar::evaluates(*s, x)
                    && scalar::evaluates(*a, y) && scalar::evaluates(*b, z);
            let (x2, y2, z2) = choose|x: T, y: T, z: T| #[trigger]
                scalar::gives_add_unless_zero(x, y, z, w) && scalar::evaluates(*s, x)
                    && scalar::evaluates(*a, y) && scalar::evaluates(*b, z);
            law_formulas_have_one_value(*s, x1, x2);
            law_formulas_have_one_value(*a, y1, y2);
            law_formulas_have_one_value(*b, z1, z2);
            lemma_add_unless_zero(x1, y1, z1, v, w);
        },
        Term::Narrow(f) => {
            let x = choose|x: T::Wide| #[trigger]
                call_ensures(T::narrow, (x,), v) && scalar::wide_evaluates::<T>(f, x);
            let y = choose|x: T::Wide| #[trigger]
                call_ensures(T::narrow, (x,), w) && scalar::wide_evaluates::<T>(f, x);
            lemma_one_wide_value::<T>(f, x, y);
        },
    }
}

proof fn lemma_one_wide_value<T: Scalar>(t: WideTerm<T>, v: T::Wide, w: T::Wide)
    requires
        single_valued::<T>(),
        scalar::wide_evaluates::<T>(t, v),
        scalar::wide_evaluates::<T>(t, w),
    ensures
        v == w,
    decreases t,
{
    match t {
        WideTerm::Bits(b) => {},
        WideTerm::Plus(s, a) => {
            let (x1, y1) = choose|x: T::Wide, y: T| #[trigger]
                call_ensures(T::wide_plus, (x, y), v) && scalar::wide_evaluates::<T>(*s, x)
                    && scalar::evaluates(*a, y);
            let (x2, y2) = choose|x: T::Wide, y: T| #[trigger]
                call_ensures(T::wide_plus, (x, y), w) && scalar::wide_evaluates::<T>(*s, x)
                    && scalar::evaluates(*a, y);
            lemma_one_wide_value::<T>(*s, x1, x2);
            law_formulas_have_one_value(*a, y1, y2);
        },
        WideTerm::PlusSquare(s, a) => {
            let (x1, y1) = choose|x: T::Wide, y: T| #[trigger]
                call_ensures(T::wide_plus_square, (x, y), v) && scalar::wide_evaluates::<T>(*s, x)
                    && scalar::evaluates(*a, y);
            let (x2, y2) = choose|x: T::Wide, y: T| #[trigger]
                call_ensures(T::wide_plus_square, (x, y), w) && scalar::wide_evaluates::<T>(*s, x)
                    && scalar::evaluates(*a, y);
            lemma_one_wide_value::<T>(*s, x1, x2);
            law_formulas_have_one_value(*a, y1, y2);
        },
        WideTerm::Apply(op, s) => {
            let x = choose|x: T::Wide| #[trigger]
                scalar::wide_gives::<T>(op, x, v) && scalar::wide_evaluates::<T>(*s, x);
            let y = choose|x: T::Wide| #[trigger]
                scalar::wide_gives::<T>(op, x, w) && scalar::wide_evaluates::<T>(*s, x);
            lemma_one_wide_value::<T>(*s, x, y);
        },
        WideTerm::Apply2(op, a, b) => {
            let (x1, y1) = choose|x: T::Wide, y: T::Wide| #[trigger]
                scalar::wide_gives2::<T>(op, x, y, v) && scalar::wide_evaluates::<T>(*a, x)
                    && scalar::wide_evaluates::<T>(*b, y);
            let (x2, y2) = choose|x: T::Wide, y: T::Wide| #[trigger]
                scalar::wide_gives2::<T>(op, x, y, w) && scalar::wide_evaluates::<T>(*a, x)
                    && scalar::wide_evaluates::<T>(*b, y);
            lemma_one_wide_value::<T>(*a, x1, x2);
            lemma_one_wide_value::<T>(*b, y1, y2);
        },
    }
}

/// Where every operation has one outcome, comparing two formulas has one outcome.
pub proof fn law_comparisons_have_one_outcome<T: Scalar>(a: Term<T>, b: Term<T>, v: bool, w: bool)
    requires
        single_valued::<T>(),
    ensures
        scalar::may_be_less(a, b, v) && scalar::may_be_less(a, b, w) ==> v == w,
        scalar::may_be_at_least(a, b, v) && scalar::may_be_at_least(a, b, w) ==> v == w,
{
    if scalar::may_be_less(a, b, v) && scalar::may_be_less(a, b, w) {
        let (x1, y1) = choose|x: T, y: T| #[trigger]
            scalar::evaluates(a, x) && #[trigger] scalar::evaluates(b, y) && call_ensures(
                T::less,
                (x, y),
                v,
            );
        let (x2, y2) = choose|x: T, y: T| #[trigger]
            scalar::evaluates(a, x) && #[trigger] scalar::evaluates(b, y) && call_ensures(
                T::less,
                (x, y),
                w,
            );
        law_formulas_have_one_value(a, x1, x2);
        law_formulas_have_one_value(b, y1, y2);
    }
    if scalar::may_be_at_least(a, b, v) && scalar::may_be_at_least(a, b, w) {
        let (x1, y1) = choose|x: T, y: T| #[trigger]
            scalar::evaluates(a, x) && #[trigger] scalar::evaluates(b, y) && call_ensures(
                T::at_least,
                (x, y),
                v,
            );
        let (x2, y2) = choose|x: T, y: T| #[trigger]
            scalar::evaluates(a, x) && #[trigger] scalar::evaluates(b, y) && call_ensures(
                T::at_least,
                (x, y),
                w,
            );
        law_formulas_have_one_value(a, x1, x2);
        law_formulas_have_one_value(b, y1, y2);
    }
}

/// Where every operation has one outcome, a formula has one bit pattern.
pub proof fn law_formulas_have_one_pattern<T: Scalar>(a: Term<T>, v: u32, w: u32)
    requires
        single_valued::<T>(),
        scalar::may_have_bits(a, v),
        scalar::may_have_bits(a, w),
    ensures
        v == w,
{
    let x = choose|x: T| #[trigger] scalar::evaluates(a, x) && call_ensures(T::to_bits, (x,), v);
    let y = choose|x: T| #[trigger] scalar::evaluates(a, x) && call_ensures(T::to_bits, (x,), w);
    law_formulas_have_one_value(a, x, y);
}

} // verus!
