//! The arithmetic that the engine asks of its numbers.

use vstd::prelude::*;

verus! {

/// A number the engine can differentiate over.
///
/// The engine never looks inside a number. It only hands numbers to these
/// operations and stores what comes back, so its contracts describe each
/// stored number by the operation and the operands that produced it.
pub trait Number: Copy {
    /// The additive identity: the gradient of a fresh node.
    fn zero() -> Self;

    /// The multiplicative identity: the seed of a backward pass.
    fn one() -> Self;

    fn add(self, rhs: Self) -> Self;

    fn sub(self, rhs: Self) -> Self;

    fn mul(self, rhs: Self) -> Self;

    fn div(self, rhs: Self) -> Self;

    fn neg(self) -> Self;

    /// `e` raised to `self`.
    fn exp(self) -> Self;

    /// The hyperbolic tangent of `self`.
    fn tanh(self) -> Self;

    /// Whether `self` is strictly greater than zero.
    fn is_positive(self) -> bool;
}

/// `r` is what `Number::zero` returned.
pub open spec fn is_zero<V: Number>(r: V) -> bool {
    call_ensures(V::zero, (), r)
}

/// `r` is what `Number::one` returned.
pub open spec fn is_one<V: Number>(r: V) -> bool {
    call_ensures(V::one, (), r)
}

/// `r` is what `a.add(b)` returned.
pub open spec fn is_sum<V: Number>(a: V, b: V, r: V) -> bool {
    call_ensures(V::add, (a, b), r)
}

/// `r` is what `a.sub(b)` returned.
pub open spec fn is_difference<V: Number>(a: V, b: V, r: V) -> bool {
    call_ensures(V::sub, (a, b), r)
}

/// `r` is what `a.mul(b)` returned.
pub open spec fn is_product<V: Number>(a: V, b: V, r: V) -> bool {
    call_ensures(V::mul, (a, b), r)
}

/// `r` is what `a.div(b)` returned.
pub open spec fn is_quotient<V: Number>(a: V, b: V, r: V) -> bool {
    call_ensures(V::div, (a, b), r)
}

/// `r` is what `a.neg()` returned.
pub open spec fn is_negation<V: Number>(a: V, r: V) -> bool {
    call_ensures(V::neg, (a,), r)
}

/// `r` is what `a.exp()` returned.
pub open spec fn is_exp<V: Number>(a: V, r: V) -> bool {
    call_ensures(V::exp, (a,), r)
}

/// `r` is what `a.tanh()` returned.
pub open spec fn is_tanh<V: Number>(a: V, r: V) -> bool {
    call_ensures(V::tanh, (a,), r)
}

/// `p` is what `a.is_positive()` returned.
pub open spec fn is_sign<V: Number>(a: V, p: bool) -> bool {
    call_ensures(V::is_positive, (a,), p)
}

} // verus!
