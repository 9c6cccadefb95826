//! The rule table: for each operator and activation, the value it computes
//! and the local derivatives that a backward pass hands to its operands.

use crate::grad::Activation;
use crate::number::{
    is_difference, is_exp, is_negation, is_one, is_product, is_quotient, is_sign, is_sum, is_tanh,
    is_zero, Number,
};
use crate::ops::Operation;
use vstd::prelude::*;

verus! {

/// `out` is `lhs op rhs`.
pub open spec fn applies<V: Number>(op: Operation, lhs: V, rhs: V, out: V) -> bool {
    match op {
        Operation::Add => is_sum(lhs, rhs, out),
        Operation::Sub => is_difference(lhs, rhs, out),
        Operation::Mul => is_product(lhs, rhs, out),
        Operation::Div => is_quotient(lhs, rhs, out),
    }
}

/// `out` is `1 / (1 + e^(-x))`, computed in that order.
pub open spec fn is_sigmoid<V: Number>(x: V, out: V) -> bool {
    exists|minus: V, power: V, one: V, below: V|
        #![trigger is_exp(minus, power), is_sum(one, power, below)]
        is_negation(x, minus) && is_exp(minus, power) && is_one(one) && is_sum(one, power, below)
            && is_quotient(one, below, out)
}

/// `out` is `x` where `x` is positive and zero elsewhere.
pub open spec fn is_relu<V: Number>(x: V, out: V) -> bool {
    exists|positive: bool| #[trigger]
        is_sign(x, positive) && if positive {
            out == x
        } else {
            is_zero(out)
        }
}

/// `out` is the activation of `x`.
pub open spec fn activates<V: Number>(activation: Activation, x: V, out: V) -> bool {
    match activation {
        Activation::Exp => is_exp(x, out),
        Activation::Tanh => is_tanh(x, out),
        Activation::Sigmoid => is_sigmoid(x, out),
        Activation::ReLU => is_relu(x, out),
    }
}

/// `delta` is `-g * lhs / rhs^2`, computed in that order.
pub open spec fn is_divisor_delta<V: Number>(g: V, lhs: V, rhs: V, delta: V) -> bool {
    exists|minus: V, scaled: V, square: V|
        #![trigger is_product(minus, lhs, scaled), is_product(rhs, rhs, square)]
        is_negation(g, minus) && is_product(minus, lhs, scaled) && is_product(rhs, rhs, square)
            && is_quotient(scaled, square, delta)
}

/// `to_lhs` and `to_rhs` are what a node `lhs op rhs` with gradient `g` adds
/// to the gradients of its two operands.
pub open spec fn double_deltas<V: Number>(
    op: Operation,
    g: V,
    lhs: V,
    rhs: V,
    to_lhs: V,
    to_rhs: V,
) -> bool {
    match op {
        Operation::Add => to_lhs == g && to_rhs == g,
        Operation::Sub => to_lhs == g && is_negation(g, to_rhs),
        Operation::Mul => is_product(g, rhs, to_lhs) && is_product(g, lhs, to_rhs),
        Operation::Div => is_quotient(g, rhs, to_lhs) && is_divisor_delta(g, lhs, rhs, to_rhs),
    }
}

/// `delta` is `g * (1 - out^2)`, computed in that order.
pub open spec fn is_tanh_delta<V: Number>(g: V, out: V, delta: V) -> bool {
    exists|square: V, one: V, slope: V| #[trigger]
        is_difference(one, square, slope) && is_product(out, out, square) && is_one(one)
            && is_product(g, slope, delta)
}

/// `delta` is `g * out * (1 - out)`, computed in that order.
pub open spec fn is_sigmoid_delta<V: Number>(g: V, out: V, delta: V) -> bool {
    exists|scaled: V, one: V, rest: V|
        #![trigger is_product(scaled, rest, delta), is_difference(one, out, rest)]
        is_product(g, out, scaled) && is_one(one) && is_difference(one, out, rest) && is_product(
            scaled,
            rest,
            delta,
        )
}

/// `delta` is `g` where `x` is positive and zero elsewhere.
pub open spec fn is_relu_delta<V: Number>(g: V, x: V, delta: V) -> bool {
    exists|positive: bool| #[trigger]
        is_sign(x, positive) && if positive {
            delta == g
        } else {
            is_zero(delta)
        }
}

/// `delta` is what a node with value `out`, gradient `g` and derivation
/// `activation(x)` adds to the gradient of its operand.
pub open spec fn single_delta<V: Number>(
    activation: Activation,
    g: V,
    out: V,
    x: V,
    delta: V,
) -> bool {
    match activation {
        Activation::Exp => is_product(g, out, delta),
        Activation::Tanh => is_tanh_delta(g, out, delta),
        Activation::Sigmoid => is_sigmoid_delta(g, out, delta),
        Activation::ReLU => is_relu_delta(g, x, delta),
    }
}

/// The value of `lhs op rhs`. A division by zero is not guarded: what the
/// number type returns for it is stored like any other value.
pub fn apply<V: Number>(op: Operation, lhs: V, rhs: V) -> (out: V)
    ensures
        applies(op, lhs, rhs, out),
{
    match op {
        Operation::Add => lhs.add(rhs),
        Operation::Sub => lhs.sub(rhs),
        Operation::Mul => lhs.mul(rhs),
        Operation::Div => lhs.div(rhs),
    }
}

/// The value of `activation(x)`.
pub fn activate<V: Number>(activation: Activation, x: V) -> (out: V)
    ensures
        activates(activation, x, out),
{
    match activation {
        Activation::Exp => x.exp(),
        Activation::Tanh => x.tanh(),
        Activation::Sigmoid => {
            let minus = x.neg();
            let power = minus.exp();
            let one = V::one();
            let below = one.add(power);
            let out = one.div(below);
            assert(is_exp(minus, power) && is_sum(one, power, below));
            out
        },
        Activation::ReLU => {
            let positive = x.is_positive();
            assert(is_sign(x, positive));
            if positive {
                x
            } else {
                V::zero()
            }
        },
    }
}

/// The two local derivatives of `lhs op rhs`, each times the gradient `g`
/// of the result: what goes to `lhs`, then what goes to `rhs`.
pub fn double_rule<V: Number>(op: Operation, g: V, lhs: V, rhs: V) -> (deltas: (V, V))
    ensures
        double_deltas(op, g, lhs, rhs, deltas.0, deltas.1),
{
    match op {
        Operation::Add => (g, g),
        Operation::Sub => (g, g.neg()),
        Operation::Mul => (g.mul(rhs), g.mul(lhs)),
        Operation::Div => {
            let to_lhs = g.div(rhs);
            let minus = g.neg();
            let scaled = minus.mul(lhs);
            let square = rhs.mul(rhs);
            let to_rhs = scaled.div(square);
            assert(is_product(minus, lhs, scaled) && is_product(rhs, rhs, square));
            (to_lhs, to_rhs)
        },
    }
}

/// The local derivative of `activation(x)`, whose value is `out`, times the
/// gradient `g` of the result.
pub fn single_rule<V: Number>(activation: Activation, g: V, out: V, x: V) -> (delta: V)
    ensures
        single_delta(activation, g, out, x, delta),
{
    match activation {
        Activation::Exp => g.mul(out),
        Activation::Tanh => {
            let square = out.mul(out);
            let one = V::one();
            let slope = one.sub(square);
            let delta = g.mul(slope);
            assert(is_difference(one, square, slope));
            delta
        },
        Activation::Sigmoid => {
            let scaled = g.mul(out);
            let one = V::one();
            let rest = one.sub(out);
            let delta = scaled.mul(rest);
            assert(is_product(scaled, rest, delta) && is_difference(one, out, rest));
            delta
        },
        Activation::ReLU => {
            let positive = x.is_positive();
            assert(is_sign(x, positive));
            if positive {
                g
            } else {
                V::zero()
            }
        },
    }
}

} // verus!
