use autodiff::ops::{op, op_value, value_op};
use autodiff::{Activation, Data, Dependency, Graph, Nonlinear, Number, Operation, Scalar};

#[derive(Clone, Copy, Debug, PartialEq)]
struct F(f64);

impl Number for F {
    fn zero() -> Self {
        F(0.0)
    }

    fn one() -> Self {
        F(1.0)
    }

    fn add(self, rhs: Self) -> Self {
        F(self.0 + rhs.0)
    }

    fn sub(self, rhs: Self) -> Self {
        F(self.0 - rhs.0)
    }

    fn mul(self, rhs: Self) -> Self {
        F(self.0 * rhs.0)
    }

    fn div(self, rhs: Self) -> Self {
        F(self.0 / rhs.0)
    }

    fn neg(self) -> Self {
        F(-self.0)
    }

    fn exp(self) -> Self {
        F(self.0.exp())
    }

    fn tanh(self) -> Self {
        F(self.0.tanh())
    }

    fn is_positive(self) -> bool {
        self.0 > 0.0
    }
}

fn close(found: F, expected: f64) -> bool {
    (found.0 - expected).abs() < 1e-6
}

/// The slope of `f` at `x` by a central difference.
fn slope(f: fn(f64) -> f64, x: f64) -> f64 {
    let eps = 1e-5;
    (f(x + eps) - f(x - eps)) / (2.0 * eps)
}

#[test]
fn product_plus_constant_end_to_end() {
    let mut g: Graph<F> = Graph::new();
    let a = Scalar::new(&mut g, F(2.0));
    let b = Scalar::new(&mut g, F(-3.0));
    let c = Scalar::new(&mut g, F(10.0));
    let ab = a.mul(&mut g, &b);
    let d = ab.add(&mut g, &c);
    assert_eq!(d.val(&g), F(4.0));
    let order = d.backward(&mut g);
    assert_eq!(order, vec![d, c, ab, b, a]);
    assert_eq!(a.grad(&g), F(-3.0));
    assert_eq!(b.grad(&g), F(2.0));
    assert_eq!(c.grad(&g), F(1.0));
    assert_eq!(d.grad(&g), F(1.0));
}

#[test]
fn relu_boundary() {
    let mut g: Graph<F> = Graph::new();
    let x = Scalar::new(&mut g, F(-1.0));
    let y = x.relu(&mut g);
    assert_eq!(y.val(&g), F(0.0));
    y.backward(&mut g);
    assert_eq!(x.grad(&g), F(0.0));

    let u = Scalar::new(&mut g, F(2.0));
    let w = u.relu(&mut g);
    assert_eq!(w.val(&g), F(2.0));
    w.backward(&mut g);
    assert_eq!(u.grad(&g), F(1.0));
}

#[test]
fn relu_at_zero_passes_nothing() {
    let mut g: Graph<F> = Graph::new();
    let x = Scalar::new(&mut g, F(0.0));
    let y = x.relu(&mut g);
    assert_eq!(y.val(&g), F(0.0));
    y.backward(&mut g);
    assert_eq!(x.grad(&g), F(0.0));
}

#[test]
fn relu_scales_with_the_upstream_gradient() {
    let mut g: Graph<F> = Graph::new();
    let x = Scalar::new(&mut g, F(2.0));
    let y = x.relu(&mut g);
    let z = op_value(&mut g, y, F(5.0), Operation::Mul);
    z.backward(&mut g);
    assert_eq!(y.grad(&g), F(5.0));
    assert_eq!(x.grad(&g), F(5.0));
}

#[test]
fn new_leaf_has_zero_gradient_and_no_derivation() {
    let mut g: Graph<F> = Graph::new();
    assert_eq!(g.len(), 0);
    let x = Scalar::new(&mut g, F(7.5));
    assert_eq!(g.len(), 1);
    assert_eq!(x.val(&g), F(7.5));
    assert_eq!(x.grad(&g), F(0.0));
    assert_eq!(x.dep(&g), None);
    assert_eq!(x.hash(), 0);
}

#[test]
fn nodes_are_told_apart_by_position_not_by_value() {
    let mut g: Graph<F> = Graph::new();
    let x = Scalar::new(&mut g, F(1.0));
    let y = Scalar::new(&mut g, F(1.0));
    assert_ne!(x, y);
    assert_ne!(x.hash(), y.hash());
    let again = x;
    assert_eq!(again, x);
    again.set_val(&mut g, F(4.0));
    assert_eq!(x.val(&g), F(4.0));
    assert_eq!(y.val(&g), F(1.0));
}

#[test]
fn operators_record_their_operands() {
    let mut g: Graph<F> = Graph::new();
    let a = Scalar::new(&mut g, F(6.0));
    let b = Scalar::new(&mut g, F(3.0));
    let sum = a.add(&mut g, &b);
    let difference = a.sub(&mut g, &b);
    let product = a.mul(&mut g, &b);
    let quotient = a.div(&mut g, &b);
    assert_eq!(sum.val(&g), F(9.0));
    assert_eq!(difference.val(&g), F(3.0));
    assert_eq!(product.val(&g), F(18.0));
    assert_eq!(quotient.val(&g), F(2.0));
    assert_eq!(
        sum.dep(&g),
        Some(Dependency::Double { lhs: a, rhs: b, op: Operation::Add })
    );
    assert_eq!(
        difference.dep(&g),
        Some(Dependency::Double { lhs: a, rhs: b, op: Operation::Sub })
    );
    assert_eq!(
        product.dep(&g),
        Some(Dependency::Double { lhs: a, rhs: b, op: Operation::Mul })
    );
    assert_eq!(
        quotient.dep(&g),
        Some(Dependency::Double { lhs: a, rhs: b, op: Operation::Div })
    );
    assert_eq!(a.val(&g), F(6.0));
    assert_eq!(b.val(&g), F(3.0));
    assert_eq!(g.len(), 6);
}

#[test]
fn op_applies_the_operator_it_is_given() {
    let mut g: Graph<F> = Graph::new();
    let a = Scalar::new(&mut g, F(6.0));
    let b = Scalar::new(&mut g, F(3.0));
    let q = op(&mut g, a, b, Operation::Div);
    assert_eq!(q.val(&g), F(2.0));
    assert_eq!(q.grad(&g), F(0.0));
}

#[test]
fn a_value_on_either_side_becomes_a_leaf() {
    let mut g: Graph<F> = Graph::new();
    let x = Scalar::new(&mut g, F(8.0));
    let right = op_value(&mut g, x, F(2.0), Operation::Sub);
    assert_eq!(right.val(&g), F(6.0));
    let left = value_op(&mut g, F(2.0), x, Operation::Sub);
    assert_eq!(left.val(&g), F(-6.0));
    assert_eq!(g.len(), 5);
    let leaf = Scalar { id: 1 };
    assert_eq!(leaf.val(&g), F(2.0));
    assert_eq!(leaf.dep(&g), None);
    assert_eq!(
        right.dep(&g),
        Some(Dependency::Double { lhs: x, rhs: leaf, op: Operation::Sub })
    );
    assert_eq!(
        left.dep(&g),
        Some(Dependency::Double { lhs: Scalar { id: 3 }, rhs: x, op: Operation::Sub })
    );
    right.backward(&mut g);
    left.backward(&mut g);
    assert_eq!(x.grad(&g), F(0.0));
    assert_eq!(leaf.grad(&g), F(-1.0));
}

#[test]
fn sequence_lists_dependencies_first_left_before_right() {
    let mut g: Graph<F> = Graph::new();
    let a = Scalar::new(&mut g, F(2.0));
    let b = Scalar::new(&mut g, F(-3.0));
    let c = Scalar::new(&mut g, F(10.0));
    let ab = a.mul(&mut g, &b);
    let d = ab.add(&mut g, &c);
    assert_eq!(d.sequence(&g), vec![a, b, ab, c, d]);
    assert_eq!(ab.sequence(&g), vec![a, b, ab]);
    assert_eq!(c.sequence(&g), vec![c]);
}

#[test]
fn sequence_lists_a_shared_node_once() {
    let mut g: Graph<F> = Graph::new();
    let x = Scalar::new(&mut g, F(3.0));
    let y = x.add(&mut g, &x);
    let z = y.mul(&mut g, &y);
    assert_eq!(z.sequence(&g), vec![x, y, z]);
}

#[test]
fn sequence_leaves_out_what_the_root_does_not_reach() {
    let mut g: Graph<F> = Graph::new();
    let a = Scalar::new(&mut g, F(1.0));
    let b = Scalar::new(&mut g, F(2.0));
    let stray = b.exp(&mut g);
    let s = b.add(&mut g, &a);
    let order = s.sequence(&g);
    assert_eq!(order, vec![b, a, s]);
    assert!(!order.contains(&stray));
    s.backward(&mut g);
    assert_eq!(stray.grad(&g), F(0.0));
}

#[test]
fn square_of_one_node_gets_twice_its_value() {
    let mut g: Graph<F> = Graph::new();
    let x = Scalar::new(&mut g, F(3.0));
    let y = x.mul(&mut g, &x);
    assert_eq!(y.val(&g), F(9.0));
    y.backward(&mut g);
    assert_eq!(x.grad(&g), F(6.0));
}

#[test]
fn sum_of_one_node_with_itself_gets_two() {
    let mut g: Graph<F> = Graph::new();
    let x = Scalar::new(&mut g, F(3.0));
    let y = x.add(&mut g, &x);
    y.backward(&mut g);
    assert_eq!(x.grad(&g), F(2.0));
}

#[test]
fn difference_of_one_node_with_itself_gets_zero() {
    let mut g: Graph<F> = Graph::new();
    let x = Scalar::new(&mut g, F(3.0));
    let y = x.sub(&mut g, &x);
    assert_eq!(y.val(&g), F(0.0));
    y.backward(&mut g);
    assert_eq!(x.grad(&g), F(0.0));
}

#[test]
fn quotient_of_one_node_with_itself_gets_zero() {
    let mut g: Graph<F> = Graph::new();
    let x = Scalar::new(&mut g, F(2.0));
    let y = x.div(&mut g, &x);
    assert_eq!(y.val(&g), F(1.0));
    y.backward(&mut g);
    assert_eq!(x.grad(&g), F(0.0));
}

#[test]
fn gradient_adds_up_over_shared_paths() {
    let mut g: Graph<F> = Graph::new();
    let a = Scalar::new(&mut g, F(2.0));
    let b = Scalar::new(&mut g, F(3.0));
    let s = a.add(&mut g, &b);
    let y = s.mul(&mut g, &s);
    assert_eq!(y.val(&g), F(25.0));
    y.backward(&mut g);
    assert_eq!(s.grad(&g), F(10.0));
    assert_eq!(a.grad(&g), F(10.0));
    assert_eq!(b.grad(&g), F(10.0));
}

#[test]
fn division_rule() {
    let mut g: Graph<F> = Graph::new();
    let a = Scalar::new(&mut g, F(6.0));
    let b = Scalar::new(&mut g, F(2.0));
    let q = a.div(&mut g, &b);
    q.backward(&mut g);
    assert_eq!(a.grad(&g), F(0.5));
    assert_eq!(b.grad(&g), F(-1.5));
}

#[test]
fn subtraction_rule() {
    let mut g: Graph<F> = Graph::new();
    let a = Scalar::new(&mut g, F(6.0));
    let b = Scalar::new(&mut g, F(2.0));
    let d = a.sub(&mut g, &b);
    d.backward(&mut g);
    assert_eq!(a.grad(&g), F(1.0));
    assert_eq!(b.grad(&g), F(-1.0));
}

#[test]
fn division_by_zero_goes_through_unguarded() {
    let mut g: Graph<F> = Graph::new();
    let a = Scalar::new(&mut g, F(1.0));
    let zero = Scalar::new(&mut g, F(0.0));
    let q = a.div(&mut g, &zero);
    assert!(q.val(&g).0.is_infinite());
    q.backward(&mut g);
    assert!(a.grad(&g).0.is_infinite());
    assert!(zero.grad(&g).0.is_infinite() || zero.grad(&g).0.is_nan());

    let nothing = zero.div(&mut g, &zero);
    assert!(nothing.val(&g).0.is_nan());
    let more = nothing.add(&mut g, &a);
    assert!(more.val(&g).0.is_nan());
}

#[test]
fn activations_compute_their_functions() {
    let mut g: Graph<F> = Graph::new();
    let x = Scalar::new(&mut g, F(0.5));
    let e = x.exp(&mut g);
    let t = x.tanh(&mut g);
    let s = x.sigmoid(&mut g);
    let r = x.relu(&mut g);
    assert!(close(e.val(&g), 0.5f64.exp()));
    assert!(close(t.val(&g), 0.5f64.tanh()));
    assert!(close(s.val(&g), 1.0 / (1.0 + (-0.5f64).exp())));
    assert_eq!(r.val(&g), F(0.5));
    assert_eq!(
        t.dep(&g),
        Some(Dependency::Single { prev: x, activation: Activation::Tanh })
    );
    let zero = Scalar::new(&mut g, F(0.0));
    let half = zero.sigmoid(&mut g);
    assert_eq!(half.val(&g), F(0.5));
    half.backward(&mut g);
    assert_eq!(zero.grad(&g), F(0.25));
}

#[test]
fn activate_builds_what_the_named_methods_build() {
    let mut g: Graph<F> = Graph::new();
    let x = Scalar::new(&mut g, F(0.0));
    let e = x.activate(&mut g, Activation::Exp);
    assert_eq!(e.val(&g), F(1.0));
    assert_eq!(
        e.dep(&g),
        Some(Dependency::Single { prev: x, activation: Activation::Exp })
    );
    e.backward(&mut g);
    assert_eq!(x.grad(&g), F(1.0));
}

#[test]
fn gradients_agree_with_finite_differences() {
    let points = [-1.3, -0.4, 0.7, 1.9];
    for &x0 in points.iter() {
        for &y0 in [0.6, -2.5].iter() {
            let mut g: Graph<F> = Graph::new();
            let x = Scalar::new(&mut g, F(x0));
            let y = Scalar::new(&mut g, F(y0));
            let results = [
                (x.add(&mut g, &y), 1.0, 1.0),
                (x.sub(&mut g, &y), 1.0, -1.0),
                (x.mul(&mut g, &y), y0, x0),
                (x.div(&mut g, &y), 1.0 / y0, -x0 / (y0 * y0)),
            ];
            for &(node, to_x, to_y) in results.iter() {
                x.set_grad(&mut g, F(0.0));
                y.set_grad(&mut g, F(0.0));
                node.backward(&mut g);
                assert!(close(x.grad(&g), to_x));
                assert!(close(y.grad(&g), to_y));
            }
        }
        let unary: [(Activation, fn(f64) -> f64); 4] = [
            (Activation::Exp, |v| v.exp()),
            (Activation::Tanh, |v| v.tanh()),
            (Activation::Sigmoid, |v| 1.0 / (1.0 + (-v).exp())),
            (Activation::ReLU, |v| if v > 0.0 { v } else { 0.0 }),
        ];
        for &(activation, f) in unary.iter() {
            let mut g: Graph<F> = Graph::new();
            let x = Scalar::new(&mut g, F(x0));
            let y = x.activate(&mut g, activation);
            y.backward(&mut g);
            assert!((x.grad(&g).0 - slope(f, x0)).abs() < 1e-6);
        }
    }
}

#[test]
fn composite_gradient_agrees_with_finite_differences() {
    fn f(v: f64) -> f64 {
        let t = (v * v + 1.0).tanh();
        t / (1.0 + (-v).exp()) - v.exp()
    }
    let x0 = 0.3;
    let mut g: Graph<F> = Graph::new();
    let x = Scalar::new(&mut g, F(x0));
    let sq = x.mul(&mut g, &x);
    let up = op_value(&mut g, sq, F(1.0), Operation::Add);
    let t = up.tanh(&mut g);
    let s = x.sigmoid(&mut g);
    let ts = t.mul(&mut g, &s);
    let e = x.exp(&mut g);
    let y = ts.sub(&mut g, &e);
    assert!(close(y.val(&g), f(x0)));
    y.backward(&mut g);
    assert!((x.grad(&g).0 - slope(f, x0)).abs() < 1e-6);
}

#[test]
fn gradients_add_up_over_repeated_passes() {
    let mut g: Graph<F> = Graph::new();
    let a = Scalar::new(&mut g, F(2.0));
    let b = Scalar::new(&mut g, F(-3.0));
    let c = Scalar::new(&mut g, F(10.0));
    let ab = a.mul(&mut g, &b);
    let d = ab.add(&mut g, &c);
    d.backward(&mut g);
    d.backward(&mut g);
    assert_eq!(d.grad(&g), F(2.0));
    assert_eq!(ab.grad(&g), F(3.0));
    assert_eq!(c.grad(&g), F(3.0));
    assert_eq!(a.grad(&g), F(-12.0));
    assert_eq!(b.grad(&g), F(8.0));
}

#[test]
fn a_reset_between_passes_gives_the_gradient_of_one_pass() {
    let mut g: Graph<F> = Graph::new();
    let a = Scalar::new(&mut g, F(2.0));
    let b = Scalar::new(&mut g, F(-3.0));
    let ab = a.mul(&mut g, &b);
    let order = ab.backward(&mut g);
    for node in order.iter() {
        node.set_grad(&mut g, F(0.0));
    }
    ab.backward(&mut g);
    assert_eq!(ab.grad(&g), F(1.0));
    assert_eq!(a.grad(&g), F(-3.0));
    assert_eq!(b.grad(&g), F(2.0));
}

#[test]
fn backward_changes_no_value_and_no_derivation() {
    let mut g: Graph<F> = Graph::new();
    let a = Scalar::new(&mut g, F(2.0));
    let b = Scalar::new(&mut g, F(-3.0));
    let ab = a.mul(&mut g, &b);
    let before = (a.val(&g), b.val(&g), ab.val(&g), ab.dep(&g), g.len());
    ab.backward(&mut g);
    assert_eq!((a.val(&g), b.val(&g), ab.val(&g), ab.dep(&g), g.len()), before);
}

#[test]
fn a_new_value_shows_in_what_is_derived_afterwards() {
    let mut g: Graph<F> = Graph::new();
    let w = Scalar::new(&mut g, F(2.0));
    let x = Scalar::new(&mut g, F(5.0));
    let first = w.mul(&mut g, &x);
    first.backward(&mut g);
    let step = F(w.val(&g).0 - 0.1 * w.grad(&g).0);
    w.set_val(&mut g, step);
    assert_eq!(w.val(&g), F(1.5));
    assert_eq!(w.grad(&g), F(5.0));
    assert_eq!(first.val(&g), F(10.0));
    let second = w.mul(&mut g, &x);
    assert_eq!(second.val(&g), F(7.5));
}

#[test]
fn accumulate_adds_to_one_gradient() {
    let mut g: Graph<F> = Graph::new();
    let x = Scalar::new(&mut g, F(1.0));
    let y = Scalar::new(&mut g, F(1.0));
    x.accumulate(&mut g, F(2.5));
    x.accumulate(&mut g, F(-1.0));
    assert_eq!(x.grad(&g), F(1.5));
    assert_eq!(x.val(&g), F(1.0));
    assert_eq!(y.grad(&g), F(0.0));
}

#[test]
fn one_node_hands_its_gradient_to_its_operands() {
    let mut g: Graph<F> = Graph::new();
    let a = Scalar::new(&mut g, F(2.0));
    let b = Scalar::new(&mut g, F(5.0));
    let p = a.mul(&mut g, &b);
    p.set_grad(&mut g, F(3.0));
    Data::backward(&mut g, p);
    assert_eq!(a.grad(&g), F(15.0));
    assert_eq!(b.grad(&g), F(6.0));
    assert_eq!(p.grad(&g), F(3.0));
    Data::backward(&mut g, a);
    assert_eq!(a.grad(&g), F(15.0));
}

#[test]
fn power_is_a_chain_of_products() {
    let mut g: Graph<F> = Graph::new();
    let x = Scalar::new(&mut g, F(2.0));
    let cube = x.pow(&mut g, 3);
    assert_eq!(cube.val(&g), F(8.0));
    assert_eq!(g.len(), 3);
    assert_eq!(
        cube.dep(&g),
        Some(Dependency::Double { lhs: Scalar { id: 1 }, rhs: x, op: Operation::Mul })
    );
    assert_eq!(
        Scalar { id: 1 }.dep(&g),
        Some(Dependency::Double { lhs: x, rhs: x, op: Operation::Mul })
    );
    cube.backward(&mut g);
    assert_eq!(x.grad(&g), F(12.0));
}

#[test]
fn first_power_is_the_node_itself() {
    let mut g: Graph<F> = Graph::new();
    let x = Scalar::new(&mut g, F(2.0));
    let same = x.pow(&mut g, 1);
    assert_eq!(same, x);
    assert_eq!(g.len(), 1);
}

/// The zeroth power is the constant one, not the operand: no gradient
/// flows back to the operand.
#[test]
fn zeroth_power_is_one_and_not_the_operand() {
    let mut g: Graph<F> = Graph::new();
    let x = Scalar::new(&mut g, F(2.0));
    let unit = x.pow(&mut g, 0);
    assert_ne!(unit, x);
    assert_eq!(unit.val(&g), F(1.0));
    assert_eq!(unit.dep(&g), None);
    unit.backward(&mut g);
    assert_eq!(x.grad(&g), F(0.0));
}

#[test]
fn activations_and_operators_have_printed_names() {
    assert_eq!(Activation::Exp.name(), "exp");
    assert_eq!(Activation::Tanh.name(), "tanh");
    assert_eq!(Activation::Sigmoid.name(), "sigmoid");
    assert_eq!(Activation::ReLU.name(), "relu");
    assert_eq!(Operation::Add.sign(), "+");
    assert_eq!(Operation::Sub.sign(), "-");
    assert_eq!(Operation::Mul.sign(), "*");
    assert_eq!(Operation::Div.sign(), "/");
}

#[test]
fn tanh_and_exp_rules() {
    let mut g: Graph<F> = Graph::new();
    let x = Scalar::new(&mut g, F(0.0));
    let t = x.tanh(&mut g);
    assert_eq!(t.val(&g), F(0.0));
    t.backward(&mut g);
    assert_eq!(x.grad(&g), F(1.0));
    let e = x.exp(&mut g);
    assert_eq!(e.val(&g), F(1.0));
    e.backward(&mut g);
    assert_eq!(x.grad(&g), F(2.0));
}

#[test]
fn a_diamond_gets_the_sum_over_both_paths() {
    let mut g: Graph<F> = Graph::new();
    let x = Scalar::new(&mut g, F(3.0));
    let left = op_value(&mut g, x, F(2.0), Operation::Mul);
    let right = x.mul(&mut g, &x);
    let y = left.add(&mut g, &right);
    assert_eq!(y.val(&g), F(15.0));
    let order = y.backward(&mut g);
    assert_eq!(order.iter().filter(|node| **node == x).count(), 1);
    assert_eq!(x.grad(&g), F(8.0));
}
