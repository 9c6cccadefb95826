use autodiff::{
    Activation, Dependency, Graph, Number, Operation, Scalar, ShapeMismatch, Tensor2D,
};

#[derive(Clone, Copy, Debug, PartialEq)]
struct F(f64);

impl Number for F {
    fn zero() -> Self {
        F(0.0)
    }

    fn one() -> Self {
        F(1.0)
    }

    fn add(self, rhs: Self) -> Self {
        F(self.0 + rhs.0)
    }

    fn sub(self, rhs: Self) -> Self {
        F(self.0 - rhs.0)
    }

    fn mul(self, rhs: Self) -> Self {
        F(self.0 * rhs.0)
    }

    fn div(self, rhs: Self) -> Self {
        F(self.0 / rhs.0)
    }

    fn neg(self) -> Self {
        F(-self.0)
    }

    fn exp(self) -> Self {
        F(self.0.exp())
    }

    fn tanh(self) -> Self {
        F(self.0.tanh())
    }

    fn is_positive(self) -> bool {
        self.0 > 0.0
    }
}

fn values(tensor: &Tensor2D, g: &Graph<F>) -> Vec<Vec<f64>> {
    tensor
        .data
        .iter()
        .map(|row| row.iter().map(|cell| cell.val(g).0).collect())
        .collect()
}

fn gradients(tensor: &Tensor2D, g: &Graph<F>) -> Vec<Vec<f64>> {
    tensor
        .data
        .iter()
        .map(|row| row.iter().map(|cell| cell.grad(g).0).collect())
        .collect()
}

fn grid(rows: &[&[f64]]) -> Vec<Vec<F>> {
    rows.iter().map(|row| row.iter().map(|&v| F(v)).collect()).collect()
}

#[test]
fn zeros_builds_independent_zero_leaves() {
    let mut g: Graph<F> = Graph::new();
    let t = Tensor2D::zeros(&mut g, 2, 3);
    assert_eq!((t.rows, t.cols), (2, 3));
    assert_eq!(t.data.len(), 2);
    assert_eq!(t.data[1].len(), 3);
    assert_eq!(g.len(), 6);
    assert_eq!(values(&t, &g), vec![vec![0.0; 3]; 2]);
    assert_eq!(t.data[1][2], Scalar { id: 5 });
    t.data[0][1].set_val(&mut g, F(9.0));
    assert_eq!(values(&t, &g), vec![vec![0.0, 9.0, 0.0], vec![0.0, 0.0, 0.0]]);
}

#[test]
fn zeros_of_no_rows_or_no_columns_adds_nothing() {
    let mut g: Graph<F> = Graph::new();
    let none = Tensor2D::zeros(&mut g, 0, 4);
    assert_eq!((none.rows, none.cols, none.data.len()), (0, 4, 0));
    let thin = Tensor2D::zeros(&mut g, 3, 0);
    assert_eq!((thin.rows, thin.cols, thin.data.len()), (3, 0, 3));
    assert!(thin.data.iter().all(|row| row.is_empty()));
    assert_eq!(g.len(), 0);
}

#[test]
fn full_holds_one_value_in_every_cell() {
    let mut g: Graph<F> = Graph::new();
    let t = Tensor2D::full(&mut g, 2, 2, F(1.5));
    assert_eq!(values(&t, &g), vec![vec![1.5, 1.5], vec![1.5, 1.5]]);
    assert_eq!(gradients(&t, &g), vec![vec![0.0, 0.0], vec![0.0, 0.0]]);
    assert_eq!(g.len(), 4);
}

#[test]
fn from_takes_the_shape_of_the_values() {
    let mut g: Graph<F> = Graph::new();
    let t = Tensor2D::from(&mut g, grid(&[&[1.0, 2.0, 3.0], &[4.0, 5.0, 6.0]]));
    assert_eq!((t.rows, t.cols), (2, 3));
    assert_eq!(values(&t, &g), vec![vec![1.0, 2.0, 3.0], vec![4.0, 5.0, 6.0]]);
    assert_eq!(t.data[0][0].dep(&g), None);
    assert_eq!(g.len(), 6);
}

#[test]
fn from_leaves_out_what_is_beyond_the_first_row() {
    let mut g: Graph<F> = Graph::new();
    let t = Tensor2D::from(&mut g, grid(&[&[1.0, 2.0], &[4.0, 5.0, 6.0]]));
    assert_eq!((t.rows, t.cols), (2, 2));
    assert_eq!(values(&t, &g), vec![vec![1.0, 2.0], vec![4.0, 5.0]]);
}

#[test]
fn scalar_row_and_col_shapes() {
    let mut g: Graph<F> = Graph::new();
    let one = Tensor2D::scalar(&mut g, F(7.0));
    assert_eq!((one.rows, one.cols), (1, 1));
    assert_eq!(values(&one, &g), vec![vec![7.0]]);
    let row = Tensor2D::row(&mut g, vec![F(1.0), F(2.0), F(3.0)]);
    assert_eq!((row.rows, row.cols), (1, 3));
    assert_eq!(values(&row, &g), vec![vec![1.0, 2.0, 3.0]]);
    let col = Tensor2D::col(&mut g, vec![F(1.0), F(2.0), F(3.0)]);
    assert_eq!((col.rows, col.cols), (3, 1));
    assert_eq!(values(&col, &g), vec![vec![1.0], vec![2.0], vec![3.0]]);
    assert_eq!(g.len(), 7);
}

#[test]
fn transpose_names_the_same_nodes() {
    let mut g: Graph<F> = Graph::new();
    let t = Tensor2D::from(&mut g, grid(&[&[1.0, 2.0, 3.0], &[4.0, 5.0, 6.0]]));
    let nodes = g.len();
    let flipped = t.transpose();
    assert_eq!(g.len(), nodes);
    assert_eq!((flipped.rows, flipped.cols), (3, 2));
    for r in 0..2 {
        for c in 0..3 {
            assert_eq!(flipped.data[c][r], t.data[r][c]);
        }
    }
    flipped.data[2][0].set_val(&mut g, F(30.0));
    assert_eq!(t.data[0][2].val(&g), F(30.0));
    t.data[1][0].set_val(&mut g, F(40.0));
    assert_eq!(flipped.data[0][1].val(&g), F(40.0));
}

#[test]
fn gradient_through_a_transposed_view_reaches_the_same_nodes() {
    let mut g: Graph<F> = Graph::new();
    let w = Tensor2D::from(&mut g, grid(&[&[1.0, 2.0], &[3.0, 4.0]]));
    let x = Tensor2D::row(&mut g, vec![F(5.0), F(7.0)]);
    let out = x.mul(&mut g, &w.transpose()).unwrap();
    assert_eq!(values(&out, &g), vec![vec![19.0, 43.0]]);
    out.data[0][1].backward(&mut g);
    assert_eq!(gradients(&w, &g), vec![vec![0.0, 0.0], vec![5.0, 7.0]]);
    assert_eq!(gradients(&w.transpose(), &g), vec![vec![0.0, 5.0], vec![0.0, 7.0]]);
}

#[test]
fn matrix_product_has_the_outer_shape() {
    let mut g: Graph<F> = Graph::new();
    let a = Tensor2D::from(&mut g, grid(&[&[1.0, 2.0, 3.0], &[4.0, 5.0, 6.0]]));
    let b = Tensor2D::from(&mut g, grid(&[&[7.0, 8.0], &[9.0, 10.0], &[11.0, 12.0]]));
    let c = a.mul(&mut g, &b).unwrap();
    assert_eq!((c.rows, c.cols), (2, 2));
    assert_eq!(values(&c, &g), vec![vec![58.0, 64.0], vec![139.0, 154.0]]);
}

#[test]
fn matrix_product_of_unfit_shapes_fails() {
    let mut g: Graph<F> = Graph::new();
    let a = Tensor2D::zeros(&mut g, 2, 3);
    let b = Tensor2D::zeros(&mut g, 2, 4);
    let nodes = g.len();
    assert_eq!(
        a.mul(&mut g, &b).unwrap_err(),
        ShapeMismatch { lhs_rows: 2, lhs_cols: 3, rhs_rows: 2, rhs_cols: 4 }
    );
    assert_eq!(g.len(), nodes);
    assert!(b.transpose().mul(&mut g, &a).is_ok());
}

#[test]
fn matrix_product_adds_no_spare_node() {
    let mut g: Graph<F> = Graph::new();
    let a = Tensor2D::from(&mut g, grid(&[&[1.0, 2.0, 3.0], &[4.0, 5.0, 6.0]]));
    let b = Tensor2D::from(&mut g, grid(&[&[7.0, 8.0], &[9.0, 10.0], &[11.0, 12.0]]));
    let start = g.len();
    let c = a.mul(&mut g, &b).unwrap();
    assert_eq!(g.len(), start + 2 * 2 * 5);
    assert_eq!(c.data[0][0], Scalar { id: start + 4 });
    assert_eq!(c.data[1][1], Scalar { id: start + 19 });
    let first = Scalar { id: start };
    assert_eq!(
        first.dep(&g),
        Some(Dependency::Double { lhs: a.data[0][0], rhs: b.data[0][0], op: Operation::Mul })
    );
    assert_eq!(
        Scalar { id: start + 2 }.dep(&g),
        Some(Dependency::Double {
            lhs: first,
            rhs: Scalar { id: start + 1 },
            op: Operation::Add
        })
    );
    assert_eq!(
        c.data[0][0].dep(&g),
        Some(Dependency::Double {
            lhs: Scalar { id: start + 2 },
            rhs: Scalar { id: start + 3 },
            op: Operation::Add
        })
    );
    let order = c.data[0][0].sequence(&g);
    assert_eq!(order.len(), 11);
    assert!(order.iter().all(|node| node.val(&g) != F(0.0)));
}

#[test]
fn matrix_product_of_one_term_is_the_product_itself() {
    let mut g: Graph<F> = Graph::new();
    let a = Tensor2D::col(&mut g, vec![F(2.0), F(3.0)]);
    let b = Tensor2D::row(&mut g, vec![F(5.0), F(7.0)]);
    let start = g.len();
    let c = a.mul(&mut g, &b).unwrap();
    assert_eq!(g.len(), start + 4);
    assert_eq!(values(&c, &g), vec![vec![10.0, 14.0], vec![15.0, 21.0]]);
    assert_eq!(
        c.data[1][0].dep(&g),
        Some(Dependency::Double { lhs: a.data[1][0], rhs: b.data[0][0], op: Operation::Mul })
    );
}

#[test]
fn matrix_product_over_nothing_is_zero() {
    let mut g: Graph<F> = Graph::new();
    let a = Tensor2D::zeros(&mut g, 2, 0);
    let b = Tensor2D::zeros(&mut g, 0, 3);
    let c = a.mul(&mut g, &b).unwrap();
    assert_eq!((c.rows, c.cols), (2, 3));
    assert_eq!(values(&c, &g), vec![vec![0.0; 3]; 2]);
    assert_eq!(c.data[0][0].dep(&g), None);
}

#[test]
fn dot_folds_one_row_and_one_column() {
    let mut g: Graph<F> = Graph::new();
    let a = Tensor2D::from(&mut g, grid(&[&[1.0, 2.0], &[3.0, 4.0]]));
    let b = Tensor2D::from(&mut g, grid(&[&[5.0, 6.0], &[7.0, 8.0]]));
    let cell = a.dot(&mut g, &b, 1, 0);
    assert_eq!(cell.val(&g), F(43.0));
    cell.backward(&mut g);
    assert_eq!(gradients(&a, &g), vec![vec![0.0, 0.0], vec![5.0, 7.0]]);
    assert_eq!(gradients(&b, &g), vec![vec![3.0, 0.0], vec![4.0, 0.0]]);
}

#[test]
fn sum_and_difference_go_cell_by_cell() {
    let mut g: Graph<F> = Graph::new();
    let a = Tensor2D::from(&mut g, grid(&[&[1.0, 2.0], &[3.0, 4.0]]));
    let b = Tensor2D::from(&mut g, grid(&[&[10.0, 20.0], &[30.0, 40.0]]));
    let sum = a.add(&mut g, &b).unwrap();
    let difference = a.sub(&mut g, &b).unwrap();
    assert_eq!(values(&sum, &g), vec![vec![11.0, 22.0], vec![33.0, 44.0]]);
    assert_eq!(values(&difference, &g), vec![vec![-9.0, -18.0], vec![-27.0, -36.0]]);
    assert_eq!(
        sum.data[1][0].dep(&g),
        Some(Dependency::Double { lhs: a.data[1][0], rhs: b.data[1][0], op: Operation::Add })
    );
    assert_eq!(values(&a, &g), vec![vec![1.0, 2.0], vec![3.0, 4.0]]);
}

#[test]
fn combine_takes_any_operator() {
    let mut g: Graph<F> = Graph::new();
    let a = Tensor2D::row(&mut g, vec![F(8.0), F(9.0)]);
    let b = Tensor2D::row(&mut g, vec![F(2.0), F(3.0)]);
    let quotient = a.combine(&mut g, &b, Operation::Div).unwrap();
    assert_eq!(values(&quotient, &g), vec![vec![4.0, 3.0]]);
    let product = a.combine(&mut g, &b, Operation::Mul).unwrap();
    assert_eq!(values(&product, &g), vec![vec![16.0, 27.0]]);
}

#[test]
fn sum_of_unequal_shapes_fails() {
    let mut g: Graph<F> = Graph::new();
    let a = Tensor2D::zeros(&mut g, 2, 3);
    let b = Tensor2D::zeros(&mut g, 3, 2);
    let c = Tensor2D::zeros(&mut g, 2, 2);
    let nodes = g.len();
    let shapes = ShapeMismatch { lhs_rows: 2, lhs_cols: 3, rhs_rows: 3, rhs_cols: 2 };
    assert_eq!(a.add(&mut g, &b).unwrap_err(), shapes);
    assert_eq!(a.sub(&mut g, &b).unwrap_err(), shapes);
    assert!(a.add(&mut g, &c).is_err());
    assert!(c.sub(&mut g, &b).is_err());
    assert_eq!(g.len(), nodes);
}

#[test]
fn a_value_combines_with_every_cell() {
    let mut g: Graph<F> = Graph::new();
    let a = Tensor2D::from(&mut g, grid(&[&[1.0, 2.0], &[3.0, 4.0]]));
    let start = g.len();
    let scaled = a.op_value(&mut g, F(10.0), Operation::Mul);
    assert_eq!(values(&scaled, &g), vec![vec![10.0, 20.0], vec![30.0, 40.0]]);
    assert_eq!(g.len(), start + 8);
    let shifted = Tensor2D::value_op(&mut g, F(10.0), &a, Operation::Sub);
    assert_eq!(values(&shifted, &g), vec![vec![9.0, 8.0], vec![7.0, 6.0]]);
    let added = a.op_value(&mut g, F(0.5), Operation::Add);
    assert_eq!(values(&added, &g), vec![vec![1.5, 2.5], vec![3.5, 4.5]]);
    scaled.data[0][1].backward(&mut g);
    assert_eq!(gradients(&a, &g), vec![vec![0.0, 10.0], vec![0.0, 0.0]]);
}

#[test]
fn activations_go_cell_by_cell() {
    let mut g: Graph<F> = Graph::new();
    let a = Tensor2D::from(&mut g, grid(&[&[-1.0, 0.0], &[2.0, 0.5]]));
    let relu = a.relu(&mut g);
    assert_eq!(values(&relu, &g), vec![vec![0.0, 0.0], vec![2.0, 0.5]]);
    let exp = a.exp(&mut g);
    let tanh = a.tanh(&mut g);
    let sigmoid = a.sigmoid(&mut g);
    for r in 0..2 {
        for c in 0..2 {
            let x = a.data[r][c].val(&g).0;
            assert!((exp.data[r][c].val(&g).0 - x.exp()).abs() < 1e-12);
            assert!((tanh.data[r][c].val(&g).0 - x.tanh()).abs() < 1e-12);
            assert!((sigmoid.data[r][c].val(&g).0 - 1.0 / (1.0 + (-x).exp())).abs() < 1e-12);
        }
    }
    assert_eq!(
        tanh.data[1][0].dep(&g),
        Some(Dependency::Single { prev: a.data[1][0], activation: Activation::Tanh })
    );
    let again = Tensor2D::nonlinear(&a, &mut g, Activation::ReLU);
    assert_eq!(values(&again, &g), values(&relu, &g));
    assert_ne!(again.data[0][0], relu.data[0][0]);
}

#[test]
fn power_goes_cell_by_cell() {
    let mut g: Graph<F> = Graph::new();
    let a = Tensor2D::from(&mut g, grid(&[&[1.0, 2.0], &[3.0, 4.0]]));
    let start = g.len();
    let squares = a.pow(&mut g, 2);
    assert_eq!(values(&squares, &g), vec![vec![1.0, 4.0], vec![9.0, 16.0]]);
    assert_eq!(g.len(), start + 4);
    let cubes = a.pow(&mut g, 3);
    assert_eq!(values(&cubes, &g), vec![vec![1.0, 8.0], vec![27.0, 64.0]]);
    assert_eq!(g.len(), start + 12);
    cubes.data[1][0].backward(&mut g);
    assert_eq!(gradients(&a, &g), vec![vec![0.0, 0.0], vec![27.0, 0.0]]);
}

#[test]
fn first_power_names_the_cells_themselves() {
    let mut g: Graph<F> = Graph::new();
    let a = Tensor2D::from(&mut g, grid(&[&[1.0, 2.0]]));
    let start = g.len();
    let same = a.pow(&mut g, 1);
    assert_eq!(g.len(), start);
    assert_eq!(same.data, a.data);
}

/// The zeroth power is the constant one in every cell, not the cell.
#[test]
fn zeroth_power_of_a_tensor_is_one_in_every_cell() {
    let mut g: Graph<F> = Graph::new();
    let a = Tensor2D::from(&mut g, grid(&[&[5.0, 6.0]]));
    let units = a.pow(&mut g, 0);
    assert_eq!(values(&units, &g), vec![vec![1.0, 1.0]]);
    assert_ne!(units.data[0][0], a.data[0][0]);
    assert_eq!(units.data[0][1].dep(&g), None);
}

#[test]
fn tensor_backward_treats_every_cell_as_a_root() {
    let mut g: Graph<F> = Graph::new();
    let a = Tensor2D::from(&mut g, grid(&[&[1.0, 2.0], &[3.0, 4.0]]));
    let squares = a.pow(&mut g, 2);
    let met = squares.backward(&mut g);
    assert_eq!(gradients(&squares, &g), vec![vec![1.0, 1.0], vec![1.0, 1.0]]);
    assert_eq!(gradients(&a, &g), vec![vec![2.0, 4.0], vec![6.0, 8.0]]);
    assert_eq!(
        met,
        vec![
            squares.data[0][0],
            a.data[0][0],
            squares.data[0][1],
            a.data[0][1],
            squares.data[1][0],
            a.data[1][0],
            squares.data[1][1],
            a.data[1][1],
        ]
    );
    assert_eq!(squares.roots(), vec![
        squares.data[0][0],
        squares.data[0][1],
        squares.data[1][0],
        squares.data[1][1],
    ]);
}

#[test]
fn tensor_backward_on_shared_nodes_adds_every_pass() {
    let mut g: Graph<F> = Graph::new();
    let x = Tensor2D::row(&mut g, vec![F(2.0), F(3.0)]);
    let w = Tensor2D::col(&mut g, vec![F(5.0), F(7.0)]);
    let outer = w.mul(&mut g, &x).unwrap();
    assert_eq!(values(&outer, &g), vec![vec![10.0, 15.0], vec![14.0, 21.0]]);
    outer.backward(&mut g);
    assert_eq!(gradients(&x, &g), vec![vec![12.0, 12.0]]);
    assert_eq!(gradients(&w, &g), vec![vec![5.0], vec![5.0]]);
}

#[test]
fn a_loss_over_a_tensor_graph_reaches_every_parameter() {
    let mut g: Graph<F> = Graph::new();
    let x = Tensor2D::row(&mut g, vec![F(1.0), F(2.0)]);
    let w = Tensor2D::from(&mut g, grid(&[&[0.5, -1.0]]));
    let b = Tensor2D::scalar(&mut g, F(0.25));
    let wx = x.mul(&mut g, &w.transpose()).unwrap();
    let out = wx.add(&mut g, &b).unwrap();
    assert_eq!(values(&out, &g), vec![vec![-1.25]]);
    let target = Tensor2D::scalar(&mut g, F(1.0));
    let error = out.sub(&mut g, &target).unwrap().pow(&mut g, 2);
    let loss = error.data[0][0];
    assert_eq!(loss.val(&g), F(5.0625));
    loss.backward(&mut g);
    assert_eq!(gradients(&w, &g), vec![vec![-4.5, -9.0]]);
    assert_eq!(gradients(&b, &g), vec![vec![-4.5]]);
    assert_eq!(gradients(&x, &g), vec![vec![-2.25, 4.5]]);
}

#[test]
fn uniform_places_the_samples_row_by_row() {
    let mut g: Graph<F> = Graph::new();
    let samples = vec![F(0.1), F(-0.2), F(0.3), F(-0.4), F(0.5), F(-0.6)];
    let t = Tensor2D::uniform(&mut g, 2, 3, &samples).unwrap();
    assert_eq!((t.rows, t.cols), (2, 3));
    assert_eq!(values(&t, &g), vec![vec![0.1, -0.2, 0.3], vec![-0.4, 0.5, -0.6]]);
    assert_eq!(gradients(&t, &g), vec![vec![0.0; 3]; 2]);
    assert_eq!(t.data[1][0].dep(&g), None);
    assert_eq!(g.len(), 6);
}

#[test]
fn xavier_divides_every_sample_by_the_root() {
    let mut g: Graph<F> = Graph::new();
    let samples = vec![F(1.0), F(-2.0), F(3.0), F(-4.0), F(0.5), F(0.0), F(8.0), F(-1.0)];
    let t = Tensor2D::xavier(&mut g, 4, 2, &samples, F(2.0)).unwrap();
    assert_eq!((t.rows, t.cols), (4, 2));
    assert_eq!(
        values(&t, &g),
        vec![vec![0.5, -1.0], vec![1.5, -2.0], vec![0.25, 0.0], vec![4.0, -0.5]]
    );
    assert_eq!(g.len(), 8);
}

#[test]
fn xavier_of_one_row_keeps_the_samples() {
    let mut g: Graph<F> = Graph::new();
    let samples = vec![F(0.25), F(-0.75)];
    let t = Tensor2D::xavier(&mut g, 1, 2, &samples, F(1.0)).unwrap();
    assert_eq!(values(&t, &g), vec![vec![0.25, -0.75]]);
}

#[test]
fn copy_names_the_same_nodes() {
    let mut g: Graph<F> = Graph::new();
    let t = Tensor2D::from(&mut g, grid(&[&[1.0, 2.0], &[3.0, 4.0]]));
    let nodes = g.len();
    let twin = t.copy();
    assert_eq!(g.len(), nodes);
    assert_eq!((twin.rows, twin.cols), (2, 2));
    assert_eq!(twin.data, t.data);
    twin.data[1][1].set_val(&mut g, F(9.0));
    assert_eq!(t.data[1][1].val(&g), F(9.0));
}

#[test]
fn transposing_twice_gives_the_same_grid() {
    let mut g: Graph<F> = Graph::new();
    let t = Tensor2D::from(&mut g, grid(&[&[1.0, 2.0, 3.0], &[4.0, 5.0, 6.0]]));
    assert_eq!(t.transpose().transpose().data, t.data);
}

#[test]
fn a_wrong_number_of_samples_builds_nothing() {
    let mut g: Graph<F> = Graph::new();
    let samples = vec![F(0.1), F(-0.2), F(0.3)];
    assert!(Tensor2D::uniform(&mut g, 2, 2, &samples).is_none());
    assert!(Tensor2D::xavier(&mut g, 1, 2, &samples, F(1.0)).is_none());
    assert!(Tensor2D::uniform(&mut g, usize::MAX, 2, &samples).is_none());
    assert_eq!(g.len(), 0);
    assert!(Tensor2D::uniform(&mut g, 3, 1, &samples).is_some());
    assert!(Tensor2D::xavier(&mut g, 0, 7, &Vec::new(), F(0.0)).is_some());
    assert_eq!(g.len(), 3);
}
