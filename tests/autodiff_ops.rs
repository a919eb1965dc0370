use autodiff::grads::Grads;
use autodiff::ops::{BackwardRecordedOps, BinaryOpsNodeState, ForwardRecordedOps, RecordedOpsParent, UnaryOpsNodeState};
use autodiff::optim::{load_state_gradients, register_state_gradients, StateNamed};
use autodiff::tape::{GraphError, Tape};
use autodiff::value::GradValue;

/// A dense row-major matrix of `f32`, the backend of these tests.
#[derive(Clone, Debug, PartialEq)]
struct Matrix {
    rows: usize,
    cols: usize,
    data: Vec<f32>,
}

impl Matrix {
    fn from_rows(rows: &[&[f32]]) -> Matrix {
        let cols = rows[0].len();
        let mut data = Vec::new();
        for r in rows {
            data.extend_from_slice(r);
        }
        Matrix { rows: rows.len(), cols, data }
    }

    fn at(&self, r: usize, c: usize) -> f32 {
        self.data[r * self.cols + c]
    }

    fn map(&self, f: impl Fn(f32) -> f32) -> Matrix {
        Matrix { rows: self.rows, cols: self.cols, data: self.data.iter().map(|x| f(*x)).collect() }
    }

    fn zip(&self, o: &Matrix, f: impl Fn(f32, f32) -> f32) -> Matrix {
        let data = self.data.iter().zip(o.data.iter()).map(|(a, b)| f(*a, *b)).collect();
        Matrix { rows: self.rows, cols: self.cols, data }
    }

    fn transpose(&self) -> Matrix {
        let mut data = Vec::new();
        for c in 0..self.cols {
            for r in 0..self.rows {
                data.push(self.at(r, c));
            }
        }
        Matrix { rows: self.cols, cols: self.rows, data }
    }

    fn matmul(&self, o: &Matrix) -> Matrix {
        let mut data = Vec::new();
        for r in 0..self.rows {
            for c in 0..o.cols {
                let mut s = 0.0f32;
                for k in 0..self.cols {
                    s += self.at(r, k) * o.at(k, c);
                }
                data.push(s);
            }
        }
        Matrix { rows: self.rows, cols: o.cols, data }
    }

    fn assert_approx_eq(&self, expected: &[&[f32]], tolerance: f32) {
        let e = Matrix::from_rows(expected);
        assert_eq!((self.rows, self.cols), (e.rows, e.cols));
        for (a, b) in self.data.iter().zip(e.data.iter()) {
            assert!((a - b).abs() < tolerance, "{:?} != {:?}", self.data, e.data);
        }
    }
}

impl GradValue for Matrix {
    fn spec_add(self, other: Matrix) -> Matrix {
        self.add(&other)
    }

    fn spec_ones(self) -> Matrix {
        self.ones_like()
    }

    fn add(&self, other: &Matrix) -> Matrix {
        self.zip(other, |a, b| a + b)
    }

    fn ones_like(&self) -> Matrix {
        self.map(|_| 1.0)
    }

    fn duplicate(&self) -> Matrix {
        self.clone()
    }
}

/// The error function, after Abramowitz and Stegun 7.1.26.
fn erf(x: f32) -> f32 {
    let t = 1.0 / (1.0 + 0.3275911 * x.abs());
    let poly = t * (0.254829592 + t * (-0.284496736 + t * (1.421413741 + t * (-1.453152027 + t * 1.061405429))));
    let y = 1.0 - poly * (-x * x).exp();
    if x < 0.0 { -y } else { y }
}

#[derive(Clone, Debug)]
enum Op {
    Log(UnaryOpsNodeState<Matrix, Matrix>),
    Erf(UnaryOpsNodeState<Matrix, Matrix>),
    MatMul(BinaryOpsNodeState<Matrix, Matrix, Matrix>),
    Mul(BinaryOpsNodeState<Matrix, Matrix, Matrix>),
    Relu(UnaryOpsNodeState<Matrix, Matrix>),
    Add,
}

impl BackwardRecordedOps<Matrix> for Op {
    fn spec_step(&self, grad: Matrix) -> Vec<Matrix> {
        self.backward_step(&grad)
    }

    fn backward_step(&self, grad: &Matrix) -> Vec<Matrix> {
        match self {
            Op::Log(s) => vec![grad.zip(&s.input, |g, x| g / x)],
            Op::Erf(s) => {
                let k = 2.0 / std::f32::consts::PI.sqrt();
                vec![grad.zip(&s.input, |g, x| g * k * (-x * x).exp())]
            }
            Op::MatMul(s) => vec![grad.matmul(&s.right.transpose()), s.left.transpose().matmul(grad)],
            Op::Mul(s) => vec![grad.zip(&s.right, |g, r| g * r), grad.zip(&s.left, |g, l| g * l)],
            Op::Relu(s) => vec![grad.zip(&s.input, |g, x| if x > 0.0 { g } else { 0.0 })],
            Op::Add => vec![grad.clone(), grad.clone()],
        }
    }
}

impl ForwardRecordedOps<Matrix, Op> for Op {
    fn to_backward(&self) -> Op {
        self.clone()
    }
}

type MatrixTape = Tape<Matrix, Op, Op>;

fn log(t: &mut MatrixTape, x: usize) -> usize {
    let input = t.value(x).clone();
    let out = input.map(|v| v.ln());
    let op = Op::Log(UnaryOpsNodeState::new(input, out.clone()));
    t.record(out, op, vec![x]).unwrap()
}

fn erf_node(t: &mut MatrixTape, x: usize) -> usize {
    let input = t.value(x).clone();
    let out = input.map(erf);
    let op = Op::Erf(UnaryOpsNodeState::new(input, out.clone()));
    t.record(out, op, vec![x]).unwrap()
}

fn matmul(t: &mut MatrixTape, a: usize, b: usize) -> usize {
    let left = t.value(a).clone();
    let right = t.value(b).clone();
    let out = left.matmul(&right);
    let op = Op::MatMul(BinaryOpsNodeState::new(left, right, out.clone()));
    t.record(out, op, vec![a, b]).unwrap()
}

fn mul(t: &mut MatrixTape, a: usize, b: usize) -> usize {
    let left = t.value(a).clone();
    let right = t.value(b).clone();
    let out = left.zip(&right, |x, y| x * y);
    let op = Op::Mul(BinaryOpsNodeState::new(left, right, out.clone()));
    t.record(out, op, vec![a, b]).unwrap()
}

fn grad(grads: &Grads<Matrix>, id: usize) -> Matrix {
    grads.get(id).unwrap().clone()
}

#[test]
fn should_diff_erf() {
    let mut t: MatrixTape = Tape::new();
    let tensor_1 = t.track(Matrix::from_rows(&[&[0.0, 1.0], &[3.0, 4.0]]));
    let tensor_2 = t.track(Matrix::from_rows(&[&[6.0, 7.0], &[9.0, 10.0]]));

    let e = erf_node(&mut t, tensor_2);
    let tensor_3 = matmul(&mut t, tensor_1, e);
    let tensor_4 = matmul(&mut t, tensor_3, tensor_2);
    let grads = t.backward(tensor_4).unwrap();

    grad(&grads, tensor_1).assert_approx_eq(&[&[32.0, 32.0], &[32.0, 32.0]], 1e-3);
    grad(&grads, tensor_2).assert_approx_eq(&[&[8.0, 8.0], &[8.0, 8.0]], 1e-3);
}

#[test]
fn should_diff_log() {
    let mut t: MatrixTape = Tape::new();
    let tensor_1 = t.track(Matrix::from_rows(&[&[0.0, 1.0], &[3.0, 4.0]]));
    let tensor_2 = t.track(Matrix::from_rows(&[&[6.0, 7.0], &[9.0, 10.0]]));

    let l = log(&mut t, tensor_2);
    let tensor_3 = matmul(&mut t, tensor_1, l);
    let tensor_4 = matmul(&mut t, tensor_3, tensor_2);
    let grads = t.backward(tensor_4).unwrap();

    grad(&grads, tensor_1).assert_approx_eq(&[&[60.2652, 72.3130], &[60.2652, 72.3130]], 1e-3);
    grad(&grads, tensor_2).assert_approx_eq(&[&[22.8614, 24.5043], &[24.5729, 26.8507]], 1e-3);
}

/// A scalar backend: one `f64`.
#[derive(Clone, Debug, PartialEq)]
struct Scalar(f64);

impl GradValue for Scalar {
    fn spec_add(self, other: Scalar) -> Scalar {
        self.add(&other)
    }

    fn spec_ones(self) -> Scalar {
        self.ones_like()
    }

    fn duplicate(&self) -> Scalar {
        self.clone()
    }

    fn add(&self, other: &Scalar) -> Scalar {
        Scalar(self.0 + other.0)
    }

    fn ones_like(&self) -> Scalar {
        Scalar(1.0)
    }
}

/// Scalar operations that count how often their local step runs.
#[derive(Clone, Debug)]
enum Counted {
    /// `a * b`, with the values of `a` and `b`.
    Mul(f64, f64, Rc<Cell<usize>>),
    /// `a + b`.
    Add(Rc<Cell<usize>>),
    /// An operation that hands back no gradient at all.
    Broken,
}

impl BackwardRecordedOps<Scalar> for Counted {
    fn spec_step(&self, grad: Scalar) -> Vec<Scalar> {
        self.backward_step(&grad)
    }

    fn backward_step(&self, grad: &Scalar) -> Vec<Scalar> {
        match self {
            Counted::Mul(a, b, n) => {
                n.set(n.get() + 1);
                vec![Scalar(grad.0 * b), Scalar(grad.0 * a)]
            }
            Counted::Add(n) => {
                n.set(n.get() + 1);
                vec![grad.clone(), grad.clone()]
            }
            Counted::Broken => Vec::new(),
        }
    }
}

use std::cell::Cell;
use std::rc::Rc;

/// A recorded scalar operation that counts how often it is converted.
#[derive(Debug)]
struct CountedForward {
    op: Counted,
    conversions: Rc<Cell<usize>>,
}

impl ForwardRecordedOps<Scalar, Counted> for CountedForward {
    fn to_backward(&self) -> Counted {
        self.conversions.set(self.conversions.get() + 1);
        self.op.clone()
    }
}

type ScalarTape = Tape<Scalar, CountedForward, Counted>;

fn fwd(op: Counted) -> CountedForward {
    CountedForward { op, conversions: Rc::new(Cell::new(0)) }
}

fn smul(t: &mut ScalarTape, a: usize, b: usize, n: &Rc<Cell<usize>>) -> usize {
    let (x, y) = (t.value(a).0, t.value(b).0);
    t.record(Scalar(x * y), fwd(Counted::Mul(x, y, n.clone())), vec![a, b]).unwrap()
}

fn sadd(t: &mut ScalarTape, a: usize, b: usize, n: &Rc<Cell<usize>>) -> usize {
    let (x, y) = (t.value(a).0, t.value(b).0);
    t.record(Scalar(x + y), fwd(Counted::Add(n.clone())), vec![a, b]).unwrap()
}

#[test]
fn fan_out_sums_the_contributions_of_each_path() {
    // y = (x * 3) + (x * x): dy/dx = 3 + 2x = 13 at x = 5.
    let n = Rc::new(Cell::new(0));
    let mut t: ScalarTape = Tape::new();
    let x = t.track(Scalar(5.0));
    let three = t.track(Scalar(3.0));
    let a = smul(&mut t, x, three, &n);
    let b = smul(&mut t, x, x, &n);
    let y = sadd(&mut t, a, b, &n);
    let grads = t.backward(y).unwrap();
    assert_eq!(grads.get(x), Some(&Scalar(13.0)));
    assert_eq!(grads.get(three), Some(&Scalar(5.0)));
    assert_eq!(grads.get(y), Some(&Scalar(1.0)));
}

#[test]
fn each_local_step_runs_exactly_once() {
    // A diamond: x feeds a and b, both feed c, and c feeds d twice.
    let counters: Vec<Rc<Cell<usize>>> = (0..4).map(|_| Rc::new(Cell::new(0))).collect();
    let mut t: ScalarTape = Tape::new();
    let x = t.track(Scalar(2.0));
    let a = sadd(&mut t, x, x, &counters[0]);
    let b = smul(&mut t, x, x, &counters[1]);
    let c = smul(&mut t, a, b, &counters[2]);
    let d = sadd(&mut t, c, c, &counters[3]);
    let grads = t.backward(d).unwrap();
    for n in &counters {
        assert_eq!(n.get(), 1);
    }
    // d = 2 * (2x) * x^2 = 4x^3, so dd/dx = 12x^2 = 48.
    assert_eq!(grads.get(x), Some(&Scalar(48.0)));
}

#[test]
fn an_unconsumed_tensor_has_no_gradient() {
    let n = Rc::new(Cell::new(0));
    let mut t: ScalarTape = Tape::new();
    let x = t.track(Scalar(2.0));
    let unused = t.track(Scalar(7.0));
    let y = smul(&mut t, x, x, &n);
    let later = smul(&mut t, unused, y, &n);
    let grads = t.backward(y).unwrap();
    assert_eq!(grads.get(x), Some(&Scalar(4.0)));
    assert_eq!(grads.get(unused), None);
    assert_eq!(grads.get(later), None);
    assert_eq!(grads.get(1000), None);
}

#[test]
fn a_second_backward_pass_reuses_the_conversion() {
    let n = Rc::new(Cell::new(0));
    let mut t: ScalarTape = Tape::new();
    let conversions = Rc::new(Cell::new(0));
    let x = t.track(Scalar(3.0));
    let op = CountedForward { op: Counted::Mul(3.0, 3.0, n.clone()), conversions: conversions.clone() };
    let y = t.record(Scalar(9.0), op, vec![x, x]).unwrap();
    t.convert(y);
    t.convert(y);
    assert_eq!(conversions.get(), 1);
    let first = t.backward(y).unwrap();
    let second = t.backward(y).unwrap();
    assert_eq!(conversions.get(), 1);
    assert_eq!(first.get(x), Some(&Scalar(6.0)));
    assert_eq!(second.get(x), Some(&Scalar(6.0)));
    assert_eq!(n.get(), 2);
}

#[test]
fn unknown_nodes_are_refused() {
    let n = Rc::new(Cell::new(0));
    let mut t: ScalarTape = Tape::new();
    let x = t.track(Scalar(3.0));
    assert_eq!(t.record(Scalar(0.0), fwd(Counted::Add(n)), vec![x, 9]), Err(GraphError::UnknownNode { id: 9 }));
    assert_eq!(t.len(), 1);
    assert_eq!(t.backward(4).err(), Some(GraphError::UnknownNode { id: 4 }));
}

#[test]
fn a_step_with_the_wrong_number_of_gradients_is_reported() {
    let mut t: ScalarTape = Tape::new();
    let x = t.track(Scalar(3.0));
    let y = t.record(Scalar(1.0), fwd(Counted::Broken), vec![x]).unwrap();
    assert_eq!(t.backward(y).err(), Some(GraphError::ArityMismatch { id: y }));
}

#[test]
fn the_store_registers_and_accumulates() {
    let mut g: Grads<Scalar> = Grads::new();
    assert_eq!(g.get(3), None);
    g.accumulate(3, Scalar(1.5));
    assert_eq!(g.get(3), Some(&Scalar(1.5)));
    g.accumulate(3, Scalar(2.0));
    assert_eq!(g.get(3), Some(&Scalar(3.5)));
    g.register(3, Scalar(-1.0));
    assert_eq!(g.get(3), Some(&Scalar(-1.0)));
    g.register(0, Scalar(4.0));
    assert_eq!(g.get(0), Some(&Scalar(4.0)));
    assert_eq!(g.get(1), None);
}

#[test]
fn log_gradient_matches_the_derivative() {
    // d/dx log(x) = 1/x.
    let mut t: MatrixTape = Tape::new();
    let x = t.track(Matrix::from_rows(&[&[2.0, 4.0]]));
    let y = log(&mut t, x);
    let grads = t.backward(y).unwrap();
    grad(&grads, x).assert_approx_eq(&[&[0.5, 0.25]], 1e-3);
}

#[test]
fn erf_gradient_matches_the_derivative() {
    // d/dx erf(x) = 2/sqrt(pi) * exp(-x^2): 1.128379 at 0, 0.415107 at 1.
    let mut t: MatrixTape = Tape::new();
    let x = t.track(Matrix::from_rows(&[&[0.0, 1.0]]));
    let y = erf_node(&mut t, x);
    let grads = t.backward(y).unwrap();
    grad(&grads, x).assert_approx_eq(&[&[1.128379, 0.415107]], 1e-3);
}

#[test]
fn mul_gradient_matches_the_derivative() {
    let mut t: MatrixTape = Tape::new();
    let a = t.track(Matrix::from_rows(&[&[2.0, 3.0]]));
    let b = t.track(Matrix::from_rows(&[&[5.0, 7.0]]));
    let y = mul(&mut t, a, b);
    let grads = t.backward(y).unwrap();
    grad(&grads, a).assert_approx_eq(&[&[5.0, 7.0]], 1e-3);
    grad(&grads, b).assert_approx_eq(&[&[2.0, 3.0]], 1e-3);
}

#[test]
fn converted_nodes_expose_their_order_and_parents() {
    let mut t = MatrixTape::new();
    let a = t.track(Matrix::from_rows(&[&[1.0]]));
    let b = t.track(Matrix::from_rows(&[&[2.0]]));
    let c = mul(&mut t, a, b);
    let d = log(&mut t, c);
    assert!(t.backward_node(d).is_none());
    t.convert(d);
    let node = t.backward_node(c).unwrap();
    assert_eq!(node.order(), c);
    assert_eq!(node.id(), c);
    assert_eq!(node.backward_parents(), vec![a, b]);
    assert!(node.op.is_some());
    let leaf = t.backward_node(a).unwrap();
    assert!(leaf.op.is_none());
    assert!(leaf.backward_parents().is_empty());
    assert_eq!(t.backward_node(d).unwrap().backward_parents(), vec![c]);
}

fn shareable_across_threads<X: Send + Sync>(_: &X) -> bool {
    true
}

#[test]
fn a_tape_of_thread_safe_values_is_thread_safe() {
    let mut t = MatrixTape::new();
    let x = t.track(Matrix::from_rows(&[&[1.0]]));
    let _ = log(&mut t, x);
    assert!(shareable_across_threads(&t));
    let grads = t.backward(1).unwrap();
    assert!(shareable_across_threads(&grads));
}

#[test]
fn the_backward_order_is_descending_and_skips_unreached_nodes() {
    let n = Rc::new(Cell::new(0));
    let mut t = ScalarTape::new();
    let x = t.track(Scalar(1.0));
    let unused = t.track(Scalar(2.0));
    let a = smul(&mut t, x, x, &n);
    let b = sadd(&mut t, a, x, &n);
    let c = smul(&mut t, b, a, &n);
    assert_eq!(t.backward_order(c), Ok(vec![c, b, a, x]));
    assert_eq!(t.backward_order(a), Ok(vec![a, x]));
    assert_eq!(t.backward_order(unused), Ok(vec![unused]));
    assert_eq!(t.backward_order(17), Err(GraphError::UnknownNode { id: 17 }));
}

fn relu(t: &mut MatrixTape, x: usize) -> usize {
    let input = t.value(x).clone();
    let out = input.map(|v| v.max(0.0));
    let op = Op::Relu(UnaryOpsNodeState::new(input, out.clone()));
    t.record(out, op, vec![x]).unwrap()
}

fn add(t: &mut MatrixTape, a: usize, b: usize) -> usize {
    let out = t.value(a).zip(t.value(b), |x, y| x + y);
    t.record(out, Op::Add, vec![a, b]).unwrap()
}

#[test]
fn relu_gradient_is_one_where_positive() {
    let mut t = MatrixTape::new();
    let x = t.track(Matrix::from_rows(&[&[-2.0, 3.0], &[0.5, -0.1]]));
    let y = relu(&mut t, x);
    let grads = t.backward(y).unwrap();
    grad(&grads, x).assert_approx_eq(&[&[0.0, 1.0], &[1.0, 0.0]], 1e-3);
}

#[test]
fn relu_and_a_direct_path_are_summed() {
    let mut t = MatrixTape::new();
    let x = t.track(Matrix::from_rows(&[&[-2.0, 3.0]]));
    let r = relu(&mut t, x);
    let y = add(&mut t, r, x);
    let grads = t.backward(y).unwrap();
    grad(&grads, x).assert_approx_eq(&[&[1.0, 2.0]], 1e-3);
}

#[test]
fn relu_shared_by_two_products_runs_once_with_the_full_gradient() {
    let mut t = MatrixTape::new();
    let x = t.track(Matrix::from_rows(&[&[-1.0, 2.0]]));
    let a = t.track(Matrix::from_rows(&[&[3.0, 5.0]]));
    let b = t.track(Matrix::from_rows(&[&[7.0, 11.0]]));
    let h = relu(&mut t, x);
    let ha = mul(&mut t, h, a);
    let hb = mul(&mut t, h, b);
    let y = add(&mut t, ha, hb);
    let g1 = t.backward(y).unwrap();
    grad(&g1, x).assert_approx_eq(&[&[0.0, 16.0]], 1e-3);
    let g2 = t.backward(y).unwrap();
    assert_eq!(grad(&g1, x), grad(&g2, x));
}

#[test]
fn an_all_negative_input_through_relu_gets_a_zero_gradient() {
    let mut t = MatrixTape::new();
    let x = t.track(Matrix::from_rows(&[&[-1.0, -2.0]]));
    let y = relu(&mut t, x);
    let grads = t.backward(y).unwrap();
    assert_eq!(grads.get(x), Some(&Matrix::from_rows(&[&[0.0, 0.0]])));
}

#[test]
fn gradients_go_to_and_from_named_state() {
    let mut grads: Grads<Scalar> = Grads::new();
    grads.register(4, Scalar(2.5));
    let mut state: StateNamed<Scalar> = StateNamed::new();
    register_state_gradients(4, &mut state, &grads, |id| format!("velocity-{}", id));
    register_state_gradients(5, &mut state, &grads, |id| format!("velocity-{}", id));
    assert_eq!(state.get(&"velocity-4".to_string()), Some(&Scalar(2.5)));
    assert_eq!(state.get(&"velocity-5".to_string()), None);

    let mut loaded: Grads<Scalar> = Grads::new();
    load_state_gradients(4, &state, &mut loaded, |id| format!("velocity-{}", id));
    load_state_gradients(5, &state, &mut loaded, |id| format!("velocity-{}", id));
    assert_eq!(loaded.get(4), Some(&Scalar(2.5)));
    assert_eq!(loaded.get(5), None);
}

#[test]
fn named_state_keeps_the_last_registration() {
    let mut state: StateNamed<Scalar> = StateNamed::new();
    state.register_state("m".to_string(), Scalar(1.0));
    state.register_state("v".to_string(), Scalar(2.0));
    state.register_state("m".to_string(), Scalar(3.0));
    assert_eq!(state.get(&"m".to_string()), Some(&Scalar(3.0)));
    assert_eq!(state.get(&"v".to_string()), Some(&Scalar(2.0)));
    assert_eq!(state.get(&"w".to_string()), None);
}
