use ndarray::Array2;
use rand::rngs::StdRng;
use rand::{Rng, SeedableRng};
use simple_mlp::autograd::{Autograd, Graph, Op};
use simple_mlp::backward::GradRule;
use simple_mlp::mlp::{Activation, Neuron, MLP};

/// A graph with the value and the gradient of every node.
struct Tape {
    graph: Graph,
    values: Vec<Array2<f64>>,
    grads: Vec<Array2<f64>>,
}

impl Tape {
    fn new() -> Tape {
        Tape { graph: Graph::new(), values: Vec::new(), grads: Vec::new() }
    }

    fn record(&mut self, h: Autograd, value: Array2<f64>) -> Autograd {
        assert_eq!(h.index, self.values.len());
        assert_eq!(value.dim(), h.shape(&self.graph));
        self.grads.push(Array2::zeros(value.dim()));
        self.values.push(value);
        h
    }

    /// Computes the value of every node that was appended since the last
    /// call; a new leaf starts at zero.
    fn sync(&mut self) {
        while self.values.len() < self.graph.len() {
            let h = Autograd { index: self.values.len() };
            let c = h.children(&self.graph);
            let value = match h.op(&self.graph) {
                Op::Leaf => Array2::zeros(h.shape(&self.graph)),
                Op::Add => &self.values[c[0].index] + &self.values[c[1].index],
                Op::MatMul => self.values[c[0].index].dot(&self.values[c[1].index]),
                Op::Tanh => self.values[c[0].index].mapv(|x| x.tanh()),
                Op::ReLU => self.values[c[0].index].mapv(|x| x.max(0.0)),
            };
            self.record(h, value);
        }
    }

    fn set(&mut self, h: Autograd, v: f64) {
        self.values[h.index] = Array2::from_elem(h.shape(&self.graph), v);
    }

    fn leaf(&mut self, value: Array2<f64>) -> Autograd {
        let (rows, cols) = value.dim();
        let h = Autograd::new(rows, cols, &mut self.graph);
        self.record(h, value)
    }

    fn scalar(&mut self, v: f64) -> Autograd {
        self.leaf(Array2::from_elem((1, 1), v))
    }

    fn add(&mut self, a: Autograd, b: Autograd) -> Autograd {
        assert_eq!(a.shape(&self.graph), b.shape(&self.graph));
        let h = a.add(&b, &mut self.graph);
        assert_eq!(h.op(&self.graph), Op::Add);
        let value = &self.values[a.index] + &self.values[b.index];
        self.record(h, value)
    }

    fn mul(&mut self, a: Autograd, b: Autograd) -> Autograd {
        assert_eq!(a.shape(&self.graph).1, b.shape(&self.graph).0);
        let h = a.mul(&b, &mut self.graph);
        let value = self.values[a.index].dot(&self.values[b.index]);
        self.record(h, value)
    }

    fn tanh(&mut self, a: Autograd) -> Autograd {
        let h = a.tanh(&mut self.graph);
        let value = self.values[a.index].mapv(|x| x.tanh());
        self.record(h, value)
    }

    fn relu(&mut self, a: Autograd) -> Autograd {
        let h = a.relu(&mut self.graph);
        let value = self.values[a.index].mapv(|x| x.max(0.0));
        self.record(h, value)
    }

    fn backward(&mut self, root: Autograd) {
        for step in root.backward(&self.graph) {
            let value = &self.values[step.node.index];
            let grad = &self.grads[step.node.index];
            let flow = match step.rule {
                GradRule::Pass => grad.clone(),
                GradRule::TimesTransposed { rhs } => grad.dot(&self.values[rhs.index].t()),
                GradRule::TransposedTimes { lhs } => self.values[lhs.index].t().dot(grad),
                GradRule::TanhLocal => &value.mapv(|x| 1.0 - x * x) * grad,
                GradRule::ReluMask => grad * &value.mapv(|x| if x > 0.0 { 1.0 } else { 0.0 }),
            };
            assert_eq!(flow.dim(), step.target.shape(&self.graph));
            self.grads[step.target.index] += &flow;
        }
    }

    fn seed(&mut self, h: Autograd, v: f64) {
        self.grads[h.index] = Array2::from_elem(h.shape(&self.graph), v);
    }

    fn zero_grad(&mut self, h: Autograd) {
        self.grads[h.index] = Array2::zeros(h.shape(&self.graph));
    }

    fn value(&self, h: Autograd) -> Array2<f64> {
        self.values[h.index].clone()
    }

    fn grad(&self, h: Autograd) -> Array2<f64> {
        self.grads[h.index].clone()
    }
}

fn matrix(rows: usize, cols: usize, data: &[f64]) -> Array2<f64> {
    Array2::from_shape_vec((rows, cols), data.to_vec()).unwrap()
}

fn close(a: &Array2<f64>, b: &Array2<f64>, tolerance: f64) -> bool {
    a.dim() == b.dim() && a.iter().zip(b.iter()).all(|(x, y)| (x - y).abs() <= tolerance)
}

#[test]
fn additive_fan_out() {
    let mut t = Tape::new();
    let a = t.scalar(1.0);
    let s = t.add(a, a);
    assert_eq!(t.value(s)[[0, 0]], 2.0);
    t.seed(s, 1.0);
    t.backward(s);
    assert_eq!(t.grad(a)[[0, 0]], 2.0);
}

#[test]
fn matmul_shapes() {
    let mut t = Tape::new();
    let a = t.leaf(matrix(2, 3, &[1.0, 2.0, 3.0, 4.0, 5.0, 6.0]));
    let b = t.leaf(matrix(3, 4, &[1.0; 12]));
    let c = t.mul(a, b);
    assert_eq!(t.value(c).dim(), (2, 4));
    t.seed(c, 1.0);
    t.backward(c);
    assert_eq!(t.grad(a).dim(), (2, 3));
    assert_eq!(t.grad(b).dim(), (3, 4));
}

#[test]
fn matmul_gradients_are_the_transposed_products() {
    let mut t = Tape::new();
    let a = t.leaf(matrix(2, 3, &[1.0, 2.0, 3.0, 4.0, 5.0, 6.0]));
    let b = t.leaf(matrix(3, 2, &[1.0, 0.0, 0.0, 1.0, 2.0, 3.0]));
    let c = t.mul(a, b);
    assert_eq!(t.value(c), matrix(2, 2, &[7.0, 11.0, 16.0, 23.0]));
    t.grads[c.index] = matrix(2, 2, &[1.0, 2.0, 3.0, 4.0]);
    t.backward(c);
    // grad · transpose(b)
    assert_eq!(t.grad(a), matrix(2, 3, &[1.0, 2.0, 8.0, 3.0, 4.0, 18.0]));
    // transpose(a) · grad
    assert_eq!(t.grad(b), matrix(3, 2, &[13.0, 18.0, 17.0, 24.0, 21.0, 30.0]));
}

#[test]
fn scalar_product() {
    let mut t = Tape::new();
    let a = t.scalar(2.0);
    let b = t.scalar(3.0);
    let c = t.mul(a, b);
    assert_eq!(t.value(c)[[0, 0]], 6.0);
    t.seed(c, 1.0);
    t.backward(c);
    assert_eq!(t.grad(a)[[0, 0]], 3.0);
    assert_eq!(t.grad(b)[[0, 0]], 2.0);
}

#[test]
fn tanh_at_zero() {
    let mut t = Tape::new();
    let x = t.scalar(0.0);
    let y = t.tanh(x);
    assert_eq!(t.value(y)[[0, 0]], 0.0);
    t.seed(y, 1.0);
    t.backward(y);
    assert_eq!(t.grad(x)[[0, 0]], 1.0);
}

#[test]
fn tanh_gradient_uses_the_output() {
    let mut t = Tape::new();
    let x = t.scalar(0.5);
    let y = t.tanh(x);
    t.seed(y, 2.0);
    t.backward(y);
    let out = 0.5f64.tanh();
    assert_eq!(t.grad(x)[[0, 0]], (1.0 - out * out) * 2.0);
}

#[test]
fn relu_negative_branch() {
    let mut t = Tape::new();
    let x = t.scalar(-1.0);
    let y = t.relu(x);
    assert_eq!(t.value(y)[[0, 0]], 0.0);
    t.seed(y, 1.0);
    t.backward(y);
    assert_eq!(t.grad(x)[[0, 0]], 0.0);
}

#[test]
fn relu_positive_branch_and_boundary() {
    let mut t = Tape::new();
    let x = t.leaf(matrix(1, 3, &[2.0, 0.0, -3.0]));
    let y = t.relu(x);
    assert_eq!(t.value(y), matrix(1, 3, &[2.0, 0.0, 0.0]));
    t.grads[y.index] = matrix(1, 3, &[5.0, 7.0, 9.0]);
    t.backward(y);
    assert_eq!(t.grad(x), matrix(1, 3, &[5.0, 0.0, 0.0]));
}

#[test]
fn gradients_accumulate_and_are_never_overwritten() {
    let mut t = Tape::new();
    let a = t.scalar(1.5);
    let b = t.scalar(-2.0);
    let s = t.add(a, b);
    t.grads[a.index] = Array2::from_elem((1, 1), 10.0);
    t.seed(s, 1.0);
    t.backward(s);
    assert_eq!(t.grad(a)[[0, 0]], 11.0);
    assert_eq!(t.grad(b)[[0, 0]], 1.0);
    // a second pass adds once more
    t.backward(s);
    assert_eq!(t.grad(a)[[0, 0]], 12.0);
    assert_eq!(t.grad(b)[[0, 0]], 2.0);
}

#[test]
fn shared_node_receives_the_sum_over_all_its_uses() {
    // d = tanh(a) + relu(a), at a = 0.5
    let mut t = Tape::new();
    let a = t.scalar(0.5);
    let b = t.tanh(a);
    let c = t.relu(a);
    let d = t.add(b, c);
    t.seed(d, 1.0);
    t.backward(d);
    let out = 0.5f64.tanh();
    assert_eq!(t.grad(b)[[0, 0]], 1.0);
    assert_eq!(t.grad(c)[[0, 0]], 1.0);
    assert_eq!(t.grad(a)[[0, 0]], 1.0 + (1.0 - out * out));
}

#[test]
fn square_through_matmul_of_a_node_with_itself() {
    // y = x · x for a 1×1 x: dy/dx = 2x
    let mut t = Tape::new();
    let x = t.scalar(3.0);
    let y = t.mul(x, x);
    assert_eq!(t.value(y)[[0, 0]], 9.0);
    t.seed(y, 1.0);
    t.backward(y);
    assert_eq!(t.grad(x)[[0, 0]], 6.0);
}

#[test]
fn gradient_reaches_a_leaf_through_a_chain() {
    // y = tanh(w · x + b)
    let mut t = Tape::new();
    let w = t.scalar(0.5);
    let x = t.scalar(2.0);
    let b = t.scalar(-0.25);
    let wx = t.mul(w, x);
    let z = t.add(wx, b);
    let y = t.tanh(z);
    t.seed(y, 1.0);
    t.backward(y);
    let out = 0.75f64.tanh();
    let local = 1.0 - out * out;
    assert_eq!(t.grad(z)[[0, 0]], local);
    assert_eq!(t.grad(b)[[0, 0]], local);
    assert_eq!(t.grad(w)[[0, 0]], local * 2.0);
    assert_eq!(t.grad(x)[[0, 0]], local * 0.5);
}

#[test]
fn zero_grad_isolation() {
    let mut t = Tape::new();
    let a = t.leaf(matrix(2, 2, &[1.0, 2.0, 3.0, 4.0]));
    let b = t.leaf(matrix(2, 2, &[0.5, -1.0, 2.0, 0.0]));
    let c = t.mul(a, b);
    let y = t.tanh(c);
    t.seed(y, 1.0);
    t.backward(y);
    assert!(t.grad(a).iter().any(|&v| v != 0.0));
    let value_before = t.value(a);
    let other_grad = t.grad(b);
    t.zero_grad(a);
    assert_eq!(t.grad(a), Array2::zeros((2, 2)));
    assert_eq!(t.value(a), value_before);
    assert_eq!(t.grad(b), other_grad);
    assert_eq!(a.shape(&t.graph), (2, 2));
    assert_eq!(a.op(&t.graph), Op::Leaf);
}

/// A two-layer network `w2 · tanh(w1 · x + b1) + b2` with a second use of the
/// hidden layer through ReLU; returns the tape, the parameters and the output.
fn two_layers(params: &[Array2<f64>], input: &Array2<f64>) -> (Tape, Vec<Autograd>, Autograd) {
    let mut t = Tape::new();
    let handles: Vec<Autograd> = params.iter().map(|p| t.leaf(p.clone())).collect();
    let x = t.leaf(input.clone());
    let z1 = t.mul(handles[0], x);
    let a1 = t.add(z1, handles[1]);
    let h = t.tanh(a1);
    let r = t.relu(a1);
    let both = t.add(h, r);
    let z2 = t.mul(handles[2], both);
    let out = t.add(z2, handles[3]);
    (t, handles, out)
}

#[test]
fn gradient_check_against_centered_differences() {
    let mut rng = StdRng::seed_from_u64(7);
    let mut draw = |rows: usize, cols: usize| -> Array2<f64> {
        let data: Vec<f64> = (0..rows * cols).map(|_| rng.gen_range(-1.0..1.0)).collect();
        Array2::from_shape_vec((rows, cols), data).unwrap()
    };
    let params = vec![draw(3, 2), draw(3, 1), draw(1, 3), draw(1, 1)];
    let input = draw(2, 1);

    let (mut tape, handles, out) = two_layers(&params, &input);
    assert_eq!(tape.value(out).dim(), (1, 1));
    tape.seed(out, 1.0);
    tape.backward(out);

    let eps = 1e-6;
    for (k, h) in handles.iter().enumerate() {
        let analytic = tape.grad(*h);
        assert_eq!(analytic.dim(), params[k].dim());
        let mut numeric = Array2::zeros(params[k].dim());
        for i in 0..params[k].nrows() {
            for j in 0..params[k].ncols() {
                let mut up = params.clone();
                up[k][[i, j]] += eps;
                let mut down = params.clone();
                down[k][[i, j]] -= eps;
                let (tu, _, ou) = two_layers(&up, &input);
                let (td, _, od) = two_layers(&down, &input);
                numeric[[i, j]] = (tu.value(ou)[[0, 0]] - td.value(od)[[0, 0]]) / (2.0 * eps);
            }
        }
        assert!(
            close(&analytic, &numeric, 1e-6),
            "parameter {}: analytic {:?}, numeric {:?}",
            k,
            analytic,
            numeric
        );
    }
}

#[test]
fn neuron_value_and_gradients_on_known_weights() {
    let mut t = Tape::new();
    let n = Neuron::new(2, &mut t.graph);
    t.sync();
    let p = n.parameters();
    t.set(p[0], 0.5);
    t.set(p[1], -1.0);
    t.set(p[2], 0.25);
    let x0 = t.scalar(2.0);
    let x1 = t.scalar(3.0);
    let out = n.call(&[x0, x1], Activation::Identity, &mut t.graph);
    t.sync();
    assert_eq!(t.value(out)[[0, 0]], -1.75);
    t.seed(out, 1.0);
    t.backward(out);
    assert_eq!(t.grad(p[0])[[0, 0]], 2.0);
    assert_eq!(t.grad(p[1])[[0, 0]], 3.0);
    assert_eq!(t.grad(p[2])[[0, 0]], 1.0);
    assert_eq!(t.grad(x0)[[0, 0]], 0.5);
    assert_eq!(t.grad(x1)[[0, 0]], -1.0);
}

#[test]
fn neuron_activation_follows_the_sum() {
    let mut t = Tape::new();
    let n = Neuron::new(1, &mut t.graph);
    t.sync();
    let p = n.parameters();
    t.set(p[0], 2.0);
    t.set(p[1], -3.0);
    let x = t.scalar(1.0);
    let relu = n.call(&[x], Activation::ReLU, &mut t.graph);
    let tanh = n.call(&[x], Activation::Tanh, &mut t.graph);
    t.sync();
    assert_eq!(t.value(relu)[[0, 0]], 0.0);
    assert_eq!(t.value(tanh)[[0, 0]], (-1.0f64).tanh());
}

/// A 2-2-1 network with the weights h0 = relu(x0 + x1),
/// h1 = relu(x0 - x1 - 0.5), out = 2·h0 - 3·h1 + 0.5.
fn known_network(t: &mut Tape) -> (MLP, Vec<Autograd>) {
    let mlp = MLP::new(2, &[2, 1], &mut t.graph);
    t.sync();
    let p = mlp.parameters();
    let weights = [1.0, 1.0, 0.0, 1.0, -1.0, -0.5, 2.0, -3.0, 0.5];
    assert_eq!(p.len(), weights.len());
    for (h, w) in p.iter().zip(weights.iter()) {
        t.set(*h, *w);
    }
    (mlp, p)
}

#[test]
fn mlp_forward_and_backward_on_known_weights() {
    let mut t = Tape::new();
    let (mlp, p) = known_network(&mut t);
    let x0 = t.scalar(1.0);
    let x1 = t.scalar(0.0);
    let outs = mlp.call(&[x0, x1], &mut t.graph);
    t.sync();
    assert_eq!(outs.len(), 1);
    assert_eq!(t.value(outs[0])[[0, 0]], 1.0);
    t.seed(outs[0], 1.0);
    t.backward(outs[0]);
    let grads: Vec<f64> = p.iter().map(|h| t.grad(*h)[[0, 0]]).collect();
    assert_eq!(grads, vec![2.0, 0.0, 2.0, -3.0, 0.0, -3.0, 1.0, 0.5, 1.0]);
    assert_eq!(t.grad(x0)[[0, 0]], -1.0);
    assert_eq!(t.grad(x1)[[0, 0]], 5.0);
}

#[test]
fn mlp_gradient_stops_at_an_inactive_relu() {
    let mut t = Tape::new();
    let (mlp, p) = known_network(&mut t);
    let x0 = t.scalar(0.0);
    let x1 = t.scalar(1.0);
    let outs = mlp.call(&[x0, x1], &mut t.graph);
    t.sync();
    // h0 = 1, h1 = relu(-1.5) = 0
    assert_eq!(t.value(outs[0])[[0, 0]], 2.5);
    t.seed(outs[0], 1.0);
    t.backward(outs[0]);
    let grads: Vec<f64> = p.iter().map(|h| t.grad(*h)[[0, 0]]).collect();
    assert_eq!(grads, vec![0.0, 2.0, 2.0, 0.0, 0.0, 0.0, 1.0, 0.0, 1.0]);
}

#[test]
fn parameters_keep_their_values_across_passes_and_resets() {
    let mut t = Tape::new();
    let (mlp, p) = known_network(&mut t);
    let x0 = t.scalar(1.0);
    let x1 = t.scalar(0.0);
    let outs = mlp.call(&[x0, x1], &mut t.graph);
    t.sync();
    let before: Vec<Array2<f64>> = p.iter().map(|h| t.value(*h)).collect();
    t.seed(outs[0], 1.0);
    t.backward(outs[0]);
    for h in mlp.parameters() {
        t.zero_grad(h);
    }
    for (h, value) in p.iter().zip(before.iter()) {
        assert_eq!(t.grad(*h), Array2::zeros((1, 1)));
        assert_eq!(&t.value(*h), value);
    }
}
