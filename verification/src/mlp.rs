use crate::autograd::{
    add_node, graph_wf, in_graph, leaf_node, matmul_node, shape_of, unary_node, Autograd, Graph,
    NodeView, Op,
};
use vstd::prelude::*;
use vstd::slice::slice_to_vec;

verus! {

/// What a neuron or a layer applies to its weighted sum.
#[derive(Debug, Clone, Copy, PartialEq, Eq, Structural)]
pub enum Activation {
    ReLU,
    Tanh,
    Identity,
}

/// What the contracts say of a neuron: the handles of its weights, in input
/// order, and of its bias.
pub struct NeuronView {
    pub weights: Seq<Autograd>,
    pub bias: Autograd,
}

/// One neuron: a 1×1 weight for each input and a 1×1 bias, created as leaves
/// of one graph.
pub struct Neuron {
    weights: Vec<Autograd>,
    bias: Autograd,
}

impl View for Neuron {
    type V = NeuronView;

    closed spec fn view(&self) -> NeuronView {
        NeuronView { weights: self.weights@, bias: self.bias }
    }
}

/// The handle on the node that is created when the graph holds `n` nodes.
pub open spec fn handle(n: nat) -> Autograd {
    Autograd { index: n as usize }
}

/// `h` names a 1×1 node of `g`.
pub open spec fn is_scalar(g: Seq<NodeView>, h: Autograd) -> bool {
    in_graph(g, h) && shape_of(g, h) == (1nat, 1nat)
}

/// Weights and bias are 1×1 nodes of `g`.
pub open spec fn neuron_wf(g: Seq<NodeView>, n: NeuronView) -> bool {
    &&& is_scalar(g, n.bias)
    &&& forall|i: int| 0 <= i < n.weights.len() ==> is_scalar(g, #[trigger] n.weights[i])
}

/// Number of inputs that a neuron with weights `w` reads of `x`: the two are
/// paired up to the shorter one.
pub open spec fn terms(w: Seq<Autograd>, x: Seq<Autograd>) -> nat {
    if w.len() <= x.len() {
        w.len()
    } else {
        x.len()
    }
}

/// Every input that a neuron with weights `w` reads of `x` is a 1×1 node of
/// `g`.
pub open spec fn inputs_fit(g: Seq<NodeView>, w: Seq<Autograd>, x: Seq<Autograd>) -> bool {
    forall|i: int| 0 <= i < terms(w, x) ==> is_scalar(g, #[trigger] x[i])
}

/// `g` with `count` more 1×1 leaves.
pub open spec fn with_leaves(g: Seq<NodeView>, count: nat) -> Seq<NodeView> {
    g + Seq::new(count, |i: int| leaf_node(1, 1))
}

/// The neuron with `nin` inputs that is created when the graph holds `base`
/// nodes: its weights are the next `nin` nodes, its bias the one after them.
pub open spec fn fresh_neuron(base: nat, nin: nat) -> NeuronView {
    NeuronView { weights: Seq::new(nin, |i: int| handle((base + i) as nat)), bias: handle(base + nin) }
}

/// Graph and running sum after the first `k` terms: starting from the bias,
/// each term appends the product `w[i] · x[i]` and then the sum of the running
/// sum and that product.
pub open spec fn weighted_sum(g: Seq<NodeView>, n: NeuronView, x: Seq<Autograd>, k: nat) -> (
    Seq<NodeView>,
    Autograd,
)
    decreases k,
{
    if k == 0 {
        (g, n.bias)
    } else {
        let (g1, sum) = weighted_sum(g, n, x, (k - 1) as nat);
        let g2 = g1.push(matmul_node(g1, n.weights[k - 1], x[k - 1]));
        (g2.push(add_node(g2, sum, handle(g1.len()))), handle(g2.len()))
    }
}

/// Graph and output after the activation of `sum`: one more node, or for
/// `Activation::Identity` the sum itself.
pub open spec fn activated(g: Seq<NodeView>, sum: Autograd, activation: Activation) -> (
    Seq<NodeView>,
    Autograd,
) {
    match activation {
        Activation::ReLU => (g.push(unary_node(g, Op::ReLU, sum)), handle(g.len())),
        Activation::Tanh => (g.push(unary_node(g, Op::Tanh, sum)), handle(g.len())),
        Activation::Identity => (g, sum),
    }
}

/// Graph and output after a neuron is applied to the inputs `x`.
pub open spec fn neuron_call(
    g: Seq<NodeView>,
    n: NeuronView,
    x: Seq<Autograd>,
    activation: Activation,
) -> (Seq<NodeView>, Autograd) {
    let (g1, sum) = weighted_sum(g, n, x, terms(n.weights, x));
    activated(g1, sum, activation)
}

/// Each term of a weighted sum appends two nodes and disturbs none.
pub proof fn lemma_weighted_sum_grows(g: Seq<NodeView>, n: NeuronView, x: Seq<Autograd>, k: nat)
    ensures
        weighted_sum(g, n, x, k).0.len() == g.len() + 2 * k,
        g.is_prefix_of(weighted_sum(g, n, x, k).0),
        k == 0 ==> weighted_sum(g, n, x, k).1 == n.bias,
        k > 0 ==> weighted_sum(g, n, x, k).1 == handle((g.len() + 2 * k - 1) as nat),
    decreases k,
{
    if k > 0 {
        lemma_weighted_sum_grows(g, n, x, (k - 1) as nat);
    }
}

/// A neuron's call appends two nodes for each input that it reads and one more
/// for an activation, and disturbs none of the nodes before them.
pub proof fn lemma_neuron_call_grows(
    g: Seq<NodeView>,
    n: NeuronView,
    x: Seq<Autograd>,
    activation: Activation,
)
    ensures
        g.is_prefix_of(neuron_call(g, n, x, activation).0),
        neuron_call(g, n, x, activation).0.len() == g.len() + 2 * terms(n.weights, x) + (
        if activation == Activation::Identity {
            0nat
        } else {
            1nat
        }),
{
    lemma_weighted_sum_grows(g, n, x, terms(n.weights, x));
}

/// Appending nodes keeps a 1×1 node what it is.
pub proof fn lemma_grow_keeps_scalar(g: Seq<NodeView>, g2: Seq<NodeView>, h: Autograd)
    requires
        g.is_prefix_of(g2),
        is_scalar(g, h),
    ensures
        is_scalar(g2, h),
{
    assert(g2[h.index as int] == g[h.index as int]);
}

impl Neuron {
    /// Creates the parameters of a neuron with `nin` inputs: `nin` weights and
    /// then the bias, each a 1×1 leaf.
    pub fn new(nin: usize, g: &mut Graph) -> (n: Neuron)
        requires
            old(g).wf(),
        ensures
            final(g).wf(),
            final(g)@ == with_leaves(old(g)@, (nin + 1) as nat),
            n@ == fresh_neuron(old(g)@.len(), nin as nat),
            neuron_wf(final(g)@, n@),
    {
        let ghost g0 = g@;
        let mut weights: Vec<Autograd> = Vec::new();
        let mut i: usize = 0;
        while i < nin
            invariant
                i <= nin,
                g.wf(),
                g@ == with_leaves(g0, i as nat),
                weights@ == fresh_neuron(g0.len(), i as nat).weights,
            decreases nin - i,
        {
            let w = Autograd::new(1, 1, g);
            weights.push(w);
            proof {
                assert(g@ =~= with_leaves(g0, (i + 1) as nat));
                assert(weights@ =~= fresh_neuron(g0.len(), (i + 1) as nat).weights);
            }
            i += 1;
        }
        let bias = Autograd::new(1, 1, g);
        let n = Neuron { weights, bias };
        proof {
            assert(g@ =~= with_leaves(g0, (nin + 1) as nat));
            assert(n@.weights =~= fresh_neuron(g0.len(), nin as nat).weights);
        }
        n
    }

    /// Applies the neuron to the inputs `x`: the bias plus the products of the
    /// weights with the inputs, paired up to the shorter of the two, and then the
    /// activation.
    pub fn call(&self, x: &[Autograd], activation: Activation, g: &mut Graph) -> (out: Autograd)
        requires
            old(g).wf(),
            neuron_wf(old(g)@, self@),
            inputs_fit(old(g)@, self@.weights, x@),
        ensures
            final(g).wf(),
            (final(g)@, out) == neuron_call(old(g)@, self@, x@, activation),
            old(g)@.is_prefix_of(final(g)@),
            is_scalar(final(g)@, out),
    {
        let ghost g0 = g@;
        let m: usize = if self.weights.len() <= x.len() {
            self.weights.len()
        } else {
            x.len()
        };
        let mut sum = self.bias;
        let mut i: usize = 0;
        while i < m
            invariant
                i <= m,
                m == terms(self@.weights, x@),
                g.wf(),
                g0.is_prefix_of(g@),
                (g@, sum) == weighted_sum(g0, self@, x@, i as nat),
                is_scalar(g@, sum),
                neuron_wf(g0, self@),
                inputs_fit(g0, self@.weights, x@),
            decreases m - i,
        {
            let ghost g1 = g@;
            proof {
                lemma_grow_keeps_scalar(g0, g1, self@.weights[i as int]);
                lemma_grow_keeps_scalar(g0, g1, x@[i as int]);
            }
            let prod = self.weights[i].mul(&x[i], g);
            let ghost g2 = g@;
            proof {
                lemma_grow_keeps_scalar(g1, g2, sum);
            }
            sum = sum.add(&prod, g);
            i += 1;
        }
        match activation {
            Activation::ReLU => sum.relu(g),
            Activation::Tanh => sum.tanh(g),
            Activation::Identity => sum,
        }
    }

    /// The handles of the trainable parameters: the weights in input order,
    /// then the bias.
    pub fn parameters(&self) -> (params: Vec<Autograd>)
        ensures
            params@ == self@.weights.push(self@.bias),
    {
        let mut params: Vec<Autograd> = Vec::new();
        let mut i: usize = 0;
        while i < self.weights.len()
            invariant
                i <= self.weights.len(),
                params@ == self.weights@.take(i as int),
            decreases self.weights.len() - i,
        {
            params.push(self.weights[i]);
            i += 1;
        }
        assert(self.weights@.take(i as int) =~= self.weights@);
        params.push(self.bias);
        params
    }
}

/// What the contracts say of a layer: its neurons, in output order, and the
/// activation that each of them applies.
pub struct LayerView {
    pub neurons: Seq<NeuronView>,
    pub activation: Activation,
}

/// A layer: neurons that all read the same inputs.
pub struct Layer {
    neurons: Vec<Neuron>,
    activation: Activation,
}

impl View for Layer {
    type V = LayerView;

    closed spec fn view(&self) -> LayerView {
        LayerView {
            neurons: Seq::new(self.neurons@.len(), |j: int| self.neurons@[j]@),
            activation: self.activation,
        }
    }
}

/// Every neuron of the layer is well formed in `g`.
pub open spec fn layer_wf(g: Seq<NodeView>, l: LayerView) -> bool {
    forall|j: int| 0 <= j < l.neurons.len() ==> neuron_wf(g, #[trigger] l.neurons[j])
}

/// Every neuron of the layer can read its inputs of `x`.
pub open spec fn layer_inputs_fit(g: Seq<NodeView>, l: LayerView, x: Seq<Autograd>) -> bool {
    forall|j: int|
        0 <= j < l.neurons.len() ==> inputs_fit(g, (#[trigger] l.neurons[j]).weights, x)
}

/// The layer of `nout` neurons with `nin` inputs each that is created when the
/// graph holds `base` nodes: the neurons' parameters follow one another.
pub open spec fn fresh_layer(base: nat, nin: nat, nout: nat, activation: Activation) -> LayerView {
    LayerView {
        neurons: Seq::new(nout, |j: int| fresh_neuron((base + j * (nin + 1)) as nat, nin)),
        activation,
    }
}

/// Graph and outputs after the first `k` neurons of the layer were applied to
/// `x`, one after the other.
pub open spec fn layer_call(g: Seq<NodeView>, l: LayerView, x: Seq<Autograd>, k: nat) -> (
    Seq<NodeView>,
    Seq<Autograd>,
)
    decreases k,
{
    if k == 0 {
        (g, Seq::empty())
    } else {
        let (g1, outs) = layer_call(g, l, x, (k - 1) as nat);
        let (g2, out) = neuron_call(g1, l.neurons[k - 1], x, l.activation);
        (g2, outs.push(out))
    }
}

/// The parameters of the first `k` neurons of a layer, neuron by neuron.
pub open spec fn layer_params(l: LayerView, k: nat) -> Seq<Autograd>
    decreases k,
{
    if k == 0 {
        Seq::empty()
    } else {
        layer_params(l, (k - 1) as nat) + l.neurons[k - 1].weights.push(l.neurons[k - 1].bias)
    }
}

/// Appending nodes keeps a neuron well formed.
pub proof fn lemma_grow_keeps_neuron(g: Seq<NodeView>, g2: Seq<NodeView>, n: NeuronView)
    requires
        g.is_prefix_of(g2),
        neuron_wf(g, n),
    ensures
        neuron_wf(g2, n),
{
    lemma_grow_keeps_scalar(g, g2, n.bias);
    assert forall|i: int| 0 <= i < n.weights.len() implies is_scalar(g2, #[trigger] n.weights[i]) by {
        lemma_grow_keeps_scalar(g, g2, n.weights[i]);
    }
}

/// Appending nodes keeps a layer well formed.
pub proof fn lemma_grow_keeps_layer(g: Seq<NodeView>, g2: Seq<NodeView>, l: LayerView)
    requires
        g.is_prefix_of(g2),
        layer_wf(g, l),
    ensures
        layer_wf(g2, l),
{
    assert forall|j: int| 0 <= j < l.neurons.len() implies neuron_wf(g2, #[trigger] l.neurons[j]) by {
        lemma_grow_keeps_neuron(g, g2, l.neurons[j]);
    }
}

/// Appending nodes keeps the inputs of a neuron fitting.
pub proof fn lemma_grow_keeps_inputs(
    g: Seq<NodeView>,
    g2: Seq<NodeView>,
    w: Seq<Autograd>,
    x: Seq<Autograd>,
)
    requires
        g.is_prefix_of(g2),
        inputs_fit(g, w, x),
    ensures
        inputs_fit(g2, w, x),
{
    assert forall|i: int| 0 <= i < terms(w, x) implies is_scalar(g2, #[trigger] x[i]) by {
        lemma_grow_keeps_scalar(g, g2, x[i]);
    }
}

impl Layer {
    /// Creates the parameters of `nout` neurons with `nin` inputs each, neuron
    /// by neuron.
    pub fn new(nin: usize, nout: usize, activation: Activation, g: &mut Graph) -> (l: Layer)
        requires
            old(g).wf(),
        ensures
            final(g).wf(),
            final(g)@ == with_leaves(old(g)@, (nout * (nin + 1)) as nat),
            l@ == fresh_layer(old(g)@.len(), nin as nat, nout as nat, activation),
            layer_wf(final(g)@, l@),
    {
        let ghost g0 = g@;
        let mut neurons: Vec<Neuron> = Vec::new();
        let mut j: usize = 0;
        while j < nout
            invariant
                j <= nout,
                g.wf(),
                g@ == with_leaves(g0, (j * (nin + 1)) as nat),
                neurons@.len() == j,
                forall|t: int|
                    0 <= t < j ==> (#[trigger] neurons@[t])@ == fresh_neuron(
                        (g0.len() + t * (nin + 1)) as nat,
                        nin as nat,
                    ),
                forall|t: int| 0 <= t < j ==> neuron_wf(g@, (#[trigger] neurons@[t])@),
            decreases nout - j,
        {
            let ghost g1 = g@;
            let ghost before = neurons@;
            let n = Neuron::new(nin, g);
            neurons.push(n);
            proof {
                assert((j + 1) * (nin + 1) == j * (nin + 1) + (nin + 1)) by (nonlinear_arith);
                assert(j * (nin + 1) >= 0) by (nonlinear_arith);
                assert(g@ =~= with_leaves(g0, ((j + 1) * (nin + 1)) as nat));
                assert(g1.is_prefix_of(g@));
                assert forall|t: int| 0 <= t < j + 1 implies neuron_wf(
                    g@,
                    (#[trigger] neurons@[t])@,
                ) by {
                    if t < j {
                        assert(neurons@[t] == before[t]);
                        lemma_grow_keeps_neuron(g1, g@, before[t]@);
                    }
                }
                assert forall|t: int| 0 <= t < j + 1 implies (#[trigger] neurons@[t])@
                    == fresh_neuron((g0.len() + t * (nin + 1)) as nat, nin as nat) by {
                    if t < j {
                        assert(neurons@[t] == before[t]);
                    }
                }
            }
            j += 1;
        }
        let l = Layer { neurons, activation };
        proof {
            assert(l@.neurons =~= fresh_layer(
                g0.len(),
                nin as nat,
                nout as nat,
                activation,
            ).neurons);
        }
        l
    }

    /// Applies every neuron of the layer to the inputs `x`, in order, and
    /// returns their outputs.
    pub fn call(&self, x: &[Autograd], g: &mut Graph) -> (outs: Vec<Autograd>)
        requires
            old(g).wf(),
            layer_wf(old(g)@, self@),
            layer_inputs_fit(old(g)@, self@, x@),
        ensures
            final(g).wf(),
            (final(g)@, outs@) == layer_call(old(g)@, self@, x@, self@.neurons.len()),
            old(g)@.is_prefix_of(final(g)@),
            outs@.len() == self@.neurons.len(),
            forall|j: int| 0 <= j < outs@.len() ==> is_scalar(final(g)@, #[trigger] outs@[j]),
    {
        let ghost g0 = g@;
        let mut outs: Vec<Autograd> = Vec::new();
        let mut j: usize = 0;
        while j < self.neurons.len()
            invariant
                j <= self.neurons.len(),
                self@.neurons.len() == self.neurons.len(),
                g.wf(),
                g0.is_prefix_of(g@),
                layer_wf(g0, self@),
                layer_inputs_fit(g0, self@, x@),
                (g@, outs@) == layer_call(g0, self@, x@, j as nat),
                outs@.len() == j,
                forall|t: int| 0 <= t < outs@.len() ==> is_scalar(g@, #[trigger] outs@[t]),
            decreases self.neurons.len() - j,
        {
            let ghost g1 = g@;
            let ghost before = outs@;
            proof {
                assert(self@.neurons[j as int] == self.neurons@[j as int]@);
                lemma_grow_keeps_neuron(g0, g1, self@.neurons[j as int]);
                lemma_grow_keeps_inputs(g0, g1, self@.neurons[j as int].weights, x@);
            }
            let out = self.neurons[j].call(x, self.activation, g);
            outs.push(out);
            proof {
                assert forall|t: int| 0 <= t < outs@.len() implies is_scalar(
                    g@,
                    #[trigger] outs@[t],
                ) by {
                    if t < j {
                        assert(outs@[t] == before[t]);
                        lemma_grow_keeps_scalar(g1, g@, before[t]);
                    }
                }
            }
            j += 1;
        }
        outs
    }

    /// The handles of the trainable parameters, neuron by neuron.
    pub fn parameters(&self) -> (params: Vec<Autograd>)
        ensures
            params@ == layer_params(self@, self@.neurons.len()),
    {
        let mut params: Vec<Autograd> = Vec::new();
        let mut j: usize = 0;
        while j < self.neurons.len()
            invariant
                j <= self.neurons.len(),
                self@.neurons.len() == self.neurons.len(),
                params@ == layer_params(self@, j as nat),
            decreases self.neurons.len() - j,
        {
            let mut own = self.neurons[j].parameters();
            assert(self@.neurons[j as int] == self.neurons@[j as int]@);
            params.append(&mut own);
            j += 1;
        }
        params
    }
}

/// A multilayer perceptron: layers applied one after the other. Its view is
/// the sequence of its layers.
pub struct MLP {
    layers: Vec<Layer>,
}

impl View for MLP {
    type V = Seq<LayerView>;

    closed spec fn view(&self) -> Seq<LayerView> {
        Seq::new(self.layers@.len(), |i: int| self.layers@[i]@)
    }
}

/// Every layer is well formed in `g`.
pub open spec fn mlp_wf(g: Seq<NodeView>, m: Seq<LayerView>) -> bool {
    forall|i: int| 0 <= i < m.len() ==> layer_wf(g, #[trigger] m[i])
}

/// Number of inputs of the `i`-th layer of a network with `nin` inputs and
/// layers of `nouts` neurons: what the layer before it puts out.
pub open spec fn layer_inputs(nin: nat, nouts: Seq<usize>, i: int) -> nat {
    if i == 0 {
        nin
    } else {
        nouts[i - 1] as nat
    }
}

/// Activation of the `i`-th of `count` layers: ReLU in every layer but the
/// last, which applies none.
pub open spec fn layer_activation(count: nat, i: int) -> Activation {
    if i + 1 < count {
        Activation::ReLU
    } else {
        Activation::Identity
    }
}

/// Number of parameters of the first `k` layers.
pub open spec fn param_count(nin: nat, nouts: Seq<usize>, k: nat) -> nat
    decreases k,
{
    if k == 0 {
        0
    } else {
        (param_count(nin, nouts, (k - 1) as nat) + nouts[k - 1] * (layer_inputs(nin, nouts, k - 1)
            + 1)) as nat
    }
}

/// The network that is created when the graph holds `base` nodes: the layers'
/// parameters follow one another.
pub open spec fn fresh_mlp(base: nat, nin: nat, nouts: Seq<usize>) -> Seq<LayerView> {
    Seq::new(
        nouts.len(),
        |i: int|
            fresh_layer(
                base + param_count(nin, nouts, i as nat),
                layer_inputs(nin, nouts, i),
                nouts[i] as nat,
                layer_activation(nouts.len(), i),
            ),
    )
}

/// Graph and outputs after the first `k` layers: each layer reads what the
/// layer before it put out, the first one reads `x`.
pub open spec fn mlp_call(g: Seq<NodeView>, m: Seq<LayerView>, x: Seq<Autograd>, k: nat) -> (
    Seq<NodeView>,
    Seq<Autograd>,
)
    decreases k,
{
    if k == 0 {
        (g, x)
    } else {
        let (g1, current) = mlp_call(g, m, x, (k - 1) as nat);
        layer_call(g1, m[k - 1], current, m[k - 1].neurons.len())
    }
}

/// The parameters of the first `k` layers, layer by layer.
pub open spec fn mlp_params(m: Seq<LayerView>, k: nat) -> Seq<Autograd>
    decreases k,
{
    if k == 0 {
        Seq::empty()
    } else {
        mlp_params(m, (k - 1) as nat) + layer_params(m[k - 1], m[k - 1].neurons.len())
    }
}

/// Appending nodes keeps a network well formed.
pub proof fn lemma_grow_keeps_mlp(g: Seq<NodeView>, g2: Seq<NodeView>, m: Seq<LayerView>)
    requires
        g.is_prefix_of(g2),
        mlp_wf(g, m),
    ensures
        mlp_wf(g2, m),
{
    assert forall|i: int| 0 <= i < m.len() implies layer_wf(g2, #[trigger] m[i]) by {
        lemma_grow_keeps_layer(g, g2, m[i]);
    }
}

impl MLP {
    /// Creates the parameters of a network with `nin` inputs and one layer of
    /// `nouts[i]` neurons for each `i`, layer by layer. Every layer but the last
    /// applies ReLU.
    pub fn new(nin: usize, nouts: &[usize], g: &mut Graph) -> (m: MLP)
        requires
            old(g).wf(),
        ensures
            final(g).wf(),
            final(g)@ == with_leaves(old(g)@, param_count(nin as nat, nouts@, nouts@.len())),
            m@ == fresh_mlp(old(g)@.len(), nin as nat, nouts@),
            mlp_wf(final(g)@, m@),
    {
        let ghost g0 = g@;
        let mut sizes: Vec<usize> = Vec::new();
        sizes.push(nin);
        sizes.extend_from_slice(nouts);
        let mut layers: Vec<Layer> = Vec::new();
        let mut i: usize = 0;
        while i < nouts.len()
            invariant
                i <= nouts.len(),
                sizes@ == seq![nin] + nouts@,
                g.wf(),
                g@ == with_leaves(g0, param_count(nin as nat, nouts@, i as nat)),
                layers@.len() == i,
                forall|t: int|
                    0 <= t < i ==> (#[trigger] layers@[t])@ == fresh_mlp(
                        g0.len(),
                        nin as nat,
                        nouts@,
                    )[t],
                forall|t: int| 0 <= t < i ==> layer_wf(g@, (#[trigger] layers@[t])@),
            decreases nouts.len() - i,
        {
            let ghost g1 = g@;
            let ghost before = layers@;
            let activation = if i < nouts.len() - 1 {
                Activation::ReLU
            } else {
                Activation::Identity
            };
            assert(sizes@[i as int] == layer_inputs(nin as nat, nouts@, i as int));
            assert(sizes@[i + 1] == nouts@[i as int]);
            let layer = Layer::new(sizes[i], sizes[i + 1], activation, g);
            layers.push(layer);
            proof {
                assert(g@ =~= with_leaves(g0, param_count(nin as nat, nouts@, (i + 1) as nat)));
                assert(g1.is_prefix_of(g@));
                assert forall|t: int| 0 <= t < i + 1 implies layer_wf(g@, (#[trigger] layers@[t])@) by {
                    if t < i {
                        assert(layers@[t] == before[t]);
                        lemma_grow_keeps_layer(g1, g@, before[t]@);
                    }
                }
                assert forall|t: int| 0 <= t < i + 1 implies (#[trigger] layers@[t])@ == fresh_mlp(
                    g0.len(),
                    nin as nat,
                    nouts@,
                )[t] by {
                    if t < i {
                        assert(layers@[t] == before[t]);
                    }
                }
            }
            i += 1;
        }
        let m = MLP { layers };
        assert(m@ =~= fresh_mlp(g0.len(), nin as nat, nouts@));
        m
    }

    /// Applies the layers one after the other, the first one to `x`, and
    /// returns what the last one puts out; `x` itself if there is no layer.
    pub fn call(&self, x: &[Autograd], g: &mut Graph) -> (outs: Vec<Autograd>)
        requires
            old(g).wf(),
            mlp_wf(old(g)@, self@),
            self@.len() > 0 ==> layer_inputs_fit(old(g)@, self@[0], x@),
        ensures
            final(g).wf(),
            (final(g)@, outs@) == mlp_call(old(g)@, self@, x@, self@.len()),
            old(g)@.is_prefix_of(final(g)@),
    {
        let ghost g0 = g@;
        let mut current: Vec<Autograd> = slice_to_vec(x);
        let mut i: usize = 0;
        while i < self.layers.len()
            invariant
                i <= self.layers.len(),
                self@.len() == self.layers.len(),
                g.wf(),
                g0.is_prefix_of(g@),
                mlp_wf(g0, self@),
                (g@, current@) == mlp_call(g0, self@, x@, i as nat),
                i == 0 ==> self@.len() > 0 ==> layer_inputs_fit(g@, self@[0], current@),
                i > 0 ==> forall|t: int|
                    0 <= t < current@.len() ==> is_scalar(g@, #[trigger] current@[t]),
            decreases self.layers.len() - i,
        {
            let ghost g1 = g@;
            proof {
                assert(self@[i as int] == self.layers@[i as int]@);
                lemma_grow_keeps_mlp(g0, g1, self@);
            }
            current = self.layers[i].call(current.as_slice(), g);
            i += 1;
        }
        current
    }

    /// The handles of the trainable parameters, layer by layer.
    pub fn parameters(&self) -> (params: Vec<Autograd>)
        ensures
            params@ == mlp_params(self@, self@.len()),
    {
        let mut params: Vec<Autograd> = Vec::new();
        let mut i: usize = 0;
        while i < self.layers.len()
            invariant
                i <= self.layers.len(),
                self@.len() == self.layers.len(),
                params@ == mlp_params(self@, i as nat),
            decreases self.layers.len() - i,
        {
            let mut own = self.layers[i].parameters();
            assert(self@[i as int] == self.layers@[i as int]@);
            params.append(&mut own);
            i += 1;
        }
        params
    }
}

} // verus!
