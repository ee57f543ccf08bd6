use vstd::prelude::*;

verus! {

/// How a node's value is obtained from its operands.
#[derive(Clone, Copy, Debug, PartialEq, Eq, Structural)]
pub enum Op {
    /// An input or a trainable parameter: no operands.
    Leaf,
    /// Element-wise sum of two tensors of one shape.
    Add,
    /// Matrix product of an m×k tensor and a k×n tensor.
    MatMul,
    /// Element-wise hyperbolic tangent.
    Tanh,
    /// Element-wise maximum with zero.
    ReLU,
}

/// A handle on one node of a [`Graph`]. Copying a handle never copies the node:
/// two handles name the same node exactly when their indices are equal, whatever
/// numbers the nodes hold.
#[derive(Clone, Copy, Debug, PartialEq, Eq, Hash, Structural)]
pub struct Autograd {
    pub index: usize,
}

/// What the contracts say of one node: its operation, its operands in order, and
/// the shape shared by its value and its gradient.
pub struct NodeView {
    pub op: Op,
    pub children: Seq<Autograd>,
    pub rows: nat,
    pub cols: nat,
}

#[derive(Clone, Debug)]
struct Node {
    op: Op,
    children: Vec<Autograd>,
    rows: usize,
    cols: usize,
}

impl View for Node {
    type V = NodeView;

    closed spec fn view(&self) -> NodeView {
        NodeView {
            op: self.op,
            children: self.children@,
            rows: self.rows as nat,
            cols: self.cols as nat,
        }
    }
}

/// The arena that owns every node. Nodes are only ever appended, so a handle
/// stays valid for as long as the graph lives.
#[derive(Clone, Debug)]
pub struct Graph {
    nodes: Vec<Node>,
}

impl View for Graph {
    type V = Seq<NodeView>;

    closed spec fn view(&self) -> Seq<NodeView> {
        Seq::new(self.nodes@.len(), |i: int| self.nodes@[i]@)
    }
}

/// Number of operands that an operation takes.
pub open spec fn arity(op: Op) -> nat {
    match op {
        Op::Leaf => 0,
        Op::Add | Op::MatMul => 2,
        Op::Tanh | Op::ReLU => 1,
    }
}

/// The handle names a node of `g`.
pub open spec fn in_graph(g: Seq<NodeView>, h: Autograd) -> bool {
    h.index < g.len()
}

/// Operands of `h`, in order.
pub open spec fn kids(g: Seq<NodeView>, h: Autograd) -> Seq<Autograd> {
    g[h.index as int].children
}

/// Rows and columns of the value (and of the gradient) of `h`.
pub open spec fn shape_of(g: Seq<NodeView>, h: Autograd) -> (nat, nat) {
    (g[h.index as int].rows, g[h.index as int].cols)
}

/// A leaf of the given shape.
pub open spec fn leaf_node(rows: nat, cols: nat) -> NodeView {
    NodeView { op: Op::Leaf, children: Seq::empty(), rows, cols }
}

/// The node that an element-wise operation on `a` creates.
pub open spec fn unary_node(g: Seq<NodeView>, op: Op, a: Autograd) -> NodeView {
    NodeView { op, children: seq![a], rows: shape_of(g, a).0, cols: shape_of(g, a).1 }
}

/// The node that `a + b` creates.
pub open spec fn add_node(g: Seq<NodeView>, a: Autograd, b: Autograd) -> NodeView {
    NodeView { op: Op::Add, children: seq![a, b], rows: shape_of(g, a).0, cols: shape_of(g, a).1 }
}

/// The node that the matrix product `a · b` creates: as many rows as `a`, as many
/// columns as `b`.
pub open spec fn matmul_node(g: Seq<NodeView>, a: Autograd, b: Autograd) -> NodeView {
    NodeView {
        op: Op::MatMul,
        children: seq![a, b],
        rows: shape_of(g, a).0,
        cols: shape_of(g, b).1,
    }
}

/// The shapes around node `v` fit its operation.
pub open spec fn shapes_fit(g: Seq<NodeView>, v: int) -> bool {
    let n = g[v];
    match n.op {
        Op::Leaf => true,
        Op::Add => shape_of(g, n.children[0]) == (n.rows, n.cols) && shape_of(g, n.children[1])
            == (n.rows, n.cols),
        Op::MatMul => {
            let a = shape_of(g, n.children[0]);
            let b = shape_of(g, n.children[1]);
            a.0 == n.rows && a.1 == b.0 && b.1 == n.cols
        },
        Op::Tanh | Op::ReLU => shape_of(g, n.children[0]) == (n.rows, n.cols),
    }
}

/// Node `v` has as many operands as its operation takes, every operand was
/// created before it, and the shapes fit.
pub open spec fn node_wf(g: Seq<NodeView>, v: int) -> bool {
    let n = g[v];
    &&& n.children.len() == arity(n.op)
    &&& forall|k: int| 0 <= k < n.children.len() ==> (#[trigger] n.children[k]).index < v
    &&& shapes_fit(g, v)
}

/// Every node is well formed. Since operands always precede the node built from
/// them, the graph has no cycle.
pub open spec fn graph_wf(g: Seq<NodeView>) -> bool {
    forall|v: int| 0 <= v < g.len() ==> #[trigger] node_wf(g, v)
}

/// Appending a node disturbs none of the nodes before it.
pub proof fn lemma_push_keeps_wf(g: Seq<NodeView>, n: NodeView)
    requires
        graph_wf(g),
        node_wf(g.push(n), g.len() as int),
    ensures
        graph_wf(g.push(n)),
{
    let g2 = g.push(n);
    assert forall|v: int| 0 <= v < g2.len() implies #[trigger] node_wf(g2, v) by {
        if v < g.len() {
            assert(node_wf(g, v));
            assert(g2[v] == g[v]);
            assert forall|k: int| 0 <= k < g[v].children.len() implies g2[g[v].children[k].index as int]
                == g[g[v].children[k].index as int] by {
                assert(g[v].children[k].index < v);
            }
        }
    }
}

impl Graph {
    /// The graph's invariant.
    pub open spec fn wf(&self) -> bool {
        graph_wf(self@)
    }

    /// The handle names a node of this graph.
    pub open spec fn contains(&self, h: Autograd) -> bool {
        in_graph(self@, h)
    }

    /// An empty graph.
    pub fn new() -> (g: Graph)
        ensures
            g.wf(),
            g@ == Seq::<NodeView>::empty(),
    {
        Graph { nodes: Vec::new() }
    }

    /// Number of nodes created so far.
    pub fn len(&self) -> (n: usize)
        ensures
            n == self@.len(),
    {
        self.nodes.len()
    }

    fn push_node(&mut self, node: Node) -> (h: Autograd)
        ensures
            h.index == old(self)@.len(),
            final(self)@ == old(self)@.push(node@),
    {
        let index: usize = self.nodes.len();
        self.nodes.push(node);
        assert(self@ =~= old(self)@.push(node@));
        Autograd { index }
    }
}

impl Autograd {
    /// Creates a leaf whose value has `rows` rows and `cols` columns: an input or
    /// a trainable parameter, with no operands.
    pub fn new(rows: usize, cols: usize, g: &mut Graph) -> (h: Autograd)
        requires
            old(g).wf(),
        ensures
            final(g).wf(),
            h.index == old(g)@.len(),
            final(g)@ == old(g)@.push(leaf_node(rows as nat, cols as nat)),
    {
        let node = Node { op: Op::Leaf, children: Vec::new(), rows, cols };
        let h = g.push_node(node);
        proof {
            lemma_push_keeps_wf(old(g)@, leaf_node(rows as nat, cols as nat));
        }
        h
    }

    /// Rows and columns of this node's value.
    pub fn shape(&self, g: &Graph) -> (s: (usize, usize))
        requires
            g.contains(*self),
        ensures
            (s.0 as nat, s.1 as nat) == shape_of(g@, *self),
    {
        (g.nodes[self.index].rows, g.nodes[self.index].cols)
    }

    /// The operation that created this node.
    pub fn op(&self, g: &Graph) -> (op: Op)
        requires
            g.contains(*self),
        ensures
            op == g@[self.index as int].op,
    {
        g.nodes[self.index].op
    }

    /// The operands of this node, in the order in which they were given.
    pub fn children(&self, g: &Graph) -> (c: Vec<Autograd>)
        requires
            g.contains(*self),
        ensures
            c@ == kids(g@, *self),
    {
        let node = &g.nodes[self.index];
        let mut c: Vec<Autograd> = Vec::new();
        let mut k: usize = 0;
        while k < node.children.len()
            invariant
                k <= node.children.len(),
                c@ == node.children@.take(k as int),
            decreases node.children.len() - k,
        {
            c.push(node.children[k]);
            k += 1;
        }
        assert(node.children@.take(k as int) =~= node.children@);
        c
    }

    /// The element-wise sum `self + other`: a new node with operands
    /// `[self, other]`. Both must have one shape.
    pub fn add(&self, other: &Autograd, g: &mut Graph) -> (h: Autograd)
        requires
            old(g).wf(),
            old(g).contains(*self),
            old(g).contains(*other),
            shape_of(old(g)@, *self) == shape_of(old(g)@, *other),
        ensures
            final(g).wf(),
            h.index == old(g)@.len(),
            final(g)@ == old(g)@.push(add_node(old(g)@, *self, *other)),
    {
        let (rows, cols) = self.shape(g);
        let mut children: Vec<Autograd> = Vec::new();
        children.push(*self);
        children.push(*other);
        let node = Node { op: Op::Add, children, rows, cols };
        assert(node@.children =~= seq![*self, *other]);
        let h = g.push_node(node);
        proof {
            lemma_push_keeps_wf(old(g)@, add_node(old(g)@, *self, *other));
        }
        h
    }

    /// The matrix product `self · other`: a new node with operands
    /// `[self, other]`. `self` must have as many columns as `other` has rows.
    pub fn mul(&self, other: &Autograd, g: &mut Graph) -> (h: Autograd)
        requires
            old(g).wf(),
            old(g).contains(*self),
            old(g).contains(*other),
            shape_of(old(g)@, *self).1 == shape_of(old(g)@, *other).0,
        ensures
            final(g).wf(),
            h.index == old(g)@.len(),
            final(g)@ == old(g)@.push(matmul_node(old(g)@, *self, *other)),
    {
        let (rows, _) = self.shape(g);
        let (_, cols) = other.shape(g);
        let mut children: Vec<Autograd> = Vec::new();
        children.push(*self);
        children.push(*other);
        let node = Node { op: Op::MatMul, children, rows, cols };
        assert(node@.children =~= seq![*self, *other]);
        let h = g.push_node(node);
        proof {
            lemma_push_keeps_wf(old(g)@, matmul_node(old(g)@, *self, *other));
        }
        h
    }

    /// The element-wise hyperbolic tangent of `self`: a new node of the same
    /// shape with the one operand `self`.
    pub fn tanh(&self, g: &mut Graph) -> (h: Autograd)
        requires
            old(g).wf(),
            old(g).contains(*self),
        ensures
            final(g).wf(),
            h.index == old(g)@.len(),
            final(g)@ == old(g)@.push(unary_node(old(g)@, Op::Tanh, *self)),
    {
        let (rows, cols) = self.shape(g);
        let mut children: Vec<Autograd> = Vec::new();
        children.push(*self);
        let node = Node { op: Op::Tanh, children, rows, cols };
        assert(node@.children =~= seq![*self]);
        let h = g.push_node(node);
        proof {
            lemma_push_keeps_wf(old(g)@, unary_node(old(g)@, Op::Tanh, *self));
        }
        h
    }

    /// The element-wise maximum of `self` and zero: a new node of the same shape
    /// with the one operand `self`.
    pub fn relu(&self, g: &mut Graph) -> (h: Autograd)
        requires
            old(g).wf(),
            old(g).contains(*self),
        ensures
            final(g).wf(),
            h.index == old(g)@.len(),
            final(g)@ == old(g)@.push(unary_node(old(g)@, Op::ReLU, *self)),
    {
        let (rows, cols) = self.shape(g);
        let mut children: Vec<Autograd> = Vec::new();
        children.push(*self);
        let node = Node { op: Op::ReLU, children, rows, cols };
        assert(node@.children =~= seq![*self]);
        let h = g.push_node(node);
        proof {
            lemma_push_keeps_wf(old(g)@, unary_node(old(g)@, Op::ReLU, *self));
        }
        h
    }
}

} // verus!
