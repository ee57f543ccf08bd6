use crate::autograd::{graph_wf, in_graph, kids, node_wf, shape_of, Autograd, Graph, NodeView, Op};
use crate::order::{post_order, reachable, well_ordered};
use vstd::prelude::*;

verus! {

/// How the gradient of a node reaches one of its operands. In each rule `y` is
/// the node and the contribution is added to what the operand's gradient
/// already holds.
#[derive(Clone, Copy, Debug, PartialEq, Eq, Structural)]
pub enum GradRule {
    /// `y = a + b`: the contribution is `y.grad`.
    Pass,
    /// `y = a · b`, towards `a`: the contribution is `y.grad · transpose(rhs.value)`,
    /// where `rhs` is `b`.
    TimesTransposed { rhs: Autograd },
    /// `y = a · b`, towards `b`: the contribution is `transpose(lhs.value) · y.grad`,
    /// where `lhs` is `a`.
    TransposedTimes { lhs: Autograd },
    /// `y = tanh(x)`: the contribution is `(1 − y.value²) ⊙ y.grad`, element by
    /// element, from the value of `y` and not of `x`.
    TanhLocal,
    /// `y = relu(x)`: the contribution is `mask ⊙ y.grad`, element by element,
    /// where `mask` is 1 where `y.value` is positive and 0 elsewhere.
    ReluMask,
}

/// One accumulation of the backward pass: the gradient of `node` flows along
/// its `slot`-th operand edge into the gradient of `target`.
#[derive(Clone, Copy, Debug, PartialEq, Eq, Structural)]
pub struct GradStep {
    pub node: Autograd,
    pub slot: usize,
    pub target: Autograd,
    pub rule: GradRule,
}

/// The rule for the `slot`-th operand edge of `v`.
pub open spec fn rule_of(g: Seq<NodeView>, v: Autograd, slot: int) -> GradRule {
    match g[v.index as int].op {
        Op::Leaf | Op::Add => GradRule::Pass,
        Op::MatMul => if slot == 0 {
            GradRule::TimesTransposed { rhs: kids(g, v)[1] }
        } else {
            GradRule::TransposedTimes { lhs: kids(g, v)[0] }
        },
        Op::Tanh => GradRule::TanhLocal,
        Op::ReLU => GradRule::ReluMask,
    }
}

/// The step for the `slot`-th operand edge of `v`.
pub open spec fn step_of(g: Seq<NodeView>, v: Autograd, slot: int) -> GradStep {
    GradStep { node: v, slot: slot as usize, target: kids(g, v)[slot], rule: rule_of(g, v, slot) }
}

/// The steps that `v` dispatches: one for each of its operand edges, in operand
/// order; none for a leaf.
pub open spec fn node_steps(g: Seq<NodeView>, v: Autograd) -> Seq<GradStep> {
    Seq::new(kids(g, v).len(), |k: int| step_of(g, v, k))
}

/// The steps of the nodes of `order`, the last node first.
pub open spec fn schedule(g: Seq<NodeView>, order: Seq<Autograd>) -> Seq<GradStep>
    decreases order.len(),
{
    if order.len() == 0 {
        Seq::empty()
    } else {
        node_steps(g, order.last()) + schedule(g, order.drop_last())
    }
}

/// The backward pass from `root`: the nodes that can be reached from it
/// dispatch in reverse post-order, `root` first.
pub open spec fn backward_steps(g: Seq<NodeView>, root: Autograd) -> Seq<GradStep> {
    schedule(g, post_order(g, root))
}

/// Shape of what a step adds to its target's gradient.
pub open spec fn contribution_shape(g: Seq<NodeView>, x: GradStep) -> (nat, nat) {
    match x.rule {
        GradRule::Pass | GradRule::TanhLocal | GradRule::ReluMask => shape_of(g, x.node),
        GradRule::TimesTransposed { rhs } => (shape_of(g, x.node).0, shape_of(g, rhs).0),
        GradRule::TransposedTimes { lhs } => (shape_of(g, lhs).1, shape_of(g, x.node).1),
    }
}

/// The matrix product that a step asks for is defined: the inner dimensions
/// agree.
pub open spec fn operands_conform(g: Seq<NodeView>, x: GradStep) -> bool {
    match x.rule {
        GradRule::TimesTransposed { rhs } => in_graph(g, rhs) && shape_of(g, x.node).1 == shape_of(
            g,
            rhs,
        ).1,
        GradRule::TransposedTimes { lhs } => in_graph(g, lhs) && shape_of(g, lhs).0 == shape_of(
            g,
            x.node,
        ).0,
        _ => true,
    }
}

/// The step can be carried out on tensors of the graph's shapes, and what it
/// adds has the shape of its target's gradient.
pub open spec fn step_fits(g: Seq<NodeView>, x: GradStep) -> bool {
    &&& in_graph(g, x.node)
    &&& in_graph(g, x.target)
    &&& operands_conform(g, x)
    &&& contribution_shape(g, x) == shape_of(g, x.target)
}

/// `x` is the step of an operand edge of a node that `order` lists.
pub open spec fn is_step_of(g: Seq<NodeView>, order: Seq<Autograd>, x: GradStep) -> bool {
    &&& order.contains(x.node)
    &&& x.slot < kids(g, x.node).len()
    &&& x == step_of(g, x.node, x.slot as int)
}

/// Every edge of the graph has a step that fits: what flows along the edge has
/// the shape of the operand's gradient.
pub proof fn lemma_step_fits(g: Seq<NodeView>, v: Autograd, k: int)
    requires
        graph_wf(g),
        in_graph(g, v),
        0 <= k < kids(g, v).len(),
    ensures
        step_fits(g, step_of(g, v, k)),
        step_of(g, v, k).slot == k,
{
    assert(node_wf(g, v.index as int));
    assert(kids(g, v)[k].index < v.index);
    if kids(g, v).len() == 2 {
        assert(kids(g, v)[0].index < v.index);
        assert(kids(g, v)[1].index < v.index);
    }
}

/// What remains of a topological order without its last node is one.
proof fn lemma_drop_last_well_ordered(g: Seq<NodeView>, order: Seq<Autograd>)
    requires
        well_ordered(g, order),
        order.len() > 0,
    ensures
        well_ordered(g, order.drop_last()),
{
    let pre = order.drop_last();
    assert forall|i: int| 0 <= i < pre.len() implies in_graph(g, #[trigger] pre[i]) by {
        assert(pre[i] == order[i]);
    }
    assert forall|i: int, j: int| 0 <= i < pre.len() && 0 <= j < pre.len() && i != j implies pre[i]
        != pre[j] by {
        assert(pre[i] == order[i] && pre[j] == order[j]);
    }
    assert forall|i: int, k: int| 0 <= i < pre.len() && 0 <= k < kids(g, pre[i]).len() implies pre.take(
        i,
    ).contains(#[trigger] kids(g, pre[i])[k]) by {
        assert(pre[i] == order[i]);
        assert(pre.take(i) =~= order.take(i));
    }
}

/// The schedule of an order holds exactly the steps of the operand edges of
/// the nodes that the order lists.
pub proof fn lemma_schedule_steps(g: Seq<NodeView>, order: Seq<Autograd>, x: GradStep)
    requires
        graph_wf(g),
        forall|i: int| 0 <= i < order.len() ==> in_graph(g, #[trigger] order[i]),
    ensures
        schedule(g, order).contains(x) <==> is_step_of(g, order, x),
    decreases order.len(),
{
    if order.len() > 0 {
        let v = order.last();
        let pre = order.drop_last();
        let ns = node_steps(g, v);
        let sp = schedule(g, pre);
        let s = schedule(g, order);
        assert(s == ns + sp);
        assert(in_graph(g, order[order.len() - 1]));
        assert forall|i: int| 0 <= i < pre.len() implies in_graph(g, #[trigger] pre[i]) by {
            assert(pre[i] == order[i]);
        }
        lemma_schedule_steps(g, pre, x);
        if s.contains(x) {
            let i = choose|i: int| 0 <= i < s.len() && s[i] == x;
            if i < ns.len() {
                lemma_step_fits(g, v, i);
                assert(order[order.len() - 1] == x.node);
            } else {
                assert(sp[i - ns.len()] == x);
                assert(sp.contains(x));
                let p = choose|p: int| 0 <= p < pre.len() && pre[p] == x.node;
                assert(order[p] == x.node);
            }
        }
        if is_step_of(g, order, x) {
            let p = choose|p: int| 0 <= p < order.len() && order[p] == x.node;
            if p == order.len() - 1 {
                assert(s[x.slot as int] == ns[x.slot as int]);
            } else {
                assert(pre[p] == x.node);
                let i = choose|i: int| 0 <= i < sp.len() && sp[i] == x;
                assert(s[ns.len() + i] == x);
            }
        }
    } else {
        assert(schedule(g, order) =~= Seq::<GradStep>::empty());
    }
}

/// In the schedule of a topological order no gradient is read before it is
/// complete: every step that adds to the gradient of a node comes before every
/// step that the node itself dispatches.
pub proof fn lemma_schedule_finalizes(g: Seq<NodeView>, order: Seq<Autograd>)
    requires
        graph_wf(g),
        well_ordered(g, order),
    ensures
        forall|i: int, j: int|
            #![trigger schedule(g, order)[i], schedule(g, order)[j]]
            0 <= i < schedule(g, order).len() && 0 <= j < schedule(g, order).len() && schedule(
                g,
                order,
            )[i].target == schedule(g, order)[j].node ==> i < j,
    decreases order.len(),
{
    let s = schedule(g, order);
    if order.len() > 0 {
        let v = order.last();
        let pre = order.drop_last();
        let ns = node_steps(g, v);
        let sp = schedule(g, pre);
        assert(s == ns + sp);
        lemma_drop_last_well_ordered(g, order);
        lemma_schedule_finalizes(g, pre);
        assert(in_graph(g, order[order.len() - 1]));
        assert(node_wf(g, v.index as int));
        assert forall|i: int, j: int|
            #![trigger s[i], s[j]]
            0 <= i < s.len() && 0 <= j < s.len() && s[i].target == s[j].node implies i < j by {
            if j < ns.len() {
                // s[j] is dispatched by v, so s[i] adds to the gradient of v
                if i < ns.len() {
                    assert(kids(g, v)[i].index < v.index);
                } else {
                    let x = sp[i - ns.len()];
                    assert(sp.contains(x));
                    lemma_schedule_steps(g, pre, x);
                    let p = choose|p: int| 0 <= p < pre.len() && pre[p] == x.node;
                    assert(order[p] == x.node);
                    assert(order.take(p).contains(kids(g, order[p])[x.slot as int]));
                    let q = choose|q: int|
                        0 <= q < order.take(p).len() && order.take(p)[q] == v;
                    assert(order[q] == v);
                }
            } else if i >= ns.len() {
                assert(sp[i - ns.len()].target == sp[j - ns.len()].node);
            }
        }
    } else {
        assert(s =~= Seq::<GradStep>::empty());
    }
}

/// In the schedule of a topological order no operand edge has two steps.
pub proof fn lemma_schedule_no_duplicates(g: Seq<NodeView>, order: Seq<Autograd>)
    requires
        graph_wf(g),
        well_ordered(g, order),
    ensures
        schedule(g, order).no_duplicates(),
    decreases order.len(),
{
    let s = schedule(g, order);
    if order.len() > 0 {
        let v = order.last();
        let pre = order.drop_last();
        let ns = node_steps(g, v);
        let sp = schedule(g, pre);
        assert(s == ns + sp);
        lemma_drop_last_well_ordered(g, order);
        lemma_schedule_no_duplicates(g, pre);
        assert(in_graph(g, order[order.len() - 1]));
        assert forall|i: int, j: int| 0 <= i < s.len() && 0 <= j < s.len() && i < j implies s[i]
            != s[j] by {
            if j < ns.len() {
                lemma_step_fits(g, v, i);
                lemma_step_fits(g, v, j);
            } else if i < ns.len() {
                let x = sp[j - ns.len()];
                assert(sp.contains(x));
                lemma_schedule_steps(g, pre, x);
                let p = choose|p: int| 0 <= p < pre.len() && pre[p] == x.node;
                assert(order[p] == x.node);
            } else {
                assert(sp[i - ns.len()] != sp[j - ns.len()]);
            }
        }
        assert forall|i: int, j: int| 0 <= i < s.len() && 0 <= j < s.len() && i != j implies s[i]
            != s[j] by {
            if i < j {
            } else {
                assert(s[j] != s[i]);
            }
        }
    } else {
        assert(s =~= Seq::<GradStep>::empty());
    }
}

/// The backward pass from `root` holds one step for each operand edge of each
/// node that can be reached from `root`, and nothing else.
pub proof fn lemma_backward_covers_edges(g: Seq<NodeView>, root: Autograd, x: GradStep)
    requires
        graph_wf(g),
        in_graph(g, root),
    ensures
        backward_steps(g, root).contains(x) <==> reachable(g, root, x.node) && x.slot < kids(
            g,
            x.node,
        ).len() && x == step_of(g, x.node, x.slot as int),
{
    crate::order::lemma_post_order_topological(g, root);
    crate::order::lemma_post_order_lists_reachable(g, root, x.node);
    lemma_schedule_steps(g, post_order(g, root), x);
}

/// The backward pass from `root` takes no operand edge twice: a node used by
/// several nodes, or twice by one, gets one contribution for each use.
pub proof fn lemma_backward_once_per_edge(g: Seq<NodeView>, root: Autograd)
    requires
        graph_wf(g),
        in_graph(g, root),
    ensures
        backward_steps(g, root).no_duplicates(),
{
    crate::order::lemma_post_order_topological(g, root);
    lemma_schedule_no_duplicates(g, post_order(g, root));
}

/// In the backward pass from `root` every step that adds to the gradient of a
/// node comes before every step that the node itself dispatches: when a node
/// dispatches, its gradient already holds the contributions of all its uses.
pub proof fn lemma_backward_finalizes(g: Seq<NodeView>, root: Autograd)
    requires
        graph_wf(g),
        in_graph(g, root),
    ensures
        forall|i: int, j: int|
            #![trigger backward_steps(g, root)[i], backward_steps(g, root)[j]]
            0 <= i < backward_steps(g, root).len() && 0 <= j < backward_steps(g, root).len()
                && backward_steps(g, root)[i].target == backward_steps(g, root)[j].node ==> i < j,
{
    crate::order::lemma_post_order_topological(g, root);
    lemma_schedule_finalizes(g, post_order(g, root));
}

/// Every step of the backward pass from `root` fits the shapes of the graph:
/// the products it asks for are defined, and what it adds to a gradient has
/// the shape of that gradient, which is the shape of the node's value.
pub proof fn lemma_backward_shapes(g: Seq<NodeView>, root: Autograd)
    requires
        graph_wf(g),
        in_graph(g, root),
    ensures
        forall|i: int|
            0 <= i < backward_steps(g, root).len() ==> step_fits(
                g,
                #[trigger] backward_steps(g, root)[i],
            ),
{
    let s = backward_steps(g, root);
    crate::order::lemma_post_order_topological(g, root);
    assert forall|i: int| 0 <= i < s.len() implies step_fits(g, #[trigger] s[i]) by {
        let x = s[i];
        assert(s.contains(x));
        lemma_schedule_steps(g, post_order(g, root), x);
        let order = post_order(g, root);
        let p = choose|p: int| 0 <= p < order.len() && order[p] == x.node;
        assert(in_graph(g, order[p]));
        lemma_step_fits(g, x.node, x.slot as int);
    }
}

/// A node below `from` is an operand of some node that can be reached from
/// `from`.
proof fn lemma_reachable_has_parent(g: Seq<NodeView>, from: Autograd, to: Autograd) -> (edge: (
    Autograd,
    int,
))
    requires
        reachable(g, from, to),
        from != to,
    ensures
        reachable(g, from, edge.0),
        0 <= edge.1 < kids(g, edge.0).len(),
        kids(g, edge.0)[edge.1] == to,
    decreases from.index,
{
    let k = choose|k: int|
        0 <= k < kids(g, from).len() && (#[trigger] kids(g, from)[k]).index < from.index
            && reachable(g, kids(g, from)[k], to);
    let c = kids(g, from)[k];
    if c == to {
        (from, k)
    } else {
        let edge = lemma_reachable_has_parent(g, c, to);
        assert(reachable(g, from, edge.0));
        edge
    }
}

/// The backward pass from `root` adds to the gradient of every node below
/// `root`.
pub proof fn lemma_backward_reaches_all(g: Seq<NodeView>, root: Autograd, x: Autograd)
    requires
        graph_wf(g),
        in_graph(g, root),
        reachable(g, root, x),
        x != root,
    ensures
        exists|i: int|
            0 <= i < backward_steps(g, root).len() && (#[trigger] backward_steps(g, root)[i]).target
                == x,
{
    let (p, k) = lemma_reachable_has_parent(g, root, x);
    crate::order::lemma_reachable_index(g, root, p);
    lemma_step_fits(g, p, k);
    let step = step_of(g, p, k);
    lemma_backward_covers_edges(g, root, step);
    let s = backward_steps(g, root);
    let i = choose|i: int| 0 <= i < s.len() && s[i] == step;
    assert(s[i].target == x);
}

/// The backward pass from `root` never adds to the gradient of `root`: what the
/// caller seeded there is what every rule reads.
pub proof fn lemma_backward_keeps_seed(g: Seq<NodeView>, root: Autograd)
    requires
        graph_wf(g),
        in_graph(g, root),
    ensures
        forall|i: int|
            0 <= i < backward_steps(g, root).len() ==> (#[trigger] backward_steps(
                g,
                root,
            )[i]).target != root,
{
    let s = backward_steps(g, root);
    assert forall|i: int| 0 <= i < s.len() implies (#[trigger] s[i]).target != root by {
        let x = s[i];
        assert(s.contains(x));
        lemma_backward_covers_edges(g, root, x);
        crate::order::lemma_reachable_index(g, root, x.node);
        assert(node_wf(g, x.node.index as int));
        assert(kids(g, x.node)[x.slot as int].index < x.node.index);
    }
}

/// The backward pass from `root` begins with the steps of `root` itself.
pub proof fn lemma_backward_root_first(g: Seq<NodeView>, root: Autograd, k: int)
    requires
        in_graph(g, root),
        0 <= k < kids(g, root).len(),
    ensures
        k < backward_steps(g, root).len(),
        backward_steps(g, root)[k] == step_of(g, root, k),
{
    crate::order::lemma_post_order_root_last(g, root);
}

impl Autograd {
    /// Plans the backward pass from `self`, whose gradient the caller has
    /// seeded: the nodes that can be reached from `self` dispatch in reverse
    /// topological order, `self` first, each by the rule of its operation.
    /// Carried out in the order given, the steps add to every gradient the
    /// contributions of all edges into its node before that node dispatches.
    pub fn backward(&self, g: &Graph) -> (steps: Vec<GradStep>)
        requires
            g.wf(),
            g.contains(*self),
        ensures
            steps@ == backward_steps(g@, *self),
            forall|i: int| 0 <= i < steps@.len() ==> step_fits(g@, #[trigger] steps@[i]),
            forall|i: int, j: int|
                #![trigger steps@[i], steps@[j]]
                0 <= i < steps@.len() && 0 <= j < steps@.len() && steps@[i].target
                    == steps@[j].node ==> i < j,
    {
        let topo = self.topological_order(g);
        let mut steps: Vec<GradStep> = Vec::new();
        let mut i: usize = topo.len();
        assert(topo@.take(i as int) =~= topo@);
        while i > 0
            invariant
                i <= topo.len(),
                g.wf(),
                well_ordered(g@, topo@),
                steps@ + schedule(g@, topo@.take(i as int)) == schedule(g@, topo@),
            decreases i,
        {
            let ghost before = steps@;
            let ghost upto = topo@.take(i as int);
            i -= 1;
            let node = topo[i];
            assert(in_graph(g@, topo@[i as int]));
            assert(node_wf(g@, node.index as int));
            let op = node.op(g);
            let children = node.children(g);
            match op {
                Op::Leaf => {},
                Op::Add => {
                    steps.push(
                        GradStep { node, slot: 0, target: children[0], rule: GradRule::Pass },
                    );
                    steps.push(
                        GradStep { node, slot: 1, target: children[1], rule: GradRule::Pass },
                    );
                },
                Op::MatMul => {
                    steps.push(
                        GradStep {
                            node,
                            slot: 0,
                            target: children[0],
                            rule: GradRule::TimesTransposed { rhs: children[1] },
                        },
                    );
                    steps.push(
                        GradStep {
                            node,
                            slot: 1,
                            target: children[1],
                            rule: GradRule::TransposedTimes { lhs: children[0] },
                        },
                    );
                },
                Op::Tanh => {
                    steps.push(
                        GradStep { node, slot: 0, target: children[0], rule: GradRule::TanhLocal },
                    );
                },
                Op::ReLU => {
                    steps.push(
                        GradStep { node, slot: 0, target: children[0], rule: GradRule::ReluMask },
                    );
                },
            }
            proof {
                assert(steps@ =~= before + node_steps(g@, node));
                assert(upto.last() == node);
                assert(upto.drop_last() =~= topo@.take(i as int));
                assert(schedule(g@, upto) == node_steps(g@, node) + schedule(
                    g@,
                    topo@.take(i as int),
                ));
                assert(steps@ + schedule(g@, topo@.take(i as int)) =~= before + schedule(g@, upto));
            }
        }
        assert(steps@ + Seq::<GradStep>::empty() =~= steps@);
        proof {
            lemma_backward_shapes(g@, *self);
            lemma_backward_finalizes(g@, *self);
        }
        steps
    }
}

} // verus!
