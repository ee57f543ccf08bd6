use crate::autograd::{graph_wf, in_graph, kids, node_wf, Autograd, Graph, NodeView};
use std::collections::HashSet;
use vstd::prelude::*;

verus! {

/// `to` is `from` itself or can be reached from it along operand edges.
pub open spec fn reachable(g: Seq<NodeView>, from: Autograd, to: Autograd) -> bool
    decreases from.index,
{
    from == to || exists|k: int|
        0 <= k < kids(g, from).len() && (#[trigger] kids(g, from)[k]).index < from.index
            && reachable(g, kids(g, from)[k], to)
}

/// The order `acc` after a depth-first visit of `v`: nothing new if `v` is
/// already listed, else what the visits of its operands add, in their order, and
/// then `v` itself.
pub open spec fn visit(g: Seq<NodeView>, v: Autograd, acc: Seq<Autograd>) -> Seq<Autograd>
    decreases v.index, 1nat, 0nat,
{
    if acc.contains(v) || !in_graph(g, v) {
        acc
    } else {
        visit_children(g, v, 0, acc).push(v)
    }
}

/// The order `acc` after the visits of the operands of `v` from the `k`-th on.
pub open spec fn visit_children(g: Seq<NodeView>, v: Autograd, k: nat, acc: Seq<Autograd>) -> Seq<
    Autograd,
>
    decreases v.index, 0nat, kids(g, v).len() - k,
{
    if k >= kids(g, v).len() {
        acc
    } else if kids(g, v)[k as int].index < v.index {
        visit_children(g, v, k + 1, visit(g, kids(g, v)[k as int], acc))
    } else {
        acc
    }
}

/// Depth-first post-order of the nodes reachable from `root`.
pub open spec fn post_order(g: Seq<NodeView>, root: Autograd) -> Seq<Autograd> {
    visit(g, root, Seq::empty())
}

/// Every operand of a listed node is listed before it.
pub open spec fn children_first(g: Seq<NodeView>, s: Seq<Autograd>) -> bool {
    forall|i: int, k: int|
        0 <= i < s.len() && 0 <= k < kids(g, s[i]).len() ==> s.take(i).contains(
            #[trigger] kids(g, s[i])[k],
        )
}

/// A topological order of part of the graph: only nodes of the graph, each at
/// most once, each after all of its operands.
pub open spec fn well_ordered(g: Seq<NodeView>, s: Seq<Autograd>) -> bool {
    &&& forall|i: int| 0 <= i < s.len() ==> in_graph(g, #[trigger] s[i])
    &&& s.no_duplicates()
    &&& children_first(g, s)
}

/// A visit only ever appends.
pub proof fn lemma_visit_extends(g: Seq<NodeView>, v: Autograd, acc: Seq<Autograd>)
    ensures
        acc.is_prefix_of(visit(g, v, acc)),
    decreases v.index, 1nat, 0nat,
{
    if !(acc.contains(v) || !in_graph(g, v)) {
        lemma_visit_children_extends(g, v, 0, acc);
    }
}

/// The visits of the operands only ever append.
pub proof fn lemma_visit_children_extends(
    g: Seq<NodeView>,
    v: Autograd,
    k: nat,
    acc: Seq<Autograd>,
)
    ensures
        acc.is_prefix_of(visit_children(g, v, k, acc)),
    decreases v.index, 0nat, kids(g, v).len() - k,
{
    if k < kids(g, v).len() && kids(g, v)[k as int].index < v.index {
        let c = kids(g, v)[k as int];
        lemma_visit_extends(g, c, acc);
        lemma_visit_children_extends(g, v, k + 1, visit(g, c, acc));
    }
}

/// What a prefix lists, the whole lists too.
pub proof fn lemma_prefix_contains(a: Seq<Autograd>, b: Seq<Autograd>, h: Autograd)
    requires
        a.is_prefix_of(b),
        a.contains(h),
    ensures
        b.contains(h),
{
    let i = choose|i: int| 0 <= i < a.len() && a[i] == h;
    assert(b[i] == h);
}

/// Along operand edges the indices only fall, and no edge leaves the graph.
pub proof fn lemma_reachable_index(g: Seq<NodeView>, from: Autograd, to: Autograd)
    requires
        graph_wf(g),
        in_graph(g, from),
        reachable(g, from, to),
    ensures
        to.index <= from.index,
        in_graph(g, to),
    decreases from.index,
{
    if from != to {
        let k = choose|k: int|
            0 <= k < kids(g, from).len() && (#[trigger] kids(g, from)[k]).index < from.index
                && reachable(g, kids(g, from)[k], to);
        lemma_reachable_index(g, kids(g, from)[k], to);
    }
}

/// A node whose operands are all listed may be appended to a topological order.
proof fn lemma_push_well_ordered(g: Seq<NodeView>, s: Seq<Autograd>, v: Autograd)
    requires
        well_ordered(g, s),
        in_graph(g, v),
        !s.contains(v),
        forall|k: int| 0 <= k < kids(g, v).len() ==> s.contains(#[trigger] kids(g, v)[k]),
    ensures
        well_ordered(g, s.push(v)),
{
    let t = s.push(v);
    assert forall|i: int, j: int| 0 <= i < t.len() && 0 <= j < t.len() && i != j implies t[i]
        != t[j] by {
        if i < s.len() && j < s.len() {
        } else if i < s.len() {
            assert(s[i] == t[i]);
        } else {
            assert(s[j] == t[j]);
        }
    }
    assert forall|i: int, k: int| 0 <= i < t.len() && 0 <= k < kids(g, t[i]).len() implies t.take(
        i,
    ).contains(#[trigger] kids(g, t[i])[k]) by {
        if i < s.len() {
            assert(t[i] == s[i]);
            assert(t.take(i) =~= s.take(i));
        } else {
            assert(t.take(i) =~= s);
        }
    }
    assert forall|i: int| 0 <= i < t.len() implies in_graph(g, #[trigger] t[i]) by {
        if i < s.len() {
            assert(t[i] == s[i]);
        }
    }
}

/// A visit keeps a topological order topological, lists the visited node, and
/// adds only nodes that can be reached from it.
pub proof fn lemma_visit_well_ordered(g: Seq<NodeView>, v: Autograd, acc: Seq<Autograd>)
    requires
        graph_wf(g),
        in_graph(g, v),
        well_ordered(g, acc),
    ensures
        well_ordered(g, visit(g, v, acc)),
        visit(g, v, acc).contains(v),
        forall|x: Autograd| #[trigger]
            visit(g, v, acc).contains(x) ==> acc.contains(x) || reachable(g, v, x),
    decreases v.index, 1nat, 0nat,
{
    if !acc.contains(v) {
        let r = visit_children(g, v, 0, acc);
        lemma_visit_children_well_ordered(g, v, 0, acc);
        lemma_push_well_ordered(g, r, v);
        let t = r.push(v);
        assert(t[r.len() as int] == v);
        assert forall|x: Autograd| #[trigger] t.contains(x) implies acc.contains(x) || reachable(
            g,
            v,
            x,
        ) by {
            let i = choose|i: int| 0 <= i < t.len() && t[i] == x;
            if i < r.len() {
                assert(r[i] == x);
                assert(r.contains(x));
            }
        }
    }
}

/// The visits of the operands of `v` from the `k`-th on keep a topological
/// order topological, list each of those operands, and add only nodes that lie
/// strictly below `v`.
pub proof fn lemma_visit_children_well_ordered(
    g: Seq<NodeView>,
    v: Autograd,
    k: nat,
    acc: Seq<Autograd>,
)
    requires
        graph_wf(g),
        in_graph(g, v),
        k <= kids(g, v).len(),
        well_ordered(g, acc),
    ensures
        well_ordered(g, visit_children(g, v, k, acc)),
        forall|j: int|
            k <= j < kids(g, v).len() ==> visit_children(g, v, k, acc).contains(
                #[trigger] kids(g, v)[j],
            ),
        forall|x: Autograd| #[trigger]
            visit_children(g, v, k, acc).contains(x) ==> acc.contains(x) || (x.index < v.index
                && reachable(g, v, x)),
    decreases v.index, 0nat, kids(g, v).len() - k,
{
    if k < kids(g, v).len() {
        let c = kids(g, v)[k as int];
        assert(node_wf(g, v.index as int));
        assert(c.index < v.index);
        let r1 = visit(g, c, acc);
        lemma_visit_well_ordered(g, c, acc);
        let r = visit_children(g, v, k + 1, r1);
        lemma_visit_children_well_ordered(g, v, k + 1, r1);
        lemma_visit_children_extends(g, v, k + 1, r1);
        lemma_prefix_contains(r1, r, c);
        assert forall|x: Autograd| #[trigger] r.contains(x) implies acc.contains(x) || (x.index
            < v.index && reachable(g, v, x)) by {
            if r1.contains(x) && !acc.contains(x) {
                assert(reachable(g, c, x));
                lemma_reachable_index(g, c, x);
            }
        }
    }
}

/// A topological order that lists a node lists every node reachable from it.
pub proof fn lemma_listed_closed(g: Seq<NodeView>, s: Seq<Autograd>, v: Autograd, x: Autograd)
    requires
        well_ordered(g, s),
        s.contains(v),
        reachable(g, v, x),
    ensures
        s.contains(x),
    decreases v.index,
{
    if v != x {
        let k = choose|k: int|
            0 <= k < kids(g, v).len() && (#[trigger] kids(g, v)[k]).index < v.index && reachable(
                g,
                kids(g, v)[k],
                x,
            );
        let i = choose|i: int| 0 <= i < s.len() && s[i] == v;
        assert(s.take(i).contains(kids(g, s[i])[k]));
        lemma_prefix_contains(s.take(i), s, kids(g, v)[k]);
        lemma_listed_closed(g, s, kids(g, v)[k], x);
    }
}

/// The depth-first post-order from `root` is a topological order: it lists
/// only nodes of the graph, none twice, and each after all of its operands.
pub proof fn lemma_post_order_topological(g: Seq<NodeView>, root: Autograd)
    requires
        graph_wf(g),
        in_graph(g, root),
    ensures
        well_ordered(g, post_order(g, root)),
{
    lemma_visit_well_ordered(g, root, Seq::empty());
}

/// The depth-first post-order from `root` lists exactly the nodes that can be
/// reached from `root`.
pub proof fn lemma_post_order_lists_reachable(g: Seq<NodeView>, root: Autograd, x: Autograd)
    requires
        graph_wf(g),
        in_graph(g, root),
    ensures
        post_order(g, root).contains(x) <==> reachable(g, root, x),
{
    lemma_visit_well_ordered(g, root, Seq::empty());
    if reachable(g, root, x) {
        lemma_listed_closed(g, post_order(g, root), root, x);
    }
}

/// The depth-first post-order from `root` ends with `root`.
pub proof fn lemma_post_order_root_last(g: Seq<NodeView>, root: Autograd)
    requires
        in_graph(g, root),
    ensures
        post_order(g, root).len() > 0,
        post_order(g, root).last() == root,
{
}

/// The indices of the nodes that an order lists.
pub open spec fn indices(s: Seq<Autograd>) -> Set<usize> {
    Set::new(|i: usize| s.contains(Autograd { index: i }))
}

/// Nothing is listed without being marked, and every marked node below `bound`
/// is listed.
pub open spec fn marks_agree(order: Seq<Autograd>, marked: Set<usize>, bound: int) -> bool {
    &&& indices(order).subset_of(marked)
    &&& forall|i: usize| i < bound && #[trigger] marked.contains(i) ==> indices(order).contains(i)
}

proof fn lemma_indices_prefix(a: Seq<Autograd>, b: Seq<Autograd>)
    requires
        a.is_prefix_of(b),
    ensures
        indices(a).subset_of(indices(b)),
{
    assert forall|i: usize| indices(a).contains(i) implies indices(b).contains(i) by {
        lemma_prefix_contains(a, b, Autograd { index: i });
    }
}

proof fn lemma_indices_push(s: Seq<Autograd>, v: Autograd)
    ensures
        indices(s.push(v)) == indices(s).insert(v.index),
{
    let t = s.push(v);
    assert forall|i: usize| indices(t).contains(i) <==> indices(s).insert(v.index).contains(i) by {
        let h = Autograd { index: i };
        if s.contains(h) {
            let j = choose|j: int| 0 <= j < s.len() && s[j] == h;
            assert(t[j] == h);
        }
        if i == v.index {
            assert(t[s.len() as int] == h);
        }
        if t.contains(h) {
            let j = choose|j: int| 0 <= j < t.len() && t[j] == h;
            if j < s.len() {
                assert(s[j] == h);
            }
        }
    }
    assert(indices(t) =~= indices(s).insert(v.index));
}

impl Autograd {
    /// One depth-first visit: appends to `topo` the nodes that can be reached
    /// from `self` and are not yet marked in `visited`, each after its operands,
    /// and marks them.
    pub fn build_topo(&self, g: &Graph, topo: &mut Vec<Autograd>, visited: &mut HashSet<usize>)
        requires
            g.wf(),
            g.contains(*self),
            marks_agree(old(topo)@, old(visited)@, self.index + 1),
        ensures
            final(topo)@ == visit(g@, *self, old(topo)@),
            final(visited)@ == old(visited)@.union(indices(final(topo)@)),
        decreases self.index,
    {
        broadcast use vstd::std_specs::hash::group_hash_axioms;

        let ghost acc0 = topo@;
        let ghost marked0 = visited@;
        if !visited.contains(&self.index) {
            visited.insert(self.index);
            let children = self.children(g);
            let mut k: usize = 0;
            while k < children.len()
                invariant
                    g.wf(),
                    g.contains(*self),
                    children@ == kids(g@, *self),
                    k <= children.len(),
                    visit_children(g@, *self, k as nat, topo@) == visit_children(
                        g@,
                        *self,
                        0,
                        acc0,
                    ),
                    marks_agree(topo@, visited@, self.index as int),
                    visited@ == marked0.insert(self.index).union(indices(topo@)),
                decreases children.len() - k,
            {
                let child = children[k];
                let ghost before = topo@;
                let ghost marked_before = visited@;
                assert(node_wf(g@, self.index as int));
                assert(kids(g@, *self)[k as int].index < self.index);
                child.build_topo(g, topo, visited);
                proof {
                    lemma_visit_extends(g@, child, before);
                    lemma_indices_prefix(before, topo@);
                    assert(visited@ =~= marked0.insert(self.index).union(indices(topo@)));
                }
                k += 1;
            }
            proof {
                lemma_indices_push(topo@, *self);
            }
            topo.push(*self);
            assert(visited@ =~= marked0.union(indices(topo@)));
        } else {
            assert(indices(acc0).contains(self.index));
            assert(visited@ =~= marked0.union(indices(topo@)));
        }
    }

    /// The nodes that can be reached from `self`, each exactly once and each
    /// after all of its operands, in depth-first post-order; `self` comes last.
    pub fn topological_order(&self, g: &Graph) -> (order: Vec<Autograd>)
        requires
            g.wf(),
            g.contains(*self),
        ensures
            order@ == post_order(g@, *self),
            well_ordered(g@, order@),
            forall|x: Autograd| order@.contains(x) <==> reachable(g@, *self, x),
            order@.len() > 0,
            order@.last() == *self,
    {
        let mut topo: Vec<Autograd> = Vec::new();
        let mut visited: HashSet<usize> = HashSet::new();
        self.build_topo(g, &mut topo, &mut visited);
        proof {
            lemma_post_order_topological(g@, *self);
            lemma_post_order_root_last(g@, *self);
            assert forall|x: Autograd| topo@.contains(x) <==> reachable(g@, *self, x) by {
                lemma_post_order_lists_reachable(g@, *self, x);
            }
        }
        topo
    }
}

} // verus!
