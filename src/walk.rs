//! The depth-first walk that renders a dependency graph as a finite tree.
//!
//! One set of visited nodes is shared by the whole walk. A node is expanded,
//! with its dependencies below it, the first time the walk reaches it; every
//! later occurrence is a leaf. Which occurrence of a shared dependency is the
//! expanded one follows from the order of the walk alone: first root first,
//! dependencies in the order their references were listed.
use vstd::prelude::*;

use crate::graph::{Graph, GraphModel, NodeId};

verus! {

/// A rendered package: its label and, where it is expanded, its dependencies.
#[derive(Debug, PartialEq, Eq)]
pub struct RenderedNode {
    pub label: String,
    pub children: Vec<RenderedNode>,
}

/// The mathematical content of a rendered tree, with the graph node each
/// occurrence stands for and whether the walk expanded it there.
pub struct TreeModel {
    pub node: int,
    pub expanded: bool,
    pub label: Seq<char>,
    pub children: Seq<TreeModel>,
}

/// `t` holds exactly the labels and shape of `m`.
pub open spec fn renders_as(t: RenderedNode, m: TreeModel) -> bool
    decreases t, 1nat, 0nat,
{
    &&& t.label@ == m.label
    &&& t.children@.len() == m.children.len()
    &&& children_render_as(t, m, t.children@.len())
}

/// The first `n` children of `t` hold exactly the labels and shape of the
/// first `n` children of `m`.
pub open spec fn children_render_as(t: RenderedNode, m: TreeModel, n: nat) -> bool
    decreases t, 0nat, n,
{
    if n == 0 {
        true
    } else if n > t.children@.len() {
        false
    } else {
        &&& children_render_as(t, m, (n - 1) as nat)
        &&& renders_as(t.children@[n - 1], m.children[n - 1])
    }
}

proof fn lemma_children_render_as(t: RenderedNode, m: TreeModel, n: nat)
    requires
        n <= t.children@.len(),
    ensures
        children_render_as(t, m, n) <==> forall|j: int|
            0 <= j < n ==> #[trigger] renders_as(t.children@[j], m.children[j]),
    decreases n,
{
    if n > 0 {
        lemma_children_render_as(t, m, (n - 1) as nat);
        let last = n - 1;
        if forall|j: int| 0 <= j < n ==> #[trigger] renders_as(t.children@[j], m.children[j]) {
            assert(renders_as(t.children@[last], m.children[last]));
            assert(children_render_as(t, m, n));
        }
        if children_render_as(t, m, n) {
            assert forall|j: int| 0 <= j < n implies #[trigger] renders_as(
                t.children@[j],
                m.children[j],
            ) by {
                if j < last {
                    assert(children_render_as(t, m, (n - 1) as nat));
                }
            }
        }
    }
}

/// `t` holds exactly the labels of `m`, and each child of `t` those of the
/// child of `m` at its position.
pub proof fn lemma_renders_as(t: RenderedNode, m: TreeModel)
    ensures
        renders_as(t, m) <==> {
            &&& t.label@ == m.label
            &&& t.children@.len() == m.children.len()
            &&& forall|j: int|
                0 <= j < t.children@.len() ==> #[trigger] renders_as(t.children@[j], m.children[j])
        },
{
    lemma_children_render_as(t, m, t.children@.len());
}

/// Each of `ts` holds exactly the labels and shape of the model at its position.
pub open spec fn renders_all_as(ts: Seq<RenderedNode>, ms: Seq<TreeModel>) -> bool {
    &&& ts.len() == ms.len()
    &&& forall|j: int| 0 <= j < ts.len() ==> #[trigger] renders_as(ts[j], ms[j])
}

/// The number of nodes not yet visited.
pub open spec fn unvisited(v: Seq<bool>) -> nat
    decreases v.len(),
{
    if v.len() == 0 {
        0
    } else {
        unvisited(v.drop_last()) + if v.last() {
            0nat
        } else {
            1nat
        }
    }
}

/// `b` marks every node that `a` marks, over the same nodes.
pub open spec fn grows(a: Seq<bool>, b: Seq<bool>) -> bool {
    &&& a.len() == b.len()
    &&& forall|i: int| 0 <= i < a.len() && a[i] ==> #[trigger] b[i]
}

/// Every element of `ks` is a node of `g`.
pub open spec fn all_nodes(g: GraphModel, ks: Seq<int>) -> bool {
    forall|a: int| 0 <= a < ks.len() ==> 0 <= #[trigger] ks[a] < g.len()
}

/// Walks node `k` with the visited set `v`: the tree it renders as and the
/// visited set after. `fuel` bounds the depth of the definition; the walk
/// itself is given by any `fuel` at least the number of unvisited nodes.
pub open spec fn walk_node(g: GraphModel, v: Seq<bool>, k: int, fuel: nat) -> (TreeModel, Seq<
    bool,
>)
    decreases fuel, 0nat,
{
    if fuel == 0 || v[k] {
        (TreeModel { node: k, expanded: false, label: g.label(k), children: seq![] }, v)
    } else {
        let (cs, after) = walk_seq(g, v.update(k, true), g.edges[k], (fuel - 1) as nat);
        (TreeModel { node: k, expanded: true, label: g.label(k), children: cs }, after)
    }
}

/// Walks the nodes `ks` one after the other, each with the visited set that
/// the previous ones left.
pub open spec fn walk_seq(g: GraphModel, v: Seq<bool>, ks: Seq<int>, fuel: nat) -> (Seq<
    TreeModel,
>, Seq<bool>)
    decreases fuel, ks.len(),
{
    if ks.len() == 0 {
        (seq![], v)
    } else {
        let (ts, mid) = walk_seq(g, v, ks.drop_last(), fuel);
        let (t, after) = walk_node(g, mid, ks.last(), fuel);
        (ts.push(t), after)
    }
}

/// The visited set at the start of a walk: nothing visited.
pub open spec fn none_visited(g: GraphModel) -> Seq<bool> {
    Seq::new(g.len(), |i: int| false)
}

/// What the walk from `roots` over `g` renders.
pub open spec fn render_model(g: GraphModel, roots: Seq<int>) -> Seq<TreeModel> {
    walk_seq(g, none_visited(g), roots, g.len()).0
}

proof fn lemma_unvisited_mark(v: Seq<bool>, k: int)
    requires
        0 <= k < v.len(),
        !v[k],
    ensures
        unvisited(v.update(k, true)) + 1 == unvisited(v),
    decreases v.len(),
{
    if k == v.len() - 1 {
        assert(v.update(k, true).drop_last() =~= v.drop_last());
    } else {
        assert(v.update(k, true).drop_last() =~= v.drop_last().update(k, true));
        lemma_unvisited_mark(v.drop_last(), k);
    }
}

proof fn lemma_unvisited_grows(a: Seq<bool>, b: Seq<bool>)
    requires
        grows(a, b),
    ensures
        unvisited(b) <= unvisited(a),
    decreases a.len(),
{
    if a.len() > 0 {
        lemma_unvisited_grows(a.drop_last(), b.drop_last());
    }
}

proof fn lemma_unvisited_none(n: nat)
    ensures
        unvisited(Seq::new(n, |i: int| false)) == n,
    decreases n,
{
    if n > 0 {
        assert(Seq::new(n, |i: int| false).drop_last() =~= Seq::new((n - 1) as nat, |i: int| false));
        lemma_unvisited_none((n - 1) as nat);
    }
}

proof fn lemma_walk_node_grows(g: GraphModel, v: Seq<bool>, k: int, fuel: nat)
    requires
        g.wf(),
        v.len() == g.len(),
        0 <= k < g.len(),
    ensures
        grows(v, walk_node(g, v, k, fuel).1),
    decreases fuel, 0nat,
{
    if fuel > 0 && !v[k] {
        assert(all_nodes(g, g.edges[k]));
        lemma_walk_seq_grows(g, v.update(k, true), g.edges[k], (fuel - 1) as nat);
    }
}

proof fn lemma_walk_seq_grows(g: GraphModel, v: Seq<bool>, ks: Seq<int>, fuel: nat)
    requires
        g.wf(),
        v.len() == g.len(),
        all_nodes(g, ks),
    ensures
        grows(v, walk_seq(g, v, ks, fuel).1),
    decreases fuel, ks.len(),
{
    if ks.len() > 0 {
        let mid = walk_seq(g, v, ks.drop_last(), fuel).1;
        lemma_walk_seq_grows(g, v, ks.drop_last(), fuel);
        lemma_walk_node_grows(g, mid, ks.last(), fuel);
    }
}

proof fn lemma_walk_node_fuel(g: GraphModel, v: Seq<bool>, k: int, f1: nat, f2: nat)
    requires
        g.wf(),
        v.len() == g.len(),
        0 <= k < g.len(),
        f1 >= unvisited(v),
        f2 >= unvisited(v),
    ensures
        walk_node(g, v, k, f1) == walk_node(g, v, k, f2),
    decreases f1, 0nat,
{
    if !v[k] {
        lemma_unvisited_mark(v, k);
        assert(all_nodes(g, g.edges[k]));
        lemma_walk_seq_fuel(g, v.update(k, true), g.edges[k], (f1 - 1) as nat, (f2 - 1) as nat);
    }
}

proof fn lemma_walk_seq_fuel(g: GraphModel, v: Seq<bool>, ks: Seq<int>, f1: nat, f2: nat)
    requires
        g.wf(),
        v.len() == g.len(),
        all_nodes(g, ks),
        f1 >= unvisited(v),
        f2 >= unvisited(v),
    ensures
        walk_seq(g, v, ks, f1) == walk_seq(g, v, ks, f2),
    decreases f1, ks.len(),
{
    if ks.len() > 0 {
        let mid = walk_seq(g, v, ks.drop_last(), f1).1;
        lemma_walk_seq_fuel(g, v, ks.drop_last(), f1, f2);
        lemma_walk_seq_grows(g, v, ks.drop_last(), f1);
        lemma_unvisited_grows(v, mid);
        lemma_walk_node_fuel(g, mid, ks.last(), f1, f2);
    }
}

/// Renders node `k`, expanding it only if `visited` does not hold it yet.
fn render_node(g: &Graph, visited: &mut Vec<bool>, k: NodeId) -> (r: RenderedNode)
    requires
        g@.wf(),
        old(visited)@.len() == g@.len(),
        k < g@.len(),
    ensures
        grows(old(visited)@, final(visited)@),
        renders_as(r, walk_node(g@, old(visited)@, k as int, unvisited(old(visited)@)).0),
        final(visited)@ == walk_node(g@, old(visited)@, k as int, unvisited(old(visited)@)).1,
    decreases unvisited(old(visited)@),
{
    let ghost m = g@;
    let ghost v0 = visited@;
    let label = g.label(k);
    if visited[k] {
        let r = RenderedNode { label, children: Vec::new() };
        proof {
            lemma_renders_as(r, walk_node(m, v0, k as int, unvisited(v0)).0);
        }
        return r;
    }
    proof {
        lemma_unvisited_mark(v0, k as int);
    }
    visited.set(k, true);
    let ghost v1 = visited@;
    let ghost fuel = unvisited(v1);
    let targets: &Vec<NodeId> = g.targets(k);
    let ghost es = m.edges[k as int];
    assert(all_nodes(m, es));
    let mut children: Vec<RenderedNode> = Vec::new();
    let mut j: usize = 0;
    while j < targets.len()
        invariant
            m == g@,
            m.wf(),
            k < m.len(),
            v0 == old(visited)@,
            v0.len() == m.len(),
            !v0[k as int],
            v1 == v0.update(k as int, true),
            fuel == unvisited(v1),
            fuel + 1 == unvisited(v0),
            es == m.edges[k as int],
            all_nodes(m, es),
            targets@.map_values(|t: NodeId| t as int) == es,
            j <= targets@.len(),
            grows(v1, visited@),
            renders_all_as(children@, walk_seq(m, v1, es.take(j as int), fuel).0),
            visited@ == walk_seq(m, v1, es.take(j as int), fuel).1,
        decreases targets@.len() - j,
    {
        let c = targets[j];
        let ghost vj = visited@;
        let ghost prefix = es.take(j as int);
        let ghost next = es.take(j + 1);
        proof {
            assert(next.drop_last() =~= prefix);
            assert(next.last() == c as int);
            assert(all_nodes(m, prefix));
            lemma_unvisited_grows(v1, vj);
            lemma_walk_node_fuel(m, vj, c as int, unvisited(vj), fuel);
        }
        let t = render_node(g, visited, c);
        proof {
            let (ts, mid) = walk_seq(m, v1, prefix, fuel);
            assert(mid == vj);
            assert(walk_seq(m, v1, next, fuel).0 == ts.push(walk_node(m, vj, c as int, fuel).0));
        }
        children.push(t);
        proof {
            let ms = walk_seq(m, v1, next, fuel).0;
            assert forall|a: int| 0 <= a < children@.len() implies #[trigger] renders_as(
                children@[a],
                ms[a],
            ) by {}
        }
        j = j + 1;
    }
    assert(es.take(targets@.len() as int) =~= es);
    let r = RenderedNode { label, children };
    proof {
        let model = walk_node(m, v0, k as int, unvisited(v0));
        assert(model.0.children == walk_seq(m, v1, es, fuel).0);
        assert(model.1 == walk_seq(m, v1, es, fuel).1);
        assert(r.children@ == children@);
        assert(r.label@ == model.0.label);
        assert(r.children@.len() == model.0.children.len());
        assert forall|a: int| 0 <= a < r.children@.len() implies #[trigger] renders_as(
            r.children@[a],
            model.0.children[a],
        ) by {
            assert(renders_as(children@[a], model.0.children[a]));
        }
        lemma_renders_as(r, model.0);
        assert(renders_as(r, model.0));
    }
    r
}

/// Renders the graph from `roots`, in order, with one visited set shared by
/// the whole walk.
pub fn render_tree(g: &Graph, roots: &Vec<NodeId>) -> (r: Vec<RenderedNode>)
    requires
        g@.wf(),
        forall|a: int| 0 <= a < roots@.len() ==> #[trigger] roots@[a] < g@.len(),
    ensures
        renders_all_as(r@, render_model(g@, roots@.map_values(|t: NodeId| t as int))),
{
    let ghost m = g@;
    let n = g.node_count();
    let mut visited: Vec<bool> = Vec::new();
    let mut i: usize = 0;
    while i < n
        invariant
            n == m.len(),
            i <= n,
            visited@ =~= Seq::new(i as nat, |l: int| false),
        decreases n - i,
    {
        visited.push(false);
        i = i + 1;
    }
    let ghost v0 = visited@;
    let ghost fuel = m.len();
    let ghost ks = roots@.map_values(|t: NodeId| t as int);
    proof {
        lemma_unvisited_none(m.len());
        assert(v0 == none_visited(m));
    }
    let mut r: Vec<RenderedNode> = Vec::new();
    let mut j: usize = 0;
    while j < roots.len()
        invariant
            m == g@,
            m.wf(),
            v0 == none_visited(m),
            fuel == m.len(),
            unvisited(v0) == fuel,
            ks == roots@.map_values(|t: NodeId| t as int),
            forall|a: int| 0 <= a < roots@.len() ==> #[trigger] roots@[a] < m.len(),
            j <= roots@.len(),
            grows(v0, visited@),
            renders_all_as(r@, walk_seq(m, v0, ks.take(j as int), fuel).0),
            visited@ == walk_seq(m, v0, ks.take(j as int), fuel).1,
        decreases roots@.len() - j,
    {
        let c = roots[j];
        let ghost vj = visited@;
        let ghost prefix = ks.take(j as int);
        let ghost next = ks.take(j + 1);
        proof {
            assert(next.drop_last() =~= prefix);
            assert(next.last() == c as int);
            assert(all_nodes(m, prefix));
            lemma_unvisited_grows(v0, vj);
            lemma_walk_node_fuel(m, vj, c as int, unvisited(vj), fuel);
        }
        let t = render_node(g, &mut visited, c);
        proof {
            let (ts, mid) = walk_seq(m, v0, prefix, fuel);
            assert(mid == vj);
            assert(walk_seq(m, v0, next, fuel).0 == ts.push(walk_node(m, vj, c as int, fuel).0));
        }
        r.push(t);
        proof {
            let ms = walk_seq(m, v0, next, fuel).0;
            assert forall|a: int| 0 <= a < r@.len() implies #[trigger] renders_as(r@[a], ms[a]) by {}
        }
        j = j + 1;
    }
    assert(ks.take(roots@.len() as int) =~= ks);
    r
}

} // verus!

verus! {

/// The number of rendered packages in `t`, itself included.
pub open spec fn tree_size(t: TreeModel) -> nat
    decreases t, 1nat, 0nat,
{
    1 + children_size(t, t.children.len())
}

/// The number of rendered packages in the first `n` children of `t`.
pub open spec fn children_size(t: TreeModel, n: nat) -> nat
    decreases t, 0nat, n,
{
    if n == 0 || n > t.children.len() {
        0
    } else {
        children_size(t, (n - 1) as nat) + tree_size(t.children[n - 1])
    }
}

/// The number of rendered packages in the trees `ts`.
pub open spec fn forest_size(ts: Seq<TreeModel>) -> nat
    decreases ts.len(),
{
    if ts.len() == 0 {
        0
    } else {
        forest_size(ts.drop_last()) + tree_size(ts.last())
    }
}

/// The number of edges leaving the nodes below `k` that `v` does not mark.
pub open spec fn pending_edges(g: GraphModel, v: Seq<bool>, k: nat) -> nat
    decreases k,
{
    if k == 0 {
        0
    } else {
        pending_edges(g, v, (k - 1) as nat) + if v[k - 1] {
            0nat
        } else {
            g.edges[k - 1].len()
        }
    }
}

/// The number of edges of `g`.
pub open spec fn edge_count(g: GraphModel) -> nat {
    pending_edges(g, none_visited(g), g.len())
}

proof fn lemma_children_size(t: TreeModel, n: nat)
    requires
        n <= t.children.len(),
    ensures
        children_size(t, n) == forest_size(t.children.take(n as int)),
    decreases n,
{
    if n > 0 {
        lemma_children_size(t, (n - 1) as nat);
        assert(t.children.take(n as int).drop_last() =~= t.children.take(n - 1));
    }
}

proof fn lemma_pending_mark(g: GraphModel, v: Seq<bool>, k: int, m: nat)
    requires
        0 <= k < v.len(),
        m <= v.len(),
        !v[k],
    ensures
        k < m ==> pending_edges(g, v.update(k, true), m) + g.edges[k].len() == pending_edges(g, v, m),
        k >= m ==> pending_edges(g, v.update(k, true), m) == pending_edges(g, v, m),
    decreases m,
{
    if m > 0 {
        lemma_pending_mark(g, v, k, (m - 1) as nat);
    }
}

proof fn lemma_walk_node_size(g: GraphModel, v: Seq<bool>, k: int, fuel: nat)
    requires
        g.wf(),
        v.len() == g.len(),
        0 <= k < g.len(),
    ensures
        tree_size(walk_node(g, v, k, fuel).0) + pending_edges(g, walk_node(g, v, k, fuel).1, g.len())
            <= 1 + pending_edges(g, v, g.len()),
    decreases fuel, 0nat,
{
    let t = walk_node(g, v, k, fuel).0;
    if fuel > 0 && !v[k] {
        let es = g.edges[k];
        assert(all_nodes(g, es));
        lemma_walk_seq_size(g, v.update(k, true), es, (fuel - 1) as nat);
        lemma_pending_mark(g, v, k, g.len());
        lemma_children_size(t, t.children.len());
        assert(t.children.take(t.children.len() as int) =~= t.children);
    } else {
        assert(children_size(t, 0) == 0);
    }
}

proof fn lemma_walk_seq_size(g: GraphModel, v: Seq<bool>, ks: Seq<int>, fuel: nat)
    requires
        g.wf(),
        v.len() == g.len(),
        all_nodes(g, ks),
    ensures
        forest_size(walk_seq(g, v, ks, fuel).0) + pending_edges(g, walk_seq(g, v, ks, fuel).1, g.len())
            <= ks.len() + pending_edges(g, v, g.len()),
        walk_seq(g, v, ks, fuel).0.len() == ks.len(),
    decreases fuel, ks.len(),
{
    if ks.len() > 0 {
        let (ts, mid) = walk_seq(g, v, ks.drop_last(), fuel);
        lemma_walk_seq_size(g, v, ks.drop_last(), fuel);
        lemma_walk_seq_grows(g, v, ks.drop_last(), fuel);
        lemma_walk_node_size(g, mid, ks.last(), fuel);
        let out = walk_seq(g, v, ks, fuel).0;
        assert(out.drop_last() =~= ts);
    }
}

/// However the graph is shaped, cycles included, the walk from `roots`
/// renders at most one package per root and one per edge of the graph.
pub proof fn lemma_render_is_finite(g: GraphModel, roots: Seq<int>)
    requires
        g.wf(),
        all_nodes(g, roots),
    ensures
        forest_size(render_model(g, roots)) <= roots.len() + edge_count(g),
{
    lemma_walk_seq_size(g, none_visited(g), roots, g.len());
}

} // verus!

verus! {

/// The number of occurrences of node `k` in `t`; with `expanded_only`, of
/// those the walk expanded.
pub open spec fn count_in_tree(t: TreeModel, k: int, expanded_only: bool) -> nat
    decreases t, 1nat, 0nat,
{
    (if t.node == k && (!expanded_only || t.expanded) {
        1nat
    } else {
        0nat
    }) + count_in_children(t, k, expanded_only, t.children.len())
}

/// [`count_in_tree`] over the first `n` children of `t`.
pub open spec fn count_in_children(t: TreeModel, k: int, expanded_only: bool, n: nat) -> nat
    decreases t, 0nat, n,
{
    if n == 0 || n > t.children.len() {
        0
    } else {
        count_in_children(t, k, expanded_only, (n - 1) as nat) + count_in_tree(
            t.children[n - 1],
            k,
            expanded_only,
        )
    }
}

/// [`count_in_tree`] over the trees `ts`.
pub open spec fn count_in_forest(ts: Seq<TreeModel>, k: int, expanded_only: bool) -> nat
    decreases ts.len(),
{
    if ts.len() == 0 {
        0
    } else {
        count_in_forest(ts.drop_last(), k, expanded_only) + count_in_tree(
            ts.last(),
            k,
            expanded_only,
        )
    }
}

proof fn lemma_count_in_children(t: TreeModel, k: int, e: bool, n: nat)
    requires
        n <= t.children.len(),
    ensures
        count_in_children(t, k, e, n) == count_in_forest(t.children.take(n as int), k, e),
    decreases n,
{
    if n > 0 {
        lemma_count_in_children(t, k, e, (n - 1) as nat);
        assert(t.children.take(n as int).drop_last() =~= t.children.take(n - 1));
    }
}

proof fn lemma_walk_node_counts(g: GraphModel, v: Seq<bool>, k0: int, fuel: nat)
    requires
        g.wf(),
        v.len() == g.len(),
        0 <= k0 < g.len(),
        fuel >= unvisited(v),
    ensures
        forall|k: int|
            0 <= k < g.len() ==> #[trigger] count_in_tree(walk_node(g, v, k0, fuel).0, k, true) == if !v[k]
                && walk_node(g, v, k0, fuel).1[k] {
                1nat
            } else {
                0nat
            },
        forall|k: int|
            0 <= k < g.len() && #[trigger] count_in_tree(walk_node(g, v, k0, fuel).0, k, false) > 0
                ==> walk_node(g, v, k0, fuel).1[k],
    decreases fuel, 0nat,
{
    let (t, out) = walk_node(g, v, k0, fuel);
    if !v[k0] {
        lemma_unvisited_mark(v, k0);
        let v1 = v.update(k0, true);
        let es = g.edges[k0];
        assert(all_nodes(g, es));
        lemma_walk_seq_counts(g, v1, es, (fuel - 1) as nat);
        lemma_walk_seq_grows(g, v1, es, (fuel - 1) as nat);
        assert(t.children.take(t.children.len() as int) =~= t.children);
        assert forall|k: int| 0 <= k < g.len() implies #[trigger] count_in_tree(t, k, true) == if !v[k]
            && out[k] {
            1nat
        } else {
            0nat
        } by {
            lemma_count_in_children(t, k, true, t.children.len());
        }
        assert forall|k: int| 0 <= k < g.len() && #[trigger] count_in_tree(t, k, false) > 0 implies out[k] by {
            lemma_count_in_children(t, k, false, t.children.len());
            assert(v1[k0]);
        }
    } else {
        assert forall|k: int| 0 <= k < g.len() implies #[trigger] count_in_tree(t, k, true) == 0 by {
            assert(count_in_children(t, k, true, 0) == 0);
        }
        assert forall|k: int| 0 <= k < g.len() && #[trigger] count_in_tree(t, k, false) > 0 implies out[k] by {
            assert(count_in_children(t, k, false, 0) == 0);
        }
    }
}

proof fn lemma_walk_seq_counts(g: GraphModel, v: Seq<bool>, ks: Seq<int>, fuel: nat)
    requires
        g.wf(),
        v.len() == g.len(),
        all_nodes(g, ks),
        fuel >= unvisited(v),
    ensures
        forall|k: int|
            0 <= k < g.len() ==> #[trigger] count_in_forest(walk_seq(g, v, ks, fuel).0, k, true) == if !v[k]
                && walk_seq(g, v, ks, fuel).1[k] {
                1nat
            } else {
                0nat
            },
        forall|k: int|
            0 <= k < g.len() && #[trigger] count_in_forest(walk_seq(g, v, ks, fuel).0, k, false) > 0
                ==> walk_seq(g, v, ks, fuel).1[k],
    decreases fuel, ks.len(),
{
    if ks.len() > 0 {
        let (ts, mid) = walk_seq(g, v, ks.drop_last(), fuel);
        let (out_ts, out) = walk_seq(g, v, ks, fuel);
        lemma_walk_seq_counts(g, v, ks.drop_last(), fuel);
        lemma_walk_seq_grows(g, v, ks.drop_last(), fuel);
        lemma_unvisited_grows(v, mid);
        lemma_walk_node_counts(g, mid, ks.last(), fuel);
        lemma_walk_node_grows(g, mid, ks.last(), fuel);
        assert(out_ts.drop_last() =~= ts);
        assert forall|k: int| 0 <= k < g.len() implies #[trigger] count_in_forest(out_ts, k, true) == if !v[k]
            && out[k] {
            1nat
        } else {
            0nat
        } by {
            assert(count_in_forest(ts, k, true) == if !v[k] && mid[k] {
                1nat
            } else {
                0nat
            });
        }
        assert forall|k: int| 0 <= k < g.len() && #[trigger] count_in_forest(out_ts, k, false) > 0 implies out[k] by {
            if count_in_forest(ts, k, false) > 0 {
                assert(mid[k]);
            }
        }
    }
}

/// However the graph is shaped, cycles included, every package that occurs in
/// the rendering from `roots` is expanded at exactly one of its occurrences;
/// all its other occurrences are leaves.
pub proof fn lemma_each_package_expanded_once(g: GraphModel, roots: Seq<int>, k: int)
    requires
        g.wf(),
        all_nodes(g, roots),
        0 <= k < g.len(),
    ensures
        count_in_forest(render_model(g, roots), k, true) <= 1,
        count_in_forest(render_model(g, roots), k, false) > 0 ==> count_in_forest(
            render_model(g, roots),
            k,
            true,
        ) == 1,
{
    lemma_unvisited_none(g.len());
    lemma_walk_seq_counts(g, none_visited(g), roots, g.len());
}

} // verus!
