//! Properties that hold across the builder, the root selection and the walk.
use vstd::prelude::*;

use crate::graph::{built_from, roots_below, root_seq, GraphModel};
use crate::package::{all_resolved, is_ref_index, is_resolved, ref_at, resolves_to, Package};
use crate::tree::tree_model;
use crate::walk::TreeModel;

verus! {

/// Building the graph of the same records twice gives the same graph, and so
/// the same rendered tree: the output depends on the records alone.
pub proof fn lemma_deterministic(pkgs: Seq<Package>, g1: GraphModel, g2: GraphModel)
    requires
        all_resolved(pkgs),
        built_from(g1, pkgs),
        built_from(g2, pkgs),
    ensures
        g1 == g2,
        tree_model(g1) == tree_model(g2),
{
    assert(g1.names =~= g2.names);
    assert(g1.versions =~= g2.versions);
    assert forall|i: int| 0 <= i < pkgs.len() implies #[trigger] g1.edges[i] =~= g2.edges[i] by {
        assert forall|j: int| 0 <= j < g1.edges[i].len() implies g1.edges[i][j] == g2.edges[i][j] by {
            assert(is_ref_index(pkgs, i, j));
            let d = ref_at(pkgs, i, j);
            assert(is_resolved(pkgs, d));
            assert(resolves_to(pkgs, d, g1.edges[i][j]));
            assert(resolves_to(pkgs, d, g2.edges[i][j]));
        }
    }
    assert(g1.edges =~= g2.edges);
}

proof fn lemma_roots_below(g: GraphModel, k: nat)
    requires
        k <= g.len(),
    ensures
        forall|a: int| 0 <= a < roots_below(g, k).len() ==> 0 <= #[trigger] roots_below(g, k)[a] < k,
        forall|a: int, b: int|
            0 <= a < b < roots_below(g, k).len() ==> roots_below(g, k)[a] < roots_below(g, k)[b],
        forall|l: int| 0 <= l < k ==> (roots_below(g, k).contains(l) <==> #[trigger] g.is_root(l)),
        forall|l: int| roots_below(g, k).contains(l) ==> 0 <= l < k,
    decreases k,
{
    if k > 0 {
        let prev = roots_below(g, (k - 1) as nat);
        lemma_roots_below(g, (k - 1) as nat);
        let cur = roots_below(g, k);
        assert forall|l: int| 0 <= l < k implies (cur.contains(l) <==> #[trigger] g.is_root(l)) by {
            if g.is_root(k - 1) {
                assert(cur == prev.push(k - 1));
                if l < k - 1 && prev.contains(l) {
                    let a = choose|a: int| 0 <= a < prev.len() && prev[a] == l;
                    assert(cur[a] == l);
                }
                if l == k - 1 {
                    assert(cur[cur.len() - 1] == l);
                }
            }
        }
    }
}

/// A package that another package depends on is never a root; one that no
/// other package depends on is a root, and appears exactly once among them.
pub proof fn lemma_root_correctness(g: GraphModel)
    requires
        g.wf(),
    ensures
        forall|k: int| 0 <= k < g.len() && g.has_other_parent(k) ==> !root_seq(g).contains(k),
        forall|k: int|
            0 <= k < g.len() && !g.has_other_parent(k) ==> root_seq(g).contains(k),
        forall|a: int, b: int|
            0 <= a < root_seq(g).len() && 0 <= b < root_seq(g).len() && a != b ==> root_seq(g)[a]
                != root_seq(g)[b],
{
    lemma_roots_below(g, g.len());
    let s = root_seq(g);
    assert forall|a: int, b: int|
        0 <= a < s.len() && 0 <= b < s.len() && a != b implies s[a] != s[b] by {
        if a < b {
            assert(s[a] < s[b]);
        } else {
            assert(s[b] < s[a]);
        }
    }
    assert forall|k: int| 0 <= k < g.len() && g.has_other_parent(k) implies !s.contains(k) by {
        assert(!g.is_root(k));
    }
    assert forall|k: int| 0 <= k < g.len() && !g.has_other_parent(k) implies s.contains(k) by {
        assert(g.is_root(k));
    }
}

/// No records: nothing can fail to resolve, and the graph built from them
/// has no roots and renders as an empty tree.
pub proof fn lemma_empty_input(pkgs: Seq<Package>, g: GraphModel)
    requires
        pkgs.len() == 0,
        built_from(g, pkgs),
    ensures
        all_resolved(pkgs),
        root_seq(g) == Seq::<int>::empty(),
        tree_model(g) == Seq::<TreeModel>::empty(),
{
    assert(root_seq(g) =~= Seq::<int>::empty());
    assert(tree_model(g) =~= Seq::<TreeModel>::empty());
}

} // verus!
