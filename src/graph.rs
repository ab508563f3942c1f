//! The dependency graph: one node per package record, one edge per resolved
//! dependency reference, nodes addressed by their index.
use vstd::prelude::*;

use crate::package::{
    all_resolved, find_package, first_bad_ref, is_ref_index, is_resolved, is_unresolved, ref_at,
    resolves_to, DependencyRef, Lookup, Package,
};

verus! {

/// A stable handle to a node of a [`Graph`]: its position among the records.
pub type NodeId = usize;

/// The identity of a graph node.
#[derive(Debug, Clone, PartialEq, Eq)]
pub struct PackageId {
    pub name: String,
    pub version: String,
}

/// Why a graph could not be built. The indices locate the reference: the
/// position of the owning package among the records and the position of the
/// reference in its dependency list.
#[derive(Debug, Clone, Copy, PartialEq, Eq)]
pub enum GraphError {
    /// No package carries the name and version that the reference names.
    UnresolvedDependency { package: usize, dependency: usize },
    /// More than one package carries them.
    AmbiguousDependency { package: usize, dependency: usize },
}

/// A dependency graph built once from package records and read-only after.
#[derive(Debug)]
pub struct Graph {
    nodes: Vec<PackageId>,
    edges: Vec<Vec<NodeId>>,
}

/// The mathematical content of a [`Graph`]: each node's name and version, and
/// for each node the targets of its outgoing edges in insertion order.
pub struct GraphModel {
    pub names: Seq<Seq<char>>,
    pub versions: Seq<Seq<char>>,
    pub edges: Seq<Seq<int>>,
}

impl GraphModel {
    pub open spec fn len(self) -> nat {
        self.names.len()
    }

    /// Node counts agree and every edge ends at a node.
    pub open spec fn wf(self) -> bool {
        &&& self.versions.len() == self.len()
        &&& self.edges.len() == self.len()
        &&& forall|i: int, j: int|
            0 <= i < self.len() && 0 <= j < self.edges[i].len() ==> 0 <= #[trigger] self.edges[i][j]
                < self.len()
    }

    /// The text that shows node `k`: its name, a space, its version.
    pub open spec fn label(self, k: int) -> Seq<char> {
        self.names[k] + seq![' '] + self.versions[k]
    }

    /// Some node other than `k` has an edge to `k`.
    pub open spec fn has_other_parent(self, k: int) -> bool {
        exists|i: int, j: int|
            0 <= i < self.len() && i != k && 0 <= j < self.edges[i].len() && #[trigger] self.edges[i][j]
                == k
    }

    /// Node `k` exists and no other node depends on it. An edge from a node to
    /// itself does not count: a package that only it depends on is still an
    /// entry point of the tree.
    pub open spec fn is_root(self, k: int) -> bool {
        0 <= k < self.len() && !self.has_other_parent(k)
    }
}

/// The roots among the first `k` nodes of `g`, in node order.
pub open spec fn roots_below(g: GraphModel, k: nat) -> Seq<int>
    decreases k,
{
    if k == 0 {
        seq![]
    } else if g.is_root(k - 1) {
        roots_below(g, (k - 1) as nat).push(k - 1)
    } else {
        roots_below(g, (k - 1) as nat)
    }
}

/// The roots of `g`, in node order: the entry points of its tree.
pub open spec fn root_seq(g: GraphModel) -> Seq<int> {
    roots_below(g, g.len())
}

/// `g` holds one node per record, in record order, and for each reference an
/// edge to the package it names, in the order of the dependency lists.
pub open spec fn built_from(g: GraphModel, pkgs: Seq<Package>) -> bool {
    &&& g.len() == pkgs.len()
    &&& g.versions.len() == pkgs.len()
    &&& g.edges.len() == pkgs.len()
    &&& forall|k: int| 0 <= k < pkgs.len() ==> #[trigger] g.names[k] == pkgs[k].name@
    &&& forall|k: int| 0 <= k < pkgs.len() ==> #[trigger] g.versions[k] == pkgs[k].version@
    &&& forall|i: int| 0 <= i < pkgs.len() ==> #[trigger] g.edges[i].len() == pkgs[i].dependencies@.len()
    &&& forall|i: int, j: int|
        is_ref_index(pkgs, i, j) ==> resolves_to(pkgs, ref_at(pkgs, i, j), #[trigger] g.edges[i][j])
}

/// `e` names the first reference of `pkgs`, in record order, that does not
/// match exactly one package, and says which of the two ways it fails.
pub open spec fn reports(pkgs: Seq<Package>, e: GraphError) -> bool {
    match e {
        GraphError::UnresolvedDependency { package, dependency } => first_bad_ref(
            pkgs,
            package as int,
            dependency as int,
        ) && is_unresolved(pkgs, ref_at(pkgs, package as int, dependency as int)),
        GraphError::AmbiguousDependency { package, dependency } => first_bad_ref(
            pkgs,
            package as int,
            dependency as int,
        ) && !is_unresolved(pkgs, ref_at(pkgs, package as int, dependency as int)),
    }
}

impl View for Graph {
    type V = GraphModel;

    closed spec fn view(&self) -> GraphModel {
        GraphModel {
            names: self.nodes@.map_values(|p: PackageId| p.name@),
            versions: self.nodes@.map_values(|p: PackageId| p.version@),
            edges: self.edges@.map_values(|es: Vec<NodeId>| es@.map_values(|t: NodeId| t as int)),
        }
    }
}

/// Builds the dependency graph of `packages`. Fails on the first reference,
/// in record order, that matches no package or more than one.
pub fn build_graph(packages: &Vec<Package>) -> (r: Result<Graph, GraphError>)
    ensures
        match r {
            Ok(g) => all_resolved(packages@) && built_from(g@, packages@) && g@.wf(),
            Err(e) => reports(packages@, e),
        },
{
    let n = packages.len();
    let mut nodes: Vec<PackageId> = Vec::new();
    let mut i: usize = 0;
    while i < n
        invariant
            n == packages@.len(),
            i <= n,
            nodes@.len() == i,
            forall|k: int|
                0 <= k < i ==> #[trigger] nodes@[k].name@ == packages@[k].name@ && nodes@[k].version@
                    == packages@[k].version@,
        decreases n - i,
    {
        nodes.push(PackageId { name: packages[i].name.clone(), version: packages[i].version.clone() });
        i = i + 1;
    }
    let mut edges: Vec<Vec<NodeId>> = Vec::new();
    let mut i: usize = 0;
    while i < n
        invariant
            n == packages@.len(),
            i <= n,
            edges@.len() == i,
            forall|i2: int, j2: int|
                is_ref_index(packages@, i2, j2) && i2 < i ==> is_resolved(
                    packages@,
                    #[trigger] ref_at(packages@, i2, j2),
                ),
            forall|i2: int| 0 <= i2 < i ==> #[trigger] edges@[i2]@.len() == packages@[i2].dependencies@.len(),
            forall|i2: int, j2: int|
                is_ref_index(packages@, i2, j2) && i2 < i ==> resolves_to(
                    packages@,
                    ref_at(packages@, i2, j2),
                    #[trigger] edges@[i2]@[j2] as int,
                ),
        decreases n - i,
    {
        let deps: &Vec<DependencyRef> = &packages[i].dependencies;
        let mut targets: Vec<NodeId> = Vec::new();
        let mut j: usize = 0;
        while j < deps.len()
            invariant
                n == packages@.len(),
                i < n,
                deps@ == packages@[i as int].dependencies@,
                j <= deps@.len(),
                targets@.len() == j,
                forall|i2: int, j2: int|
                    is_ref_index(packages@, i2, j2) && i2 < i ==> is_resolved(
                        packages@,
                        #[trigger] ref_at(packages@, i2, j2),
                    ),
                forall|j2: int|
                    0 <= j2 < j ==> is_resolved(
                        packages@,
                        #[trigger] ref_at(packages@, i as int, j2),
                    ),
                forall|j2: int|
                    0 <= j2 < j ==> resolves_to(
                        packages@,
                        ref_at(packages@, i as int, j2),
                        #[trigger] targets@[j2] as int,
                    ),
            decreases deps@.len() - j,
        {
            match find_package(packages, &deps[j]) {
                Lookup::Found(k) => {
                    targets.push(k);
                },
                Lookup::Missing => {
                    return Err(GraphError::UnresolvedDependency { package: i, dependency: j });
                },
                Lookup::Ambiguous => {
                    return Err(GraphError::AmbiguousDependency { package: i, dependency: j });
                },
            }
            j = j + 1;
        }
        edges.push(targets);
        i = i + 1;
    }
    let g = Graph { nodes, edges };
    proof {
        g.lemma_built(packages@);
    }
    Ok(g)
}

impl Graph {
    /// The number of nodes.
    pub fn node_count(&self) -> (r: usize)
        ensures
            r == self@.len(),
    {
        self.nodes.len()
    }

    /// The nodes that no other node depends on, in record order.
    pub fn roots(&self) -> (r: Vec<NodeId>)
        requires
            self@.wf(),
        ensures
            r@.map_values(|t: NodeId| t as int) == root_seq(self@),
            forall|a: int, b: int| 0 <= a < b < r@.len() ==> r@[a] < r@[b],
            forall|a: int| 0 <= a < r@.len() ==> self@.is_root(#[trigger] r@[a] as int),
            forall|k: int| self@.is_root(k) ==> r@.contains(k as NodeId),
    {
        let n = self.nodes.len();
        let ghost m = self@;
        let mut referenced: Vec<bool> = Vec::new();
        let mut k: usize = 0;
        while k < n
            invariant
                n == m.len(),
                k <= n,
                referenced@.len() == k,
                forall|l: int| 0 <= l < k ==> !#[trigger] referenced@[l],
            decreases n - k,
        {
            referenced.push(false);
            k = k + 1;
        }
        let mut i: usize = 0;
        while i < n
            invariant
                m == self@,
                m.wf(),
                n == m.len(),
                i <= n,
                referenced@.len() == n,
                forall|l: int|
                    0 <= l < n ==> (#[trigger] referenced@[l] <==> exists|i2: int, j2: int|
                        0 <= i2 < i && i2 != l && 0 <= j2 < m.edges[i2].len() && #[trigger] m.edges[i2][j2]
                            == l),
            decreases n - i,
        {
            let es: &Vec<NodeId> = &self.edges[i];
            assert(m.edges[i as int] == es@.map_values(|t: NodeId| t as int));
            let mut j: usize = 0;
            while j < es.len()
                invariant
                    m == self@,
                    m.wf(),
                    n == m.len(),
                    i < n,
                    m.edges[i as int] == es@.map_values(|t: NodeId| t as int),
                    j <= es@.len(),
                    referenced@.len() == n,
                    forall|l: int|
                        0 <= l < n ==> (#[trigger] referenced@[l] <==> exists|i2: int, j2: int|
                            0 <= i2 <= i && i2 != l && 0 <= j2 < m.edges[i2].len() && (i2 < i || j2 < j)
                                && #[trigger] m.edges[i2][j2] == l),
                decreases es@.len() - j,
            {
                let t = es[j];
                assert(m.edges[i as int][j as int] == t as int);
                if t != i {
                    referenced.set(t, true);
                }
                j = j + 1;
            }
            i = i + 1;
        }
        let mut r: Vec<NodeId> = Vec::new();
        let mut k: usize = 0;
        while k < n
            invariant
                m == self@,
                n == m.len(),
                k <= n,
                referenced@.len() == n,
                forall|l: int|
                    0 <= l < n ==> (#[trigger] referenced@[l] <==> m.has_other_parent(l)),
                forall|a: int, b: int| 0 <= a < b < r@.len() ==> r@[a] < r@[b],
                forall|a: int| 0 <= a < r@.len() ==> r@[a] < k,
                forall|a: int| 0 <= a < r@.len() ==> m.is_root(#[trigger] r@[a] as int),
                forall|l: int| 0 <= l < k && m.is_root(l) ==> r@.contains(l as NodeId),
                r@.map_values(|t: NodeId| t as int) == roots_below(m, k as nat),
            decreases n - k,
        {
            let ghost before = r@;
            if !referenced[k] {
                r.push(k);
                assert(r@[r@.len() - 1] == k);
                assert forall|l: int| 0 <= l < k && m.is_root(l) implies r@.contains(l as NodeId) by {
                    let a = choose|a: int| 0 <= a < before.len() && before[a] == l as NodeId;
                    assert(r@[a] == l as NodeId);
                }
            }
            assert(r@.map_values(|t: NodeId| t as int) =~= roots_below(m, (k + 1) as nat));
            k = k + 1;
        }
        r
    }

    /// The targets of node `k`'s outgoing edges, in insertion order.
    pub fn targets(&self, k: NodeId) -> (r: &Vec<NodeId>)
        requires
            k < self@.len(),
            self@.wf(),
        ensures
            r@.map_values(|t: NodeId| t as int) == self@.edges[k as int],
    {
        &self.edges[k]
    }

    /// The text that shows node `k`: its name, a space, its version.
    pub fn label(&self, k: NodeId) -> (r: String)
        requires
            k < self@.len(),
            self@.wf(),
        ensures
            r@ == self@.label(k as int),
    {
        let p = &self.nodes[k];
        let mut s = p.name.clone();
        s.append(" ");
        s.append(p.version.as_str());
        proof {
            reveal_strlit(" ");
        }
        s
    }

    proof fn lemma_built(&self, pkgs: Seq<Package>)
        requires
            self.nodes@.len() == pkgs.len(),
            self.edges@.len() == pkgs.len(),
            forall|k: int|
                0 <= k < pkgs.len() ==> (#[trigger] self.nodes@[k]).name@ == pkgs[k].name@
                    && self.nodes@[k].version@ == pkgs[k].version@,
            forall|i: int|
                0 <= i < pkgs.len() ==> #[trigger] self.edges@[i]@.len() == pkgs[i].dependencies@.len(),
            forall|i: int, j: int|
                is_ref_index(pkgs, i, j) ==> resolves_to(
                    pkgs,
                    ref_at(pkgs, i, j),
                    #[trigger] self.edges@[i]@[j] as int,
                ),
        ensures
            built_from(self@, pkgs),
            self@.wf(),
    {
        let m = self@;
        assert forall|k: int| 0 <= k < pkgs.len() implies #[trigger] m.versions[k]
            == pkgs[k].version@ by {
            assert(self.nodes@[k].version@ == pkgs[k].version@);
        }
        assert forall|k: int| 0 <= k < pkgs.len() implies #[trigger] m.names[k]
            == pkgs[k].name@ by {
            assert(self.nodes@[k].name@ == pkgs[k].name@);
        }
        assert forall|i: int, j: int| is_ref_index(pkgs, i, j) implies resolves_to(
            pkgs,
            ref_at(pkgs, i, j),
            #[trigger] m.edges[i][j],
        ) by {
            assert(m.edges[i] == self.edges@[i]@.map_values(|t: NodeId| t as int));
            assert(resolves_to(pkgs, ref_at(pkgs, i, j), self.edges@[i]@[j] as int));
        }
        assert forall|i: int, j: int|
            0 <= i < m.len() && 0 <= j < m.edges[i].len() implies 0 <= #[trigger] m.edges[i][j]
                < m.len() by {
            assert(is_ref_index(pkgs, i, j));
            assert(resolves_to(pkgs, ref_at(pkgs, i, j), m.edges[i][j]));
        }
    }
}

} // verus!
