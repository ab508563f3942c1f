//! A dependency tree: a graph together with the roots its rendering starts from.
use vstd::prelude::*;

use crate::graph::{build_graph, built_from, reports, root_seq, Graph, GraphError, GraphModel, NodeId};
use crate::package::{all_resolved, Package};
use crate::walk::{render_model, render_tree, renders_all_as, RenderedNode, TreeModel};

verus! {

/// What the tree of `g` renders as: the walk from its roots, in order.
pub open spec fn tree_model(g: GraphModel) -> Seq<TreeModel> {
    render_model(g, root_seq(g))
}

/// The dependency graph of a set of package records and its roots.
#[derive(Debug)]
pub struct Tree {
    graph: Graph,
    roots: Vec<NodeId>,
}

impl Tree {
    /// The graph, as a model.
    pub closed spec fn graph_model(&self) -> GraphModel {
        self.graph@
    }

    /// The roots, as a model.
    pub closed spec fn root_model(&self) -> Seq<int> {
        self.roots@.map_values(|t: NodeId| t as int)
    }

    /// The graph is well formed and the roots are exactly its roots.
    pub closed spec fn wf(&self) -> bool {
        &&& self.graph@.wf()
        &&& self.root_model() == root_seq(self.graph@)
        &&& forall|a: int| 0 <= a < self.roots@.len() ==> #[trigger] self.roots@[a] < self.graph@.len()
    }

    /// Builds the graph of `packages` and selects its roots.
    pub fn new(packages: &Vec<Package>) -> (r: Result<Tree, GraphError>)
        ensures
            match r {
                Ok(t) => {
                    &&& t.wf()
                    &&& all_resolved(packages@)
                    &&& built_from(t.graph_model(), packages@)
                    &&& t.graph_model().wf()
                    &&& t.root_model() == root_seq(t.graph_model())
                },
                Err(e) => reports(packages@, e),
            },
    {
        match build_graph(packages) {
            Ok(graph) => {
                let roots = graph.roots();
                Ok(Tree { graph, roots })
            },
            Err(e) => Err(e),
        }
    }

    /// The dependency graph.
    pub fn graph(&self) -> (r: &Graph)
        ensures
            r@ == self.graph_model(),
    {
        &self.graph
    }

    /// The roots, in record order.
    pub fn roots(&self) -> (r: &Vec<NodeId>)
        ensures
            r@.map_values(|t: NodeId| t as int) == self.root_model(),
    {
        &self.roots
    }

    /// Renders the tree: each root in order, each package expanded the first
    /// time the walk reaches it and a leaf every later time.
    pub fn render(&self) -> (r: Vec<RenderedNode>)
        requires
            self.wf(),
        ensures
            renders_all_as(r@, tree_model(self.graph_model())),
    {
        render_tree(&self.graph, &self.roots)
    }
}

} // verus!
