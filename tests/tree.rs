use lock_tree::graph::{build_graph, GraphError};
use lock_tree::package::{find_package, DependencyRef, Lookup, Package};
use lock_tree::tree::Tree;
use lock_tree::walk::{render_tree, RenderedNode};

fn pkg(name: &str, version: &str, deps: &[(&str, &str)]) -> Package {
    Package {
        name: name.to_string(),
        version: version.to_string(),
        dependencies: deps
            .iter()
            .map(|(n, v)| DependencyRef { name: n.to_string(), version: v.to_string() })
            .collect(),
    }
}

fn leaf(label: &str) -> RenderedNode {
    RenderedNode { label: label.to_string(), children: Vec::new() }
}

fn node(label: &str, children: Vec<RenderedNode>) -> RenderedNode {
    RenderedNode { label: label.to_string(), children }
}

fn render(packages: &[Package]) -> Vec<RenderedNode> {
    Tree::new(&packages.to_vec()).expect("graph builds").render()
}

#[test]
fn empty_input_gives_empty_tree() {
    let tree = Tree::new(&Vec::new()).expect("no records is no error");
    assert!(tree.roots().is_empty());
    assert_eq!(tree.graph().node_count(), 0);
    assert!(tree.render().is_empty());
}

#[test]
fn unresolved_reference_is_an_error() {
    let packages = vec![pkg("a", "1.0.0", &[("b", "1.0.0")]), pkg("b", "2.0.0", &[])];
    let r = build_graph(&packages);
    assert!(matches!(r, Err(GraphError::UnresolvedDependency { package: 0, dependency: 0 })));
    assert!(matches!(
        Tree::new(&packages),
        Err(GraphError::UnresolvedDependency { package: 0, dependency: 0 })
    ));
}

#[test]
fn ambiguous_reference_is_an_error() {
    let packages = vec![
        pkg("a", "1.0.0", &[("c", "1.0.0"), ("b", "1.0.0")]),
        pkg("b", "1.0.0", &[]),
        pkg("b", "1.0.0", &[]),
        pkg("c", "1.0.0", &[]),
    ];
    assert!(matches!(
        build_graph(&packages),
        Err(GraphError::AmbiguousDependency { package: 0, dependency: 1 })
    ));
}

#[test]
fn first_bad_reference_in_record_order_is_reported() {
    let packages = vec![
        pkg("a", "1.0.0", &[("b", "1.0.0"), ("x", "9.9.9")]),
        pkg("b", "1.0.0", &[("y", "0.1.0")]),
    ];
    assert!(matches!(
        build_graph(&packages),
        Err(GraphError::UnresolvedDependency { package: 0, dependency: 1 })
    ));
}

#[test]
fn lookup_outcomes() {
    let packages = vec![pkg("a", "1.0.0", &[]), pkg("b", "1.0.0", &[]), pkg("b", "1.0.0", &[])];
    let d = |n: &str, v: &str| DependencyRef { name: n.to_string(), version: v.to_string() };
    assert_eq!(find_package(&packages, &d("a", "1.0.0")), Lookup::Found(0));
    assert_eq!(find_package(&packages, &d("a", "2.0.0")), Lookup::Missing);
    assert_eq!(find_package(&packages, &d("b", "1.0.0")), Lookup::Ambiguous);
}

#[test]
fn label_is_name_space_version() {
    let tree = Tree::new(&vec![pkg("serde", "1.0.130", &[])]).unwrap();
    assert_eq!(tree.graph().label(0), "serde 1.0.130");
    assert_eq!(tree.render(), vec![leaf("serde 1.0.130")]);
}

#[test]
fn diamond_expands_shared_dependency_once() {
    let packages = vec![
        pkg("a", "1.0.0", &[("b", "1.0.0"), ("c", "1.0.0")]),
        pkg("b", "1.0.0", &[("d", "1.0.0")]),
        pkg("c", "1.0.0", &[("d", "1.0.0")]),
        pkg("d", "1.0.0", &[("e", "1.0.0")]),
        pkg("e", "1.0.0", &[]),
    ];
    let expected = vec![node(
        "a 1.0.0",
        vec![
            node("b 1.0.0", vec![node("d 1.0.0", vec![leaf("e 1.0.0")])]),
            node("c 1.0.0", vec![leaf("d 1.0.0")]),
        ],
    )];
    assert_eq!(render(&packages), expected);
}

#[test]
fn diamond_follows_dependency_list_order() {
    let packages = vec![
        pkg("a", "1.0.0", &[("c", "1.0.0"), ("b", "1.0.0")]),
        pkg("b", "1.0.0", &[("d", "1.0.0")]),
        pkg("c", "1.0.0", &[("d", "1.0.0")]),
        pkg("d", "1.0.0", &[("e", "1.0.0")]),
        pkg("e", "1.0.0", &[]),
    ];
    let expected = vec![node(
        "a 1.0.0",
        vec![
            node("c 1.0.0", vec![node("d 1.0.0", vec![leaf("e 1.0.0")])]),
            node("b 1.0.0", vec![leaf("d 1.0.0")]),
        ],
    )];
    assert_eq!(render(&packages), expected);
}

#[test]
fn cycle_terminates_with_each_node_expanded_once() {
    let packages = vec![
        pkg("r", "1.0.0", &[("a", "1.0.0")]),
        pkg("a", "1.0.0", &[("b", "1.0.0")]),
        pkg("b", "1.0.0", &[("c", "1.0.0")]),
        pkg("c", "1.0.0", &[("a", "1.0.0")]),
    ];
    let expected = vec![node(
        "r 1.0.0",
        vec![node("a 1.0.0", vec![node("b 1.0.0", vec![node("c 1.0.0", vec![leaf("a 1.0.0")])])])],
    )];
    assert_eq!(render(&packages), expected);
}

#[test]
fn pure_cycle_has_no_roots_and_walks_finitely_from_a_chosen_node() {
    let packages = vec![
        pkg("a", "1.0.0", &[("b", "1.0.0")]),
        pkg("b", "1.0.0", &[("c", "1.0.0")]),
        pkg("c", "1.0.0", &[("a", "1.0.0")]),
    ];
    let tree = Tree::new(&packages).unwrap();
    assert!(tree.roots().is_empty());
    assert!(tree.render().is_empty());
    let walked = render_tree(tree.graph(), &vec![0, 2]);
    let expected = vec![
        node("a 1.0.0", vec![node("b 1.0.0", vec![node("c 1.0.0", vec![leaf("a 1.0.0")])])]),
        leaf("c 1.0.0"),
    ];
    assert_eq!(walked, expected);
}

#[test]
fn self_cycle_renders_itself_as_leaf_child() {
    let packages = vec![pkg("a", "1.0.0", &[("a", "1.0.0")])];
    let tree = Tree::new(&packages).unwrap();
    assert_eq!(tree.roots(), &vec![0]);
    assert_eq!(tree.render(), vec![node("a 1.0.0", vec![leaf("a 1.0.0")])]);
}

#[test]
fn roots_are_unreferenced_packages_in_record_order() {
    let packages = vec![
        pkg("z", "1.0.0", &[("m", "1.0.0")]),
        pkg("m", "1.0.0", &[]),
        pkg("a", "1.0.0", &[("m", "1.0.0")]),
        pkg("q", "1.0.0", &[]),
    ];
    let tree = Tree::new(&packages).unwrap();
    assert_eq!(tree.roots(), &vec![0, 2, 3]);
}

#[test]
fn shared_visited_set_spans_all_roots() {
    let packages = vec![
        pkg("x", "1.0.0", &[("s", "1.0.0")]),
        pkg("y", "1.0.0", &[("s", "1.0.0")]),
        pkg("s", "1.0.0", &[("t", "1.0.0")]),
        pkg("t", "1.0.0", &[]),
    ];
    let expected = vec![
        node("x 1.0.0", vec![node("s 1.0.0", vec![leaf("t 1.0.0")])]),
        node("y 1.0.0", vec![leaf("s 1.0.0")]),
    ];
    assert_eq!(render(&packages), expected);
}

#[test]
fn same_name_different_versions_are_distinct_nodes() {
    let packages = vec![
        pkg("app", "0.1.0", &[("rand", "0.7.3"), ("rand", "0.8.5")]),
        pkg("rand", "0.7.3", &[]),
        pkg("rand", "0.8.5", &[]),
    ];
    let expected = vec![node("app 0.1.0", vec![leaf("rand 0.7.3"), leaf("rand 0.8.5")])];
    assert_eq!(render(&packages), expected);
}

#[test]
fn rendering_twice_gives_identical_trees() {
    let packages = vec![
        pkg("a", "1.0.0", &[("b", "1.0.0"), ("c", "1.0.0")]),
        pkg("b", "1.0.0", &[("c", "1.0.0")]),
        pkg("c", "1.0.0", &[("a", "1.0.0")]),
        pkg("d", "1.0.0", &[("c", "1.0.0")]),
    ];
    let first = render(&packages);
    let second = render(&packages);
    assert_eq!(first, second);
    let tree = Tree::new(&packages).unwrap();
    assert_eq!(tree.render(), tree.render());
}

fn count(nodes: &[RenderedNode]) -> usize {
    nodes.iter().map(|n| 1 + count(&n.children)).sum()
}

fn expanded_labels(nodes: &[RenderedNode], out: &mut Vec<String>) {
    for n in nodes {
        if !n.children.is_empty() {
            out.push(n.label.clone());
        }
        expanded_labels(&n.children, out);
    }
}

#[test]
fn dense_cycle_stays_within_roots_plus_edges() {
    let all = [("a", "1.0.0"), ("b", "1.0.0"), ("c", "1.0.0")];
    let packages = vec![
        pkg("r", "1.0.0", &[("a", "1.0.0"), ("c", "1.0.0")]),
        pkg("a", "1.0.0", &all),
        pkg("b", "1.0.0", &all),
        pkg("c", "1.0.0", &all),
    ];
    let rendered = render(&packages);
    let edges = 2 + 3 * 3;
    assert_eq!(count(&rendered), 1 + edges);
    let mut expanded = Vec::new();
    expanded_labels(&rendered, &mut expanded);
    assert_eq!(expanded, vec!["r 1.0.0", "a 1.0.0", "b 1.0.0", "c 1.0.0"]);
}
