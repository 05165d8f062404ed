use fast_dep::errors::GraphError;
use fast_dep::graph::{DepGraph, DepNode};
use fast_dep::module_spec::ModuleSpec;

fn spec(name: &str, origin: Option<&str>) -> ModuleSpec {
    ModuleSpec {
        name: name.to_string(),
        origin: origin.map(|o| o.to_string()),
        parent: String::new(),
        submodule_search_locations: None,
    }
}

fn node(name: &str, depth: Option<i32>) -> DepNode {
    DepNode::new(spec(name, None), depth)
}

#[test]
fn add_and_query() {
    let mut g = DepGraph::new();
    assert_eq!(g.size(), 0);
    g.add(node("r", Some(0))).unwrap();
    assert!(g.has_node("r"));
    assert!(!g.has_node("a"));
    assert_eq!(g.size(), 1);
}

#[test]
fn duplicate_node_refused() {
    let mut g = DepGraph::new();
    g.add(node("r", None)).unwrap();
    let r = g.add(node("r", None));
    assert!(matches!(r, Err(GraphError::DuplicateNode(_))));
    assert_eq!(g.size(), 1);
}

#[test]
fn edge_to_unknown_node_refused() {
    let mut g = DepGraph::new();
    g.add(node("r", Some(0))).unwrap();
    assert!(matches!(g.add_dependency("r", "a"), Err(GraphError::UnknownNode(_))));
    assert!(matches!(g.add_dependency("a", "r"), Err(GraphError::UnknownNode(_))));
}

#[test]
fn edge_from_uninitialized_depth_refused() {
    let mut g = DepGraph::new();
    g.add(node("a", None)).unwrap();
    g.add(node("b", None)).unwrap();
    let r = g.add_dependency("a", "b");
    assert!(matches!(r, Err(GraphError::UninitializedDepth(_))));
}

#[test]
fn edge_sets_and_depth_propagation() {
    let mut g = DepGraph::new();
    g.add(node("r", Some(0))).unwrap();
    g.add(node("a", None)).unwrap();
    g.add(node("b", None)).unwrap();
    g.add_dependency("r", "a").unwrap();
    g.add_dependency("a", "b").unwrap();
    let a = g.get("a").unwrap();
    assert_eq!(a.depth(), Some(1));
    assert!(a.dependency_names().contains(&"b".to_string()));
    assert!(a.dependent_names().contains(&"r".to_string()));
    let b = g.get("b").unwrap();
    assert_eq!(b.depth(), Some(2));
    assert_eq!(g.num_dependencies(), 2);
}

#[test]
fn shorter_path_lowers_depth() {
    let mut g = DepGraph::new();
    g.add(node("r", Some(0))).unwrap();
    g.add(node("a", None)).unwrap();
    g.add(node("b", None)).unwrap();
    g.add_dependency("r", "a").unwrap();
    g.add_dependency("a", "b").unwrap();
    assert_eq!(g.get("b").unwrap().depth(), Some(2));
    // a direct edge from the root shortens b's depth
    g.add_dependency("r", "b").unwrap();
    assert_eq!(g.get("b").unwrap().depth(), Some(1));
    // a longer path never raises it again
    g.add_dependency("a", "b").unwrap();
    assert_eq!(g.get("b").unwrap().depth(), Some(1));
}

#[test]
fn repeated_edge_changes_nothing() {
    let mut g = DepGraph::new();
    g.add(node("r", Some(0))).unwrap();
    g.add(node("a", None)).unwrap();
    g.add_dependency("r", "a").unwrap();
    g.add_dependency("r", "a").unwrap();
    assert_eq!(g.num_dependencies(), 1);
    assert_eq!(g.get("a").unwrap().dependent_names().len(), 1);
}

#[test]
fn get_unknown_refused() {
    let g = DepGraph::new();
    assert!(matches!(g.get("a"), Err(GraphError::UnknownNode(_))));
}

#[test]
fn extracted_subgraph_has_no_outward_edges() {
    // r -> a -> b, and a second importer c -> a
    let mut g = DepGraph::new();
    g.add(node("r", Some(0))).unwrap();
    g.add(node("c", Some(0))).unwrap();
    g.add(node("a", None)).unwrap();
    g.add(node("b", None)).unwrap();
    g.add_dependency("r", "a").unwrap();
    g.add_dependency("c", "a").unwrap();
    g.add_dependency("a", "b").unwrap();
    let sub = g.clone_from("a").unwrap();
    assert_eq!(sub.size(), 2);
    assert!(sub.has_node("a"));
    assert!(sub.has_node("b"));
    assert!(!sub.has_node("r"));
    // dependents pointing outside the extracted set are dropped
    let a = sub.get("a").unwrap();
    assert_eq!(a.dependent_names().len(), 0);
    let b = sub.get("b").unwrap();
    assert_eq!(b.dependent_names(), vec!["a".to_string()]);
    // dependency lists are kept verbatim
    assert_eq!(a.dependency_names(), vec!["b".to_string()]);
    // the original graph is untouched
    assert_eq!(g.get("a").unwrap().dependent_names().len(), 2);
}

#[test]
fn clone_from_unknown_refused() {
    let g = DepGraph::new();
    assert!(matches!(g.clone_from("a"), Err(GraphError::UnknownNode(_))));
}

fn two_overlapping_graphs() -> (DepGraph, DepGraph) {
    let mut g1 = DepGraph::new();
    g1.add(node("r", Some(0))).unwrap();
    g1.add(node("a", None)).unwrap();
    g1.add_dependency("r", "a").unwrap();
    let mut g2 = DepGraph::new();
    g2.add(node("a", Some(0))).unwrap();
    g2.add(node("b", None)).unwrap();
    g2.add_dependency("a", "b").unwrap();
    (g1, g2)
}

fn edge_pairs(g: &DepGraph) -> Vec<(String, String)> {
    let mut pairs = Vec::new();
    let mut names = g.names();
    names.sort();
    for n in names {
        let nd = g.get(&n).unwrap();
        let mut deps = nd.dependency_names();
        deps.sort();
        for d in deps {
            pairs.push((n.clone(), d));
        }
    }
    pairs
}

#[test]
fn merge_is_commutative_on_edges() {
    let (g1, g2) = two_overlapping_graphs();
    let (h1, h2) = two_overlapping_graphs();
    let mut ab = g1;
    ab.merge(g2).unwrap();
    let mut ba = h2;
    ba.merge(h1).unwrap();
    let mut ab_names = ab.names();
    let mut ba_names = ba.names();
    ab_names.sort();
    ba_names.sort();
    assert_eq!(ab_names, ba_names);
    assert_eq!(edge_pairs(&ab), edge_pairs(&ba));
    for n in ab_names {
        assert_eq!(ab.get(&n).unwrap().depth(), ba.get(&n).unwrap().depth());
    }
}

#[test]
fn merge_is_idempotent() {
    let (g1, g2) = two_overlapping_graphs();
    let mut g = g1;
    g.merge(g2).unwrap();
    let before_edges = edge_pairs(&g);
    let mut before_names = g.names();
    before_names.sort();
    let copy = g.clone_from("r").unwrap();
    // r reaches a and b, so the extracted copy is the whole graph here
    assert_eq!(copy.size(), g.size());
    g.merge(copy).unwrap();
    let mut after_names = g.names();
    after_names.sort();
    assert_eq!(before_names, after_names);
    assert_eq!(before_edges, edge_pairs(&g));
}

#[test]
fn merge_keeps_smaller_depth() {
    let mut g1 = DepGraph::new();
    g1.add(node("a", Some(3))).unwrap();
    let mut g2 = DepGraph::new();
    g2.add(node("a", Some(1))).unwrap();
    g1.merge(g2).unwrap();
    assert_eq!(g1.get("a").unwrap().depth(), Some(1));
}

#[test]
fn merge_origin_conflict_refused() {
    let mut g1 = DepGraph::new();
    g1.add(DepNode::new(spec("a", Some("/x/a.py")), None)).unwrap();
    let mut g2 = DepGraph::new();
    g2.add(DepNode::new(spec("a", Some("/y/a.py")), None)).unwrap();
    let r = g1.merge(g2);
    assert!(matches!(r, Err(GraphError::MergeIdentityConflict(_))));
}

#[test]
fn merge_tolerates_one_missing_origin() {
    let mut g1 = DepGraph::new();
    g1.add(DepNode::new(spec("a", Some("/x/a.py")), None)).unwrap();
    let mut g2 = DepGraph::new();
    g2.add(DepNode::new(spec("a", None), None)).unwrap();
    g1.merge(g2).unwrap();
    assert_eq!(g1.size(), 1);
}

#[test]
fn add_graph_reassigns_depths_from_splice_point() {
    let mut g = DepGraph::new();
    g.add(node("r", Some(0))).unwrap();
    let mut sub = DepGraph::new();
    sub.add(node("m", Some(7))).unwrap();
    sub.add(node("n", Some(9))).unwrap();
    sub.add_dependency("m", "n").unwrap();
    g.add_graph("r", "m", sub).unwrap();
    assert_eq!(g.size(), 3);
    assert_eq!(g.get("m").unwrap().depth(), Some(1));
    assert_eq!(g.get("n").unwrap().depth(), Some(2));
    assert!(g.get("r").unwrap().dependency_names().contains(&"m".to_string()));
}

#[test]
fn add_graph_missing_anchor_refused() {
    let mut g = DepGraph::new();
    let mut sub = DepGraph::new();
    sub.add(node("m", None)).unwrap();
    let r = g.add_graph("r", "m", sub);
    assert!(matches!(r, Err(GraphError::UnknownNode(_))));
}

#[test]
fn names_keys_and_origins() {
    let mut g = DepGraph::new();
    g.add(DepNode::new(spec("a", Some("/x/a.py")), None)).unwrap();
    g.add(DepNode::new(spec("b", None), None)).unwrap();
    let mut names = g.names();
    names.sort();
    assert_eq!(names, vec!["a".to_string(), "b".to_string()]);
    let mut keys = g.keys();
    keys.sort();
    assert_eq!(keys, names);
    assert_eq!(g.origins(), vec!["/x/a.py".to_string()]);
}

#[test]
fn scoped_lookup_filters_by_prefix() {
    let mut g = DepGraph::new();
    g.add(node("pkg", None)).unwrap();
    g.add(node("pkg.sub", None)).unwrap();
    g.add(node("other", None)).unwrap();
    let scoped = g.get_all_scoped("pkg");
    let mut names: Vec<String> = scoped.iter().map(|n| n.name.clone()).collect();
    names.sort();
    assert_eq!(names, vec!["pkg".to_string(), "pkg.sub".to_string()]);
}

#[test]
fn node_counters() {
    let n = node("a", None);
    assert_eq!(n.dependencies(), 0);
    assert!(n.dependent_names().is_empty());
    assert_eq!(n.depth(), None);
}

#[test]
fn module_spec_package_flag() {
    let mut s = spec("a", None);
    assert!(!s.is_package());
    s.submodule_search_locations = Some(vec!["/x/a".to_string()]);
    assert!(s.is_package());
}

#[test]
fn depth_at_machine_limit_refused() {
    let mut g = DepGraph::new();
    g.add(node("r", Some(i32::MAX))).unwrap();
    g.add(node("a", None)).unwrap();
    let r = g.add_dependency("r", "a");
    assert!(matches!(r, Err(GraphError::DepthOverflow(_))));
}

#[test]
fn with_hands_out_the_node() {
    let mut g = DepGraph::new();
    g.add(node("a", Some(3))).unwrap();
    g.with("a", |n| {
        assert_eq!(n.name, "a");
        assert_eq!(n.depth(), Some(3));
    });
}

#[test]
fn origins_keeps_one_entry_per_node() {
    // two nodes sharing one origin still yield two entries
    let mut g = DepGraph::new();
    g.add(DepNode::new(spec("a", Some("/x/shared.py")), None)).unwrap();
    g.add(DepNode::new(spec("b", Some("/x/shared.py")), None)).unwrap();
    g.add(DepNode::new(spec("c", None), None)).unwrap();
    let origins = g.origins();
    assert_eq!(origins.len(), 2);
    assert!(origins.iter().all(|o| o == "/x/shared.py"));
}
