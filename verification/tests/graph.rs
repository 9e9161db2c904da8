use license_tool::filter::{filter_deps, filter_from};
use license_tool::package::{lookup_deps, Package};
use license_tool::graph::{
    find_node, has_complete_edges, is_normal_dep, knows_roots, Dep, DepKind, Node, Resolve,
};

fn dep(pkg: &str, kinds: &[DepKind]) -> Dep {
    Dep { pkg: pkg.to_string(), dep_kinds: kinds.to_vec() }
}

fn node(id: &str, deps: Vec<Dep>) -> Node {
    Node { id: id.to_string(), deps }
}

fn ids(list: &[&str]) -> Vec<String> {
    list.iter().map(|s| s.to_string()).collect()
}

fn sample(root: Option<&str>) -> Resolve {
    Resolve {
        nodes: vec![
            node(
                "app",
                vec![
                    dep("lib", &[DepKind::Normal]),
                    dep("gen", &[DepKind::Build]),
                    dep("mock", &[DepKind::Development]),
                    dep("both", &[DepKind::Development, DepKind::Normal]),
                ],
            ),
            node(
                "lib",
                vec![dep("core", &[DepKind::Normal]), dep("mock", &[DepKind::Development])],
            ),
            node("gen", vec![dep("syn", &[DepKind::Normal]), dep("core", &[DepKind::Normal])]),
            node("mock", vec![dep("rand", &[DepKind::Normal])]),
            node("both", vec![]),
            node("core", vec![]),
            node("syn", vec![]),
            node("rand", vec![]),
        ],
        root: root.map(|s| s.to_string()),
    }
}

#[test]
fn only_normal_paths_are_followed() {
    let resolve = sample(Some("app"));
    assert!(resolve.is_complete());
    assert_eq!(filter_deps(&resolve), ids(&["lib", "both", "core"]));
}

#[test]
fn package_behind_build_edge_is_absent() {
    let out = filter_deps(&sample(Some("app")));
    assert!(!out.contains(&"gen".to_string()));
    assert!(!out.contains(&"syn".to_string()));
    assert!(!out.contains(&"mock".to_string()));
    assert!(!out.contains(&"rand".to_string()));
}

#[test]
fn package_on_normal_path_is_present_despite_other_paths() {
    let out = filter_deps(&sample(Some("app")));
    assert!(out.contains(&"core".to_string()));
}

#[test]
fn root_itself_is_not_in_the_output() {
    let out = filter_deps(&sample(Some("app")));
    assert!(!out.contains(&"app".to_string()));
}

#[test]
fn walk_starts_at_the_given_root() {
    assert_eq!(filter_deps(&sample(Some("gen"))), ids(&["core", "syn"]));
    assert_eq!(filter_deps(&sample(Some("core"))), ids(&[]));
}

#[test]
fn without_root_every_node_is_a_root() {
    assert_eq!(filter_deps(&sample(None)), ids(&["lib", "both", "core", "syn", "rand"]));
}

#[test]
fn shared_dependency_is_listed_once() {
    let resolve = Resolve {
        nodes: vec![
            node("r", vec![dep("a", &[DepKind::Normal]), dep("b", &[DepKind::Normal])]),
            node("a", vec![dep("c", &[DepKind::Normal])]),
            node("b", vec![dep("c", &[DepKind::Normal]), dep("a", &[DepKind::Normal])]),
            node("c", vec![]),
        ],
        root: Some("r".to_string()),
    };
    assert_eq!(filter_deps(&resolve), ids(&["a", "b", "c"]));
}

#[test]
fn cycle_is_walked_once() {
    let resolve = Resolve {
        nodes: vec![
            node("r", vec![dep("a", &[DepKind::Normal])]),
            node("a", vec![dep("r", &[DepKind::Normal])]),
        ],
        root: Some("r".to_string()),
    };
    assert_eq!(filter_deps(&resolve), ids(&["r", "a"]));
}

#[test]
fn deep_chain_is_followed_to_its_end() {
    let mut nodes = Vec::new();
    for i in 0..200 {
        nodes.push(node(&format!("n{i}"), vec![dep(&format!("n{}", i + 1), &[DepKind::Normal])]));
    }
    nodes.push(node("n200", vec![]));
    let out = filter_deps(&Resolve { nodes, root: Some("n0".to_string()) });
    assert_eq!(out.len(), 200);
    assert_eq!(out[199], "n200");
}

#[test]
fn empty_graph_gives_empty_set() {
    let resolve = Resolve { nodes: Vec::new(), root: None };
    assert!(resolve.is_complete());
    assert!(filter_deps(&resolve).is_empty());
}

#[test]
fn last_node_of_an_identifier_is_the_one_keyed() {
    let nodes = vec![
        node("r", vec![dep("a", &[DepKind::Normal])]),
        node("a", vec![dep("x", &[DepKind::Normal])]),
        node("a", vec![dep("y", &[DepKind::Normal])]),
        node("x", vec![]),
        node("y", vec![]),
    ];
    assert_eq!(find_node(&nodes, "a"), Some(2));
    assert_eq!(find_node(&nodes, "z"), None);
    let out = filter_deps(&Resolve { nodes, root: Some("r".to_string()) });
    assert_eq!(out, ids(&["a", "y"]));
}

#[test]
fn missing_node_makes_graph_incomplete() {
    let missing_target = Resolve {
        nodes: vec![node("r", vec![dep("gone", &[DepKind::Normal])])],
        root: Some("r".to_string()),
    };
    assert!(!missing_target.is_complete());
    let missing_root = Resolve { nodes: vec![node("r", vec![])], root: Some("q".to_string()) };
    assert!(!missing_root.is_complete());
    let missing_dev_target = Resolve {
        nodes: vec![node("r", vec![dep("gone", &[DepKind::Development])])],
        root: Some("r".to_string()),
    };
    assert!(missing_dev_target.is_complete());
    assert!(filter_deps(&missing_dev_target).is_empty());
}

#[test]
fn edge_is_normal_when_one_kind_is() {
    assert!(is_normal_dep(&vec![DepKind::Normal]));
    assert!(is_normal_dep(&vec![DepKind::Build, DepKind::Normal]));
    assert!(!is_normal_dep(&vec![DepKind::Build, DepKind::Development, DepKind::Unknown]));
    assert!(!is_normal_dep(&Vec::new()));
}

#[test]
fn results_of_several_roots_are_united() {
    let nodes = sample(None).nodes;
    let roots = ids(&["gen", "mock", "gen"]);
    assert!(has_complete_edges(&nodes));
    assert!(knows_roots(&nodes, &roots));
    assert_eq!(filter_from(&nodes, &roots), ids(&["core", "syn", "rand"]));
}

#[test]
fn no_roots_reach_nothing() {
    let nodes = sample(None).nodes;
    assert!(knows_roots(&nodes, &Vec::new()));
    assert!(filter_from(&nodes, &Vec::new()).is_empty());
}

#[test]
fn unknown_root_is_detected() {
    let nodes = sample(None).nodes;
    assert!(!knows_roots(&nodes, &ids(&["app", "nowhere"])));
}

fn package(id: &str, source: Option<&str>) -> Package {
    Package {
        id: id.to_string(),
        name: id.to_string(),
        version: "1.0.0".to_string(),
        authors: Vec::new(),
        source: source.map(|s| s.to_string()),
        license: None,
        license_file: None,
        repository: None,
        homepage: None,
        manifest_path: format!("/src/{id}/Cargo.toml"),
        copyright: None,
    }
}

#[test]
fn local_package_is_left_out_and_its_edges_are_followed() {
    let resolve = Resolve {
        nodes: vec![
            node("app", vec![dep("helper", &[DepKind::Normal])]),
            node("helper", vec![dep("serde", &[DepKind::Normal])]),
            node("serde", vec![]),
        ],
        root: Some("app".to_string()),
    };
    let shipped = filter_deps(&resolve);
    assert_eq!(shipped, ids(&["helper", "serde"]));
    let registry = "registry+https://github.com/rust-lang/crates.io-index";
    let packages =
        vec![package("app", None), package("helper", None), package("serde", Some(registry))];
    let found = lookup_deps(shipped, packages);
    assert_eq!(found.len(), 1);
    assert_eq!(found[0].id, "serde");
}
