//! The resolved dependency graph of a build.

use vstd::prelude::*;
use crate::text::{same_text, texts_of};

verus! {

/// The kind of a dependency.
#[derive(Clone, Copy, Debug, PartialEq, Eq, Structural)]
pub enum DepKind {
    /// Needed to compile and run the artifact.
    Normal,
    /// Needed for tests only.
    Development,
    /// Needed by build scripts only.
    Build,
    /// A kind that this library does not know.
    Unknown,
}

/// An edge of the graph: a dependency of a package.
#[derive(Clone, Debug, PartialEq, Eq)]
pub struct Dep {
    /// The identifier of the package depended on.
    pub pkg: String,
    /// The kinds under which it is depended on.
    pub dep_kinds: Vec<DepKind>,
}

/// The mathematical content of a `Dep`.
pub ghost struct DepView {
    pub pkg: Seq<char>,
    pub dep_kinds: Seq<DepKind>,
}

impl View for Dep {
    type V = DepView;

    open spec fn view(&self) -> DepView {
        DepView { pkg: self.pkg@, dep_kinds: self.dep_kinds@ }
    }
}

/// A package of the graph with its outgoing edges.
#[derive(Clone, Debug, PartialEq, Eq)]
pub struct Node {
    pub id: String,
    pub deps: Vec<Dep>,
}

/// The mathematical content of a `Node`.
pub ghost struct NodeView {
    pub id: Seq<char>,
    pub deps: Seq<DepView>,
}

impl View for Node {
    type V = NodeView;

    open spec fn view(&self) -> NodeView {
        NodeView { id: self.id@, deps: Seq::new(self.deps@.len(), |k: int| self.deps@[k]@) }
    }
}

/// What a list of nodes denotes.
pub open spec fn node_views(nodes: Seq<Node>) -> Seq<NodeView> {
    Seq::new(nodes.len(), |i: int| nodes[i]@)
}

/// The graph, and the package that the build is for. Without a root the
/// build is for a workspace, and every node counts as a root.
#[derive(Clone, Debug, PartialEq, Eq)]
pub struct Resolve {
    pub nodes: Vec<Node>,
    pub root: Option<String>,
}

/// The mathematical content of a `Resolve`.
pub ghost struct ResolveView {
    pub nodes: Seq<NodeView>,
    pub root: Option<Seq<char>>,
}

impl View for Resolve {
    type V = ResolveView;

    open spec fn view(&self) -> ResolveView {
        ResolveView {
            nodes: node_views(self.nodes@),
            root: match self.root {
                Some(id) => Some(id@),
                None => None,
            },
        }
    }
}

/// An edge is shipped when one of its kinds is `Normal`.
pub open spec fn is_normal(kinds: Seq<DepKind>) -> bool {
    kinds.contains(DepKind::Normal)
}

/// The index of the node that the graph keys under `id`: the last one with
/// that identifier.
pub open spec fn node_index(nodes: Seq<NodeView>, id: Seq<char>) -> Option<int>
    decreases nodes.len(),
{
    if nodes.len() == 0 {
        None
    } else if nodes.last().id == id {
        Some(nodes.len() - 1)
    } else {
        node_index(nodes.drop_last(), id)
    }
}

/// The node has a shipped edge to the package `b`.
pub open spec fn node_ships(node: NodeView, b: Seq<char>) -> bool {
    exists|k: int|
        0 <= k < node.deps.len() && (#[trigger] node.deps[k]).pkg == b && is_normal(
            node.deps[k].dep_kinds,
        )
}

/// The graph has a shipped edge from the package `a` to the package `b`.
pub open spec fn normal_edge(nodes: Seq<NodeView>, a: Seq<char>, b: Seq<char>) -> bool {
    node_index(nodes, a) is Some && node_ships(nodes[node_index(nodes, a)->0], b)
}

/// A path of at least one edge, all of them shipped.
pub open spec fn normal_path(nodes: Seq<NodeView>, path: Seq<Seq<char>>) -> bool {
    path.len() >= 2 && forall|i: int|
        0 <= i < path.len() - 1 ==> normal_edge(nodes, #[trigger] path[i], path[i + 1])
}

/// The package `to` is reached from the package `from` over shipped edges
/// alone.
pub open spec fn reaches(nodes: Seq<NodeView>, from: Seq<char>, to: Seq<char>) -> bool {
    exists|path: Seq<Seq<char>>|
        #[trigger] normal_path(nodes, path) && path[0] == from && path.last() == to
}

/// One of `roots` reaches the package `id` over shipped edges alone.
pub open spec fn reached_from(nodes: Seq<NodeView>, roots: Seq<Seq<char>>, id: Seq<char>) -> bool {
    exists|i: int| 0 <= i < roots.len() && #[trigger] reaches(nodes, roots[i], id)
}

/// Every one of `roots` has a node.
pub open spec fn roots_known(nodes: Seq<NodeView>, roots: Seq<Seq<char>>) -> bool {
    forall|i: int| 0 <= i < roots.len() ==> node_index(nodes, #[trigger] roots[i]) is Some
}

/// The roots of the walk: the root of the graph, or every node where the
/// graph names none.
pub open spec fn is_root(g: ResolveView, id: Seq<char>) -> bool {
    match g.root {
        Some(root) => id == root,
        None => node_index(g.nodes, id) is Some,
    }
}

/// The package `id` is part of the shipped artifact: some root reaches it
/// over shipped edges alone.
pub open spec fn shipped(g: ResolveView, id: Seq<char>) -> bool {
    exists|root: Seq<char>| is_root(g, root) && #[trigger] reaches(g.nodes, root, id)
}

/// Every shipped edge of the graph leads to a node.
pub open spec fn edges_complete(nodes: Seq<NodeView>) -> bool {
    forall|i: int, k: int|
        0 <= i < nodes.len() && 0 <= k < nodes[i].deps.len() && is_normal(
            (#[trigger] nodes[i].deps[k]).dep_kinds,
        ) ==> node_index(nodes, nodes[i].deps[k].pkg) is Some
}

/// The graph holds a node for its root and for every package that a shipped
/// edge leads to.
pub open spec fn complete(g: ResolveView) -> bool {
    &&& g.root matches Some(root) ==> node_index(g.nodes, root) is Some
    &&& edges_complete(g.nodes)
}

/// The graph has an edge of any kind from the package `a` to the package `b`.
pub open spec fn any_edge(nodes: Seq<NodeView>, a: Seq<char>, b: Seq<char>) -> bool {
    node_index(nodes, a) is Some && exists|k: int|
        0 <= k < nodes[node_index(nodes, a)->0].deps.len() && (
        #[trigger] nodes[node_index(nodes, a)->0].deps[k]).pkg == b
}

/// A path of at least one edge, of any kinds.
pub open spec fn any_path(nodes: Seq<NodeView>, path: Seq<Seq<char>>) -> bool {
    path.len() >= 2 && forall|i: int|
        0 <= i < path.len() - 1 ==> any_edge(nodes, #[trigger] path[i], path[i + 1])
}

/// `out` is the set of shipped packages of the graph `g`, each once.
pub open spec fn is_filtered(g: ResolveView, out: Seq<Seq<char>>) -> bool {
    &&& out.no_duplicates()
    &&& forall|id: Seq<char>| out.contains(id) <==> shipped(g, id)
}

/// The identifiers of `out` stand in the order of the nodes that the graph
/// keys under them.
pub open spec fn in_node_order(nodes: Seq<NodeView>, out: Seq<Seq<char>>) -> bool {
    forall|a: int, b: int|
        0 <= a < b < out.len() ==> node_index(nodes, out[a]) is Some && node_index(
            nodes,
            out[b],
        ) is Some && node_index(nodes, out[a])->0 < node_index(nodes, out[b])->0
}

/// What `node_index` finds is a node with the identifier asked for, and no
/// later node has it.
pub proof fn lemma_node_index(nodes: Seq<NodeView>, id: Seq<char>)
    ensures
        match node_index(nodes, id) {
            Some(i) => 0 <= i < nodes.len() && nodes[i].id == id && forall|j: int|
                i < j < nodes.len() ==> (#[trigger] nodes[j]).id != id,
            None => forall|j: int| 0 <= j < nodes.len() ==> (#[trigger] nodes[j]).id != id,
        },
    decreases nodes.len(),
{
    if nodes.len() > 0 && nodes.last().id != id {
        lemma_node_index(nodes.drop_last(), id);
        assert forall|j: int| 0 <= j < nodes.len() - 1 implies nodes[j] == nodes.drop_last()[
            j
        ] by {}
    }
}

/// A package that the roots reach only over paths with an edge that is not of
/// the `Normal` kind is not in the filter's output.
pub proof fn lemma_pruned_is_absent(g: ResolveView, out: Seq<Seq<char>>, id: Seq<char>)
    requires
        is_filtered(g, out),
        forall|path: Seq<Seq<char>>|
            #[trigger] any_path(g.nodes, path) && is_root(g, path[0]) && path.last() == id
                ==> exists|i: int|
                0 <= i < path.len() - 1 && !normal_edge(g.nodes, #[trigger] path[i], path[i + 1]),
    ensures
        !out.contains(id),
{
    if shipped(g, id) {
        let root = choose|root: Seq<char>|
            is_root(g, root) && #[trigger] reaches(g.nodes, root, id);
        let path = choose|path: Seq<Seq<char>>|
            #[trigger] normal_path(g.nodes, path) && path[0] == root && path.last() == id;
        assert(any_path(g.nodes, path));
    }
}

/// A package at the end of a path from a root whose edges are all of the
/// `Normal` kind is in the filter's output, whatever other paths lead to it.
pub proof fn lemma_normal_path_is_present(
    g: ResolveView,
    out: Seq<Seq<char>>,
    path: Seq<Seq<char>>,
)
    requires
        is_filtered(g, out),
        normal_path(g.nodes, path),
        is_root(g, path[0]),
    ensures
        out.contains(path.last()),
{
    assert(reaches(g.nodes, path[0], path.last()));
}

/// Whether one of the kinds is `Normal`.
pub fn is_normal_dep(kinds: &Vec<DepKind>) -> (r: bool)
    ensures
        r == is_normal(kinds@),
{
    let mut i: usize = 0;
    while i < kinds.len()
        invariant
            i <= kinds@.len(),
            forall|j: int| 0 <= j < i ==> kinds@[j] != DepKind::Normal,
        decreases kinds@.len() - i,
    {
        if kinds[i] == DepKind::Normal {
            return true;
        }
        i = i + 1;
    }
    false
}

/// The index of the node that the graph keys under `id`.
pub fn find_node(nodes: &Vec<Node>, id: &str) -> (r: Option<usize>)
    ensures
        match r {
            Some(i) => node_index(node_views(nodes@), id@) == Some(i as int),
            None => node_index(node_views(nodes@), id@) is None,
        },
{
    let ghost all = node_views(nodes@);
    let mut i: usize = nodes.len();
    assert(all.subrange(0, i as int) =~= all);
    while i > 0
        invariant
            i <= nodes@.len(),
            all == node_views(nodes@),
            node_index(all, id@) == node_index(all.subrange(0, i as int), id@),
        decreases i,
    {
        let ghost upto = all.subrange(0, i as int);
        assert(upto.drop_last() =~= all.subrange(0, i - 1));
        if same_text(nodes[i - 1].id.as_str(), id) {
            return Some(i - 1);
        }
        i = i - 1;
    }
    None
}

/// Whether every shipped edge of the graph leads to a node.
pub fn has_complete_edges(nodes: &Vec<Node>) -> (r: bool)
    ensures
        r == edges_complete(node_views(nodes@)),
{
    let ghost nv = node_views(nodes@);
    let mut i: usize = 0;
    while i < nodes.len()
        invariant
            i <= nodes@.len(),
            nv == node_views(nodes@),
            forall|a: int, k: int|
                0 <= a < i && 0 <= k < nv[a].deps.len() && is_normal(
                    (#[trigger] nv[a].deps[k]).dep_kinds,
                ) ==> node_index(nv, nv[a].deps[k].pkg) is Some,
        decreases nodes@.len() - i,
    {
        let node = &nodes[i];
        let mut k: usize = 0;
        while k < node.deps.len()
            invariant
                i < nodes@.len(),
                *node == nodes@[i as int],
                k <= node.deps@.len(),
                nv == node_views(nodes@),
                forall|m: int|
                    0 <= m < k && is_normal((#[trigger] nv[i as int].deps[m]).dep_kinds)
                        ==> node_index(nv, nv[i as int].deps[m].pkg) is Some,
            decreases node.deps@.len() - k,
        {
            let dep = &node.deps[k];
            assert(nv[i as int].deps[k as int] == dep@);
            if is_normal_dep(&dep.dep_kinds) && find_node(nodes, dep.pkg.as_str()).is_none() {
                return false;
            }
            k = k + 1;
        }
        i = i + 1;
    }
    true
}

/// Whether every one of `roots` has a node.
pub fn knows_roots(nodes: &Vec<Node>, roots: &Vec<String>) -> (r: bool)
    ensures
        r == roots_known(node_views(nodes@), texts_of(roots@)),
{
    let mut i: usize = 0;
    while i < roots.len()
        invariant
            i <= roots@.len(),
            forall|j: int|
                0 <= j < i ==> node_index(node_views(nodes@), #[trigger] texts_of(roots@)[j])
                    is Some,
        decreases roots@.len() - i,
    {
        if find_node(nodes, roots[i].as_str()).is_none() {
            assert(texts_of(roots@)[i as int] == roots@[i as int]@);
            return false;
        }
        i = i + 1;
    }
    true
}

impl Resolve {
    /// Whether the graph holds a node for its root and for every package that
    /// a shipped edge leads to.
    pub fn is_complete(&self) -> (r: bool)
        ensures
            r == complete(self@),
    {
        if let Some(root) = &self.root {
            if find_node(&self.nodes, root.as_str()).is_none() {
                return false;
            }
        }
        has_complete_edges(&self.nodes)
    }
}

} // verus!
