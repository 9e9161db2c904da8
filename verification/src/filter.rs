//! The graph filter: which packages of the dependency graph are shipped.

use vstd::prelude::*;
use crate::graph::{
    complete, edges_complete, find_node, in_node_order, is_filtered, is_normal, is_normal_dep,
    is_root, lemma_node_index, node_index, node_ships, node_views, normal_edge, normal_path,
    reached_from, reaches, roots_known, shipped, Node, NodeView, Resolve,
};
use crate::text::texts_of;

verus! {

/// The node at `j` is the one that the graph keys under its identifier.
spec fn canonical(nodes: Seq<NodeView>, j: int) -> bool {
    0 <= j < nodes.len() && node_index(nodes, nodes[j].id) == Some(j)
}

/// The package `id` has a node, and the node is marked.
spec fn marked(nodes: Seq<NodeView>, seen: Seq<bool>, id: Seq<char>) -> bool {
    node_index(nodes, id) matches Some(t) && 0 <= t < seen.len() && seen[t]
}

/// Every package that a shipped edge of `a` leads to is marked.
spec fn expanded(nodes: Seq<NodeView>, seen: Seq<bool>, a: Seq<char>) -> bool {
    forall|b: Seq<char>| #[trigger] normal_edge(nodes, a, b) ==> marked(nodes, seen, b)
}

/// A marking is closed when it marks only nodes that the graph keys, and with
/// a node all that its shipped edges lead to.
spec fn closed(nodes: Seq<NodeView>, seen: Seq<bool>) -> bool {
    &&& seen.len() == nodes.len()
    &&& forall|j: int|
        0 <= j < seen.len() && #[trigger] seen[j] ==> canonical(nodes, j) && expanded(
            nodes,
            seen,
            nodes[j].id,
        )
}

/// How many entries of `s` are `false`.
spec fn count_false(s: Seq<bool>) -> nat
    decreases s.len(),
{
    if s.len() == 0 {
        0
    } else {
        count_false(s.drop_last()) + if s.last() {
            0nat
        } else {
            1nat
        }
    }
}

/// Marking an unmarked entry leaves one `false` less.
proof fn lemma_count_update(s: Seq<bool>, t: int)
    requires
        0 <= t < s.len(),
        !s[t],
    ensures
        count_false(s.update(t, true)) + 1 == count_false(s),
    decreases s.len(),
{
    let u = s.update(t, true);
    if t == s.len() - 1 {
        assert(u.drop_last() =~= s.drop_last());
    } else {
        assert(u.drop_last() =~= s.drop_last().update(t, true));
        lemma_count_update(s.drop_last(), t);
    }
}

/// A shipped edge is a path.
proof fn lemma_reach_edge(nodes: Seq<NodeView>, a: Seq<char>, b: Seq<char>)
    requires
        normal_edge(nodes, a, b),
    ensures
        reaches(nodes, a, b),
{
    let path = seq![a, b];
    assert(normal_path(nodes, path));
}

/// A path followed by a shipped edge is a path.
proof fn lemma_reach_step(nodes: Seq<NodeView>, a: Seq<char>, b: Seq<char>, c: Seq<char>)
    requires
        reaches(nodes, a, b),
        normal_edge(nodes, b, c),
    ensures
        reaches(nodes, a, c),
{
    let path = choose|path: Seq<Seq<char>>|
        #[trigger] normal_path(nodes, path) && path[0] == a && path.last() == b;
    let longer = path.push(c);
    assert(normal_path(nodes, longer));
}

/// In a closed marking in which the start of a path is expanded, every later
/// package of the path is marked.
proof fn lemma_path_marked(
    nodes: Seq<NodeView>,
    seen: Seq<bool>,
    path: Seq<Seq<char>>,
    i: int,
)
    requires
        closed(nodes, seen),
        normal_path(nodes, path),
        expanded(nodes, seen, path[0]),
        1 <= i < path.len(),
    ensures
        marked(nodes, seen, path[i]),
    decreases i,
{
    if i > 1 {
        lemma_path_marked(nodes, seen, path, i - 1);
        lemma_node_index(nodes, path[i - 1]);
    }
}

/// The node at `j` waits in the work list.
spec fn pending(todo: Seq<usize>, j: int) -> bool {
    exists|i: int| 0 <= i < todo.len() && #[trigger] todo[i] == j
}

/// The state of a walk from the node at `start`: `before` is the marking that
/// the walk began with, `seen` the marking now, `todo` the work list, `done`
/// the nodes whose edges have been followed, `current` the node whose edges
/// are being followed, or -1.
spec fn walk_inv(
    nodes: Seq<NodeView>,
    start: int,
    before: Seq<bool>,
    seen: Seq<bool>,
    todo: Seq<usize>,
    done: Set<int>,
    current: int,
) -> bool {
    &&& seen.len() == nodes.len()
    &&& before.len() == nodes.len()
    &&& canonical(nodes, start)
    &&& forall|j: int| 0 <= j < nodes.len() && before[j] ==> #[trigger] seen[j]
    &&& forall|j: int| 0 <= j < nodes.len() && #[trigger] seen[j] ==> canonical(nodes, j)
    &&& forall|j: int|
        0 <= j < nodes.len() && #[trigger] seen[j] && !before[j] ==> reaches(
            nodes,
            nodes[start].id,
            nodes[j].id,
        ) && (done.contains(j) || pending(todo, j) || j == current)
    &&& forall|i: int|
        0 <= i < todo.len() ==> canonical(nodes, #[trigger] todo[i] as int) && (todo[i] == start
            || reaches(nodes, nodes[start].id, nodes[todo[i] as int].id))
    &&& forall|j: int|
        #[trigger] done.contains(j) ==> 0 <= j < nodes.len() && expanded(nodes, seen, nodes[j].id)
    &&& forall|j: int|
        0 <= j < nodes.len() && #[trigger] before[j] ==> expanded(nodes, seen, nodes[j].id)
    &&& done.contains(start) || pending(todo, start) || start == current
}

/// Marks every node that the node at `start` reaches over shipped edges
/// alone. The marking that it is given is closed, so that a node already
/// marked need not be walked again.
fn walk_from(start: usize, nodes: &Vec<Node>, seen: &mut Vec<bool>)
    requires
        edges_complete(node_views(nodes@)),
        closed(node_views(nodes@), old(seen)@),
        canonical(node_views(nodes@), start as int),
    ensures
        closed(node_views(nodes@), final(seen)@),
        forall|j: int|
            0 <= j < nodes@.len() ==> (#[trigger] final(seen)@[j] <==> (old(seen)@[j] || (canonical(
                node_views(nodes@),
                j,
            ) && reaches(
                node_views(nodes@),
                node_views(nodes@)[start as int].id,
                node_views(nodes@)[j].id,
            )))),
{
    let ghost nv = node_views(nodes@);
    let ghost before = seen@;
    let ghost mut done: Set<int> = Set::empty();
    let mut todo: Vec<usize> = Vec::new();
    todo.push(start);
    assert(todo@[0] == start);
    while todo.len() > 0
        invariant
            nv == node_views(nodes@),
            edges_complete(nv),
            walk_inv(nv, start as int, before, seen@, todo@, done, -1),
        decreases count_false(seen@), todo@.len(),
    {
        let ghost c0 = count_false(seen@);
        let ghost l0 = todo@.len();
        let ghost todo0 = todo@;
        let j = todo.pop().unwrap();
        assert forall|x: int| pending(todo0, x) implies pending(todo@, x) || x == j by {
            let i = choose|i: int| 0 <= i < todo0.len() && #[trigger] todo0[i] == x;
            if i < l0 - 1 {
                assert(todo@[i] == x);
            }
        }
        let node = &nodes[j];
        let mut k: usize = 0;
        while k < node.deps.len()
            invariant
                nv == node_views(nodes@),
                edges_complete(nv),
                j < nodes@.len(),
                *node == nodes@[j as int],
                k <= node.deps@.len(),
                walk_inv(nv, start as int, before, seen@, todo@, done, j as int),
                j == start || reaches(nv, nv[start as int].id, nv[j as int].id),
                canonical(nv, j as int),
                forall|m: int|
                    0 <= m < k && is_normal((#[trigger] nv[j as int].deps[m]).dep_kinds) ==> marked(
                        nv,
                        seen@,
                        nv[j as int].deps[m].pkg,
                    ),
                count_false(seen@) + todo@.len() + 1 == c0 + l0,
                count_false(seen@) <= c0,
            decreases node.deps@.len() - k,
        {
            let dep = &node.deps[k];
            if is_normal_dep(&dep.dep_kinds) {
                match find_node(nodes, dep.pkg.as_str()) {
                    Some(t) => {
                        proof {
                            lemma_node_index(nv, dep@.pkg);
                            assert(is_normal(nv[j as int].deps[k as int].dep_kinds));
                        }
                        if !seen[t] {
                            let ghost seen0 = seen@;
                            let ghost todo1 = todo@;
                            seen.set(t, true);
                            todo.push(t);
                            proof {
                                lemma_count_update(seen0, t as int);
                                if j == start {
                                    lemma_reach_edge(nv, nv[start as int].id, nv[t as int].id);
                                } else {
                                    lemma_reach_step(
                                        nv,
                                        nv[start as int].id,
                                        nv[j as int].id,
                                        nv[t as int].id,
                                    );
                                }
                                assert(todo@[todo1.len() as int] == t);
                                assert forall|x: int| pending(todo1, x) implies pending(
                                    todo@,
                                    x,
                                ) by {
                                    let i = choose|i: int|
                                        0 <= i < todo1.len() && #[trigger] todo1[i] == x;
                                    assert(todo@[i] == x);
                                }
                                assert(walk_inv(
                                    nv,
                                    start as int,
                                    before,
                                    seen@,
                                    todo@,
                                    done,
                                    j as int,
                                ));
                            }
                        }
                    },
                    None => {
                        // a complete graph has this node
                        assert(false);
                    },
                }
            }
            k = k + 1;
        }
        proof {
            assert(expanded(nv, seen@, nv[j as int].id));
            done = done.insert(j as int);
        }
    }
    proof {
        assert forall|j: int| 0 <= j < nodes@.len() implies (#[trigger] seen@[j] <==> (before[j]
            || (canonical(nv, j) && reaches(nv, nv[start as int].id, nv[j].id)))) by {
            if canonical(nv, j) && reaches(nv, nv[start as int].id, nv[j].id) {
                let path = choose|path: Seq<Seq<char>>|
                    #[trigger] normal_path(nv, path) && path[0] == nv[start as int].id
                        && path.last() == nv[j].id;
                lemma_path_marked(nv, seen@, path, path.len() - 1);
            }
        }
    }
}

/// Marks every node that one of `roots` reaches over shipped edges alone.
fn walk_roots(roots: &Vec<String>, nodes: &Vec<Node>, seen: &mut Vec<bool>)
    requires
        edges_complete(node_views(nodes@)),
        roots_known(node_views(nodes@), texts_of(roots@)),
        closed(node_views(nodes@), old(seen)@),
    ensures
        closed(node_views(nodes@), final(seen)@),
        forall|j: int|
            0 <= j < nodes@.len() ==> (#[trigger] final(seen)@[j] <==> (old(seen)@[j] || (canonical(
                node_views(nodes@),
                j,
            ) && reached_from(node_views(nodes@), texts_of(roots@), node_views(nodes@)[j].id)))),
{
    let ghost nv = node_views(nodes@);
    let ghost ids = texts_of(roots@);
    let ghost before = seen@;
    let mut i: usize = 0;
    while i < roots.len()
        invariant
            i <= roots@.len(),
            nv == node_views(nodes@),
            ids == texts_of(roots@),
            edges_complete(nv),
            roots_known(nv, ids),
            before.len() == nv.len(),
            closed(nv, seen@),
            forall|j: int|
                0 <= j < nv.len() ==> (#[trigger] seen@[j] <==> (before[j] || (canonical(nv, j)
                    && reached_from(nv, ids.subrange(0, i as int), nv[j].id)))),
        decreases roots@.len() - i,
    {
        let ghost seen0 = seen@;
        let ghost done = ids.subrange(0, i as int);
        let ghost now = ids.subrange(0, i + 1);
        match find_node(nodes, roots[i].as_str()) {
            Some(start) => {
                proof {
                    lemma_node_index(nv, ids[i as int]);
                }
                walk_from(start, nodes, seen);
                proof {
                    assert(nv[start as int].id == ids[i as int]);
                    assert forall|j: int| 0 <= j < nv.len() implies (reached_from(
                        nv,
                        now,
                        nv[j].id,
                    ) <==> (reached_from(nv, done, nv[j].id) || reaches(
                        nv,
                        ids[i as int],
                        nv[j].id,
                    ))) by {
                        if reached_from(nv, now, nv[j].id) {
                            let m = choose|m: int|
                                0 <= m < now.len() && #[trigger] reaches(nv, now[m], nv[j].id);
                            if m < i {
                                assert(reaches(nv, done[m], nv[j].id));
                            }
                        }
                        if reached_from(nv, done, nv[j].id) {
                            let m = choose|m: int|
                                0 <= m < done.len() && #[trigger] reaches(nv, done[m], nv[j].id);
                            assert(reaches(nv, now[m], nv[j].id));
                        }
                        if reaches(nv, ids[i as int], nv[j].id) {
                            assert(reaches(nv, now[i as int], nv[j].id));
                        }
                    }
                }
            },
            None => {
                // every root has a node
                assert(false);
            },
        }
        i = i + 1;
    }
    assert(ids.subrange(0, roots@.len() as int) =~= ids);
}

/// In a complete graph, a package that is reached has a node.
proof fn lemma_reached_has_node(nodes: Seq<NodeView>, from: Seq<char>, to: Seq<char>)
    requires
        edges_complete(nodes),
        reaches(nodes, from, to),
    ensures
        node_index(nodes, to) is Some,
{
    let path = choose|path: Seq<Seq<char>>|
        #[trigger] normal_path(nodes, path) && path[0] == from && path.last() == to;
    let a = path[path.len() - 2];
    lemma_node_index(nodes, a);
}

/// The packages that one of `roots` reaches over at least one edge, every
/// edge of the path being of the `Normal` kind. Each identifier comes once, in
/// the order of the graph's nodes.
pub fn filter_from(nodes: &Vec<Node>, roots: &Vec<String>) -> (out: Vec<String>)
    requires
        edges_complete(node_views(nodes@)),
        roots_known(node_views(nodes@), texts_of(roots@)),
    ensures
        texts_of(out@).no_duplicates(),
        forall|id: Seq<char>|
            texts_of(out@).contains(id) <==> reached_from(node_views(nodes@), texts_of(roots@), id),
        in_node_order(node_views(nodes@), texts_of(out@)),
{
    let ghost nv = node_views(nodes@);
    let ghost ids = texts_of(roots@);
    let n: usize = nodes.len();
    let mut seen: Vec<bool> = Vec::new();
    while seen.len() < n
        invariant
            seen@.len() <= n,
            forall|j: int| 0 <= j < seen@.len() ==> !#[trigger] seen@[j],
        decreases n - seen@.len(),
    {
        seen.push(false);
    }
    walk_roots(roots, nodes, &mut seen);
    let mut out: Vec<String> = Vec::new();
    let mut j: usize = 0;
    while j < n
        invariant
            j <= n,
            n == nodes@.len(),
            nv == node_views(nodes@),
            seen@.len() == n,
            forall|m: int| 0 <= m < n && #[trigger] seen@[m] ==> canonical(nv, m),
            texts_of(out@).no_duplicates(),
            in_node_order(nv, texts_of(out@)),
            forall|q: int|
                0 <= q < out@.len() ==> node_index(nv, #[trigger] texts_of(out@)[q]) is Some
                    && node_index(nv, texts_of(out@)[q])->0 < j,
            forall|id: Seq<char>|
                texts_of(out@).contains(id) <==> exists|m: int|
                    0 <= m < j && #[trigger] seen@[m] && nv[m].id == id,
        decreases n - j,
    {
        if seen[j] {
            let ghost held = texts_of(out@);
            out.push(nodes[j].id.clone());
            proof {
                let now = texts_of(out@);
                let id_j = nv[j as int].id;
                assert(now =~= held.push(id_j));
                assert forall|id: Seq<char>| now.contains(id) <==> exists|m: int|
                    0 <= m < j + 1 && #[trigger] seen@[m] && nv[m].id == id by {
                    if now.contains(id) {
                        let q = choose|q: int| 0 <= q < now.len() && now[q] == id;
                        if q < held.len() {
                            assert(held.contains(id));
                        }
                    }
                    if exists|m: int| 0 <= m < j + 1 && #[trigger] seen@[m] && nv[m].id == id {
                        let m = choose|m: int|
                            0 <= m < j + 1 && #[trigger] seen@[m] && nv[m].id == id;
                        if m < j {
                            assert(held.contains(id));
                            let q = choose|q: int| 0 <= q < held.len() && held[q] == id;
                            assert(now[q] == id);
                        } else {
                            assert(now[held.len() as int] == id);
                        }
                    }
                }
            }
        }
        j = j + 1;
    }
    proof {
        assert forall|id: Seq<char>| texts_of(out@).contains(id) <==> reached_from(
            nv,
            ids,
            id,
        ) by {
            if reached_from(nv, ids, id) {
                let i = choose|i: int| 0 <= i < ids.len() && #[trigger] reaches(nv, ids[i], id);
                lemma_reached_has_node(nv, ids[i], id);
                lemma_node_index(nv, id);
                let t = node_index(nv, id)->0;
                assert(seen@[t]);
            }
        }
    }
    out
}

/// The identifiers of all nodes, in their order.
fn node_ids(nodes: &Vec<Node>) -> (ids: Vec<String>)
    ensures
        ids@.len() == nodes@.len(),
        forall|i: int| 0 <= i < ids@.len() ==> (#[trigger] ids@[i])@ == nodes@[i]@.id,
{
    let mut ids: Vec<String> = Vec::new();
    let mut i: usize = 0;
    while i < nodes.len()
        invariant
            i <= nodes@.len(),
            ids@.len() == i,
            forall|j: int| 0 <= j < i ==> (#[trigger] ids@[j])@ == nodes@[j]@.id,
        decreases nodes@.len() - i,
    {
        ids.push(nodes[i].id.clone());
        i = i + 1;
    }
    ids
}

/// The packages that are shipped: those that a root of the graph reaches over
/// at least one edge, every edge of the path being of the `Normal` kind. Each
/// identifier comes once, in the order of the graph's nodes.
pub fn filter_deps(resolve: &Resolve) -> (out: Vec<String>)
    requires
        complete(resolve@),
    ensures
        is_filtered(resolve@, texts_of(out@)),
        in_node_order(resolve@.nodes, texts_of(out@)),
{
    let ghost nv = node_views(resolve.nodes@);
    let roots: Vec<String> = match &resolve.root {
        Some(id) => {
            let mut roots: Vec<String> = Vec::new();
            roots.push(id.clone());
            roots
        },
        None => node_ids(&resolve.nodes),
    };
    let ghost ids = texts_of(roots@);
    proof {
        assert forall|i: int| 0 <= i < ids.len() implies node_index(nv, #[trigger] ids[i]) is Some
            && is_root(resolve@, ids[i]) by {
            lemma_node_index(nv, ids[i]);
            if resolve.root is None {
                assert(nv[i].id == ids[i]);
            }
        }
    }
    let out = filter_from(&resolve.nodes, &roots);
    proof {
        assert forall|id: Seq<char>| shipped(resolve@, id) <==> reached_from(nv, ids, id) by {
            if shipped(resolve@, id) {
                let r = choose|r: Seq<char>|
                    is_root(resolve@, r) && #[trigger] reaches(nv, r, id);
                lemma_node_index(nv, r);
                if resolve.root is None {
                    let t = node_index(nv, r)->0;
                    assert(ids[t] == r);
                    assert(reaches(nv, ids[t], id));
                } else {
                    assert(ids[0] == r);
                    assert(reaches(nv, ids[0], id));
                }
            }
            if reached_from(nv, ids, id) {
                let i = choose|i: int| 0 <= i < ids.len() && #[trigger] reaches(nv, ids[i], id);
                assert(is_root(resolve@, ids[i]));
            }
        }
    }
    out
}

} // verus!
