//! The map from each node's id to its parent, and the walk up from a node to its
//! workspace.
use vstd::prelude::*;
use std::collections::HashMap;
use crate::tree::{Node, NodeView, views, traversal, level_order, next_layer, forest_size,
    lemma_next_layer_size};
use crate::walk::{opt_view, same_node, lemma_view_children, lemma_views_push};

verus! {

broadcast use vstd::std_specs::hash::group_hash_axioms;

/// The models of the nodes that a map of node references holds.
pub open spec fn parent_views(m: Map<i64, &Node>) -> Map<i64, NodeView> {
    m.map_values(|r: &Node| r@)
}

/// `m` after recording `parent` as the parent of each of `children`, in order.
pub open spec fn record_children(
    m: Map<i64, NodeView>,
    parent: NodeView,
    children: Seq<NodeView>,
) -> Map<i64, NodeView>
    decreases children.len(),
{
    if children.len() == 0 {
        m
    } else {
        record_children(m, parent, children.drop_last()).insert(children.last().id, parent)
    }
}

/// `m` after recording, for each node of `visited` in order, that node as the
/// parent of each of its children.
pub open spec fn record_parents(m: Map<i64, NodeView>, visited: Seq<NodeView>) -> Map<
    i64,
    NodeView,
>
    decreases visited.len(),
{
    if visited.len() == 0 {
        m
    } else {
        record_children(
            record_parents(m, visited.drop_last()),
            visited.last(),
            visited.last().nodes,
        )
    }
}

/// The parent map of the tree below `root`: `root` is its own parent, and the
/// walk level by level records each node as the parent of its children, a later
/// record replacing an earlier one for the same id.
pub open spec fn parent_map_of(root: NodeView) -> Map<i64, NodeView> {
    record_parents(map![root.id => root], level_order(root))
}

/// The node that `steps` steps up from `n` along `parents` reach.
pub open spec fn ancestor(parents: Map<i64, NodeView>, n: NodeView, steps: nat) -> NodeView
    decreases steps,
{
    if steps == 0 {
        n
    } else {
        parents[ancestor(parents, n, (steps - 1) as nat).id]
    }
}

/// Whether the walk up from `n` along `parents` stops within `steps` steps: it
/// finds the parent of each node it meets, and stops at the first node that is
/// its own parent or a workspace.
pub open spec fn walk_ends(parents: Map<i64, NodeView>, n: NodeView, steps: nat) -> bool
    decreases steps,
{
    &&& parents.contains_key(n.id)
    &&& (parents[n.id] == n || n.is_workspace() || (steps > 0 && walk_ends(
        parents,
        parents[n.id],
        (steps - 1) as nat,
    )))
}

/// The first workspace that the walk up from `n` meets before a node that is its
/// own parent, looking at most `fuel` steps up.
pub open spec fn workspace_above(parents: Map<i64, NodeView>, n: NodeView, fuel: nat) -> Option<
    NodeView,
>
    decreases fuel,
{
    if parents[n.id] == n {
        None
    } else if n.is_workspace() {
        Some(n)
    } else if fuel == 0 {
        None
    } else {
        workspace_above(parents, parents[n.id], (fuel - 1) as nat)
    }
}

pub proof fn lemma_parent_views_insert(m: Map<i64, &Node>, k: i64, r: &Node)
    ensures
        parent_views(m.insert(k, r)) == parent_views(m).insert(k, r@),
{
    assert(parent_views(m.insert(k, r)) =~= parent_views(m).insert(k, r@));
}

pub proof fn lemma_record_parents_concat(m: Map<i64, NodeView>, a: Seq<NodeView>, b: Seq<NodeView>)
    ensures
        record_parents(m, a + b) == record_parents(record_parents(m, a), b),
    decreases b.len(),
{
    if b.len() == 0 {
        assert(a + b =~= a);
    } else {
        assert((a + b).drop_last() =~= a + b.drop_last());
        assert((a + b).last() == b.last());
        lemma_record_parents_concat(m, a, b.drop_last());
    }
}

pub proof fn lemma_ancestor_shift(parents: Map<i64, NodeView>, n: NodeView, j: nat)
    ensures
        ancestor(parents, parents[n.id], j) == ancestor(parents, n, j + 1),
    decreases j,
{
    assert(ancestor(parents, n, 0) == n);
    assert(ancestor(parents, n, j + 1) == parents[ancestor(parents, n, j).id]);
    if j > 0 {
        lemma_ancestor_shift(parents, n, (j - 1) as nat);
        assert(ancestor(parents, parents[n.id], j) == parents[ancestor(
            parents,
            parents[n.id],
            (j - 1) as nat,
        ).id]);
    }
}

/// The answer of the walk does not depend on how many steps it may take, once
/// it may take enough to stop.
pub proof fn lemma_workspace_above_fuel(
    parents: Map<i64, NodeView>,
    n: NodeView,
    k1: nat,
    k2: nat,
)
    requires
        walk_ends(parents, n, k1),
        walk_ends(parents, n, k2),
    ensures
        workspace_above(parents, n, k1) == workspace_above(parents, n, k2),
    decreases k1,
{
    if parents[n.id] == n || n.is_workspace() {
    } else {
        lemma_workspace_above_fuel(parents, parents[n.id], (k1 - 1) as nat, (k2 - 1) as nat);
    }
}

fn record_children_of<'a>(
    parents: &mut HashMap<i64, &'a Node>,
    next: &mut Vec<&'a Node>,
    n: &'a Node,
)
    ensures
        parent_views(final(parents)@) == record_children(parent_views(old(parents)@), n@, n@.nodes),
        views(final(next)@) == views(old(next)@) + n@.nodes,
{
    proof {
        lemma_view_children(*n);
    }
    let ghost m0 = parent_views(parents@);
    let ghost start = views(next@);
    let mut j: usize = 0;
    proof {
        assert(n@.nodes.take(0) =~= Seq::<NodeView>::empty());
        assert(start + n@.nodes.take(0) =~= start);
    }
    while j < n.nodes.len()
        invariant
            0 <= j <= n.nodes@.len(),
            n@.nodes.len() == n.nodes@.len(),
            forall|i: int| 0 <= i < n.nodes@.len() ==> #[trigger] n@.nodes[i] == n.nodes@[i]@,
            parent_views(parents@) == record_children(m0, n@, n@.nodes.take(j as int)),
            views(next@) == start + n@.nodes.take(j as int),
        decreases n.nodes@.len() - j,
    {
        let c: &Node = &n.nodes[j];
        proof {
            lemma_parent_views_insert(parents@, c.id, n);
            lemma_views_push(next@, c);
            assert(n@.nodes.take(j + 1) =~= n@.nodes.take(j as int).push(c@));
            assert(n@.nodes.take(j + 1).drop_last() =~= n@.nodes.take(j as int));
        }
        parents.insert(c.id, n);
        next.push(c);
        j = j + 1;
    }
    proof {
        assert(n@.nodes.take(j as int) =~= n@.nodes);
    }
}

/// The map from the id of each node of the tree below `node` to its parent;
/// `node` is its own parent.
pub fn get_parent_map(node: &Node) -> (parents: HashMap<i64, &Node>)
    ensures
        parent_views(parents@) == parent_map_of(node@),
{
    let mut parents: HashMap<i64, &Node> = HashMap::new();
    let mut layer: Vec<&Node> = Vec::new();
    layer.push(node);
    parents.insert(node.id, node);
    proof {
        assert(views(layer@) =~= seq![node@]);
        assert(parent_views(parents@) =~= map![node@.id => node@]);
    }
    while layer.len() > 0
        invariant
            record_parents(parent_views(parents@), traversal(views(layer@), false))
                == parent_map_of(node@),
        decreases forest_size(views(layer@)),
    {
        let ghost l = views(layer@);
        let ghost m0 = parent_views(parents@);
        let mut next: Vec<&Node> = Vec::new();
        let mut i: usize = 0;
        proof {
            assert(l.take(0) =~= Seq::<NodeView>::empty());
            assert(views(next@) =~= Seq::<NodeView>::empty());
        }
        while i < layer.len()
            invariant
                0 <= i <= layer@.len(),
                l == views(layer@),
                views(next@) == next_layer(l.take(i as int), false),
                parent_views(parents@) == record_parents(m0, l.take(i as int)),
            decreases layer@.len() - i,
        {
            let n: &Node = layer[i];
            proof {
                assert(l[i as int] == n@);
                assert(l.take(i + 1).drop_last() =~= l.take(i as int));
                assert(l.take(i + 1).last() == n@);
            }
            record_children_of(&mut parents, &mut next, n);
            i = i + 1;
        }
        proof {
            assert(l.take(i as int) =~= l);
            lemma_next_layer_size(l, false);
            lemma_record_parents_concat(m0, l, traversal(next_layer(l, false), false));
        }
        layer = next;
    }
    proof {
        assert(views(layer@) =~= Seq::<NodeView>::empty());
    }
    parents
}

/// The first workspace met when walking up from `node` along `parent_map`,
/// stopping at the node that is its own parent.
pub fn find_workspace<'a>(node: &'a Node, parent_map: HashMap<i64, &'a Node>) -> (ws: Option<
    &'a Node,
>)
    requires
        exists|k: nat| walk_ends(parent_views(parent_map@), node@, k),
    ensures
        forall|k: nat|
            walk_ends(parent_views(parent_map@), node@, k) ==> opt_view(ws) == workspace_above(
                parent_views(parent_map@),
                node@,
                k,
            ),
{
    let ghost m = parent_views(parent_map@);
    let ghost k0: nat = choose|k: nat| walk_ends(m, node@, k);
    proof {
        assert forall|k: nat| walk_ends(m, node@, k) implies workspace_above(m, node@, k)
            == workspace_above(m, node@, k0) by {
            lemma_workspace_above_fuel(m, node@, k, k0);
        }
    }
    let mut temp: &Node = node;
    let ghost mut fuel: nat = k0;
    loop
        invariant
            m == parent_views(parent_map@),
            forall|k: nat|
                walk_ends(m, node@, k) ==> workspace_above(m, node@, k) == workspace_above(
                    m,
                    node@,
                    k0,
                ),
            walk_ends(m, temp@, fuel),
            workspace_above(m, node@, k0) == workspace_above(m, temp@, fuel),
        decreases fuel,
    {
        let parent: &Node = match parent_map.get(&temp.id) {
            Some(p) => *p,
            None => {
                proof {
                    assert(false);
                }
                unreached()
            },
        };
        proof {
            assert(parent@ == m[temp@.id]);
        }
        if same_node(temp, parent) {
            return None;
        }
        if temp.node_type == crate::tree::NodeType::Workspace {
            return Some(temp);
        }
        temp = parent;
        proof {
            fuel = (fuel - 1) as nat;
        }
    }
}

/// Whether the walk up from `node` along `parent_map` stops, at a node that is
/// its own parent or at a workspace, within `fuel` steps, finding every parent
/// on the way.
pub fn walk_ends_within(parent_map: &HashMap<i64, &Node>, node: &Node, fuel: usize) -> (ok: bool)
    ensures
        ok == exists|k: nat| k <= fuel && walk_ends(parent_views(parent_map@), node@, k),
{
    let ghost m = parent_views(parent_map@);
    let mut temp: &Node = node;
    let mut left: usize = fuel;
    loop
        invariant
            m == parent_views(parent_map@),
            left <= fuel,
            (exists|k: nat| k <= fuel && walk_ends(m, node@, k)) == (exists|k: nat|
                k <= left && walk_ends(m, temp@, k)),
        decreases left,
    {
        let parent: &Node = match parent_map.get(&temp.id) {
            Some(p) => *p,
            None => {
                proof {
                    assert forall|k: nat| k <= left implies !walk_ends(m, temp@, k) by {}
                }
                return false;
            },
        };
        proof {
            assert(parent@ == m[temp@.id]);
        }
        if same_node(temp, parent) || temp.node_type == crate::tree::NodeType::Workspace {
            proof {
                assert(walk_ends(m, temp@, 0));
            }
            return true;
        }
        if left == 0 {
            proof {
                assert forall|k: nat| k <= left implies !walk_ends(m, temp@, k) by {}
            }
            return false;
        }
        proof {
            assert forall|k: nat| k <= left implies walk_ends(m, temp@, k) == (k > 0 && walk_ends(
                m,
                parent@,
                (k - 1) as nat,
            )) by {}
            if exists|k: nat| k <= left && walk_ends(m, temp@, k) {
                let k = choose|k: nat| k <= left && walk_ends(m, temp@, k);
                assert(walk_ends(m, parent@, (k - 1) as nat));
            }
            if exists|k: nat| k <= (left - 1) as nat && walk_ends(m, parent@, k) {
                let k = choose|k: nat| k <= (left - 1) as nat && walk_ends(m, parent@, k);
                assert(walk_ends(m, temp@, k + 1));
            }
        }
        temp = parent;
        left = left - 1;
    }
}

pub proof fn lemma_record_children_keys(m: Map<i64, NodeView>, p: NodeView, cs: Seq<NodeView>)
    ensures
        forall|k: i64| m.contains_key(k) ==> #[trigger] record_children(m, p, cs).contains_key(k),
        forall|j: int| 0 <= j < cs.len() ==> #[trigger] record_children(m, p, cs).contains_key(cs[j].id),
        forall|k: i64|
            #[trigger] record_children(m, p, cs).contains_key(k) ==> m.contains_key(k)
                && record_children(m, p, cs)[k] == m[k] || record_children(m, p, cs)[k] == p,
    decreases cs.len(),
{
    if cs.len() > 0 {
        lemma_record_children_keys(m, p, cs.drop_last());
        assert forall|j: int| 0 <= j < cs.len() implies #[trigger] record_children(
            m,
            p,
            cs,
        ).contains_key(cs[j].id) by {
            if j < cs.len() - 1 {
                assert(cs.drop_last()[j] == cs[j]);
            }
        }
    }
}

pub proof fn lemma_record_parents_keys(m: Map<i64, NodeView>, vis: Seq<NodeView>)
    ensures
        forall|k: i64| m.contains_key(k) ==> #[trigger] record_parents(m, vis).contains_key(k),
        forall|i: int, j: int|
            0 <= i < vis.len() && 0 <= j < vis[i].nodes.len() ==> #[trigger] record_parents(
                m,
                vis,
            ).contains_key(#[trigger] vis[i].nodes[j].id),
        forall|k: i64|
            #[trigger] record_parents(m, vis).contains_key(k) ==> (m.contains_key(k)
                && record_parents(m, vis)[k] == m[k]) || vis.contains(record_parents(m, vis)[k]),
    decreases vis.len(),
{
    if vis.len() > 0 {
        let rest = vis.drop_last();
        let m1 = record_parents(m, rest);
        lemma_record_parents_keys(m, rest);
        lemma_record_children_keys(m1, vis.last(), vis.last().nodes);
        assert forall|i: int, j: int|
            0 <= i < vis.len() && 0 <= j < vis[i].nodes.len() implies #[trigger] record_parents(
            m,
            vis,
        ).contains_key(#[trigger] vis[i].nodes[j].id) by {
            if i < vis.len() - 1 {
                assert(rest[i] == vis[i]);
                assert(m1.contains_key(rest[i].nodes[j].id));
            }
        }
        assert forall|k: i64| #[trigger] record_parents(m, vis).contains_key(k) implies (
        m.contains_key(k) && record_parents(m, vis)[k] == m[k]) || vis.contains(
            record_parents(m, vis)[k],
        ) by {
            let v = record_parents(m, vis)[k];
            if v == vis.last() {
                assert(vis[vis.len() - 1] == v);
            } else {
                assert(m1.contains_key(k) && m1[k] == v);
                if rest.contains(v) {
                    let i = choose|i: int| 0 <= i < rest.len() && rest[i] == v;
                    assert(vis[i] == v);
                }
            }
        }
    }
}

/// Whether `x` is a tiling child of a node of `layer`.
pub open spec fn child_of_layer(layer: Seq<NodeView>, x: NodeView) -> bool {
    exists|i: int, j: int|
        0 <= i < layer.len() && 0 <= j < layer[i].nodes.len() && x == #[trigger] layer[i].nodes[j]
}

pub proof fn lemma_next_layer_members(layer: Seq<NodeView>)
    ensures
        forall|k: int|
            0 <= k < next_layer(layer, false).len() ==> child_of_layer(
                layer,
                #[trigger] next_layer(layer, false)[k],
            ),
    decreases layer.len(),
{
    if layer.len() > 0 {
        let rest = layer.drop_last();
        lemma_next_layer_members(rest);
        let n = next_layer(layer, false);
        let a = next_layer(rest, false);
        let b = layer.last().nodes;
        assert(n == a + b);
        assert forall|k: int| 0 <= k < n.len() implies child_of_layer(layer, #[trigger] n[k]) by {
            if k < a.len() {
                assert(a[k] == n[k]);
                assert(child_of_layer(rest, a[k]));
                let (i, j) = choose|i: int, j: int|
                    0 <= i < rest.len() && 0 <= j < rest[i].nodes.len() && a[k]
                        == rest[i].nodes[j];
                assert(layer[i] == rest[i]);
                assert(n[k] == layer[i].nodes[j]);
            } else {
                let i = layer.len() - 1;
                let j = k - a.len();
                assert(n[k] == layer[i].nodes[j]);
            }
        }
    }
}

proof fn lemma_traversal_keys(m: Map<i64, NodeView>, layer: Seq<NodeView>)
    requires
        forall|i: int| 0 <= i < layer.len() ==> m.contains_key(#[trigger] layer[i].id),
    ensures
        forall|i: int|
            0 <= i < traversal(layer, false).len() ==> #[trigger] record_parents(
                m,
                traversal(layer, false),
            ).contains_key(traversal(layer, false)[i].id),
    decreases forest_size(layer),
{
    if layer.len() > 0 {
        let next = next_layer(layer, false);
        let t = traversal(layer, false);
        let m1 = record_parents(m, layer);
        lemma_next_layer_size(layer, false);
        assert(t == layer + traversal(next, false));
        lemma_record_parents_concat(m, layer, traversal(next, false));
        lemma_record_parents_keys(m, layer);
        lemma_next_layer_members(layer);
        assert forall|i: int| 0 <= i < next.len() implies m1.contains_key(#[trigger] next[i].id) by {
            assert(child_of_layer(layer, next[i]));
            let (a, b) = choose|a: int, b: int|
                0 <= a < layer.len() && 0 <= b < layer[a].nodes.len() && next[i]
                    == layer[a].nodes[b];
            assert(m1.contains_key(layer[a].nodes[b].id));
        }
        lemma_traversal_keys(m1, next);
        lemma_record_parents_keys(m1, traversal(next, false));
        let fin = record_parents(m, t);
        assert forall|i: int| 0 <= i < t.len() implies #[trigger] fin.contains_key(t[i].id) by {
            if i < layer.len() {
                assert(t[i] == layer[i]);
                assert(m1.contains_key(layer[i].id));
            } else {
                assert(t[i] == traversal(next, false)[i - layer.len()]);
            }
        }
    }
}

/// Every node of the tree has an entry in the parent map, and the map gives
/// every node a parent that is a node of the tree.
pub proof fn lemma_parent_map_covers_tree(root: NodeView)
    ensures
        forall|i: int|
            0 <= i < level_order(root).len() ==> #[trigger] parent_map_of(root).contains_key(
                level_order(root)[i].id,
            ),
        forall|k: i64| #[trigger]
            parent_map_of(root).contains_key(k) ==> level_order(root).contains(
                parent_map_of(root)[k],
            ),
{
    let m0 = map![root.id => root];
    let t = level_order(root);
    lemma_next_layer_size(seq![root], false);
    assert(t == seq![root] + traversal(next_layer(seq![root], false), false));
    assert(t[0] == root);
    lemma_traversal_keys(m0, seq![root]);
    lemma_record_parents_keys(m0, t);
    assert forall|k: i64| #[trigger] parent_map_of(root).contains_key(k) implies t.contains(
        parent_map_of(root)[k],
    ) by {
        if m0.contains_key(k) && parent_map_of(root)[k] == m0[k] {
            assert(t[0] == parent_map_of(root)[k]);
        }
    }
}

} // verus!
