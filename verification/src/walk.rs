//! Walks over the window tree: workspaces, leaf windows, the focused node.
use vstd::prelude::*;
use crate::text::{strings};
use crate::tree::{
    Node, NodeType, NodeView, views, traversal, level_order, next_layer, forest_size,
    lemma_next_layer_size,
};

verus! {

broadcast use vstd::std_specs::vec::axiom_vec_index_decreases;

/// The workspaces among `s`, in order.
pub open spec fn workspaces_in(s: Seq<NodeView>) -> Seq<NodeView>
    decreases s.len(),
{
    if s.len() == 0 {
        Seq::empty()
    } else {
        workspaces_in(s.drop_last()) + if s.last().is_workspace() {
            seq![s.last()]
        } else {
            Seq::empty()
        }
    }
}

/// The workspaces below `root`, level by level, where the walk does not go
/// below a workspace.
pub open spec fn workspaces_of(root: NodeView) -> Seq<NodeView> {
    workspaces_in(traversal(seq![root], true))
}

/// The first focused node of `s`, if any.
pub open spec fn first_focused(s: Seq<NodeView>) -> Option<NodeView>
    decreases s.len(),
{
    if s.len() == 0 {
        None
    } else if s[0].focused {
        Some(s[0])
    } else {
        first_focused(s.drop_first())
    }
}

/// The focused node that a level-by-level walk from `root` meets first.
pub open spec fn focused_of(root: NodeView) -> Option<NodeView> {
    first_focused(level_order(root))
}

/// The leaves of type `Con` below `n`, left to right.
pub open spec fn leaf_containers(n: NodeView) -> Seq<NodeView>
    decreases n,
{
    if n.nodes.len() == 0 {
        if n.is_con() {
            seq![n]
        } else {
            Seq::empty()
        }
    } else {
        forest_leaf_containers(n.nodes)
    }
}

/// The leaves of type `Con` below each tree of `s`, in order.
pub open spec fn forest_leaf_containers(s: Seq<NodeView>) -> Seq<NodeView>
    decreases s,
{
    if s.len() == 0 {
        Seq::empty()
    } else {
        forest_leaf_containers(s.subrange(0, s.len() - 1)) + leaf_containers(s[s.len() - 1])
    }
}

pub open spec fn opt_view(o: Option<&Node>) -> Option<NodeView> {
    match o {
        Some(n) => Some(n@),
        None => None,
    }
}

pub proof fn lemma_views_push(s: Seq<&Node>, n: &Node)
    ensures
        views(s.push(n)) == views(s).push(n@),
{
    assert(views(s.push(n)) =~= views(s).push(n@));
}

pub proof fn lemma_view_children(n: Node)
    ensures
        n@.nodes.len() == n.nodes@.len(),
        forall|i: int| 0 <= i < n.nodes@.len() ==> #[trigger] n@.nodes[i] == n.nodes@[i]@,
{
}

pub proof fn lemma_workspaces_in_concat(a: Seq<NodeView>, b: Seq<NodeView>)
    ensures
        workspaces_in(a + b) == workspaces_in(a) + workspaces_in(b),
    decreases b.len(),
{
    if b.len() == 0 {
        assert(a + b =~= a);
        assert(workspaces_in(a) + workspaces_in(b) =~= workspaces_in(a));
    } else {
        assert((a + b).drop_last() =~= a + b.drop_last());
        assert((a + b).last() == b.last());
        lemma_workspaces_in_concat(a, b.drop_last());
        assert(workspaces_in(a + b) =~= workspaces_in(a) + workspaces_in(b));
    }
}

pub proof fn lemma_first_focused_skip(a: Seq<NodeView>, b: Seq<NodeView>)
    requires
        forall|k: int| 0 <= k < a.len() ==> !(#[trigger] a[k]).focused,
    ensures
        first_focused(a + b) == first_focused(b),
    decreases a.len(),
{
    if a.len() > 0 {
        assert((a + b).drop_first() =~= a.drop_first() + b);
        assert(!a[0].focused);
        assert((a + b)[0] == a[0]);
        lemma_first_focused_skip(a.drop_first(), b);
    } else {
        assert(a + b =~= b);
    }
}

pub proof fn lemma_first_focused_at(s: Seq<NodeView>, i: int)
    requires
        0 <= i < s.len(),
        s[i].focused,
        forall|k: int| 0 <= k < i ==> !(#[trigger] s[k]).focused,
    ensures
        first_focused(s) == Some(s[i]),
    decreases i,
{
    if i > 0 {
        assert(!s[0].focused);
        assert forall|k: int| 0 <= k < i - 1 implies !(#[trigger] s.drop_first()[k]).focused by {
            assert(s.drop_first()[k] == s[k + 1]);
        }
        lemma_first_focused_at(s.drop_first(), i - 1);
    }
}

pub proof fn lemma_first_focused_member(s: Seq<NodeView>)
    ensures
        first_focused(s) matches Some(x) ==> s.contains(x) && x.focused,
    decreases s.len(),
{
    if s.len() > 0 && !s[0].focused {
        lemma_first_focused_member(s.drop_first());
        if first_focused(s) is Some {
            let x = first_focused(s).unwrap();
            let k = choose|k: int| 0 <= k < s.drop_first().len() && s.drop_first()[k] == x;
            assert(s[k + 1] == x);
        }
    } else if s.len() > 0 {
        assert(first_focused(s) == Some(s[0]));
        assert(s.contains(s[0]));
    }
}

/// Appends to `next` the children of `n` that a walk visits after `n`.
fn push_children<'a>(next: &mut Vec<&'a Node>, n: &'a Node)
    ensures
        views(final(next)@) == views(old(next)@) + n@.nodes,
{
    proof {
        lemma_view_children(*n);
    }
    let ghost start = views(next@);
    let mut j: usize = 0;
    while j < n.nodes.len()
        invariant
            0 <= j <= n.nodes@.len(),
            n@.nodes.len() == n.nodes@.len(),
            forall|i: int| 0 <= i < n.nodes@.len() ==> #[trigger] n@.nodes[i] == n.nodes@[i]@,
            views(next@) == start + n@.nodes.take(j as int),
        decreases n.nodes@.len() - j,
    {
        let c: &Node = &n.nodes[j];
        proof {
            lemma_views_push(next@, c);
            assert(n@.nodes.take(j + 1) =~= n@.nodes.take(j as int).push(c@));
        }
        next.push(c);
        j = j + 1;
    }
    proof {
        assert(n@.nodes.take(j as int) =~= n@.nodes);
    }
}

/// The workspaces of the tree below `node`, level by level.
pub fn get_workspaces(node: &Node) -> (out: Vec<&Node>)
    ensures
        views(out@) == workspaces_of(node@),
{
    let mut out: Vec<&Node> = Vec::new();
    let mut layer: Vec<&Node> = Vec::new();
    layer.push(node);
    proof {
        assert(views(layer@) =~= seq![node@]);
        assert(views(out@) =~= Seq::<NodeView>::empty());
        assert(views(out@) + workspaces_of(node@) =~= workspaces_of(node@));
    }
    while layer.len() > 0
        invariant
            views(out@) + workspaces_in(traversal(views(layer@), true)) == workspaces_of(node@),
        decreases forest_size(views(layer@)),
    {
        let ghost out0 = views(out@);
        let ghost l = views(layer@);
        let mut next: Vec<&Node> = Vec::new();
        let mut i: usize = 0;
        proof {
            assert(l.take(0) =~= Seq::<NodeView>::empty());
            assert(views(next@) =~= Seq::<NodeView>::empty());
            assert(views(out@) =~= out0 + workspaces_in(l.take(0)));
        }
        while i < layer.len()
            invariant
                0 <= i <= layer@.len(),
                l == views(layer@),
                views(next@) == next_layer(l.take(i as int), true),
                views(out@) == out0 + workspaces_in(l.take(i as int)),
            decreases layer@.len() - i,
        {
            let n: &Node = layer[i];
            proof {
                assert(l[i as int] == n@);
                assert(l.take(i + 1).drop_last() =~= l.take(i as int));
                assert(l.take(i + 1).last() == n@);
            }
            if n.node_type == NodeType::Workspace {
                proof {
                    lemma_views_push(out@, n);
                }
                out.push(n);
                proof {
                    assert(views(next@) =~= next_layer(l.take(i + 1), true));
                }
            } else {
                push_children(&mut next, n);
            }
            i = i + 1;
        }
        proof {
            assert(l.take(i as int) =~= l);
            lemma_next_layer_size(l, true);
            lemma_workspaces_in_concat(l, traversal(next_layer(l, true), true));
            assert(out0 + workspaces_in(traversal(l, true)) == workspaces_of(node@));
            assert(views(out@) + workspaces_in(traversal(views(next@), true)) =~= out0
                + workspaces_in(traversal(l, true)));
        }
        layer = next;
    }
    proof {
        assert(views(layer@) =~= Seq::<NodeView>::empty());
        assert(views(out@) + Seq::<NodeView>::empty() =~= views(out@));
    }
    out
}

/// The first focused node that a level-by-level walk from `node` meets.
pub fn find_focused(node: &Node) -> (r: Option<&Node>)
    ensures
        opt_view(r) == focused_of(node@),
{
    let mut layer: Vec<&Node> = Vec::new();
    layer.push(node);
    proof {
        assert(views(layer@) =~= seq![node@]);
    }
    while layer.len() > 0
        invariant
            first_focused(traversal(views(layer@), false)) == focused_of(node@),
        decreases forest_size(views(layer@)),
    {
        let ghost l = views(layer@);
        let mut next: Vec<&Node> = Vec::new();
        let mut i: usize = 0;
        proof {
            assert(l.take(0) =~= Seq::<NodeView>::empty());
            assert(views(next@) =~= Seq::<NodeView>::empty());
            lemma_next_layer_size(l, false);
        }
        while i < layer.len()
            invariant
                0 <= i <= layer@.len(),
                l == views(layer@),
                l.len() > 0,
                views(next@) == next_layer(l.take(i as int), false),
                forall|k: int| 0 <= k < i ==> !(#[trigger] l[k]).focused,
                first_focused(l + traversal(next_layer(l, false), false)) == focused_of(node@),
            decreases layer@.len() - i,
        {
            let n: &Node = layer[i];
            proof {
                assert(l[i as int] == n@);
                assert(l.take(i + 1).drop_last() =~= l.take(i as int));
                assert(l.take(i + 1).last() == n@);
            }
            if n.focused {
                proof {
                    let s = l + traversal(next_layer(l, false), false);
                    assert forall|k: int| 0 <= k < i implies !(#[trigger] s[k]).focused by {
                        assert(s[k] == l[k]);
                    }
                    assert(s[i as int] == n@);
                    lemma_first_focused_at(s, i as int);
                }
                return Some(n);
            }
            push_children(&mut next, n);
            i = i + 1;
        }
        proof {
            assert(l.take(i as int) =~= l);
            lemma_first_focused_skip(l, traversal(next_layer(l, false), false));
        }
        layer = next;
    }
    proof {
        assert(views(layer@) =~= Seq::<NodeView>::empty());
    }
    None
}

pub proof fn lemma_forest_leaf_containers_push(s: Seq<NodeView>, n: NodeView)
    ensures
        forest_leaf_containers(s.push(n)) == forest_leaf_containers(s) + leaf_containers(n),
{
    let t = s.push(n);
    assert(t.subrange(0, t.len() - 1) =~= s);
    assert(t[t.len() - 1] == n);
}

/// The leaves of type `Con` below `node`, left to right.
pub fn get_leaf_containers(node: &Node) -> (out: Vec<&Node>)
    ensures
        views(out@) == leaf_containers(node@),
    decreases node,
{
    proof {
        lemma_view_children(*node);
    }
    let mut out: Vec<&Node> = Vec::new();
    if node.nodes.len() == 0 {
        if node.node_type == NodeType::Con {
            proof {
                lemma_views_push(out@, node);
                assert(views(out@) =~= Seq::<NodeView>::empty());
            }
            out.push(node);
        } else {
            proof {
                assert(views(out@) =~= Seq::<NodeView>::empty());
            }
        }
    } else {
        let mut i: usize = 0;
        proof {
            assert(node@.nodes.take(0) =~= Seq::<NodeView>::empty());
            assert(views(out@) =~= Seq::<NodeView>::empty());
        }
        while i < node.nodes.len()
            invariant
                0 <= i <= node.nodes@.len(),
                node@.nodes.len() == node.nodes@.len(),
                forall|k: int|
                    0 <= k < node.nodes@.len() ==> #[trigger] node@.nodes[k] == node.nodes@[k]@,
                views(out@) == forest_leaf_containers(node@.nodes.take(i as int)),
            decreases node.nodes@.len() - i,
        {
            let child: &Node = &node.nodes[i];
            let mut sub = get_leaf_containers(child);
            proof {
                assert(views(out@ + sub@) =~= views(out@) + views(sub@));
                assert(node@.nodes.take(i + 1) =~= node@.nodes.take(i as int).push(child@));
                lemma_forest_leaf_containers_push(node@.nodes.take(i as int), child@);
            }
            out.append(&mut sub);
            i = i + 1;
        }
        proof {
            assert(node@.nodes.take(i as int) =~= node@.nodes);
        }
    }
    out
}

/// Whether two lists of strings hold the same strings in the same order.
pub fn same_strings(a: &Vec<String>, b: &Vec<String>) -> (eq: bool)
    ensures
        eq == (strings(a@) == strings(b@)),
{
    if a.len() != b.len() {
        proof {
            assert(strings(a@).len() != strings(b@).len());
        }
        return false;
    }
    let mut i: usize = 0;
    while i < a.len()
        invariant
            a@.len() == b@.len(),
            0 <= i <= a@.len(),
            forall|k: int| 0 <= k < i ==> #[trigger] strings(a@)[k] == strings(b@)[k],
        decreases a@.len() - i,
    {
        if a[i] != b[i] {
            proof {
                assert(strings(a@)[i as int] != strings(b@)[i as int]);
            }
            return false;
        }
        i = i + 1;
    }
    proof {
        assert(strings(a@) =~= strings(b@));
    }
    true
}

/// Whether two nodes have the same model: the same fields and the same
/// subtrees.
pub fn same_node(a: &Node, b: &Node) -> (eq: bool)
    ensures
        eq == (a@ == b@),
    decreases a,
{
    proof {
        lemma_view_children(*a);
        lemma_view_children(*b);
    }
    if a.id != b.id || a.node_type != b.node_type || a.focused != b.focused {
        return false;
    }
    let names_equal = match (&a.name, &b.name) {
        (Some(x), Some(y)) => *x == *y,
        (None, None) => true,
        _ => false,
    };
    if !names_equal {
        return false;
    }
    if !same_strings(&a.marks, &b.marks) {
        return false;
    }
    if a.nodes.len() != b.nodes.len() {
        return false;
    }
    let mut i: usize = 0;
    while i < a.nodes.len()
        invariant
            a.nodes@.len() == b.nodes@.len(),
            0 <= i <= a.nodes@.len(),
            a@.nodes.len() == a.nodes@.len(),
            b@.nodes.len() == b.nodes@.len(),
            forall|k: int| 0 <= k < a.nodes@.len() ==> #[trigger] a@.nodes[k] == a.nodes@[k]@,
            forall|k: int| 0 <= k < b.nodes@.len() ==> #[trigger] b@.nodes[k] == b.nodes@[k]@,
            forall|k: int| 0 <= k < i ==> #[trigger] a@.nodes[k] == b@.nodes[k],
        decreases a.nodes@.len() - i,
    {
        if !same_node(&a.nodes[i], &b.nodes[i]) {
            proof {
                assert(a@.nodes[i as int] != b@.nodes[i as int]);
            }
            return false;
        }
        i = i + 1;
    }
    proof {
        assert(a@.nodes =~= b@.nodes);
        assert(a@.marks =~= b@.marks) by {
            assert(a@.marks == strings(a.marks@));
            assert(b@.marks == strings(b.marks@));
        }
    }
    true
}

/// Whether one of the tiling children of `parent` has the model of `n`.
pub fn has_child(parent: &Node, n: &Node) -> (found: bool)
    ensures
        found == parent@.nodes.contains(n@),
{
    proof {
        lemma_view_children(*parent);
    }
    let mut i: usize = 0;
    while i < parent.nodes.len()
        invariant
            0 <= i <= parent.nodes@.len(),
            parent@.nodes.len() == parent.nodes@.len(),
            forall|k: int|
                0 <= k < parent.nodes@.len() ==> #[trigger] parent@.nodes[k] == parent.nodes@[k]@,
            forall|k: int| 0 <= k < i ==> #[trigger] parent@.nodes[k] != n@,
        decreases parent.nodes@.len() - i,
    {
        if same_node(&parent.nodes[i], n) {
            proof {
                assert(parent@.nodes[i as int] == n@);
            }
            return true;
        }
        i = i + 1;
    }
    proof {
        if parent@.nodes.contains(n@) {
            let k = choose|k: int| 0 <= k < parent@.nodes.len() && parent@.nodes[k] == n@;
            assert(parent@.nodes[k] != n@);
        }
    }
    false
}

} // verus!
