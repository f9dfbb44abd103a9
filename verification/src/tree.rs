//! The window tree that sway reports, as plain values, with its mathematical model.
use vstd::prelude::*;

verus! {

/// The kind of a node in the sway tree.
#[derive(Clone, Copy, Debug, PartialEq, Eq, Structural)]
pub enum NodeType {
    Root,
    Output,
    Workspace,
    Con,
    FloatingCon,
    Dockarea,
}

/// One node of the sway tree: the fields that the layout rules read.
pub struct Node {
    pub id: i64,
    pub name: Option<String>,
    pub node_type: NodeType,
    pub focused: bool,
    pub marks: Vec<String>,
    pub nodes: Vec<Node>,
}

/// The mathematical model of a `Node`: strings become character sequences and
/// the tiling children become a sequence of models.
pub struct NodeView {
    pub id: i64,
    pub name: Option<Seq<char>>,
    pub node_type: NodeType,
    pub focused: bool,
    pub marks: Seq<Seq<char>>,
    pub nodes: Seq<NodeView>,
}

pub open spec fn opt_string_view(s: Option<String>) -> Option<Seq<char>> {
    match s {
        Some(t) => Some(t@),
        None => None,
    }
}

pub open spec fn tree_view(n: Node) -> NodeView
    decreases n,
{
    NodeView {
        id: n.id,
        name: opt_string_view(n.name),
        node_type: n.node_type,
        focused: n.focused,
        marks: n.marks@.map_values(|m: String| m@),
        nodes: Seq::new(
            n.nodes@.len(),
            |i: int|
                if 0 <= i < n.nodes@.len() {
                    proof {
                        broadcast use vstd::std_specs::vec::axiom_vec_index_decreases;
                    }
                    tree_view(n.nodes@[i])
                } else {
                    arbitrary()
                },
        ),
    }
}

impl View for Node {
    type V = NodeView;

    open spec fn view(&self) -> NodeView {
        tree_view(*self)
    }
}

/// The models of a sequence of node references.
pub open spec fn views(s: Seq<&Node>) -> Seq<NodeView> {
    s.map_values(|r: &Node| r@)
}

impl NodeView {
    pub open spec fn is_workspace(self) -> bool {
        self.node_type == NodeType::Workspace
    }

    pub open spec fn is_con(self) -> bool {
        self.node_type == NodeType::Con
    }
}

/// The number of nodes in a tree.
pub open spec fn tree_size(n: NodeView) -> nat
    decreases n,
{
    1 + forest_size(n.nodes)
}

/// The number of nodes in a sequence of trees.
pub open spec fn forest_size(s: Seq<NodeView>) -> nat
    decreases s,
{
    if s.len() == 0 {
        0
    } else {
        forest_size(s.subrange(0, s.len() - 1)) + tree_size(s[s.len() - 1])
    }
}

/// The children that a level-by-level walk visits below `n`: none where the walk
/// stops at workspaces and `n` is one, the tiling children otherwise.
pub open spec fn expand(n: NodeView, stop_at_workspaces: bool) -> Seq<NodeView> {
    if stop_at_workspaces && n.is_workspace() {
        Seq::empty()
    } else {
        n.nodes
    }
}

/// The next level of a level-by-level walk: the expanded children of each node
/// of `layer`, in order.
pub open spec fn next_layer(layer: Seq<NodeView>, stop_at_workspaces: bool) -> Seq<NodeView>
    decreases layer.len(),
{
    if layer.len() == 0 {
        Seq::empty()
    } else {
        next_layer(layer.drop_last(), stop_at_workspaces) + expand(
            layer.last(),
            stop_at_workspaces,
        )
    }
}

pub proof fn lemma_forest_size_concat(a: Seq<NodeView>, b: Seq<NodeView>)
    ensures
        forest_size(a + b) == forest_size(a) + forest_size(b),
    decreases b.len(),
{
    if b.len() > 0 {
        let ab = a + b;
        assert(ab.subrange(0, ab.len() - 1) =~= a + b.subrange(0, b.len() - 1));
        assert(ab[ab.len() - 1] == b[b.len() - 1]);
        lemma_forest_size_concat(a, b.subrange(0, b.len() - 1));
    } else {
        assert(a + b =~= a);
    }
}

pub proof fn lemma_next_layer_size(layer: Seq<NodeView>, stop_at_workspaces: bool)
    ensures
        forest_size(next_layer(layer, stop_at_workspaces)) + layer.len() <= forest_size(layer),
    decreases layer.len(),
{
    if layer.len() > 0 {
        let rest = layer.drop_last();
        lemma_next_layer_size(rest, stop_at_workspaces);
        lemma_forest_size_concat(
            next_layer(rest, stop_at_workspaces),
            expand(layer.last(), stop_at_workspaces),
        );
        assert(layer.subrange(0, layer.len() - 1) == rest);
        assert(layer[layer.len() - 1] == layer.last());
        assert(forest_size(layer) == forest_size(rest) + tree_size(layer.last()));
        assert(tree_size(layer.last()) == 1 + forest_size(layer.last().nodes));
        assert(forest_size(Seq::<NodeView>::empty()) == 0);
        assert(forest_size(expand(layer.last(), stop_at_workspaces)) <= forest_size(
            layer.last().nodes,
        ));
    }
}

/// The order in which a level-by-level walk that starts with `layer` visits nodes.
pub open spec fn traversal(layer: Seq<NodeView>, stop_at_workspaces: bool) -> Seq<NodeView>
    decreases forest_size(layer),
{
    if layer.len() == 0 {
        Seq::empty()
    } else {
        proof {
            lemma_next_layer_size(layer, stop_at_workspaces);
        }
        layer + traversal(next_layer(layer, stop_at_workspaces), stop_at_workspaces)
    }
}

/// Every node of the tree below `root`, `root` included, level by level.
pub open spec fn level_order(root: NodeView) -> Seq<NodeView> {
    traversal(seq![root], false)
}

} // verus!
