use dsl::parents::walk_ends_within;
use std::collections::HashMap;
use dsl::parents::{find_workspace, get_parent_map};
use dsl::tree::{Node, NodeType};
use dsl::walk::{find_focused, get_leaf_containers, get_workspaces, has_child, same_node};

fn node(id: i64, name: Option<&str>, node_type: NodeType, nodes: Vec<Node>) -> Node {
    Node {
        id,
        name: name.map(|s| s.to_string()),
        node_type,
        focused: false,
        marks: Vec::new(),
        nodes,
    }
}

fn con(id: i64) -> Node {
    node(id, None, NodeType::Con, Vec::new())
}

fn focused(mut n: Node) -> Node {
    n.focused = true;
    n
}

/// root(1) -> output(2) -> [ws "1"(10) -> [con 11, con(12) -> [con 13, con 14]],
///                          ws "2"(20) -> [con 21]]
fn sample() -> Node {
    let ws1 = node(
        10,
        Some("1"),
        NodeType::Workspace,
        vec![con(11), node(12, None, NodeType::Con, vec![con(13), con(14)])],
    );
    let ws2 = node(20, Some("2"), NodeType::Workspace, vec![con(21)]);
    let output = node(2, Some("eDP-1"), NodeType::Output, vec![ws1, ws2]);
    node(1, Some("root"), NodeType::Root, vec![output])
}

fn ids(nodes: &[&Node]) -> Vec<i64> {
    nodes.iter().map(|n| n.id).collect()
}

#[test]
fn workspaces_come_level_by_level() {
    let tree = sample();
    assert_eq!(ids(&get_workspaces(&tree)), vec![10, 20]);
}

#[test]
fn workspaces_below_a_workspace_are_not_visited() {
    let inner = node(31, Some("inner"), NodeType::Workspace, vec![]);
    let outer = node(30, Some("outer"), NodeType::Workspace, vec![inner]);
    let deep = node(40, None, NodeType::Con, vec![node(41, Some("deep"), NodeType::Workspace, vec![])]);
    let tree = node(1, None, NodeType::Root, vec![deep, outer]);
    assert_eq!(ids(&get_workspaces(&tree)), vec![30, 41]);
}

#[test]
fn a_root_workspace_is_its_only_workspace() {
    let tree = node(5, Some("w"), NodeType::Workspace, vec![node(6, Some("x"), NodeType::Workspace, vec![])]);
    assert_eq!(ids(&get_workspaces(&tree)), vec![5]);
}

#[test]
fn leaf_containers_left_to_right() {
    let tree = sample();
    assert_eq!(ids(&get_leaf_containers(&tree)), vec![11, 13, 14, 21]);
}

#[test]
fn empty_workspace_has_no_leaf_container() {
    let ws = node(10, Some("1"), NodeType::Workspace, vec![]);
    assert!(get_leaf_containers(&ws).is_empty());
    let floating = node(7, None, NodeType::FloatingCon, vec![]);
    assert!(get_leaf_containers(&floating).is_empty());
}

#[test]
fn focused_node_found_level_by_level() {
    // 14 comes before 21 depth first, but 21 is one level higher.
    let ws1 = node(
        10,
        Some("1"),
        NodeType::Workspace,
        vec![node(12, None, NodeType::Con, vec![focused(con(14))])],
    );
    let ws2 = node(20, Some("2"), NodeType::Workspace, vec![focused(con(21))]);
    let tree = node(1, None, NodeType::Root, vec![ws1, ws2]);
    assert_eq!(find_focused(&tree).map(|n| n.id), Some(21));
}

#[test]
fn no_focused_node() {
    assert!(find_focused(&sample()).is_none());
}

#[test]
fn focused_root() {
    let tree = focused(sample());
    assert_eq!(find_focused(&tree).map(|n| n.id), Some(1));
}

#[test]
fn parent_map_of_sample() {
    let tree = sample();
    let parents = get_parent_map(&tree);
    assert_eq!(parents.len(), 9);
    assert_eq!(parents[&1].id, 1);
    assert_eq!(parents[&2].id, 1);
    assert_eq!(parents[&10].id, 2);
    assert_eq!(parents[&11].id, 10);
    assert_eq!(parents[&13].id, 12);
    assert_eq!(parents[&14].id, 12);
    assert_eq!(parents[&21].id, 20);
}

#[test]
fn later_parent_replaces_earlier_for_a_repeated_id() {
    // Two children with id 7: the one met later in the walk decides the entry.
    let a = node(2, None, NodeType::Con, vec![con(7)]);
    let b = node(3, None, NodeType::Con, vec![con(7)]);
    let tree = node(1, None, NodeType::Root, vec![a, b]);
    let parents = get_parent_map(&tree);
    assert_eq!(parents[&7].id, 3);
}

#[test]
fn workspace_above_a_window() {
    let tree = sample();
    let parents = get_parent_map(&tree);
    let window = &tree.nodes[0].nodes[0].nodes[1].nodes[1];
    assert_eq!(window.id, 14);
    assert_eq!(find_workspace(window, parents).map(|n| n.id), Some(10));
}

#[test]
fn workspace_above_a_workspace_is_itself() {
    let tree = sample();
    let parents = get_parent_map(&tree);
    let ws = &tree.nodes[0].nodes[1];
    assert_eq!(find_workspace(ws, parents).map(|n| n.id), Some(20));
}

#[test]
fn no_workspace_above_the_output() {
    let tree = sample();
    let parents = get_parent_map(&tree);
    let output = &tree.nodes[0];
    assert!(find_workspace(output, parents).is_none());
    let parents = get_parent_map(&tree);
    assert!(find_workspace(&tree, parents).is_none());
}

#[test]
fn same_node_compares_whole_subtrees() {
    let a = sample();
    let b = sample();
    assert!(same_node(&a, &b));
    let mut c = sample();
    c.nodes[0].nodes[1].nodes[0].marks.push("m".to_string());
    assert!(!same_node(&a, &c));
    let mut d = sample();
    d.nodes[0].name = None;
    assert!(!same_node(&a, &d));
}

#[test]
fn has_child_compares_by_value() {
    let tree = sample();
    let ws1 = &tree.nodes[0].nodes[0];
    assert!(has_child(ws1, &con(11)));
    assert!(!has_child(ws1, &con(13)));
    assert!(!has_child(ws1, &focused(con(11))));
}

#[test]
fn walk_up_within_fuel() {
    let tree = sample();
    let window = &tree.nodes[0].nodes[0].nodes[1].nodes[1];
    // 14 -> 12 -> 10, and 10 is a workspace: two steps.
    assert!(walk_ends_within(&get_parent_map(&tree), window, 2));
    assert!(!walk_ends_within(&get_parent_map(&tree), window, 1));
    // The root is its own parent; the output walks up to it in one step.
    assert!(walk_ends_within(&get_parent_map(&tree), &tree, 0));
    assert!(walk_ends_within(&get_parent_map(&tree), &tree.nodes[0], 1));
    assert!(!walk_ends_within(&get_parent_map(&tree), &tree.nodes[0], 0));
}

#[test]
fn walk_up_over_repeated_ids_can_cycle() {
    // root 1 -> A(2) -> C(3) -> D(2): the entry for 2 names C, the entry for 3 names A.
    let d = node(2, None, NodeType::Con, vec![]);
    let c = node(3, None, NodeType::Con, vec![d]);
    let a = node(2, None, NodeType::Con, vec![c]);
    let tree = node(1, None, NodeType::Root, vec![a]);
    let parents = get_parent_map(&tree);
    assert!(!walk_ends_within(&parents, &tree.nodes[0], 50));
}

#[test]
fn every_node_has_its_parent_in_the_map() {
    // Law: with unique ids the map gives each node's parent, and the root itself.
    let tree = sample();
    let parents = get_parent_map(&tree);
    check_parents(&tree, &parents);
    assert_eq!(parents[&tree.id].id, tree.id);
}

fn check_parents(n: &Node, parents: &HashMap<i64, &Node>) {
    for c in &n.nodes {
        assert_eq!(parents[&c.id].id, n.id);
        check_parents(c, parents);
    }
}
