use dsl::walk::get_leaf_containers;
use dsl::rules::{
    command_string, enforce_eviction, enforce_eviction_workspace, enforce_marking,
    enforce_marking_workspace, enforce_splitting, enforce_splitting_workspace, promote,
};
use dsl::text::{concat_all, decimal_string, has_mark, split_words};
use dsl::tree::{Node, NodeType};

fn node(id: i64, name: Option<&str>, node_type: NodeType, marks: &[&str], nodes: Vec<Node>) -> Node {
    Node {
        id,
        name: name.map(|s| s.to_string()),
        node_type,
        focused: false,
        marks: marks.iter().map(|m| m.to_string()).collect(),
        nodes,
    }
}

fn con(id: i64) -> Node {
    node(id, None, NodeType::Con, &[], Vec::new())
}

fn marked(id: i64, marks: &[&str]) -> Node {
    node(id, None, NodeType::Con, marks, Vec::new())
}

fn ws(id: i64, name: &str, nodes: Vec<Node>) -> Node {
    node(id, Some(name), NodeType::Workspace, &[], nodes)
}

#[test]
fn decimal_of_integers() {
    assert_eq!(decimal_string(0), "0");
    assert_eq!(decimal_string(7), "7");
    assert_eq!(decimal_string(42), "42");
    assert_eq!(decimal_string(1000), "1000");
    assert_eq!(decimal_string(-5), "-5");
    assert_eq!(decimal_string(i64::MAX), "9223372036854775807");
    assert_eq!(decimal_string(i64::MIN), "-9223372036854775808");
}

#[test]
fn command_for_a_container() {
    assert_eq!(command_string(94, "splith"), "[con_id=94] splith; ");
    assert_eq!(command_string(-3, "kill"), "[con_id=-3] kill; ");
}

#[test]
fn concat_and_marks() {
    let parts = vec!["a".to_string(), "".to_string(), "bc".to_string()];
    assert_eq!(concat_all(&parts), "abc");
    assert_eq!(concat_all(&Vec::new()), "");
    let marks = vec!["master-1".to_string(), "x".to_string()];
    assert!(has_mark(&marks, &"x".to_string()));
    assert!(!has_mark(&marks, &"master-".to_string()));
    assert!(!has_mark(&Vec::new(), &"x".to_string()));
}

#[test]
fn words_of_text() {
    assert_eq!(split_words("  move   up "), vec!["move", "up"]);
    assert_eq!(split_words("kill"), vec!["kill"]);
    assert_eq!(split_words(""), Vec::<String>::new());
    assert_eq!(split_words(" \t\n "), Vec::<String>::new());
    assert_eq!(split_words("a\u{3000}b\u{85}c\u{a0}d"), vec!["a", "b", "c", "d"]);
    assert_eq!(split_words("é\u{200b}ü"), vec!["é\u{200b}ü"]);
}

#[test]
fn splitting_one_window_inside_a_container() {
    let w = ws(10, "1", vec![node(12, None, NodeType::Con, &[], vec![con(13)])]);
    assert_eq!(
        enforce_splitting_workspace(&w),
        vec!["[con_id=13] move up; ", "[con_id=13] splith; "]
    );
}

#[test]
fn splitting_one_window_directly_in_the_workspace() {
    let w = ws(10, "1", vec![con(11)]);
    assert_eq!(enforce_splitting_workspace(&w), vec!["[con_id=11] splith; "]);
}

#[test]
fn splitting_two_windows() {
    let w = ws(10, "1", vec![con(11), node(12, None, NodeType::Con, &[], vec![con(13)])]);
    assert_eq!(
        enforce_splitting_workspace(&w),
        vec!["[con_id=11] splitv; ", "[con_id=13] splitv; "]
    );
}

#[test]
fn splitting_leaves_other_workspaces_alone() {
    assert!(enforce_splitting_workspace(&ws(10, "1", vec![])).is_empty());
    let three = ws(10, "1", vec![con(11), con(12), con(13)]);
    assert!(enforce_splitting_workspace(&three).is_empty());
}

#[test]
fn splitting_all_workspaces_joined() {
    let a = ws(10, "1", vec![con(11)]);
    let b = ws(20, "2", vec![con(21), con(22)]);
    let c = ws(30, "3", vec![]);
    assert_eq!(
        enforce_splitting(vec![&a, &b, &c]),
        "[con_id=11] splith; [con_id=21] splitv; [con_id=22] splitv; "
    );
    assert_eq!(enforce_splitting(vec![]), "");
}

#[test]
fn marking_two_columns() {
    let w = ws(10, "3", vec![con(11), con(12)]);
    assert_eq!(
        enforce_marking_workspace(&w),
        vec!["[con_id=11] mark --add master-3; ", "[con_id=12] mark --add stack-3; "]
    );
}

#[test]
fn marking_is_skipped_where_the_mark_is_there() {
    let w = ws(10, "3", vec![marked(11, &["master-3"]), marked(12, &["stack-3"])]);
    assert!(enforce_marking_workspace(&w).is_empty());
    let w = ws(10, "3", vec![marked(11, &["master-3"]), marked(12, &["stack-4"])]);
    assert_eq!(enforce_marking_workspace(&w), vec!["[con_id=12] mark --add stack-3; "]);
    let one = ws(10, "3", vec![con(11)]);
    assert!(enforce_marking_workspace(&one).is_empty());
}

#[test]
fn marking_all_workspaces() {
    let a = ws(10, "a", vec![con(11), con(12)]);
    let b = ws(20, "b", vec![con(21)]);
    assert_eq!(
        enforce_marking(vec![&a, &b]),
        "[con_id=11] mark --add master-a; [con_id=12] mark --add stack-a; "
    );
}

#[test]
fn eviction_moves_all_but_the_first_settled_window() {
    let master = node(
        11,
        None,
        NodeType::Con,
        &["master-1"],
        vec![marked(31, &["_temp_master"]), con(32), con(33), marked(34, &["_temp_master"]), con(35)],
    );
    let w = ws(10, "1", vec![master, con(12)]);
    assert_eq!(
        enforce_eviction_workspace(&w),
        vec![
            "[con_id=33] move container to mark stack-1; ",
            "[con_id=35] move container to mark stack-1; ",
        ]
    );
    assert_eq!(
        enforce_eviction(vec![&w]),
        "[con_id=33] move container to mark stack-1; [con_id=35] move container to mark stack-1; "
    );
}

#[test]
fn eviction_needs_a_marked_master_column() {
    let column = node(11, None, NodeType::Con, &["stack-1"], vec![con(32), con(33)]);
    let w = ws(10, "1", vec![column, con(12)]);
    assert!(enforce_eviction_workspace(&w).is_empty());
    let column = node(11, None, NodeType::Con, &["master-1"], vec![con(32), con(33)]);
    let alone = ws(10, "1", vec![column]);
    assert!(enforce_eviction_workspace(&alone).is_empty());
}

#[test]
fn promote_top_of_stack() {
    let stack = node(12, None, NodeType::Con, &["stack-2"], vec![con(40), con(41)]);
    let w = ws(10, "2", vec![con(11), stack]);
    let (pre, post) = promote(&w);
    assert_eq!(
        pre,
        "[con_id=40] mark --add _temp_master; [con_id=40] move container to mark master-2; "
    );
    assert_eq!(post, "[con_id=40] unmark _temp_master; ");
}

#[test]
fn words_are_nonempty_without_white_space() {
    // Law: every word is a nonempty run without white space.
    for w in split_words(" a\u{2028}bb \u{205f}ccc\u{1680}") {
        assert!(!w.is_empty());
        assert!(!w.chars().any(|c| c.is_whitespace()));
    }
}

#[test]
fn different_ids_give_different_decimals() {
    // Law: the decimal form of an id determines the id.
    let samples = [0i64, 1, -1, 10, -10, 100, i64::MAX, i64::MIN, 9, -9];
    for a in samples {
        for b in samples {
            assert_eq!(decimal_string(a) == decimal_string(b), a == b);
        }
    }
}

#[test]
fn leaf_containers_are_childless_cons() {
    let w = ws(10, "1", vec![con(11), node(12, None, NodeType::Con, &[], vec![con(13), node(14, None, NodeType::FloatingCon, &[], vec![])])]);
    for leaf in get_leaf_containers(&w) {
        assert_eq!(leaf.node_type, NodeType::Con);
        assert!(leaf.nodes.is_empty());
    }
}
