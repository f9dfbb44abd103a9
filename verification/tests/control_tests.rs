use dsl::control::{command_target, kill_command_defined, layout_event_accepted, move_to_workspace_defined, LayoutState};
use dsl::control::{
    dbus_request, kill_command, layout_start, layout_step, make_move_to_workspace_command,
    move_directions, move_to_workspace_command, parse_command, window_event_request, Command,
    Direction, LayoutAction, LayoutEvent, LayoutPhase, WindowChange, DBUS_PRIORITY,
    WINDOW_EVENT_PRIORITY,
};
use dsl::tree::{Node, NodeType};

fn node(id: i64, name: Option<&str>, node_type: NodeType, marks: &[&str], nodes: Vec<Node>) -> Node {
    Node {
        id,
        name: name.map(|s| s.to_string()),
        node_type,
        focused: false,
        marks: marks.iter().map(|m| m.to_string()).collect(),
        nodes,
    }
}

fn con(id: i64) -> Node {
    node(id, None, NodeType::Con, &[], Vec::new())
}

fn focused(mut n: Node) -> Node {
    n.focused = true;
    n
}

fn root_with(workspaces: Vec<Node>) -> Node {
    node(1, None, NodeType::Root, &[], vec![node(2, Some("out"), NodeType::Output, &[], workspaces)])
}

#[test]
fn parse_known_commands() {
    assert!(matches!(parse_command("layout"), Command::Layout));
    assert!(matches!(parse_command("  layout extra "), Command::Layout));
    assert!(matches!(parse_command("kill"), Command::Kill));
    match parse_command("move  left") {
        Command::Move(args) => assert_eq!(args, vec!["left"]),
        _ => panic!("not a move"),
    }
    match parse_command("move_to_workspace 3 now") {
        Command::MoveToWorkspace(args) => assert_eq!(args, vec!["3", "now"]),
        _ => panic!("not a move to a workspace"),
    }
    match parse_command("move") {
        Command::Move(args) => assert!(args.is_empty()),
        _ => panic!("not a move"),
    }
}

#[test]
fn parse_unknown_command() {
    assert!(matches!(parse_command("focus left"), Command::Unknown));
    assert!(matches!(parse_command("Layout"), Command::Unknown));
}

#[test]
fn directions_and_opposites() {
    assert_eq!(move_directions(&"up".to_string()), Some((Direction::Up, Direction::Down)));
    assert_eq!(move_directions(&"down".to_string()), Some((Direction::Down, Direction::Up)));
    assert_eq!(move_directions(&"left".to_string()), Some((Direction::Left, Direction::Right)));
    assert_eq!(move_directions(&"right".to_string()), Some((Direction::Right, Direction::Left)));
    assert_eq!(move_directions(&"sideways".to_string()), None);
}

#[test]
fn window_changes_that_ask_for_layout() {
    for change in [WindowChange::New, WindowChange::Close, WindowChange::Move] {
        assert_eq!(window_event_request(change), Some(("layout".to_string(), WINDOW_EVENT_PRIORITY)));
    }
    for change in [WindowChange::Focus, WindowChange::Title, WindowChange::Mark, WindowChange::Urgent] {
        assert_eq!(window_event_request(change), None);
    }
    assert_eq!(dbus_request("kill".to_string()), ("kill".to_string(), DBUS_PRIORITY));
    assert!(WINDOW_EVENT_PRIORITY > DBUS_PRIORITY);
}

#[test]
fn kill_a_stack_window() {
    let stack = node(12, None, NodeType::Con, &["stack-1"], vec![focused(con(40))]);
    let tree = root_with(vec![node(10, Some("1"), NodeType::Workspace, &[], vec![con(11), stack])]);
    assert_eq!(kill_command(&tree), "kill");
}

#[test]
fn kill_the_master_window_promotes_the_stack() {
    let master = node(11, None, NodeType::Con, &["master-1"], vec![focused(con(30))]);
    let stack = node(12, None, NodeType::Con, &["stack-1"], vec![con(40), con(41)]);
    let tree = root_with(vec![node(10, Some("1"), NodeType::Workspace, &[], vec![master, stack])]);
    assert_eq!(
        kill_command(&tree),
        "[con_id=40] mark --add _temp_master; [con_id=40] move container to mark master-1; \
         [con_id=30] kill; [con_id=40] unmark _temp_master; "
    );
}

#[test]
fn kill_outside_the_two_columns() {
    let tree = root_with(vec![node(10, Some("1"), NodeType::Workspace, &[], vec![focused(con(11))])]);
    assert_eq!(kill_command(&tree), "kill");
}

#[test]
fn move_to_workspace_is_an_empty_command() {
    let tree = root_with(vec![
        node(10, Some("1"), NodeType::Workspace, &[], vec![focused(con(11))]),
        node(20, Some("2"), NodeType::Workspace, &[], vec![con(21)]),
    ]);
    assert_eq!(move_to_workspace_command(&tree, &"2".to_string()), "");
    assert_eq!(move_to_workspace_command(&tree, &"9".to_string()), "");
    let ws = &tree.nodes[0].nodes[0];
    assert_eq!(make_move_to_workspace_command(ws, "2".to_string(), &Vec::new(), ws, true), "");
}

fn run_layout(trees: Vec<Node>) -> Vec<String> {
    let mut trees = trees.into_iter();
    let mut commands = Vec::new();
    let (mut state, mut action) = layout_start();
    loop {
        let event = match action {
            LayoutAction::GetTree => LayoutEvent::Tree(trees.next().expect("a tree")),
            LayoutAction::RunCommand(cmd) => {
                commands.push(cmd);
                LayoutEvent::CommandRan
            }
            LayoutAction::Done => break,
        };
        let (next_state, next_action) = layout_step(state, event);
        state = next_state;
        action = next_action;
    }
    assert_eq!(state.phase, LayoutPhase::Finished);
    commands
}

#[test]
fn layout_of_a_settled_tree_runs_nothing() {
    let tree = || {
        root_with(vec![node(
            10,
            Some("1"),
            NodeType::Workspace,
            &[],
            vec![
                node(11, None, NodeType::Con, &["master-1"], vec![focused(con(30))]),
                node(12, None, NodeType::Con, &["stack-1"], vec![con(40), con(41)]),
            ],
        )])
    };
    assert!(run_layout(vec![tree(), tree(), tree()]).is_empty());
}

#[test]
fn layout_of_a_new_window_splits_marks_and_refocuses() {
    let first = root_with(vec![node(10, Some("1"), NodeType::Workspace, &[], vec![focused(con(11))])]);
    let second = root_with(vec![node(10, Some("1"), NodeType::Workspace, &[], vec![con(11), con(12)])]);
    let third = root_with(vec![node(
        10,
        Some("1"),
        NodeType::Workspace,
        &[],
        vec![
            node(11, None, NodeType::Con, &["master-1"], vec![con(30), con(31)]),
            node(12, None, NodeType::Con, &["stack-1"], vec![]),
        ],
    )]);
    assert_eq!(
        run_layout(vec![first, second, third]),
        vec![
            "[con_id=11] splith; ".to_string(),
            "[con_id=11] mark --add master-1; [con_id=12] mark --add stack-1; ".to_string(),
            "[con_id=31] move container to mark stack-1; ".to_string(),
            "[con_id=11] focus; ".to_string(),
        ]
    );
}

#[test]
fn kill_defined_only_where_it_finds_what_it_needs() {
    let tree = root_with(vec![node(10, Some("1"), NodeType::Workspace, &[], vec![focused(con(11))])]);
    assert!(kill_command_defined(&tree));
    let unfocused = root_with(vec![node(10, Some("1"), NodeType::Workspace, &[], vec![con(11)])]);
    assert!(!kill_command_defined(&unfocused));
    // The focused window's grandparent is a workspace without a name.
    let column = node(12, None, NodeType::Con, &[], vec![focused(con(30))]);
    let nameless = root_with(vec![node(10, None, NodeType::Workspace, &[], vec![column])]);
    assert!(!kill_command_defined(&nameless));
    // The master window dies, but there is no stack to promote from.
    let master = node(11, None, NodeType::Con, &["master-1"], vec![focused(con(30))]);
    let lonely = root_with(vec![node(10, Some("1"), NodeType::Workspace, &[], vec![master])]);
    assert!(!kill_command_defined(&lonely));
}

#[test]
fn move_to_workspace_defined_checks_its_lookups() {
    let tree = root_with(vec![
        node(10, None, NodeType::Workspace, &[], vec![focused(con(11))]),
        node(20, Some("2"), NodeType::Workspace, &[], vec![con(21)]),
    ]);
    // The first workspace has no name, so looking for "2" fails on it.
    assert!(!move_to_workspace_defined(&tree, &"2".to_string(), 100));
    let tree = root_with(vec![
        node(10, Some("1"), NodeType::Workspace, &[], vec![focused(con(11))]),
        node(20, None, NodeType::Workspace, &[], vec![con(21)]),
    ]);
    assert!(move_to_workspace_defined(&tree, &"1".to_string(), 100));
    assert!(!move_to_workspace_defined(&tree, &"3".to_string(), 100));
    // Too few steps to walk from the window up to its workspace.
    let tree = root_with(vec![node(10, Some("1"), NodeType::Workspace, &[], vec![focused(con(11))])]);
    assert!(move_to_workspace_defined(&tree, &"1".to_string(), 1));
    assert!(!move_to_workspace_defined(&tree, &"1".to_string(), 0));
    // A focused output has no workspace above it.
    let tree = node(1, None, NodeType::Root, &[], vec![focused(node(2, Some("o"), NodeType::Output, &[], vec![]))]);
    assert!(!move_to_workspace_defined(&tree, &"1".to_string(), 100));
}

#[test]
fn layout_accepts_only_the_expected_event() {
    let (state, _) = layout_start();
    assert!(!layout_event_accepted(&state, &LayoutEvent::CommandRan));
    let unfocused = root_with(vec![node(10, Some("1"), NodeType::Workspace, &[], vec![con(11)])]);
    assert!(!layout_event_accepted(&state, &LayoutEvent::Tree(unfocused)));
    let tree = root_with(vec![node(10, None, NodeType::Workspace, &[], vec![focused(con(11))])]);
    assert!(layout_event_accepted(&state, &LayoutEvent::Tree(tree)));
    let marking = LayoutState { phase: LayoutPhase::AwaitMarkTree, refocus: String::new(), ran_command: false };
    let nameless = root_with(vec![node(10, None, NodeType::Workspace, &[], vec![con(11)])]);
    assert!(!layout_event_accepted(&marking, &LayoutEvent::Tree(nameless)));
    let after = LayoutState { phase: LayoutPhase::AfterSplit, refocus: String::new(), ran_command: true };
    assert!(layout_event_accepted(&after, &LayoutEvent::CommandRan));
    let done = LayoutState { phase: LayoutPhase::Finished, refocus: String::new(), ran_command: true };
    assert!(!layout_event_accepted(&done, &LayoutEvent::CommandRan));
}

#[test]
fn layout_steps_move_forward() {
    // Law: each step goes to a later phase; a pass that ran nothing ends without refocusing.
    let s = LayoutState { phase: LayoutPhase::AwaitEvictTree, refocus: "[con_id=5] focus; ".to_string(), ran_command: false };
    let tree = root_with(vec![node(10, Some("1"), NodeType::Workspace, &[], vec![con(11)])]);
    let (next, action) = layout_step(s, LayoutEvent::Tree(tree));
    assert_eq!(next.phase, LayoutPhase::Finished);
    assert!(matches!(action, LayoutAction::Done));
    let s = LayoutState { phase: LayoutPhase::AwaitEvictTree, refocus: "[con_id=5] focus; ".to_string(), ran_command: true };
    let tree = root_with(vec![node(10, Some("1"), NodeType::Workspace, &[], vec![con(11)])]);
    let (next, action) = layout_step(s, LayoutEvent::Tree(tree));
    assert_eq!(next.phase, LayoutPhase::AfterRefocus);
    match action {
        LayoutAction::RunCommand(c) => assert_eq!(c, "[con_id=5] focus; "),
        _ => panic!("expected the refocus command"),
    }
}

#[test]
fn move_to_workspace_stops_at_the_workspace_where_ids_repeat() {
    // root 1 -> output 2 -> workspace 3 "1" -> focused con 2: the map holds
    // 2 -> workspace 3 and 3 -> output 2, so the walk above the workspace would
    // cycle, but the walk stops at the workspace.
    let ws = node(3, Some("1"), NodeType::Workspace, &[], vec![focused(con(2))]);
    let tree = node(1, None, NodeType::Root, &[], vec![node(2, Some("out"), NodeType::Output, &[], vec![ws])]);
    assert!(move_to_workspace_defined(&tree, &"1".to_string(), 100));
    assert_eq!(move_to_workspace_command(&tree, &"1".to_string()), "");
}

#[test]
fn target_is_the_first_argument() {
    assert_eq!(command_target(&Vec::new()), None);
    let args = vec!["left".to_string(), "now".to_string()];
    assert_eq!(command_target(&args), Some(&"left".to_string()));
}
