//! The daemon's decisions: which command a request names, which sway commands
//! each command runs, and in which order the layout pass talks to sway.
use vstd::prelude::*;
use std::collections::HashMap;
use crate::constants::{CMD_KILL, CMD_LAYOUT, CMD_MOVE, CMD_MOVE_TO_WORKSPACE};
use crate::parents::{
    walk_ends, walk_ends_within, find_workspace, get_parent_map, lemma_parent_map_covers_tree, parent_map_of,
    parent_views, workspace_above,
};
use crate::rules::{
    all_named, command, command_string, enforce_eviction, enforce_marking, enforce_splitting,
    eviction_all, marking_all, master_mark, promote, promote_commands, splitting_all,
};
use crate::text::{concat_all, has_mark, join, split_words, strings, words};
use crate::tree::{Node, NodeType, NodeView, level_order, views};
use crate::walk::{find_focused, focused_of, get_workspaces, lemma_first_focused_member,
    lemma_view_children, opt_view, workspaces_of};

verus! {

broadcast use vstd::std_specs::hash::group_hash_axioms;

// ---------------------------------------------------------------- requests
/// A request to the daemon, split into its command and arguments.
pub enum Command {
    Layout,
    Move(Vec<String>),
    MoveToWorkspace(Vec<String>),
    Kill,
    Unknown,
}

/// The model of a `Command`.
pub enum CommandView {
    Layout,
    Move(Seq<Seq<char>>),
    MoveToWorkspace(Seq<Seq<char>>),
    Kill,
    Unknown,
}

impl View for Command {
    type V = CommandView;

    open spec fn view(&self) -> CommandView {
        match self {
            Command::Layout => CommandView::Layout,
            Command::Move(args) => CommandView::Move(strings(args@)),
            Command::MoveToWorkspace(args) => CommandView::MoveToWorkspace(strings(args@)),
            Command::Kill => CommandView::Kill,
            Command::Unknown => CommandView::Unknown,
        }
    }
}

/// The command that a request names by its first word; the other words are its
/// arguments.
pub open spec fn command_of(request: Seq<char>) -> CommandView {
    let w = words(request);
    let head = w[0];
    let args = w.drop_first();
    if head == CMD_LAYOUT@ {
        CommandView::Layout
    } else if head == CMD_MOVE@ {
        CommandView::Move(args)
    } else if head == CMD_MOVE_TO_WORKSPACE@ {
        CommandView::MoveToWorkspace(args)
    } else if head == CMD_KILL@ {
        CommandView::Kill
    } else {
        CommandView::Unknown
    }
}

/// The command of a request that holds at least one word.
pub fn parse_command(request: &str) -> (cmd: Command)
    requires
        words(request@).len() > 0,
    ensures
        cmd@ == command_of(request@),
{
    let mut tokens = split_words(request);
    proof {
        assert(strings(tokens@).len() == tokens@.len());
    }
    let head = tokens.remove(0);
    proof {
        assert(head@ == words(request@)[0]);
        assert(strings(tokens@) =~= words(request@).drop_first());
    }
    if head == String::from_str(CMD_LAYOUT) {
        Command::Layout
    } else if head == String::from_str(CMD_MOVE) {
        Command::Move(tokens)
    } else if head == String::from_str(CMD_MOVE_TO_WORKSPACE) {
        Command::MoveToWorkspace(tokens)
    } else if head == String::from_str(CMD_KILL) {
        Command::Kill
    } else {
        Command::Unknown
    }
}

/// A direction in which a window moves.
#[derive(Clone, Copy, Debug, PartialEq, Eq, Structural)]
pub enum Direction {
    Up,
    Down,
    Left,
    Right,
}

/// The direction that a word names, with its opposite.
pub open spec fn directions_of(word: Seq<char>) -> Option<(Direction, Direction)> {
    if word == "up"@ {
        Some((Direction::Up, Direction::Down))
    } else if word == "down"@ {
        Some((Direction::Down, Direction::Up))
    } else if word == "left"@ {
        Some((Direction::Left, Direction::Right))
    } else if word == "right"@ {
        Some((Direction::Right, Direction::Left))
    } else {
        None
    }
}

/// The direction that the first argument of a move names, and its opposite.
pub fn move_directions(word: &String) -> (dirs: Option<(Direction, Direction)>)
    ensures
        dirs == directions_of(word@),
{
    if *word == String::from_str("up") {
        Some((Direction::Up, Direction::Down))
    } else if *word == String::from_str("down") {
        Some((Direction::Down, Direction::Up))
    } else if *word == String::from_str("left") {
        Some((Direction::Left, Direction::Right))
    } else if *word == String::from_str("right") {
        Some((Direction::Right, Direction::Left))
    } else {
        None
    }
}

/// The ways in which sway reports that a window changed.
#[derive(Clone, Copy, Debug, PartialEq, Eq, Structural)]
pub enum WindowChange {
    New,
    Close,
    Focus,
    Title,
    FullscreenMode,
    Move,
    Floating,
    Urgent,
    Mark,
}

/// The priority of the requests that window changes raise.
pub const WINDOW_EVENT_PRIORITY: usize = 1;

/// The priority of the requests that arrive over D-Bus.
pub const DBUS_PRIORITY: usize = 0;

/// Whether a change of a window asks for a new layout pass.
pub open spec fn changes_layout(change: WindowChange) -> bool {
    change == WindowChange::New || change == WindowChange::Close || change == WindowChange::Move
}

/// The request, with its priority, that a change of a window raises, if any.
pub fn window_event_request(change: WindowChange) -> (req: Option<(String, usize)>)
    ensures
        req is Some <==> changes_layout(change),
        req matches Some(r) ==> r.0@ == CMD_LAYOUT@ && r.1 == WINDOW_EVENT_PRIORITY,
{
    if change == WindowChange::New || change == WindowChange::Close || change
        == WindowChange::Move {
        Some((String::from_str(CMD_LAYOUT), WINDOW_EVENT_PRIORITY))
    } else {
        None
    }
}

/// The request, with its priority, that a message over D-Bus raises.
pub fn dbus_request(message: String) -> (req: (String, usize))
    ensures
        req.0@ == message@,
        req.1 == DBUS_PRIORITY,
{
    (message, DBUS_PRIORITY)
}

// ---------------------------------------------------------------- kill
/// The parent and grandparent of the focused node, by the parent map.
pub open spec fn kill_context(tree: NodeView) -> (NodeView, NodeView, NodeView) {
    let parents = parent_map_of(tree);
    let focused = focused_of(tree).unwrap();
    let parent = parents[focused.id];
    (focused, parent, parents[parent.id])
}

/// Whether the focused window sits in the master column of its workspace.
pub open spec fn kills_master(tree: NodeView) -> bool {
    let (focused, parent, grandparent) = kill_context(tree);
    grandparent.is_workspace() && parent.marks.contains(master_mark(grandparent.name.unwrap()))
}

/// The trees on which closing the focused window finds all it looks up.
pub open spec fn can_kill(tree: NodeView) -> bool {
    let (focused, parent, grandparent) = kill_context(tree);
    &&& focused_of(tree) is Some
    &&& grandparent.is_workspace() ==> grandparent.name is Some
    &&& kills_master(tree) ==> grandparent.nodes.len() > 1 && grandparent.nodes[1].nodes.len() > 0
}

/// The sway command that closes the focused window: where it is the master
/// window, the top of the stack is promoted around the kill.
pub open spec fn kill_plan(tree: NodeView) -> Seq<char> {
    let (focused, parent, grandparent) = kill_context(tree);
    if kills_master(tree) {
        promote_commands(grandparent).0 + command(focused.id, "kill"@) + promote_commands(
            grandparent,
        ).1
    } else {
        "kill"@
    }
}

fn unwrap_node<'a>(o: Option<&'a Node>) -> (n: &'a Node)
    requires
        o is Some,
    ensures
        o == Some(n),
{
    match o {
        Some(n) => n,
        None => unreached(),
    }
}

fn lookup<'a>(parents: &HashMap<i64, &'a Node>, id: i64) -> (n: &'a Node)
    requires
        parent_views(parents@).contains_key(id),
    ensures
        parent_views(parents@)[id] == n@,
{
    match parents.get(&id) {
        Some(r) => *r,
        None => unreached(),
    }
}

/// The sway command that closes the focused window of `tree`.
pub fn kill_command(tree: &Node) -> (cmd: String)
    requires
        can_kill(tree@),
    ensures
        cmd@ == kill_plan(tree@),
{
    let parents = get_parent_map(tree);
    let focused = unwrap_node(find_focused(tree));
    proof {
        lemma_first_focused_member(level_order(tree@));
        lemma_parent_map_covers_tree(tree@);
        let t = level_order(tree@);
        let i = choose|i: int| 0 <= i < t.len() && t[i] == focused@;
        assert(parent_map_of(tree@).contains_key(t[i].id));
    }
    let parent: &Node = lookup(&parents, focused.id);
    proof {
        let t = level_order(tree@);
        let i = choose|i: int| 0 <= i < t.len() && t[i] == parent@;
        assert(parent_map_of(tree@).contains_key(t[i].id));
    }
    let grandparent: &Node = lookup(&parents, parent.id);
    proof {
        lemma_view_children(*grandparent);
    }
    if grandparent.node_type == NodeType::Workspace {
        let name: &String = match &grandparent.name {
            Some(n) => n,
            None => unreached(),
        };
        let master = String::from_str("master-").concat(name.as_str());
        proof {
            assert(parent@.marks == strings(parent.marks@));
        }
        if has_mark(&parent.marks, &master) {
            let (pre, post) = promote(grandparent);
            let mut parts: Vec<String> = Vec::new();
            parts.push(pre);
            parts.push(command_string(focused.id, "kill"));
            parts.push(post);
            let cmd = concat_all(&parts);
            proof {
                let p = strings(parts@);
                assert(p.drop_last().drop_last().drop_last() =~= Seq::<Seq<char>>::empty());
                reveal_with_fuel(join, 4);
                assert(kill_context(tree@) == (focused@, parent@, grandparent@));
                assert(master@ == master_mark(grandparent@.name.unwrap()));
                assert(kills_master(tree@));
                assert(join(p) =~= kill_plan(tree@));
            }
            return cmd;
        }
    }
    String::from_str("kill")
}

/// Whether closing the focused window of `tree` finds all it looks up.
pub fn kill_command_defined(tree: &Node) -> (ok: bool)
    ensures
        ok == can_kill(tree@),
{
    let focused = match find_focused(tree) {
        Some(f) => f,
        None => {
            return false;
        },
    };
    let parents = get_parent_map(tree);
    proof {
        lemma_first_focused_member(level_order(tree@));
        lemma_parent_map_covers_tree(tree@);
        let t = level_order(tree@);
        let i = choose|i: int| 0 <= i < t.len() && t[i] == focused@;
        assert(parent_map_of(tree@).contains_key(t[i].id));
    }
    let parent: &Node = lookup(&parents, focused.id);
    proof {
        let t = level_order(tree@);
        let i = choose|i: int| 0 <= i < t.len() && t[i] == parent@;
        assert(parent_map_of(tree@).contains_key(t[i].id));
    }
    let grandparent: &Node = lookup(&parents, parent.id);
    proof {
        lemma_view_children(*grandparent);
        assert(kill_context(tree@) == (focused@, parent@, grandparent@));
    }
    if grandparent.node_type != NodeType::Workspace {
        return true;
    }
    let name: &String = match &grandparent.name {
        Some(n) => n,
        None => {
            return false;
        },
    };
    let master = String::from_str("master-").concat(name.as_str());
    proof {
        assert(parent@.marks == strings(parent.marks@));
        assert(master@ == master_mark(grandparent@.name.unwrap()));
    }
    if has_mark(&parent.marks, &master) {
        if grandparent.nodes.len() > 1 {
            proof {
                lemma_view_children(grandparent.nodes@[1]);
            }
            grandparent.nodes[1].nodes.len() > 0
        } else {
            false
        }
    } else {
        true
    }
}

/// The argument that a move or a move to a workspace acts on: the first one,
/// if there is one.
pub fn command_target(args: &Vec<String>) -> (target: Option<&String>)
    ensures
        target is Some <==> args@.len() > 0,
        target matches Some(t) ==> t@ == args@[0]@,
{
    if args.len() == 0 {
        None
    } else {
        Some(&args[0])
    }
}

// ---------------------------------------------------------------- move to workspace
/// The command that moves `focus` from `from_workspace` to the workspace called
/// `to_workspace_name`. Moving between workspaces is not part of the layout,
/// so the command is always empty.
pub fn make_move_to_workspace_command(
    from_workspace: &Node,
    to_workspace_name: String,
    to_workspace_nodes: &Vec<Node>,
    focus: &Node,
    focus_follow: bool,
) -> (cmd: String)
    ensures
        cmd@ == Seq::<char>::empty(),
{
    String::new()
}

/// Whether every workspace of `wss` up to the first one called `name` has a name.
pub open spec fn named_up_to(wss: Seq<NodeView>, name: Seq<char>) -> bool
    decreases wss.len(),
{
    wss.len() == 0 || (wss[0].name is Some && (wss[0].name.unwrap() == name || named_up_to(
        wss.drop_first(),
        name,
    )))
}

/// The trees on which moving the focused window to the workspace called `name`
/// finds all it looks up.
pub open spec fn can_move_to_workspace(tree: NodeView, name: Seq<char>) -> bool {
    let parents = parent_map_of(tree);
    let focused = focused_of(tree).unwrap();
    &&& focused_of(tree) is Some
    &&& exists|k: nat| walk_ends(parents, focused, k)
    &&& forall|k: nat| walk_ends(parents, focused, k) ==> workspace_above(parents, focused, k) is Some
    &&& named_up_to(workspaces_of(tree), name)
}

/// Whether moving the focused window to the workspace called `name` finds all
/// it looks up, where the walk up to the workspace may take at most `fuel`
/// steps.
pub open spec fn can_move_within(tree: NodeView, name: Seq<char>, fuel: nat) -> bool {
    let parents = parent_map_of(tree);
    let focused = focused_of(tree).unwrap();
    &&& focused_of(tree) is Some
    &&& exists|k: nat| k <= fuel && walk_ends(parents, focused, k)
    &&& forall|k: nat| walk_ends(parents, focused, k) ==> workspace_above(parents, focused, k) is Some
    &&& named_up_to(workspaces_of(tree), name)
}

/// Whether the workspaces of `tree`, up to the first one called `name`, have
/// names.
fn names_up_to(tree: &Node, name: &String) -> (ok: bool)
    ensures
        ok == named_up_to(workspaces_of(tree@), name@),
{
    let workspaces = get_workspaces(tree);
    let ghost wss = views(workspaces@);
    let mut i: usize = 0;
    proof {
        assert(wss.skip(0) =~= wss);
    }
    while i < workspaces.len()
        invariant
            0 <= i <= workspaces@.len(),
            wss == views(workspaces@),
            wss == workspaces_of(tree@),
            named_up_to(wss.skip(i as int), name@) == named_up_to(wss, name@),
        decreases workspaces@.len() - i,
    {
        let ws: &Node = workspaces[i];
        proof {
            assert(wss.skip(i as int)[0] == ws@);
            assert(wss.skip(i as int).drop_first() =~= wss.skip(i + 1));
        }
        match &ws.name {
            None => {
                return false;
            },
            Some(n) => {
                if *n == *name {
                    return true;
                }
            },
        }
        i = i + 1;
    }
    proof {
        assert(wss.skip(i as int).len() == 0);
    }
    true
}

/// Whether moving the focused window of `tree` to the workspace called `name`
/// finds all it looks up, where the walk up may take at most `fuel` steps.
pub fn move_to_workspace_defined(tree: &Node, name: &String, fuel: usize) -> (ok: bool)
    ensures
        ok == can_move_within(tree@, name@, fuel as nat),
        ok ==> can_move_to_workspace(tree@, name@),
{
    let focused = match find_focused(tree) {
        Some(f) => f,
        None => {
            return false;
        },
    };
    let parents = get_parent_map(tree);
    if !walk_ends_within(&parents, focused, fuel) {
        return false;
    }
    if find_workspace(focused, parents).is_none() {
        return false;
    }
    names_up_to(tree, name)
}

/// The sway command that moves the focused window of `tree` to the workspace
/// called `to_workspace_name`.
pub fn move_to_workspace_command(tree: &Node, to_workspace_name: &String) -> (cmd: String)
    requires
        can_move_to_workspace(tree@, to_workspace_name@),
    ensures
        cmd@ == Seq::<char>::empty(),
{
    let parents = get_parent_map(tree);
    let focused = unwrap_node(find_focused(tree));
    let from_workspace = unwrap_node(find_workspace(focused, parents));
    let workspaces = get_workspaces(tree);
    let empty: Vec<Node> = Vec::new();
    let mut to_workspace_nodes: &Vec<Node> = &empty;
    let mut i: usize = 0;
    proof {
        assert(views(workspaces@).skip(0) =~= views(workspaces@));
    }
    while i < workspaces.len()
        invariant
            0 <= i <= workspaces@.len(),
            named_up_to(views(workspaces@).skip(i as int), to_workspace_name@),
        decreases workspaces@.len() - i,
    {
        let ws: &Node = workspaces[i];
        proof {
            assert(views(workspaces@).skip(i as int)[0] == ws@);
            assert(views(workspaces@).skip(i as int).drop_first() =~= views(workspaces@).skip(
                i + 1,
            ));
        }
        let name: &String = match &ws.name {
            Some(n) => n,
            None => unreached(),
        };
        if *name == *to_workspace_name {
            to_workspace_nodes = &ws.nodes;
            break;
        }
        i = i + 1;
    }
    make_move_to_workspace_command(
        from_workspace,
        to_workspace_name.clone(),
        to_workspace_nodes,
        focused,
        false,
    )
}

// ---------------------------------------------------------------- layout pass
/// Whether every workspace of `tree` has a name.
pub fn workspaces_named(tree: &Node) -> (ok: bool)
    ensures
        ok == all_named(workspaces_of(tree@)),
{
    let workspaces = get_workspaces(tree);
    let ghost wss = views(workspaces@);
    let mut i: usize = 0;
    while i < workspaces.len()
        invariant
            0 <= i <= workspaces@.len(),
            wss == views(workspaces@),
            wss == workspaces_of(tree@),
            forall|k: int| 0 <= k < i ==> (#[trigger] wss[k]).name is Some,
        decreases workspaces@.len() - i,
    {
        proof {
            assert(wss[i as int] == workspaces@[i as int]@);
        }
        if workspaces[i].name.is_none() {
            return false;
        }
        i = i + 1;
    }
    true
}

/// Where a layout pass stands.
#[derive(Clone, Copy, Debug, PartialEq, Eq, Structural)]
pub enum LayoutPhase {
    /// Waiting for the tree on which to split workspaces.
    AwaitSplitTree,
    /// Waiting for sway to run the splitting commands.
    AfterSplit,
    /// Waiting for the tree on which to mark the columns.
    AwaitMarkTree,
    /// Waiting for sway to run the marking commands.
    AfterMark,
    /// Waiting for the tree on which to evict windows from the master column.
    AwaitEvictTree,
    /// Waiting for sway to run the eviction commands.
    AfterEvict,
    /// Waiting for sway to give the focus back.
    AfterRefocus,
    /// The pass is over.
    Finished,
}

/// The state of a layout pass: its phase, the command that gives the focus
/// back to the window focused at the start, and whether a rule ran a command.
pub struct LayoutState {
    pub phase: LayoutPhase,
    pub refocus: String,
    pub ran_command: bool,
}

pub struct LayoutStateView {
    pub phase: LayoutPhase,
    pub refocus: Seq<char>,
    pub ran_command: bool,
}

impl View for LayoutState {
    type V = LayoutStateView;

    open spec fn view(&self) -> LayoutStateView {
        LayoutStateView {
            phase: self.phase,
            refocus: self.refocus@,
            ran_command: self.ran_command,
        }
    }
}

/// What sway reports to a layout pass.
pub enum LayoutEvent {
    /// The tree that sway reported.
    Tree(Node),
    /// Sway ran the last command.
    CommandRan,
}

pub enum LayoutEventView {
    Tree(NodeView),
    CommandRan,
}

impl View for LayoutEvent {
    type V = LayoutEventView;

    open spec fn view(&self) -> LayoutEventView {
        match self {
            LayoutEvent::Tree(t) => LayoutEventView::Tree(t@),
            LayoutEvent::CommandRan => LayoutEventView::CommandRan,
        }
    }
}

/// What a layout pass asks of sway next.
pub enum LayoutAction {
    GetTree,
    RunCommand(String),
    Done,
}

pub enum LayoutActionView {
    GetTree,
    RunCommand(Seq<char>),
    Done,
}

impl View for LayoutAction {
    type V = LayoutActionView;

    open spec fn view(&self) -> LayoutActionView {
        match self {
            LayoutAction::GetTree => LayoutActionView::GetTree,
            LayoutAction::RunCommand(c) => LayoutActionView::RunCommand(c@),
            LayoutAction::Done => LayoutActionView::Done,
        }
    }
}

/// The joined commands of each rule on a tree.
pub open spec fn splitting_script(tree: NodeView) -> Seq<char> {
    join(splitting_all(workspaces_of(tree)))
}

pub open spec fn marking_script(tree: NodeView) -> Seq<char> {
    join(marking_all(workspaces_of(tree)))
}

pub open spec fn eviction_script(tree: NodeView) -> Seq<char> {
    join(eviction_all(workspaces_of(tree)))
}

/// The state in which a layout pass starts.
pub open spec fn layout_initial() -> LayoutStateView {
    LayoutStateView { phase: LayoutPhase::AwaitSplitTree, refocus: Seq::empty(), ran_command: false }
}

/// Whether a layout pass in state `s` expects `e`, and finds in a reported tree
/// all it looks up: the focused window in the first tree, the names of the
/// workspaces in the others.
pub open spec fn layout_accepts(s: LayoutStateView, e: LayoutEventView) -> bool {
    match s.phase {
        LayoutPhase::AwaitSplitTree => e matches LayoutEventView::Tree(t) && focused_of(t) is Some,
        LayoutPhase::AwaitMarkTree => e matches LayoutEventView::Tree(t) && all_named(
            workspaces_of(t),
        ),
        LayoutPhase::AwaitEvictTree => e matches LayoutEventView::Tree(t) && all_named(
            workspaces_of(t),
        ),
        LayoutPhase::Finished => false,
        _ => e is CommandRan,
    }
}

/// One step of a layout pass: split, then mark, then evict, each on a fresh
/// tree and each running its commands only when there are some; after all, give
/// the focus back if a rule ran a command.
pub open spec fn layout_next(s: LayoutStateView, e: LayoutEventView) -> (
    LayoutStateView,
    LayoutActionView,
) {
    let with_phase = |p: LayoutPhase| LayoutStateView { phase: p, ..s };
    match e {
        LayoutEventView::Tree(t) => {
            if s.phase == LayoutPhase::AwaitSplitTree {
                let refocus = command(focused_of(t).unwrap().id, "focus"@);
                let script = splitting_script(t);
                if script.len() > 0 {
                    (
                        LayoutStateView {
                            phase: LayoutPhase::AfterSplit,
                            refocus,
                            ran_command: true,
                        },
                        LayoutActionView::RunCommand(script),
                    )
                } else {
                    (
                        LayoutStateView {
                            phase: LayoutPhase::AwaitMarkTree,
                            refocus,
                            ran_command: false,
                        },
                        LayoutActionView::GetTree,
                    )
                }
            } else if s.phase == LayoutPhase::AwaitMarkTree {
                let script = marking_script(t);
                if script.len() > 0 {
                    (
                        LayoutStateView { phase: LayoutPhase::AfterMark, ran_command: true, ..s },
                        LayoutActionView::RunCommand(script),
                    )
                } else {
                    (with_phase(LayoutPhase::AwaitEvictTree), LayoutActionView::GetTree)
                }
            } else {
                let script = eviction_script(t);
                if script.len() > 0 {
                    (
                        LayoutStateView { phase: LayoutPhase::AfterEvict, ran_command: true, ..s },
                        LayoutActionView::RunCommand(script),
                    )
                } else if s.ran_command {
                    (
                        with_phase(LayoutPhase::AfterRefocus),
                        LayoutActionView::RunCommand(s.refocus),
                    )
                } else {
                    (with_phase(LayoutPhase::Finished), LayoutActionView::Done)
                }
            }
        },
        LayoutEventView::CommandRan => {
            if s.phase == LayoutPhase::AfterSplit {
                (with_phase(LayoutPhase::AwaitMarkTree), LayoutActionView::GetTree)
            } else if s.phase == LayoutPhase::AfterMark {
                (with_phase(LayoutPhase::AwaitEvictTree), LayoutActionView::GetTree)
            } else if s.phase == LayoutPhase::AfterEvict {
                (
                    with_phase(LayoutPhase::AfterRefocus),
                    LayoutActionView::RunCommand(s.refocus),
                )
            } else {
                (with_phase(LayoutPhase::Finished), LayoutActionView::Done)
            }
        },
    }
}

/// Whether a layout pass in state `state` can take `event`.
pub fn layout_event_accepted(state: &LayoutState, event: &LayoutEvent) -> (ok: bool)
    ensures
        ok == layout_accepts(state@, event@),
{
    match event {
        LayoutEvent::Tree(tree) => {
            if state.phase == LayoutPhase::AwaitSplitTree {
                find_focused(tree).is_some()
            } else if state.phase == LayoutPhase::AwaitMarkTree || state.phase
                == LayoutPhase::AwaitEvictTree {
                workspaces_named(tree)
            } else {
                false
            }
        },
        LayoutEvent::CommandRan => {
            state.phase == LayoutPhase::AfterSplit || state.phase == LayoutPhase::AfterMark
                || state.phase == LayoutPhase::AfterEvict || state.phase
                == LayoutPhase::AfterRefocus
        },
    }
}

/// A new layout pass, which first asks for the tree.
pub fn layout_start() -> (start: (LayoutState, LayoutAction))
    ensures
        start.0@ == layout_initial(),
        start.1@ == LayoutActionView::GetTree,
{
    (
        LayoutState { phase: LayoutPhase::AwaitSplitTree, refocus: String::new(), ran_command: false },
        LayoutAction::GetTree,
    )
}

/// The next state of a layout pass and what it asks of sway, given what sway
/// reported.
pub fn layout_step(state: LayoutState, event: LayoutEvent) -> (next: (LayoutState, LayoutAction))
    requires
        layout_accepts(state@, event@),
    ensures
        (next.0@, next.1@) == layout_next(state@, event@),
{
    let LayoutState { phase, refocus, ran_command } = state;
    match event {
        LayoutEvent::Tree(tree) => {
            if phase == LayoutPhase::AwaitSplitTree {
                let focused = unwrap_node(find_focused(&tree));
                let refocus = command_string(focused.id, "focus");
                let script = enforce_splitting(get_workspaces(&tree));
                if !script.as_str().is_empty() {
                    (
                        LayoutState { phase: LayoutPhase::AfterSplit, refocus, ran_command: true },
                        LayoutAction::RunCommand(script),
                    )
                } else {
                    (
                        LayoutState {
                            phase: LayoutPhase::AwaitMarkTree,
                            refocus,
                            ran_command: false,
                        },
                        LayoutAction::GetTree,
                    )
                }
            } else if phase == LayoutPhase::AwaitMarkTree {
                let script = enforce_marking(get_workspaces(&tree));
                if !script.as_str().is_empty() {
                    (
                        LayoutState { phase: LayoutPhase::AfterMark, refocus, ran_command: true },
                        LayoutAction::RunCommand(script),
                    )
                } else {
                    (
                        LayoutState { phase: LayoutPhase::AwaitEvictTree, refocus, ran_command },
                        LayoutAction::GetTree,
                    )
                }
            } else {
                let script = enforce_eviction(get_workspaces(&tree));
                if !script.as_str().is_empty() {
                    (
                        LayoutState { phase: LayoutPhase::AfterEvict, refocus, ran_command: true },
                        LayoutAction::RunCommand(script),
                    )
                } else if ran_command {
                    let cmd = refocus.clone();
                    (
                        LayoutState { phase: LayoutPhase::AfterRefocus, refocus, ran_command },
                        LayoutAction::RunCommand(cmd),
                    )
                } else {
                    (
                        LayoutState { phase: LayoutPhase::Finished, refocus, ran_command },
                        LayoutAction::Done,
                    )
                }
            }
        },
        LayoutEvent::CommandRan => {
            if phase == LayoutPhase::AfterSplit {
                (
                    LayoutState { phase: LayoutPhase::AwaitMarkTree, refocus, ran_command },
                    LayoutAction::GetTree,
                )
            } else if phase == LayoutPhase::AfterMark {
                (
                    LayoutState { phase: LayoutPhase::AwaitEvictTree, refocus, ran_command },
                    LayoutAction::GetTree,
                )
            } else if phase == LayoutPhase::AfterEvict {
                let cmd = refocus.clone();
                (
                    LayoutState { phase: LayoutPhase::AfterRefocus, refocus, ran_command },
                    LayoutAction::RunCommand(cmd),
                )
            } else {
                (
                    LayoutState { phase: LayoutPhase::Finished, refocus, ran_command },
                    LayoutAction::Done,
                )
            }
        },
    }
}

} // verus!
