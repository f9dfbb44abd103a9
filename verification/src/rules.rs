//! The layout rules: the sway commands that split, mark and evict windows so that
//! each workspace holds one master window beside a stack.
use vstd::prelude::*;
use crate::constants::SWAY_TEMP_MASTER_MARK;
use crate::text::{concat_all, decimal, decimal_string, has_mark, join, strings};
use crate::tree::{Node, NodeType, NodeView, views};
use crate::walk::{get_leaf_containers, has_child, leaf_containers, lemma_view_children};

verus! {

/// The sway command that applies `action` to the container with id `id`.
pub open spec fn command(id: i64, action: Seq<char>) -> Seq<char> {
    "[con_id="@ + decimal(id as int) + "] "@ + action + "; "@
}

/// The mark of the master window of the workspace called `name`.
pub open spec fn master_mark(name: Seq<char>) -> Seq<char> {
    "master-"@ + name
}

/// The mark of the stack of the workspace called `name`.
pub open spec fn stack_mark(name: Seq<char>) -> Seq<char> {
    "stack-"@ + name
}

/// The commands that give a workspace with one window a horizontal split, and a
/// workspace with two windows two vertical ones.
pub open spec fn splitting_commands(ws: NodeView) -> Seq<Seq<char>> {
    let leaves = leaf_containers(ws);
    if leaves.len() == 1 {
        let w = leaves[0];
        (if ws.nodes.contains(w) {
            Seq::empty()
        } else {
            seq![command(w.id, "move up"@)]
        }) + seq![command(w.id, "splith"@)]
    } else if leaves.len() == 2 {
        seq![command(leaves[0].id, "splitv"@), command(leaves[1].id, "splitv"@)]
    } else {
        Seq::empty()
    }
}

/// The commands that mark the two columns of a workspace as master and stack.
pub open spec fn marking_commands(ws: NodeView) -> Seq<Seq<char>> {
    let name = ws.name.unwrap();
    if ws.nodes.len() == 2 {
        (if ws.nodes[0].marks.contains(master_mark(name)) {
            Seq::empty()
        } else {
            seq![command(ws.nodes[0].id, "mark --add "@ + master_mark(name))]
        }) + (if ws.nodes[1].marks.contains(stack_mark(name)) {
            Seq::empty()
        } else {
            seq![command(ws.nodes[1].id, "mark --add "@ + stack_mark(name))]
        })
    } else {
        Seq::empty()
    }
}

/// Whether a window is being promoted to master.
pub open spec fn is_temp_master(n: NodeView) -> bool {
    n.marks.contains(SWAY_TEMP_MASTER_MARK@)
}

/// Whether `s` holds a window that is not being promoted.
pub open spec fn has_settled(s: Seq<NodeView>) -> bool {
    exists|k: int| 0 <= k < s.len() && !is_temp_master(#[trigger] s[k])
}

/// The commands that move to the stack every window of the master column after
/// its first window that is not being promoted, skipping those being promoted.
pub open spec fn evictions(column: Seq<NodeView>, stack: Seq<char>) -> Seq<Seq<char>>
    decreases column.len(),
{
    if column.len() == 0 {
        Seq::empty()
    } else {
        evictions(column.drop_last(), stack) + if !is_temp_master(column.last()) && has_settled(
            column.drop_last(),
        ) {
            seq![command(column.last().id, "move container to mark "@ + stack)]
        } else {
            Seq::empty()
        }
    }
}

/// The commands that keep a single window in the master column of a workspace.
pub open spec fn eviction_commands(ws: NodeView) -> Seq<Seq<char>> {
    let name = ws.name.unwrap();
    if ws.nodes.len() > 1 && ws.nodes[0].marks.contains(master_mark(name)) {
        evictions(ws.nodes[0].nodes, stack_mark(name))
    } else {
        Seq::empty()
    }
}

/// The commands that bring the top of the stack into the master column, and the
/// command that clears its temporary mark afterwards.
pub open spec fn promote_commands(ws: NodeView) -> (Seq<char>, Seq<char>) {
    let top = ws.nodes[1].nodes[0];
    (
        command(top.id, "mark --add "@ + SWAY_TEMP_MASTER_MARK@) + command(
            top.id,
            "move container to mark "@ + master_mark(ws.name.unwrap()),
        ),
        command(top.id, "unmark "@ + SWAY_TEMP_MASTER_MARK@),
    )
}

/// The commands of a rule for each workspace of `wss`, in order.
pub open spec fn splitting_all(wss: Seq<NodeView>) -> Seq<Seq<char>>
    decreases wss.len(),
{
    if wss.len() == 0 {
        Seq::empty()
    } else {
        splitting_all(wss.drop_last()) + splitting_commands(wss.last())
    }
}

pub open spec fn marking_all(wss: Seq<NodeView>) -> Seq<Seq<char>>
    decreases wss.len(),
{
    if wss.len() == 0 {
        Seq::empty()
    } else {
        marking_all(wss.drop_last()) + marking_commands(wss.last())
    }
}

pub open spec fn eviction_all(wss: Seq<NodeView>) -> Seq<Seq<char>>
    decreases wss.len(),
{
    if wss.len() == 0 {
        Seq::empty()
    } else {
        eviction_all(wss.drop_last()) + eviction_commands(wss.last())
    }
}

/// Whether every workspace of `wss` has a name.
pub open spec fn all_named(wss: Seq<NodeView>) -> bool {
    forall|k: int| 0 <= k < wss.len() ==> (#[trigger] wss[k]).name is Some
}

/// The sway command that applies `action` to the container with id `id`.
pub fn command_string(id: i64, action: &str) -> (s: String)
    ensures
        s@ == command(id, action@),
{
    let mut s = String::from_str("[con_id=");
    let digits = decimal_string(id);
    s.append(digits.as_str());
    s.append("] ");
    s.append(action);
    s.append("; ");
    proof {
        assert(s@ =~= command(id, action@));
    }
    s
}

fn prefixed(prefix: &str, rest: &String) -> (s: String)
    ensures
        s@ == prefix@ + rest@,
{
    let s = String::from_str(prefix);
    s.concat(rest.as_str())
}

fn workspace_name(ws: &Node) -> (name: &String)
    requires
        ws@.name is Some,
    ensures
        name@ == ws@.name.unwrap(),
{
    match &ws.name {
        Some(n) => n,
        None => {
            proof {
                assert(ws@.name is None);
            }
            unreached()
        },
    }
}

/// The splitting commands for one workspace.
pub fn enforce_splitting_workspace(workspace: &Node) -> (out: Vec<String>)
    ensures
        strings(out@) == splitting_commands(workspace@),
{
    let mut out: Vec<String> = Vec::new();
    let leaves = get_leaf_containers(workspace);
    proof {
        assert(views(leaves@).len() == leaves@.len());
    }
    if leaves.len() == 1 {
        let window: &Node = leaves[0];
        proof {
            assert(views(leaves@)[0] == window@);
        }
        if !has_child(workspace, window) {
            out.push(command_string(window.id, "move up"));
        }
        out.push(command_string(window.id, "splith"));
    } else if leaves.len() == 2 {
        let left: &Node = leaves[0];
        let right: &Node = leaves[1];
        proof {
            assert(views(leaves@)[0] == left@);
            assert(views(leaves@)[1] == right@);
        }
        out.push(command_string(left.id, "splitv"));
        out.push(command_string(right.id, "splitv"));
    }
    proof {
        assert(strings(out@) =~= splitting_commands(workspace@));
    }
    out
}

/// The marking commands for one named workspace.
pub fn enforce_marking_workspace(workspace: &Node) -> (out: Vec<String>)
    requires
        workspace@.name is Some,
    ensures
        strings(out@) == marking_commands(workspace@),
{
    proof {
        lemma_view_children(*workspace);
    }
    let mut out: Vec<String> = Vec::new();
    let name = workspace_name(workspace);
    let master = prefixed("master-", name);
    let stack = prefixed("stack-", name);
    if workspace.nodes.len() == 2 {
        let left: &Node = &workspace.nodes[0];
        let right: &Node = &workspace.nodes[1];
        proof {
            assert(left@.marks == strings(left.marks@));
            assert(right@.marks == strings(right.marks@));
        }
        if !has_mark(&left.marks, &master) {
            let action = prefixed("mark --add ", &master);
            out.push(command_string(left.id, action.as_str()));
        }
        if !has_mark(&right.marks, &stack) {
            let action = prefixed("mark --add ", &stack);
            out.push(command_string(right.id, action.as_str()));
        }
    }
    proof {
        assert(strings(out@) =~= marking_commands(workspace@));
    }
    out
}

/// The eviction commands for one named workspace.
pub fn enforce_eviction_workspace(workspace: &Node) -> (out: Vec<String>)
    requires
        workspace@.name is Some,
    ensures
        strings(out@) == eviction_commands(workspace@),
{
    proof {
        lemma_view_children(*workspace);
    }
    let mut out: Vec<String> = Vec::new();
    let name = workspace_name(workspace);
    let master = prefixed("master-", name);
    let stack = prefixed("stack-", name);
    if workspace.nodes.len() > 1 {
        let parent: &Node = &workspace.nodes[0];
        proof {
            lemma_view_children(*parent);
            assert(parent@.marks == strings(parent.marks@));
        }
        if has_mark(&parent.marks, &master) {
            let temp = String::from_str(SWAY_TEMP_MASTER_MARK);
            let ghost column = parent@.nodes;
            let mut master_found = false;
            let mut i: usize = 0;
            proof {
                assert(column.take(0) =~= Seq::<NodeView>::empty());
                assert(strings(out@) =~= Seq::<Seq<char>>::empty());
            }
            while i < parent.nodes.len()
                invariant
                    0 <= i <= parent.nodes@.len(),
                    column == parent@.nodes,
                    column.len() == parent.nodes@.len(),
                    forall|k: int|
                        0 <= k < parent.nodes@.len() ==> #[trigger] column[k]
                            == parent.nodes@[k]@,
                    temp@ == SWAY_TEMP_MASTER_MARK@,
                    stack@ == stack_mark(workspace@.name.unwrap()),
                    master_found == has_settled(column.take(i as int)),
                    strings(out@) == evictions(column.take(i as int), stack@),
                decreases parent.nodes@.len() - i,
            {
                let child: &Node = &parent.nodes[i];
                proof {
                    assert(child@.marks == strings(child.marks@));
                    assert(column[i as int] == child@);
                }
                let temp_marked = has_mark(&child.marks, &temp);
                let ghost before = column.take(i as int);
                let ghost after = column.take(i + 1);
                proof {
                    assert(after.drop_last() =~= before);
                    assert(after.last() == child@);
                }
                if master_found {
                    if !temp_marked {
                        let action = prefixed("move container to mark ", &stack);
                        out.push(command_string(child.id, action.as_str()));
                    }
                } else if !temp_marked {
                    master_found = true;
                }
                proof {
                    assert(strings(out@) =~= evictions(after, stack@));
                    if !temp_marked {
                        assert(after[i as int] == child@);
                        assert(has_settled(after));
                    } else if has_settled(after) {
                        let k = choose|k: int| 0 <= k < after.len() && !is_temp_master(after[k]);
                        assert(k != i);
                        assert(before[k] == after[k]);
                        assert(has_settled(before));
                    }
                    if has_settled(before) {
                        let k = choose|k: int| 0 <= k < before.len() && !is_temp_master(before[k]);
                        assert(after[k] == before[k]);
                    }
                }
                i = i + 1;
            }
            proof {
                assert(column.take(i as int) =~= column);
            }
        }
    }
    proof {
        assert(strings(out@) =~= eviction_commands(workspace@));
    }
    out
}

/// The commands that promote the top of the stack of a workspace: the first runs
/// before the master window closes, the second after.
pub fn promote(workspace: &Node) -> (cmds: (String, String))
    requires
        workspace@.name is Some,
        workspace@.nodes.len() > 1,
        workspace@.nodes[1].nodes.len() > 0,
    ensures
        cmds.0@ == promote_commands(workspace@).0,
        cmds.1@ == promote_commands(workspace@).1,
{
    proof {
        lemma_view_children(*workspace);
        lemma_view_children(workspace.nodes@[1]);
    }
    let name = workspace_name(workspace);
    let master = prefixed("master-", name);
    let stack_top: &Node = &workspace.nodes[1].nodes[0];
    let mark = String::from_str("mark --add ").concat(SWAY_TEMP_MASTER_MARK);
    let move_to = prefixed("move container to mark ", &master);
    let pre = command_string(stack_top.id, mark.as_str()).concat(
        command_string(stack_top.id, move_to.as_str()).as_str(),
    );
    let unmark = String::from_str("unmark ").concat(SWAY_TEMP_MASTER_MARK);
    let post = command_string(stack_top.id, unmark.as_str());
    (pre, post)
}

/// Runs a rule over every workspace and joins what it produces.
pub fn enforce_splitting(workspaces: Vec<&Node>) -> (script: String)
    ensures
        script@ == join(splitting_all(views(workspaces@))),
{
    let ghost wss = views(workspaces@);
    let mut out: Vec<String> = Vec::new();
    let mut i: usize = 0;
    proof {
        assert(wss.take(0) =~= Seq::<NodeView>::empty());
        assert(strings(out@) =~= Seq::<Seq<char>>::empty());
    }
    while i < workspaces.len()
        invariant
            0 <= i <= workspaces@.len(),
            wss == views(workspaces@),
            strings(out@) == splitting_all(wss.take(i as int)),
        decreases workspaces@.len() - i,
    {
        let mut cmds = enforce_splitting_workspace(workspaces[i]);
        proof {
            assert(wss.take(i + 1).drop_last() =~= wss.take(i as int));
            assert(wss.take(i + 1).last() == workspaces@[i as int]@);
            assert(strings(out@ + cmds@) =~= strings(out@) + strings(cmds@));
        }
        out.append(&mut cmds);
        i = i + 1;
    }
    proof {
        assert(wss.take(i as int) =~= wss);
    }
    concat_all(&out)
}

/// The marking commands of every workspace, joined.
pub fn enforce_marking(workspaces: Vec<&Node>) -> (script: String)
    requires
        all_named(views(workspaces@)),
    ensures
        script@ == join(marking_all(views(workspaces@))),
{
    let ghost wss = views(workspaces@);
    let mut out: Vec<String> = Vec::new();
    let mut i: usize = 0;
    proof {
        assert(wss.take(0) =~= Seq::<NodeView>::empty());
        assert(strings(out@) =~= Seq::<Seq<char>>::empty());
    }
    while i < workspaces.len()
        invariant
            0 <= i <= workspaces@.len(),
            wss == views(workspaces@),
            all_named(wss),
            strings(out@) == marking_all(wss.take(i as int)),
        decreases workspaces@.len() - i,
    {
        proof {
            assert(wss[i as int] == workspaces@[i as int]@);
        }
        let mut cmds = enforce_marking_workspace(workspaces[i]);
        proof {
            assert(wss.take(i + 1).drop_last() =~= wss.take(i as int));
            assert(wss.take(i + 1).last() == workspaces@[i as int]@);
            assert(strings(out@ + cmds@) =~= strings(out@) + strings(cmds@));
        }
        out.append(&mut cmds);
        i = i + 1;
    }
    proof {
        assert(wss.take(i as int) =~= wss);
    }
    concat_all(&out)
}

/// The eviction commands of every workspace, joined.
pub fn enforce_eviction(workspaces: Vec<&Node>) -> (script: String)
    requires
        all_named(views(workspaces@)),
    ensures
        script@ == join(eviction_all(views(workspaces@))),
{
    let ghost wss = views(workspaces@);
    let mut out: Vec<String> = Vec::new();
    let mut i: usize = 0;
    proof {
        assert(wss.take(0) =~= Seq::<NodeView>::empty());
        assert(strings(out@) =~= Seq::<Seq<char>>::empty());
    }
    while i < workspaces.len()
        invariant
            0 <= i <= workspaces@.len(),
            wss == views(workspaces@),
            all_named(wss),
            strings(out@) == eviction_all(wss.take(i as int)),
        decreases workspaces@.len() - i,
    {
        proof {
            assert(wss[i as int] == workspaces@[i as int]@);
        }
        let mut cmds = enforce_eviction_workspace(workspaces[i]);
        proof {
            assert(wss.take(i + 1).drop_last() =~= wss.take(i as int));
            assert(wss.take(i + 1).last() == workspaces@[i as int]@);
            assert(strings(out@ + cmds@) =~= strings(out@) + strings(cmds@));
        }
        out.append(&mut cmds);
        i = i + 1;
    }
    proof {
        assert(wss.take(i as int) =~= wss);
    }
    concat_all(&out)
}

} // verus!
