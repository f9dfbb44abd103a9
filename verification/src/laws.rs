//! What holds of the library as a whole.
use vstd::prelude::*;
use crate::control::{
    LayoutActionView, LayoutEventView, LayoutPhase, LayoutStateView, eviction_script,
    layout_initial, layout_accepts, layout_next, marking_script,
    splitting_script,
};
use crate::parents::{ancestor, walk_ends, lemma_ancestor_shift,
    lemma_next_layer_members, lemma_parent_map_covers_tree, parent_map_of, record_children,
    record_parents, workspace_above};
use crate::constants::SWAY_TEMP_MASTER_MARK;
use crate::control::{can_kill, kill_context, kill_plan, kills_master};
use crate::rules::{
    command, eviction_all, eviction_commands, evictions, has_settled, is_temp_master,
    marking_all, marking_commands, master_mark, splitting_all, splitting_commands, stack_mark,
};
use crate::text::join;
use crate::text::{decimal, digit_char, digits, is_whitespace, lemma_word_len_bound, word_len, words};
use crate::tree::{NodeView, forest_size, level_order, lemma_next_layer_size, next_layer,
    traversal, tree_size};
use crate::walk::{
    forest_leaf_containers, leaf_containers, workspaces_in,
    workspaces_of,
};

verus! {

// ---------------------------------------------------------------- tree walks
/// Only workspaces are found among nodes by `workspaces_in`.
pub proof fn law_workspaces_in_are_workspaces(s: Seq<NodeView>)
    ensures
        forall|i: int|
            0 <= i < workspaces_in(s).len() ==> (#[trigger] workspaces_in(s)[i]).is_workspace(),
    decreases s.len(),
{
    if s.len() > 0 {
        law_workspaces_in_are_workspaces(s.drop_last());
        let a = workspaces_in(s.drop_last());
        let b = if s.last().is_workspace() {
            seq![s.last()]
        } else {
            Seq::<NodeView>::empty()
        };
        assert(workspaces_in(s) == a + b);
        assert forall|i: int| 0 <= i < (a + b).len() implies (#[trigger] (a + b)[i]).is_workspace() by {
            if i < a.len() {
                assert((a + b)[i] == a[i]);
            } else {
                assert((a + b)[i] == b[i - a.len()]);
            }
        }
    }
}

/// Every node that the workspace walk of a tree finds is a workspace.
pub proof fn law_workspaces_are_workspaces(root: NodeView)
    ensures
        forall|i: int|
            0 <= i < workspaces_of(root).len() ==> (#[trigger] workspaces_of(
                root,
            )[i]).is_workspace(),
{
    law_workspaces_in_are_workspaces(crate::tree::traversal(seq![root], true));
}

proof fn lemma_leaf_containers_are_leaves(n: NodeView)
    ensures
        forall|i: int|
            0 <= i < leaf_containers(n).len() ==> (#[trigger] leaf_containers(n)[i]).is_con()
                && leaf_containers(n)[i].nodes.len() == 0,
    decreases n, 1nat,
{
    if n.nodes.len() > 0 {
        lemma_forest_leaf_containers_are_leaves(n.nodes);
    }
}

proof fn lemma_forest_leaf_containers_are_leaves(s: Seq<NodeView>)
    ensures
        forall|i: int|
            0 <= i < forest_leaf_containers(s).len() ==> (#[trigger] forest_leaf_containers(
                s,
            )[i]).is_con() && forest_leaf_containers(s)[i].nodes.len() == 0,
    decreases s, 0nat,
{
    if s.len() > 0 {
        let rest = s.subrange(0, s.len() - 1);
        lemma_forest_leaf_containers_are_leaves(rest);
        lemma_leaf_containers_are_leaves(s[s.len() - 1]);
        let a = forest_leaf_containers(rest);
        let b = leaf_containers(s[s.len() - 1]);
        assert forall|i: int| 0 <= i < (a + b).len() implies (#[trigger] (a + b)[i]).is_con()
            && (a + b)[i].nodes.len() == 0 by {
            if i < a.len() {
                assert((a + b)[i] == a[i]);
            } else {
                assert((a + b)[i] == b[i - a.len()]);
            }
        }
    }
}

/// The leaf containers of a tree are containers of type `Con` without children.
pub proof fn law_leaf_containers_are_leaves(n: NodeView)
    ensures
        forall|i: int|
            0 <= i < leaf_containers(n).len() ==> (#[trigger] leaf_containers(n)[i]).is_con()
                && leaf_containers(n)[i].nodes.len() == 0,
{
    lemma_leaf_containers_are_leaves(n);
}

/// The walk up from a node answers a workspace only if it is one that the walk
/// meets: the node itself or one of its ancestors.
pub proof fn law_workspace_above_is_an_ancestor(
    parents: Map<i64, NodeView>,
    n: NodeView,
    k: nat,
)
    requires
        walk_ends(parents, n, k),
    ensures
        workspace_above(parents, n, k) matches Some(w) ==> w.is_workspace() && exists|j: nat|
            j <= k && #[trigger] ancestor(parents, n, j) == w,
    decreases k,
{
    assert(ancestor(parents, n, 0) == n);
    if parents[n.id] == n {
    } else if n.is_workspace() {
        assert(ancestor(parents, n, 0) == n);
    } else {
        law_workspace_above_is_an_ancestor(parents, parents[n.id], (k - 1) as nat);
        if workspace_above(parents, n, k) is Some {
            let w = workspace_above(parents, n, k).unwrap();
            let j = choose|j: nat|
                j <= (k - 1) as nat && #[trigger] ancestor(parents, parents[n.id], j) == w;
            lemma_ancestor_shift(parents, n, j);
            assert(ancestor(parents, n, j + 1) == w);
        }
    }
}

// ---------------------------------------------------------------- rules
/// The number of windows of a column that are not being promoted.
pub open spec fn settled_count(s: Seq<NodeView>) -> nat
    decreases s.len(),
{
    if s.len() == 0 {
        0
    } else {
        settled_count(s.drop_last()) + if !is_temp_master(s.last()) {
            1nat
        } else {
            0nat
        }
    }
}

proof fn lemma_settled_count(s: Seq<NodeView>)
    ensures
        has_settled(s) <==> settled_count(s) > 0,
    decreases s.len(),
{
    if s.len() > 0 {
        let rest = s.drop_last();
        lemma_settled_count(rest);
        if has_settled(rest) {
            let k = choose|k: int| 0 <= k < rest.len() && !is_temp_master(#[trigger] rest[k]);
            assert(s[k] == rest[k]);
        }
        if has_settled(s) && !has_settled(rest) {
            let k = choose|k: int| 0 <= k < s.len() && !is_temp_master(#[trigger] s[k]);
            if k < s.len() - 1 {
                assert(rest[k] == s[k]);
            }
        }
        if !is_temp_master(s.last()) {
            assert(s[s.len() - 1] == s.last());
        }
    }
}

/// The eviction rule moves every window of the master column that is not being
/// promoted except one: as many commands as such windows, less one.
pub proof fn law_eviction_keeps_one_master(column: Seq<NodeView>, stack: Seq<char>)
    ensures
        evictions(column, stack).len() == if settled_count(column) > 0 {
            settled_count(column) - 1
        } else {
            0
        },
    decreases column.len(),
{
    if column.len() > 0 {
        law_eviction_keeps_one_master(column.drop_last(), stack);
        lemma_settled_count(column.drop_last());
    }
}

/// A workspace whose leaf containers are exactly two gets a vertical split on
/// each of them, left one first, whatever the columns above them look like.
pub proof fn law_two_windows_split_vertically(ws: NodeView)
    requires
        leaf_containers(ws).len() == 2,
    ensures
        splitting_commands(ws) == seq![
            command(leaf_containers(ws)[0].id, "splitv"@),
            command(leaf_containers(ws)[1].id, "splitv"@),
        ],
{
}

/// A workspace with one leaf container gets a horizontal split on it, after
/// moving it up when it does not sit directly in the workspace; a workspace
/// with neither one nor two leaf containers gets no command.
pub proof fn law_one_window_split_horizontally(ws: NodeView)
    ensures
        leaf_containers(ws).len() == 1 && ws.nodes.contains(leaf_containers(ws)[0])
            ==> splitting_commands(ws) == seq![command(leaf_containers(ws)[0].id, "splith"@)],
        leaf_containers(ws).len() == 1 && !ws.nodes.contains(leaf_containers(ws)[0])
            ==> splitting_commands(ws) == seq![
            command(leaf_containers(ws)[0].id, "move up"@),
            command(leaf_containers(ws)[0].id, "splith"@),
        ],
        leaf_containers(ws).len() != 1 && leaf_containers(ws).len() != 2 ==> splitting_commands(
            ws,
        ).len() == 0,
{
    if leaf_containers(ws).len() == 1 {
        let w = leaf_containers(ws)[0];
        if ws.nodes.contains(w) {
            assert(Seq::<Seq<char>>::empty() + seq![command(w.id, "splith"@)] =~= seq![
                command(w.id, "splith"@),
            ]);
        } else {
            assert(seq![command(w.id, "move up"@)] + seq![command(w.id, "splith"@)] =~= seq![
                command(w.id, "move up"@),
                command(w.id, "splith"@),
            ]);
        }
    }
}

/// The two columns of a workspace are marked each on its own: the left one gets
/// the master mark exactly when it lacks it, the right one the stack mark
/// exactly when it lacks it, whatever the other column carries.
pub proof fn law_columns_marked_independently(ws: NodeView)
    requires
        ws.name is Some,
        ws.nodes.len() == 2,
    ensures
        ({
            let name = ws.name.unwrap();
            let left = ws.nodes[0];
            let right = ws.nodes[1];
            let mark_left = command(left.id, "mark --add "@ + master_mark(name));
            let mark_right = command(right.id, "mark --add "@ + stack_mark(name));
            &&& marking_commands(ws).len() == (if left.marks.contains(master_mark(name)) {
                0int
            } else {
                1int
            }) + (if right.marks.contains(stack_mark(name)) {
                0int
            } else {
                1int
            })
            &&& !left.marks.contains(master_mark(name)) ==> marking_commands(ws)[0] == mark_left
            &&& !right.marks.contains(stack_mark(name)) ==> marking_commands(ws).last()
                == mark_right
        }),
{
}

/// The workspaces of a sequence are marked one by one: marking the
/// workspaces of `a` and then those of `b` gives the commands of both, in order.
pub proof fn law_marking_all_concat(a: Seq<NodeView>, b: Seq<NodeView>)
    ensures
        marking_all(a + b) == marking_all(a) + marking_all(b),
    decreases b.len(),
{
    if b.len() == 0 {
        assert(a + b =~= a);
        assert(marking_all(a) + marking_all(b) =~= marking_all(a));
    } else {
        assert((a + b).drop_last() =~= a + b.drop_last());
        assert((a + b).last() == b.last());
        law_marking_all_concat(a, b.drop_last());
        assert(marking_all(a + b) =~= marking_all(a) + marking_all(b));
    }
}

/// The workspaces are split one by one: splitting those of `a` and then those
/// of `b` gives the commands of both, in order.
pub proof fn law_splitting_all_concat(a: Seq<NodeView>, b: Seq<NodeView>)
    ensures
        splitting_all(a + b) == splitting_all(a) + splitting_all(b),
    decreases b.len(),
{
    if b.len() == 0 {
        assert(a + b =~= a);
        assert(splitting_all(a) + splitting_all(b) =~= splitting_all(a));
    } else {
        assert((a + b).drop_last() =~= a + b.drop_last());
        assert((a + b).last() == b.last());
        law_splitting_all_concat(a, b.drop_last());
        assert(splitting_all(a + b) =~= splitting_all(a) + splitting_all(b));
    }
}

/// Every workspace's master column is evicted, each one on its own: evicting
/// the workspaces of `a` and then those of `b` gives the commands of both, in
/// order, and one workspace alone gives its own eviction commands.
pub proof fn law_eviction_all_concat(a: Seq<NodeView>, b: Seq<NodeView>)
    ensures
        eviction_all(a + b) == eviction_all(a) + eviction_all(b),
    decreases b.len(),
{
    if b.len() == 0 {
        assert(a + b =~= a);
        assert(eviction_all(a) + eviction_all(b) =~= eviction_all(a));
    } else {
        assert((a + b).drop_last() =~= a + b.drop_last());
        assert((a + b).last() == b.last());
        law_eviction_all_concat(a, b.drop_last());
        assert(eviction_all(a + b) =~= eviction_all(a) + eviction_all(b));
    }
}

/// One workspace alone gets exactly its own commands from each rule.
pub proof fn law_rules_on_one_workspace(w: NodeView)
    ensures
        splitting_all(seq![w]) == splitting_commands(w),
        marking_all(seq![w]) == marking_commands(w),
        eviction_all(seq![w]) == eviction_commands(w),
{
    let s = seq![w];
    assert(s.drop_last() =~= Seq::<NodeView>::empty());
    assert(s.last() == w);
    let e = Seq::<NodeView>::empty();
    assert(splitting_all(e) == Seq::<Seq<char>>::empty());
    assert(marking_all(e) == Seq::<Seq<char>>::empty());
    assert(eviction_all(e) == Seq::<Seq<char>>::empty());
    assert(splitting_all(s) == splitting_all(e) + splitting_commands(w));
    assert(marking_all(s) == marking_all(e) + marking_commands(w));
    assert(splitting_all(s) =~= splitting_commands(w));
    assert(marking_all(s) =~= marking_commands(w));
    assert(eviction_all(s) =~= eviction_commands(w));
}

/// Joining two lists of commands one after the other gives the two joined
/// scripts one after the other.
pub proof fn law_join_concat(a: Seq<Seq<char>>, b: Seq<Seq<char>>)
    ensures
        join(a + b) == join(a) + join(b),
    decreases b.len(),
{
    if b.len() == 0 {
        assert(a + b =~= a);
        assert(join(a) + join(b) =~= join(a));
    } else {
        assert((a + b).drop_last() =~= a + b.drop_last());
        assert((a + b).last() == b.last());
        law_join_concat(a, b.drop_last());
        assert(join(a + b) =~= join(a) + join(b));
    }
}

/// Closing the master window of a workspace promotes the top of the stack
/// around the kill: mark it, move it to the master mark, kill the focused
/// window, unmark it. Closing any other window is a plain `kill`.
pub proof fn law_kill_promotes_stack_top(tree: NodeView)
    requires
        can_kill(tree),
    ensures
        ({
            let (focused, parent, grandparent) = kill_context(tree);
            let top = grandparent.nodes[1].nodes[0];
            kills_master(tree) ==> kill_plan(tree) == command(
                top.id,
                "mark --add "@ + SWAY_TEMP_MASTER_MARK@,
            ) + command(top.id, "move container to mark "@ + master_mark(grandparent.name.unwrap()))
                + command(focused.id, "kill"@) + command(top.id, "unmark "@ + SWAY_TEMP_MASTER_MARK@)
        }),
        !kills_master(tree) ==> kill_plan(tree) == "kill"@,
{
}

// ---------------------------------------------------------------- text
/// Every word is a nonempty run of characters that are not white space.
pub proof fn law_words_are_nonempty_and_unbroken(s: Seq<char>)
    ensures
        forall|i: int| 0 <= i < words(s).len() ==> (#[trigger] words(s)[i]).len() > 0,
        forall|i: int, k: int|
            0 <= i < words(s).len() && 0 <= k < words(s)[i].len() ==> !is_whitespace(
                #[trigger] words(s)[i][k],
            ),
    decreases s.len(),
{
    if s.len() > 0 {
        if is_whitespace(s[0]) {
            law_words_are_nonempty_and_unbroken(s.drop_first());
            assert(words(s) == words(s.drop_first()));
        } else {
            lemma_word_len_bound(s);
            let w = s.take(word_len(s) as int);
            let rest = s.skip(word_len(s) as int);
            law_words_are_nonempty_and_unbroken(rest);
            let all = seq![w] + words(rest);
            assert(words(s) == all);
            assert forall|i: int| 0 <= i < all.len() implies (#[trigger] all[i]).len() > 0 by {
                if i > 0 {
                    assert(all[i] == words(rest)[i - 1]);
                } else {
                    assert(all[0] == w);
                }
            }
            assert forall|i: int, k: int|
                0 <= i < all.len() && 0 <= k < all[i].len() implies !is_whitespace(
                #[trigger] all[i][k],
            ) by {
                if i > 0 {
                    assert(all[i] == words(rest)[i - 1]);
                } else {
                    assert(all[0] == w);
                    assert(w[k] == s[k]);
                }
            }
        }
    }
}

proof fn lemma_digit_char_distinct(a: int, b: int)
    requires
        0 <= a < 10,
        0 <= b < 10,
        digit_char(a) == digit_char(b),
    ensures
        a == b,
{
}

proof fn lemma_digits_shape(n: nat)
    ensures
        digits(n).len() >= 1,
        n >= 10 ==> digits(n).len() >= 2,
        digits(n)[0] != '-',
    decreases n,
{
    if n >= 10 {
        lemma_digits_shape(n / 10);
        assert(digits(n)[0] == digits(n / 10)[0]);
    }
}

proof fn lemma_digits_injective(a: nat, b: nat)
    requires
        digits(a) == digits(b),
    ensures
        a == b,
    decreases a,
{
    lemma_digits_shape(a);
    lemma_digits_shape(b);
    if a < 10 && b < 10 {
        assert(digits(a)[0] == digit_char(a as int));
        assert(digits(b)[0] == digit_char(b as int));
        lemma_digit_char_distinct(a as int, b as int);
    } else if a >= 10 && b >= 10 {
        let da = digits(a);
        let db = digits(b);
        assert(da.last() == digit_char((a % 10) as int));
        assert(db.last() == digit_char((b % 10) as int));
        lemma_digit_char_distinct((a % 10) as int, (b % 10) as int);
        assert(da.drop_last() =~= digits(a / 10));
        assert(db.drop_last() =~= digits(b / 10));
        lemma_digits_injective(a / 10, b / 10);
    } else {
        assert(digits(a).len() != digits(b).len());
    }
}

/// Different integers have different decimal representations, so commands for
/// different container ids never coincide in their id.
pub proof fn law_decimal_injective(a: int, b: int)
    requires
        decimal(a) == decimal(b),
    ensures
        a == b,
{
    if a < 0 && b < 0 {
        assert(decimal(a).drop_first() =~= digits((-a) as nat));
        assert(decimal(b).drop_first() =~= digits((-b) as nat));
        lemma_digits_injective((-a) as nat, (-b) as nat);
    } else if a >= 0 && b >= 0 {
        lemma_digits_injective(a as nat, b as nat);
    } else if a < 0 {
        lemma_digits_shape(b as nat);
        assert(decimal(a)[0] == '-');
    } else {
        lemma_digits_shape(a as nat);
        assert(decimal(b)[0] == '-');
    }
}

// ---------------------------------------------------------------- layout pass
/// Whether a pass that waits on a command has run one of its rules' commands.
pub open spec fn layout_invariant(s: LayoutStateView) -> bool {
    (s.phase == LayoutPhase::AfterSplit || s.phase == LayoutPhase::AfterMark || s.phase
        == LayoutPhase::AfterEvict || s.phase == LayoutPhase::AfterRefocus) ==> s.ran_command
}

/// The position of a phase in a layout pass.
pub open spec fn phase_rank(p: LayoutPhase) -> nat {
    match p {
        LayoutPhase::AwaitSplitTree => 0,
        LayoutPhase::AfterSplit => 1,
        LayoutPhase::AwaitMarkTree => 2,
        LayoutPhase::AfterMark => 3,
        LayoutPhase::AwaitEvictTree => 4,
        LayoutPhase::AfterEvict => 5,
        LayoutPhase::AfterRefocus => 6,
        LayoutPhase::Finished => 7,
    }
}

/// Every step of a layout pass moves it to a later phase, and it reports `Done`
/// exactly when it is finished; so a pass ends after at most seven steps.
pub proof fn law_layout_progresses(s: LayoutStateView, e: LayoutEventView)
    requires
        layout_accepts(s, e),
    ensures
        phase_rank(layout_next(s, e).0.phase) > phase_rank(s.phase),
        (layout_next(s, e).1 is Done) <==> layout_next(s, e).0.phase == LayoutPhase::Finished,
{
}

/// The command that gives the focus back keeps the value computed from the first
/// tree, and a pass flags that a rule ran a command only in the step that runs
/// one of the rules' scripts.
pub proof fn law_layout_ran_flag(s: LayoutStateView, e: LayoutEventView)
    requires
        layout_accepts(s, e),
        s.phase != LayoutPhase::AwaitSplitTree,
    ensures
        layout_next(s, e).0.refocus == s.refocus,
        layout_next(s, e).0.ran_command != s.ran_command ==> !s.ran_command && (e matches LayoutEventView::Tree(t) && (
        layout_next(s, e).1 == LayoutActionView::RunCommand(marking_script(t))
            || layout_next(s, e).1 == LayoutActionView::RunCommand(eviction_script(t)))),
{
}

/// A pass that waits for sway to run a command, or to give the focus back, has
/// run a command of its rules: this holds at the start and every step keeps it.
pub proof fn law_layout_invariant(s: LayoutStateView, e: LayoutEventView)
    requires
        layout_accepts(s, e),
        layout_invariant(s),
    ensures
        layout_invariant(layout_initial()),
        layout_invariant(layout_next(s, e).0),
{
}

/// A layout pass gives the focus back, as its last command, exactly when one of
/// its rules ran a command.
pub proof fn law_layout_refocuses_after_commands(s: LayoutStateView, e: LayoutEventView)
    requires
        layout_accepts(s, e),
        layout_invariant(s),
    ensures
        layout_next(s, e).0.phase == LayoutPhase::AfterRefocus ==> layout_next(s, e).0.ran_command
            && layout_next(s, e).1 == LayoutActionView::RunCommand(s.refocus),
        s.phase == LayoutPhase::AwaitEvictTree && (e matches LayoutEventView::Tree(t)
            && eviction_script(t).len() == 0) ==> (layout_next(s, e).1 == LayoutActionView::RunCommand(
            s.refocus,
        ) <==> s.ran_command),
        s.phase == LayoutPhase::AfterEvict ==> layout_next(s, e).1 == LayoutActionView::RunCommand(
            s.refocus,
        ),
{
}

/// Each rule's script runs whenever it is not empty, whatever ran before it: on
/// its tree, a pass runs exactly that rule's script, flags that a command ran,
/// and waits for sway to run it.
pub proof fn law_layout_runs_every_nonempty_script(s: LayoutStateView, t: NodeView)
    requires
        layout_accepts(s, LayoutEventView::Tree(t)),
    ensures
        s.phase == LayoutPhase::AwaitSplitTree && splitting_script(t).len() > 0 ==> layout_next(
            s,
            LayoutEventView::Tree(t),
        ).1 == LayoutActionView::RunCommand(splitting_script(t)) && layout_next(
            s,
            LayoutEventView::Tree(t),
        ).0.phase == LayoutPhase::AfterSplit && layout_next(s, LayoutEventView::Tree(t)).0.ran_command,
        s.phase == LayoutPhase::AwaitMarkTree && marking_script(t).len() > 0 ==> layout_next(
            s,
            LayoutEventView::Tree(t),
        ).1 == LayoutActionView::RunCommand(marking_script(t)) && layout_next(
            s,
            LayoutEventView::Tree(t),
        ).0.phase == LayoutPhase::AfterMark && layout_next(s, LayoutEventView::Tree(t)).0.ran_command,
        s.phase == LayoutPhase::AwaitEvictTree && eviction_script(t).len() > 0 ==> layout_next(
            s,
            LayoutEventView::Tree(t),
        ).1 == LayoutActionView::RunCommand(eviction_script(t)) && layout_next(
            s,
            LayoutEventView::Tree(t),
        ).0.phase == LayoutPhase::AfterEvict && layout_next(s, LayoutEventView::Tree(t)).0.ran_command,
        s.phase == LayoutPhase::AwaitMarkTree && marking_script(t).len() == 0 ==> layout_next(s, LayoutEventView::Tree(t)).1
            == LayoutActionView::GetTree,
{
}

/// The first step of a pass records the command that focuses the window focused
/// at the start, and runs the splitting script exactly when it is not empty.
pub proof fn law_layout_first_step(s: LayoutStateView, t: NodeView)
    requires
        layout_accepts(s, LayoutEventView::Tree(t)),
        s.phase == LayoutPhase::AwaitSplitTree,
    ensures
        layout_next(s, LayoutEventView::Tree(t)).0.refocus == crate::rules::command(
            crate::walk::focused_of(t).unwrap().id,
            "focus"@,
        ),
        (layout_next(s, LayoutEventView::Tree(t)).1 == LayoutActionView::RunCommand(
            splitting_script(t),
        )) <==> splitting_script(t).len() > 0,
{
}

// ---------------------------------------------------------------- parent map
/// Whether the nodes of a tree carry pairwise different ids, as sway's do.
pub open spec fn ids_unique(root: NodeView) -> bool {
    let t = level_order(root);
    forall|i: int, j: int| 0 <= i < t.len() && 0 <= j < t.len() && i != j ==> #[trigger] t[i].id
        != #[trigger] t[j].id
}

/// Whether the ids of the nodes of `s` are pairwise different.
pub open spec fn distinct_ids(s: Seq<NodeView>) -> bool {
    forall|i: int, j: int| 0 <= i < s.len() && 0 <= j < s.len() && i != j ==> #[trigger] s[i].id
        != #[trigger] s[j].id
}

proof fn lemma_next_layer_concat(a: Seq<NodeView>, b: Seq<NodeView>)
    ensures
        next_layer(a + b, false) == next_layer(a, false) + next_layer(b, false),
    decreases b.len(),
{
    if b.len() == 0 {
        assert(a + b =~= a);
        assert(next_layer(a, false) + next_layer(b, false) =~= next_layer(a, false));
    } else {
        assert((a + b).drop_last() =~= a + b.drop_last());
        assert((a + b).last() == b.last());
        lemma_next_layer_concat(a, b.drop_last());
        assert(next_layer(a + b, false) =~= next_layer(a, false) + next_layer(b, false));
    }
}

proof fn lemma_children_of_traversal(layer: Seq<NodeView>)
    ensures
        next_layer(traversal(layer, false), false) == traversal(next_layer(layer, false), false),
    decreases forest_size(layer),
{
    if layer.len() > 0 {
        let n = next_layer(layer, false);
        lemma_next_layer_size(layer, false);
        assert(traversal(layer, false) == layer + traversal(n, false));
        lemma_next_layer_concat(layer, traversal(n, false));
        lemma_children_of_traversal(n);
        if n.len() > 0 {
            lemma_next_layer_size(n, false);
            assert(traversal(n, false) == n + traversal(next_layer(n, false), false));
        } else {
            assert(traversal(n, false) == Seq::<NodeView>::empty());
            assert(next_layer(Seq::<NodeView>::empty(), false) == Seq::<NodeView>::empty());
            assert(n + traversal(next_layer(n, false), false) =~= Seq::<NodeView>::empty());
        }
    } else {
        assert(next_layer(Seq::<NodeView>::empty(), false) == Seq::<NodeView>::empty());
    }
}

/// The children of the nodes of a tree, taken level by level, are the nodes of
/// the tree after its root.
proof fn lemma_children_are_the_rest(root: NodeView)
    ensures
        next_layer(level_order(root), false) == level_order(root).drop_first(),
        level_order(root)[0] == root,
        level_order(root).len() >= 1,
{
    let l = seq![root];
    lemma_next_layer_size(l, false);
    lemma_children_of_traversal(l);
    assert(l.drop_last() =~= Seq::<NodeView>::empty());
    assert(next_layer(l.drop_last(), false) == Seq::<NodeView>::empty());
    assert(l.last() == root);
    assert(next_layer(l, false) =~= root.nodes);
    assert(level_order(root) == l + traversal(next_layer(l, false), false));
    assert(level_order(root).drop_first() =~= traversal(next_layer(l, false), false));
}

proof fn lemma_member_of_next_layer(vis: Seq<NodeView>, i: int, j: int)
    requires
        0 <= i < vis.len(),
        0 <= j < vis[i].nodes.len(),
    ensures
        exists|k: int|
            0 <= k < next_layer(vis, false).len() && #[trigger] next_layer(vis, false)[k]
                == vis[i].nodes[j],
{
    let front = vis.take(i + 1);
    let back = vis.skip(i + 1);
    assert(vis =~= front + back);
    lemma_next_layer_concat(front, back);
    assert(front.drop_last() =~= vis.take(i));
    assert(front.last() == vis[i]);
    let before = next_layer(vis.take(i), false);
    let k = before.len() + j;
    assert(next_layer(front, false) == before + vis[i].nodes);
    assert(next_layer(vis, false)[k] == next_layer(front, false)[k]);
    assert(next_layer(vis, false)[k] == vis[i].nodes[j]);
}

proof fn lemma_record_children_child(m: Map<i64, NodeView>, p: NodeView, cs: Seq<NodeView>, j: int)
    requires
        0 <= j < cs.len(),
    ensures
        record_children(m, p, cs).contains_key(cs[j].id),
        record_children(m, p, cs)[cs[j].id] == p,
    decreases cs.len(),
{
    let rest = cs.drop_last();
    if j < cs.len() - 1 && cs[j].id != cs.last().id {
        assert(rest[j] == cs[j]);
        lemma_record_children_child(m, p, rest, j);
    }
}

proof fn lemma_record_children_other(m: Map<i64, NodeView>, p: NodeView, cs: Seq<NodeView>, k: i64)
    requires
        forall|j: int| 0 <= j < cs.len() ==> #[trigger] cs[j].id != k,
    ensures
        record_children(m, p, cs).contains_key(k) == m.contains_key(k),
        record_children(m, p, cs)[k] == m[k],
    decreases cs.len(),
{
    if cs.len() > 0 {
        let rest = cs.drop_last();
        assert(cs[cs.len() - 1].id != k);
        assert forall|j: int| 0 <= j < rest.len() implies #[trigger] rest[j].id != k by {
            assert(rest[j] == cs[j]);
        }
        lemma_record_children_other(m, p, rest, k);
    }
}

proof fn lemma_distinct_prefix(a: Seq<NodeView>, b: Seq<NodeView>)
    requires
        distinct_ids(a + b),
    ensures
        distinct_ids(a),
        forall|x: int, y: int| 0 <= x < a.len() && 0 <= y < b.len() ==> #[trigger] a[x].id
            != #[trigger] b[y].id,
{
    let n = a + b;
    assert forall|x: int, y: int| 0 <= x < a.len() && 0 <= y < a.len() && x != y implies #[trigger] a[x].id
        != #[trigger] a[y].id by {
        assert(n[x] == a[x]);
        assert(n[y] == a[y]);
    }
    assert forall|x: int, y: int| 0 <= x < a.len() && 0 <= y < b.len() implies #[trigger] a[x].id
        != #[trigger] b[y].id by {
        assert(n[x] == a[x]);
        assert(n[a.len() + y] == b[y]);
    }
}

/// Where the children of the visited nodes carry pairwise different ids, the
/// record of parents maps each child's id to its parent.
proof fn lemma_record_parents_child(m: Map<i64, NodeView>, vis: Seq<NodeView>, i: int, j: int)
    requires
        distinct_ids(next_layer(vis, false)),
        0 <= i < vis.len(),
        0 <= j < vis[i].nodes.len(),
    ensures
        record_parents(m, vis).contains_key(vis[i].nodes[j].id),
        record_parents(m, vis)[vis[i].nodes[j].id] == vis[i],
    decreases vis.len(),
{
    let rest = vis.drop_last();
    let last = vis.last();
    let a = next_layer(rest, false);
    let b = last.nodes;
    assert(next_layer(vis, false) == a + b);
    lemma_distinct_prefix(a, b);
    let m1 = record_parents(m, rest);
    if i < vis.len() - 1 {
        assert(rest[i] == vis[i]);
        lemma_record_parents_child(m, rest, i, j);
        lemma_member_of_next_layer(rest, i, j);
        let k = choose|k: int| 0 <= k < a.len() && #[trigger] a[k] == rest[i].nodes[j];
        assert forall|y: int| 0 <= y < b.len() implies #[trigger] b[y].id != vis[i].nodes[j].id by {
            assert(a[k].id != b[y].id);
        }
        lemma_record_children_other(m1, last, b, vis[i].nodes[j].id);
    } else {
        lemma_record_children_child(m1, last, b, j);
    }
}

/// The record of parents leaves alone an id that no child of the visited nodes
/// carries.
proof fn lemma_record_parents_other(m: Map<i64, NodeView>, vis: Seq<NodeView>, k: i64)
    requires
        forall|c: int|
            0 <= c < next_layer(vis, false).len() ==> #[trigger] next_layer(vis, false)[c].id != k,
    ensures
        record_parents(m, vis).contains_key(k) == m.contains_key(k),
        record_parents(m, vis)[k] == m[k],
    decreases vis.len(),
{
    if vis.len() > 0 {
        let rest = vis.drop_last();
        let a = next_layer(rest, false);
        let b = vis.last().nodes;
        let n = next_layer(vis, false);
        assert(n == a + b);
        assert forall|y: int| 0 <= y < b.len() implies #[trigger] b[y].id != k by {
            assert(n[a.len() + y] == b[y]);
        }
        assert forall|c: int| 0 <= c < a.len() implies #[trigger] a[c].id != k by {
            assert(n[c] == a[c]);
        }
        lemma_record_parents_other(m, rest, k);
        lemma_record_children_other(record_parents(m, rest), vis.last(), b, k);
    }
}

/// In a tree whose ids are unique, the parent map gives the root as its own
/// parent and every other node's parent as its parent.
pub proof fn law_parent_map_gives_parents(root: NodeView)
    requires
        ids_unique(root),
    ensures
        parent_map_of(root).contains_key(root.id),
        parent_map_of(root)[root.id] == root,
        forall|i: int, j: int|
            0 <= i < level_order(root).len() && 0 <= j < level_order(root)[i].nodes.len()
                ==> #[trigger] parent_map_of(root)[#[trigger] level_order(
                root,
            )[i].nodes[j].id] == level_order(root)[i],
{
    let t = level_order(root);
    lemma_children_are_the_rest(root);
    let n = next_layer(t, false);
    assert(distinct_ids(n)) by {
        assert forall|x: int, y: int| 0 <= x < n.len() && 0 <= y < n.len() && x != y implies #[trigger] n[x].id
            != #[trigger] n[y].id by {
            assert(n[x] == t[x + 1]);
            assert(n[y] == t[y + 1]);
        }
    }
    let m0 = map![root.id => root];
    assert forall|c: int| 0 <= c < n.len() implies #[trigger] n[c].id != root.id by {
        assert(n[c] == t[c + 1]);
        assert(t[0] == root);
    }
    lemma_record_parents_other(m0, t, root.id);
    assert forall|i: int, j: int|
        0 <= i < t.len() && 0 <= j < t[i].nodes.len() implies #[trigger] parent_map_of(
        root,
    )[#[trigger] t[i].nodes[j].id] == t[i] by {
        lemma_record_parents_child(m0, t, i, j);
    }
}

proof fn lemma_forest_size_ge(s: Seq<NodeView>, i: int)
    requires
        0 <= i < s.len(),
    ensures
        forest_size(s) >= tree_size(s[i]),
    decreases s.len(),
{
    let rest = s.subrange(0, s.len() - 1);
    if i < s.len() - 1 {
        lemma_forest_size_ge(rest, i);
        assert(rest[i] == s[i]);
    }
}

proof fn lemma_traversal_sizes(layer: Seq<NodeView>)
    ensures
        forall|k: int|
            0 <= k < traversal(layer, false).len() ==> tree_size(
                #[trigger] traversal(layer, false)[k],
            ) <= forest_size(layer),
    decreases forest_size(layer),
{
    if layer.len() > 0 {
        let n = next_layer(layer, false);
        let t = traversal(layer, false);
        lemma_next_layer_size(layer, false);
        lemma_traversal_sizes(n);
        assert(t == layer + traversal(n, false));
        assert forall|k: int| 0 <= k < t.len() implies tree_size(#[trigger] t[k]) <= forest_size(
            layer,
        ) by {
            if k < layer.len() {
                lemma_forest_size_ge(layer, k);
            } else {
                assert(t[k] == traversal(n, false)[k - layer.len()]);
            }
        }
    }
}

proof fn lemma_climb(root: NodeView, x: NodeView, k: nat)
    requires
        ids_unique(root),
        level_order(root).contains(x),
        tree_size(root) - tree_size(x) <= k,
    ensures
        walk_ends(parent_map_of(root), x, k),
    decreases k,
{
    let t = level_order(root);
    let m = parent_map_of(root);
    law_parent_map_gives_parents(root);
    lemma_children_are_the_rest(root);
    lemma_parent_map_covers_tree(root);
    let ix = choose|ix: int| 0 <= ix < t.len() && t[ix] == x;
    assert(m.contains_key(t[ix].id));
    if ix == 0 {
        assert(m[x.id] == x);
    } else {
        let n = next_layer(t, false);
        assert(n[ix - 1] == x);
        lemma_next_layer_members(t);
        assert(crate::parents::child_of_layer(t, n[ix - 1]));
        let (i, j) = choose|i: int, j: int|
            0 <= i < t.len() && 0 <= j < t[i].nodes.len() && n[ix - 1] == t[i].nodes[j];
        let p = t[i];
        assert(m[x.id] == p);
        lemma_forest_size_ge(p.nodes, j);
        assert(tree_size(p) > tree_size(x));
        lemma_traversal_sizes(seq![root]);
        assert(forest_size(seq![root]) == tree_size(root)) by {
            assert(seq![root].subrange(0, 0) =~= Seq::<NodeView>::empty());
            assert(forest_size(Seq::<NodeView>::empty()) == 0);
            assert(seq![root][0] == root);
        }
        assert(tree_size(t[i]) <= tree_size(root));
        assert(k > 0);
        assert(t.contains(p));
        lemma_climb(root, p, (k - 1) as nat);
    }
}

/// In a tree whose ids are unique, the walk up from any node along the parent
/// map stops, at the root or at a workspace, within as many steps as the tree
/// has nodes.
pub proof fn law_walk_up_ends(root: NodeView, x: NodeView)
    requires
        ids_unique(root),
        level_order(root).contains(x),
    ensures
        walk_ends(parent_map_of(root), x, tree_size(root)),
{
    lemma_climb(root, x, tree_size(root));
}

} // verus!
