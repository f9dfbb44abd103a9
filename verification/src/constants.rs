//! Names shared by the daemon, its client and sway.
use vstd::prelude::*;

verus! {

/// The D-Bus name under which the daemon listens.
pub const DBUS_DEST: &'static str = "com.ChristianWSmith.dsl";

/// The object path of the daemon's D-Bus interface.
pub const DBUS_PATH: &'static str = "/dslcommand";

/// The method that carries a command to the daemon.
pub const DBUS_METHOD: &'static str = "DSLCommand";

/// The name of the method's argument.
pub const DBUS_ARG: &'static str = "dbus_message";

/// The name of the method's reply.
pub const DBUS_REPLY: &'static str = "reply";

/// The command that re-applies the layout rules.
pub const CMD_LAYOUT: &'static str = "layout";

/// The command that moves the focused window in a direction.
pub const CMD_MOVE: &'static str = "move";

/// The command that moves the focused window to another workspace.
pub const CMD_MOVE_TO_WORKSPACE: &'static str = "move_to_workspace";

/// The command that closes the focused window.
pub const CMD_KILL: &'static str = "kill";

/// A format pattern that nothing uses. It
/// does not describe the master mark, which is `master-` followed by the
/// workspace's name without quotes (see `rules::master_mark`).
pub const SWAY_MASTER_MARK: &'static str = "master-{:?}";

/// A format pattern that nothing uses. It
/// does not describe the stack mark, which is `stack-` followed by the
/// workspace's name without quotes (see `rules::stack_mark`).
pub const SWAY_STACK_MARK: &'static str = "stack-{:?}";

/// The mark that a window carries while it is being promoted to master.
pub const SWAY_TEMP_MASTER_MARK: &'static str = "_temp_master";

/// The mark of a window that is being swapped; nothing uses it.
pub const SWAY_TEMP_SWAP_MARK: &'static str = "_swap";

} // verus!
