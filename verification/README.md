# dsl

A layout daemon for the sway window manager: every workspace holds one master
window beside a stack. The daemon listens for window changes and for commands
sent over D-Bus, and answers each with sway commands.

- `src/` is the verified library (Verus): the model of sway's tree
  (`tree`), walks over it (`walk`, `parents`), text (`text`), the layout rules
  (`rules`), the daemon's decisions, including the layout pass as a state
  machine (`control`), and the laws that hold of them (`laws`).
- `app/` is the program around it: D-Bus, the sway socket, threads and the
  priority channel. `dsl server` runs the daemon, `dsl client <command>` sends
  it a command (`layout`, `move <direction>`, `move_to_workspace <name>`,
  `kill`).
- `tests/` runs the library on concrete trees.
