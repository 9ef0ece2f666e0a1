# delta-mock

A prototype of how parallel agent threads could catch each other's work before
it becomes a merge problem.

When several agent threads work at once, each in its own worktree, nobody finds
out they collided until somebody merges. Here findings are raised while the
threads are still running, they are anchored to the code they are about, and
every proactive path is gated.

## Layout

- `src/` is the library: all state and every decision, verified with Verus.
  - `model/anchor.rs`: `PortableAnchor`, which resolves against a *divergent*
    snapshot, degrading to Exact / Shifted / Orphaned.
  - `model/overlap.rs`: one index, two questions: who is editing this now
    (conflict), who edited it before (expertise).
  - `model/transport.rs`: the seam a real backend plugs into.
  - `composer.rs`: the comment box, a single-line text field with selection and
    input methods.
  - `shell/`: the workspace. Each operation is a step on `ShellModel`, and what
    each pane shows is a function of it. What relates several operations is in
    `shell/laws.rs` and beside the operations.
  - `seed.rs`: all content.
- `tests/` runs the library on concrete values.
- `app/` is the GPUI window: it draws what the shell says is there and runs the
  timers it asks for. It needs Zed's `gpui`, `gpui_platform`, `theme` and `ui`
  crates.

`DELTA_MOCK_DEMO` makes the app play a scripted demo: `v2` shows the workspace
noticing things, any other value shows people talking to each other.
