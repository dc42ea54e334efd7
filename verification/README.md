# zellij-tab-namer

A [Zellij](https://zellij.dev) plugin that names each tab after the git repository, or else the
folder, its panes are in, and lets other tools put decorations around that name. The naming is a
state machine, events in and effects out, that is verified with [Verus](https://github.com/verus-lang/verus).

## Configuration

| Option | Default | Effect |
|---|---|---|
| `git_detection` | `true` | Name tabs after git repositories. With `false` git is never run and folder names are used. |
| `pane_count` | unset | A text appended to the name of a tab with more than one pane; `{pane_count}` in it stands for their number. |

## Pipe API

A tab shows `{prefix}{base name}{suffix}{pane count suffix}`. Prefix and suffix are set by pipe
messages and outlive a change of directory.

| Pipe | Arguments | Effect |
|---|---|---|
| `set_prefix` | `value`, `tab_id` | Sets the prefix. |
| `set_suffix` | `value`, `tab_id` | Sets the suffix. |
| `clear_prefix` | `tab_id` | Removes the prefix. |
| `clear_suffix` | `tab_id` | Removes the suffix. |
| `clear_all` | `tab_id` | Removes both. |

`tab_id` is a stable tab id; left out, or `active`, it means the active tab.

## Layout

- `src/model.rs` says in mathematical terms what each event and message does.
- `src/state.rs`, with `naming.rs`, `git.rs`, `panes.rs`, `tabs.rs` and `pending.rs`, is the
  executable state machine; each function is proved to do exactly what the model says.
- `src/validity.rs` holds the invariant of the state machine and the proofs that every step keeps
  it; `src/laws/` holds what follows across steps.
- `src/events.rs`, `cwd.rs`, `maps.rs`, `paths.rs`, `parts.rs` and `text.rs` are what the rest is
  written in; `lists.rs` and `frames.rs` hold lemmas.
- `app/` is the plugin: it turns Zellij's events into those of the library and carries out effects.

Taken on trust are the standard library's `String::from_utf8_lossy`, by the contract in `src/cwd.rs`,
and the specifications that Verus's own library gives to the rest of the standard library.
