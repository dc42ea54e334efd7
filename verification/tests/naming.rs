//! The tab namer from the outside: events and pipe messages in, effects out.

use zellij_tab_namer::cwd::Cwd;
use zellij_tab_namer::events::{
    Effect, Event, EventType, PaneId, PaneInfo, PaneManifest, PermissionStatus, PermissionType,
    PipeMessage, PipeSource, TabInfo,
};
use zellij_tab_namer::maps::TextMap;
use zellij_tab_namer::model::MAX_GIT_CACHE_ENTRIES;
use zellij_tab_namer::state::State;

fn text_map(entries: &[(&str, &str)]) -> TextMap<String> {
    let mut map = TextMap::new();
    for (key, value) in entries {
        map.insert(key.to_string(), value.to_string());
    }
    map
}

fn cwd(path: &str) -> Cwd {
    Cwd::new(path.as_bytes().to_vec())
}

fn tab(id: usize, position: usize, active: bool) -> TabInfo {
    TabInfo {
        tab_id: id,
        position,
        active,
        ..Default::default()
    }
}

fn manifest(entries: &[(usize, &[u32])]) -> PaneManifest {
    let panes = entries
        .iter()
        .map(|(position, pane_ids)| {
            let panes = pane_ids
                .iter()
                .map(|&id| PaneInfo {
                    id,
                    ..Default::default()
                })
                .collect();
            (*position, panes)
        })
        .collect();
    PaneManifest { panes }
}

fn manifest_with(entries: Vec<(usize, Vec<PaneInfo>)>) -> PaneManifest {
    PaneManifest { panes: entries }
}

fn cwd_event(pane_id: u32, path: &str) -> Event {
    Event::CwdChanged(PaneId::Terminal(pane_id), cwd(path))
}

fn ctx(path: &str) -> TextMap<String> {
    text_map(&[("cwd", path)])
}

fn git_result(exit_code: i32, stdout: &str, path: &str) -> Event {
    Event::RunCommandResult(Some(exit_code), stdout.as_bytes().to_vec(), ctx(path))
}

fn pipe_msg(name: &str, args: &[(&str, &str)]) -> PipeMessage {
    PipeMessage {
        source: PipeSource::Plugin(0),
        name: name.to_string(),
        args: text_map(args),
    }
}

/// Permissions granted, one active tab (id 1, position 0) holding pane 10.
fn ready_state(config: &[(&str, &str)]) -> State {
    let mut state = State::default();
    state.init(text_map(config), "/home/u".to_string());
    state.handle(Event::PermissionRequestResult(PermissionStatus::Granted));
    state.handle(Event::TabUpdate(vec![tab(1, 0, true)]));
    state.handle(Event::PaneUpdate(manifest(&[(0, &[10])])));
    state
}

#[test]
fn init_gates_run_commands_on_git_detection() {
    let mut state = State::default();
    let effects = state.init(TextMap::new(), String::new());
    assert_eq!(
        effects,
        vec![
            Effect::RequestPermissions(vec![
                PermissionType::ReadApplicationState,
                PermissionType::ChangeApplicationState,
                PermissionType::RunCommands,
            ]),
            Effect::Subscribe(vec![
                EventType::TabUpdate,
                EventType::PaneUpdate,
                EventType::CwdChanged,
                EventType::PermissionRequestResult,
                EventType::RunCommandResult,
            ]),
        ]
    );

    let mut state = State::default();
    let config = text_map(&[("git_detection", "false")]);
    let effects = state.init(config, String::new());
    assert_eq!(
        effects[0],
        Effect::RequestPermissions(vec![
            PermissionType::ReadApplicationState,
            PermissionType::ChangeApplicationState,
        ])
    );
}

#[test]
fn buffers_events_until_permission_granted() {
    let mut state = State::default();
    state.init(
        text_map(&[("git_detection", "false")]),
        String::new(),
    );
    assert_eq!(
        state.handle(Event::TabUpdate(vec![tab(1, 0, true)])),
        vec![]
    );
    assert_eq!(
        state.handle(Event::PaneUpdate(manifest(&[(0, &[10])]))),
        vec![]
    );
    assert_eq!(state.handle(cwd_event(10, "/proj/api")), vec![]);

    let effects = state.handle(Event::PermissionRequestResult(PermissionStatus::Granted));
    // the buffered cwd resolves the tab before discovery: no redundant query
    assert_eq!(
        effects,
        vec![Effect::RenameTab {
            tab_id: 1,
            name: "api".to_string(),
        }]
    );
}

#[test]
fn pane_update_before_tab_update_defers_discovery() {
    let mut state = State::default();
    state.init(TextMap::new(), "/home/u".to_string());
    state.handle(Event::PermissionRequestResult(PermissionStatus::Granted));

    // PaneUpdate races ahead of the TabUpdate that maps position 0
    assert_eq!(
        state.handle(Event::PaneUpdate(manifest(&[(0, &[10])]))),
        vec![]
    );
    let effects = state.handle(Event::TabUpdate(vec![tab(1, 0, true)]));
    assert_eq!(effects, vec![Effect::QueryPaneCwd { pane_id: 10 }]);
}

#[test]
fn moved_pane_triggers_discovery_for_its_new_tab() {
    let mut state = ready_state(&[("git_detection", "false")]);
    state.handle(Event::PaneUpdate(manifest(&[(0, &[10, 11])])));
    state.handle(cwd_event(10, "/proj"));

    // pane 11 breaks out into a brand-new tab
    state.handle(Event::TabUpdate(vec![tab(1, 0, true), tab(2, 1, false)]));
    let effects = state.handle(Event::PaneUpdate(manifest(&[(0, &[10]), (1, &[11])])));
    assert_eq!(effects, vec![Effect::QueryPaneCwd { pane_id: 11 }]);
}

#[test]
fn empty_cwd_does_not_block_discovery() {
    let mut state = ready_state(&[("git_detection", "false")]);
    // an empty cwd must leave no trace
    assert_eq!(state.handle(cwd_event(10, "")), vec![]);

    // a later split finds the tab still unresolved: discovery fires
    let effects = state.handle(Event::PaneUpdate(manifest(&[(0, &[10, 11])])));
    assert_eq!(effects, vec![Effect::QueryPaneCwd { pane_id: 10 }]);
}

#[test]
fn buffered_cwds_replay_in_arrival_order() {
    let mut state = State::default();
    state.init(
        text_map(&[("git_detection", "false")]),
        String::new(),
    );
    state.handle(Event::TabUpdate(vec![tab(1, 0, true)]));
    state.handle(Event::PaneUpdate(manifest(&[(0, &[10, 11])])));
    // two panes of the same tab report different cwds before the grant
    state.handle(cwd_event(10, "/proj/api"));
    state.handle(cwd_event(11, "/proj/web"));

    let effects = state.handle(Event::PermissionRequestResult(PermissionStatus::Granted));
    // deterministic: the last arrival names the tab last
    assert_eq!(
        effects,
        vec![
            Effect::RenameTab {
                tab_id: 1,
                name: "api".to_string(),
            },
            Effect::RenameTab {
                tab_id: 1,
                name: "web".to_string(),
            },
        ]
    );
}

#[test]
fn discovery_ignores_focused_pane_of_hidden_floating_layer() {
    fn layered_panes() -> Vec<PaneInfo> {
        vec![
            PaneInfo {
                id: 10,
                is_focused: true,
                ..Default::default()
            },
            PaneInfo {
                id: 11,
                is_focused: true,
                is_floating: true,
                ..Default::default()
            },
        ]
    }

    // floating layer hidden: the focused tiled pane speaks for the tab
    let mut state = State::default();
    state.init(TextMap::new(), "/home/u".to_string());
    state.handle(Event::PermissionRequestResult(PermissionStatus::Granted));
    state.handle(Event::TabUpdate(vec![tab(1, 0, true)]));
    let effects = state.handle(Event::PaneUpdate(manifest_with(vec![(0, layered_panes())])));
    assert_eq!(effects, vec![Effect::QueryPaneCwd { pane_id: 10 }]);

    // floating layer visible: the focused floating pane wins
    let mut state = State::default();
    state.init(TextMap::new(), "/home/u".to_string());
    state.handle(Event::PermissionRequestResult(PermissionStatus::Granted));
    let mut floating_tab = tab(1, 0, true);
    floating_tab.are_floating_panes_visible = true;
    state.handle(Event::TabUpdate(vec![floating_tab]));
    let effects = state.handle(Event::PaneUpdate(manifest_with(vec![(0, layered_panes())])));
    assert_eq!(effects, vec![Effect::QueryPaneCwd { pane_id: 11 }]);
}

#[test]
fn git_result_renames_every_tab_waiting_on_the_same_cwd() {
    let mut state = ready_state(&[]);
    state.handle(Event::TabUpdate(vec![tab(1, 0, true), tab(2, 1, false)]));
    state.handle(Event::PaneUpdate(manifest(&[(0, &[10]), (1, &[20])])));

    let effects = state.handle(cwd_event(10, "/repo"));
    assert_eq!(
        effects,
        vec![Effect::RunGit {
            cwd: cwd("/repo"),
            context: ctx("/repo"),
        }]
    );

    // second tab, same cwd: joins the waiters, no duplicate query
    assert_eq!(state.handle(cwd_event(20, "/repo")), vec![]);

    let effects = state.handle(git_result(0, "/repo\n", "/repo"));
    assert_eq!(
        effects,
        vec![
            Effect::RenameTab {
                tab_id: 1,
                name: "repo".to_string(),
            },
            Effect::RenameTab {
                tab_id: 2,
                name: "repo".to_string(),
            },
        ]
    );
}

#[test]
fn stale_git_result_does_not_overwrite_newer_name() {
    let mut state = ready_state(&[]);

    assert_eq!(
        state.handle(cwd_event(10, "/repo-a")),
        vec![Effect::RunGit {
            cwd: cwd("/repo-a"),
            context: ctx("/repo-a"),
        }]
    );
    assert_eq!(
        state.handle(cwd_event(10, "/elsewhere")),
        vec![Effect::RunGit {
            cwd: cwd("/elsewhere"),
            context: ctx("/elsewhere"),
        }]
    );

    // /elsewhere resolves first: not a git repo, named by basename
    let effects = state.handle(git_result(128, "", "/elsewhere"));
    assert_eq!(
        effects,
        vec![Effect::RenameTab {
            tab_id: 1,
            name: "elsewhere".to_string(),
        }]
    );

    // the stale result for /repo-a lands afterwards: the tab moved on, no rename
    assert_eq!(state.handle(git_result(0, "/repo-a\n", "/repo-a")), vec![]);
}

#[test]
fn home_directory_renders_as_tilde() {
    let mut state = ready_state(&[("git_detection", "false")]);
    let effects = state.handle(cwd_event(10, "/home/u"));
    assert_eq!(
        effects,
        vec![Effect::RenameTab {
            tab_id: 1,
            name: "~".to_string(),
        }]
    );
}

#[test]
fn pane_count_suffix_follows_pane_count_changes() {
    let mut state = ready_state(&[
        ("git_detection", "false"),
        ("pane_count", " ({pane_count})"),
    ]);
    state.handle(cwd_event(10, "/proj"));

    let effects = state.handle(Event::PaneUpdate(manifest(&[(0, &[10, 11])])));
    assert_eq!(
        effects,
        vec![Effect::RenameTab {
            tab_id: 1,
            name: "proj (2)".to_string(),
        }]
    );

    let effects = state.handle(Event::PaneUpdate(manifest(&[(0, &[10])])));
    assert_eq!(
        effects,
        vec![Effect::RenameTab {
            tab_id: 1,
            name: "proj".to_string(),
        }]
    );
}

#[test]
fn pipe_decorations_wrap_the_base_name() {
    let mut state = ready_state(&[("git_detection", "false")]);
    state.handle(cwd_event(10, "/proj"));

    let effects = state.handle_pipe(pipe_msg("set_prefix", &[("value", "* ")]));
    assert_eq!(
        effects,
        vec![Effect::RenameTab {
            tab_id: 1,
            name: "* proj".to_string(),
        }]
    );

    // setting the same prefix again is a no-op
    assert_eq!(
        state.handle_pipe(pipe_msg("set_prefix", &[("value", "* ")])),
        vec![]
    );

    let effects = state.handle_pipe(pipe_msg("clear_prefix", &[]));
    assert_eq!(
        effects,
        vec![Effect::RenameTab {
            tab_id: 1,
            name: "proj".to_string(),
        }]
    );

    // clearing when nothing is set stays silent
    assert_eq!(state.handle_pipe(pipe_msg("clear_prefix", &[])), vec![]);
}

#[test]
fn cli_pipe_source_is_unblocked() {
    let mut state = ready_state(&[]);
    let message = PipeMessage {
        source: PipeSource::Cli("pipe-1".to_string()),
        name: "unknown".to_string(),
        args: TextMap::new(),
    };
    assert_eq!(
        state.handle_pipe(message),
        vec![Effect::UnblockCliPipe("pipe-1".to_string())]
    );
}

#[test]
fn buffered_cwd_for_a_closed_pane_is_dropped() {
    let mut state = ready_state(&[("git_detection", "false")]);
    // cwd for a pane zellij hasn't mapped yet: buffered
    assert_eq!(state.handle(cwd_event(99, "/ghost")), vec![]);
    // next manifest doesn't contain pane 99: the buffered cwd is dropped
    state.handle(Event::PaneUpdate(manifest(&[(0, &[10])])));
    // when pane 99 later appears in a new tab, the ghost cwd must not name
    // it — only a fresh discovery query is emitted
    state.handle(Event::TabUpdate(vec![tab(1, 0, true), tab(2, 1, false)]));
    let effects = state.handle(Event::PaneUpdate(manifest(&[(0, &[10]), (1, &[99])])));
    assert_eq!(effects, vec![Effect::QueryPaneCwd { pane_id: 99 }]);
}

#[test]
fn discovery_query_prefers_the_focused_pane() {
    let mut state = State::default();
    state.init(
        text_map(&[("git_detection", "false")]),
        "/home/u".to_string(),
    );
    state.handle(Event::PermissionRequestResult(PermissionStatus::Granted));
    state.handle(Event::TabUpdate(vec![tab(1, 0, true)]));

    let panes = vec![
        PaneInfo {
            id: 10,
            ..Default::default()
        },
        PaneInfo {
            id: 11,
            is_focused: true,
            ..Default::default()
        },
    ];
    let effects = state.handle(Event::PaneUpdate(manifest_with(vec![(0, panes)])));
    assert_eq!(effects, vec![Effect::QueryPaneCwd { pane_id: 11 }]);

    // the adapter reinjects the answer as a synthetic CwdChanged
    let effects = state.handle(cwd_event(11, "/proj"));
    assert_eq!(
        effects,
        vec![Effect::RenameTab {
            tab_id: 1,
            name: "proj".to_string(),
        }]
    );
}

#[test]
fn restore_names_every_tab_from_its_panes() {
    let mut state = State::default();
    state.init(
        text_map(&[("git_detection", "false")]),
        "/home/u".to_string(),
    );
    state.handle(Event::PermissionRequestResult(PermissionStatus::Granted));
    state.handle(Event::TabUpdate(vec![tab(1, 0, true), tab(2, 1, false)]));

    // a restored session arrives as one manifest with every pane at once
    let effects = state.handle(Event::PaneUpdate(manifest(&[(0, &[10]), (1, &[20])])));
    assert_eq!(effects.len(), 2);
    assert!(effects.contains(&Effect::QueryPaneCwd { pane_id: 10 }));
    assert!(effects.contains(&Effect::QueryPaneCwd { pane_id: 20 }));

    assert_eq!(
        state.handle(cwd_event(10, "/proj/api")),
        vec![Effect::RenameTab {
            tab_id: 1,
            name: "api".to_string(),
        }]
    );
    assert_eq!(
        state.handle(cwd_event(20, "/proj/web")),
        vec![Effect::RenameTab {
            tab_id: 2,
            name: "web".to_string(),
        }]
    );
}

#[test]
fn discovery_response_flows_through_git_resolution() {
    let mut state = State::default();
    state.init(TextMap::new(), "/home/u".to_string());
    state.handle(Event::PermissionRequestResult(PermissionStatus::Granted));
    state.handle(Event::TabUpdate(vec![tab(1, 0, true)]));

    let effects = state.handle(Event::PaneUpdate(manifest(&[(0, &[10])])));
    assert_eq!(effects, vec![Effect::QueryPaneCwd { pane_id: 10 }]);

    let effects = state.handle(cwd_event(10, "/repo/sub"));
    assert_eq!(
        effects,
        vec![Effect::RunGit {
            cwd: cwd("/repo/sub"),
            context: ctx("/repo/sub"),
        }]
    );

    let effects = state.handle(git_result(0, "/repo\n", "/repo/sub"));
    assert_eq!(
        effects,
        vec![Effect::RenameTab {
            tab_id: 1,
            name: "repo".to_string(),
        }]
    );
}

#[test]
fn no_second_discovery_once_the_tab_is_named() {
    let mut state = ready_state(&[("git_detection", "false")]);
    state.handle(cwd_event(10, "/proj"));

    // a split opens a new pane in the already-named tab: no query
    let effects = state.handle(Event::PaneUpdate(manifest(&[(0, &[10, 11])])));
    assert_eq!(effects, vec![]);
}

#[test]
fn visible_layer_beats_focus_of_hidden_layer() {
    let mut state = State::default();
    state.init(TextMap::new(), "/home/u".to_string());
    state.handle(Event::PermissionRequestResult(PermissionStatus::Granted));
    let mut floating_tab = tab(1, 0, true);
    floating_tab.are_floating_panes_visible = true;
    state.handle(Event::TabUpdate(vec![floating_tab]));

    // the tiled pane is focused in its (hidden) layer; the visible
    // floating pane is not focused — what the user sees must win
    let panes = vec![
        PaneInfo {
            id: 10,
            is_focused: true,
            ..Default::default()
        },
        PaneInfo {
            id: 11,
            is_floating: true,
            ..Default::default()
        },
    ];
    let effects = state.handle(Event::PaneUpdate(manifest_with(vec![(0, panes)])));
    assert_eq!(effects, vec![Effect::QueryPaneCwd { pane_id: 11 }]);
}

#[test]
fn dead_tab_waiters_are_purged() {
    let mut state = ready_state(&[]);
    state.handle(cwd_event(10, "/repo"));
    assert!(!state.pending_git.is_empty());

    // the waiting tab closes before the git result arrives
    state.handle(Event::TabUpdate(vec![tab(2, 0, true)]));
    assert!(state.pending_git.is_empty());

    // the late result still feeds the caches, without effects
    assert_eq!(state.handle(git_result(0, "/repo\n", "/repo")), vec![]);
    assert!(state.git_roots.contains("/repo"));
}

#[test]
fn symlinked_cwd_resolves_via_root_alias() {
    let mut state = ready_state(&[]);
    state.handle(Event::TabUpdate(vec![tab(1, 0, true), tab(2, 1, false)]));
    state.handle(Event::PaneUpdate(manifest(&[(0, &[10]), (1, &[20])])));

    // the cwd goes through a symlink: git resolves it to another path
    assert_eq!(
        state.handle(cwd_event(10, "/links/repo/sub")),
        vec![Effect::RunGit {
            cwd: cwd("/links/repo/sub"),
            context: ctx("/links/repo/sub"),
        }]
    );
    let effects = state.handle(git_result(0, "/real/repo\n", "/links/repo/sub"));
    assert_eq!(
        effects,
        vec![Effect::RenameTab {
            tab_id: 1,
            name: "repo".to_string(),
        }]
    );

    // a second tab on the same symlinked cwd resolves from the cache,
    // without launching another git query
    let effects = state.handle(cwd_event(20, "/links/repo/sub"));
    assert_eq!(
        effects,
        vec![Effect::RenameTab {
            tab_id: 2,
            name: "repo".to_string(),
        }]
    );
}

#[test]
fn nested_repo_is_not_named_after_an_ancestor_root() {
    let mut state = State::default();
    state.init(TextMap::new(), "/home/u".to_string());
    state.handle(Event::PermissionRequestResult(PermissionStatus::Granted));
    state.handle(Event::TabUpdate(vec![tab(1, 0, true), tab(2, 1, false)]));
    state.handle(Event::PaneUpdate(manifest(&[(0, &[10]), (1, &[20])])));

    // Tab 1 makes the git-tracked home a known root.
    state.handle(cwd_event(10, "/home/u"));
    state.handle(git_result(0, "/home/u\n", "/home/u"));

    // Tab 2 enters a repo nested UNDER that root. It must query git for its
    // own toplevel, not silently inherit the ancestor's name ("u").
    assert_eq!(
        state.handle(cwd_event(20, "/home/u/dev/realproject")),
        vec![Effect::RunGit {
            cwd: cwd("/home/u/dev/realproject"),
            context: ctx("/home/u/dev/realproject"),
        }],
        "a nested cwd must be queried, not named after an ancestor root"
    );

    // git reports the deeper toplevel → the tab is named after it.
    let effects = state.handle(git_result(
        0,
        "/home/u/dev/realproject\n",
        "/home/u/dev/realproject",
    ));
    assert_eq!(
        effects,
        vec![Effect::RenameTab {
            tab_id: 2,
            name: "realproject".to_string(),
        }]
    );
}

#[test]
fn git_caches_stay_bounded() {
    let mut state = ready_state(&[]);
    // Visit far more distinct cwds than the cap; the caches must not grow
    // without bound (they clear and rebuild, event-driven, no timer).
    for i in 0..(MAX_GIT_CACHE_ENTRIES + 50) {
        let cwd = format!("/p/dir{i}");
        state.handle(cwd_event(10, &cwd));
        state.handle(git_result(0, &format!("{cwd}\n"), &cwd));
    }
    assert!(
        state.git_cache_len() <= MAX_GIT_CACHE_ENTRIES,
        "git caches must stay bounded, got {}",
        state.git_cache_len()
    );
}
