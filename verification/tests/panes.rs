//! Panes, tabs and events: who is asked about, whose directory counts, and what is forgotten.

use zellij_tab_namer::cwd::Cwd;
use zellij_tab_namer::events::{
    Effect, Event, EventType, PaneId, PaneInfo, PaneManifest, PermissionStatus, PermissionType,
    PipeMessage, PipeSource, TabInfo,
};
use zellij_tab_namer::maps::{TabMap, TextMap};
use zellij_tab_namer::pending::upsert_cwd;
use zellij_tab_namer::state::State;

fn text_map(entries: &[(&str, &str)]) -> TextMap<String> {
    let mut map = TextMap::new();
    for (key, value) in entries {
        map.insert(key.to_string(), value.to_string());
    }
    map
}

fn cwd(path: &str) -> Cwd {
    Cwd::new(path.as_bytes().to_vec())
}

fn tab(id: usize, position: usize, active: bool) -> TabInfo {
    TabInfo {
        tab_id: id,
        position,
        active,
        ..Default::default()
    }
}

fn pane(id: u32) -> PaneInfo {
    PaneInfo {
        id,
        ..Default::default()
    }
}

fn panes(entries: &[(usize, &[u32])]) -> Event {
    let panes = entries
        .iter()
        .map(|(position, ids)| (*position, ids.iter().map(|id| pane(*id)).collect()))
        .collect();
    Event::PaneUpdate(PaneManifest { panes })
}

fn cd(pane_id: u32, path: &str) -> Event {
    Event::CwdChanged(PaneId::Terminal(pane_id), cwd(path))
}

fn git_result(exit_code: Option<i32>, stdout: &str, path: &str) -> Event {
    Event::RunCommandResult(
        exit_code,
        stdout.as_bytes().to_vec(),
        text_map(&[("cwd", path)]),
    )
}

fn root(stdout: &str, path: &str) -> Event {
    git_result(Some(0), stdout, path)
}

fn granted() -> Event {
    Event::PermissionRequestResult(PermissionStatus::Granted)
}

fn pipe(name: &str, args: &[(&str, &str)]) -> PipeMessage {
    PipeMessage {
        source: PipeSource::Keybind,
        name: name.to_string(),
        args: text_map(args),
    }
}

fn rename(tab_id: usize, name: &str) -> Effect {
    Effect::RenameTab {
        tab_id,
        name: name.to_string(),
    }
}

fn ask_git(path: &str) -> Effect {
    Effect::RunGit {
        cwd: cwd(path),
        context: text_map(&[("cwd", path)]),
    }
}

fn query(pane_id: u32) -> Effect {
    Effect::QueryPaneCwd { pane_id }
}

/// Permissions granted; tab 1 at position 0 holds pane 10 and is active, tab 2 at position 1 holds
/// pane 20.
fn two_tabs(config: &[(&str, &str)]) -> State {
    let mut state = State::default();
    state.init(text_map(config), "/home/u".to_string());
    state.handle(granted());
    state.handle(Event::TabUpdate(vec![tab(1, 0, true), tab(2, 1, false)]));
    state.handle(panes(&[(0, &[10]), (1, &[20])]));
    state
}

const OFF: &[(&str, &str)] = &[("git_detection", "false")];

fn layered(id: u32, is_focused: bool, is_floating: bool) -> PaneInfo {
    PaneInfo {
        id,
        is_focused,
        is_floating,
        ..Default::default()
    }
}

#[test]
fn the_nearest_candidate_speaks_for_a_tab() {
    let mut state = two_tabs(OFF);
    let all = [
        layered(1, false, true),
        layered(2, true, true),
        layered(3, false, false),
        layered(4, true, false),
    ];
    assert_eq!(state.choose_discovery_pane(1, &all), Some(4));
    assert_eq!(state.choose_discovery_pane(1, &all[..3]), Some(3));
    assert_eq!(state.choose_discovery_pane(1, &all[..2]), Some(2));
    assert_eq!(state.choose_discovery_pane(1, &all[..1]), Some(1));
    assert_eq!(state.choose_discovery_pane(1, &[]), None);

    let floating = TabInfo { are_floating_panes_visible: true, ..tab(1, 0, true) };
    state.handle(Event::TabUpdate(vec![floating, tab(2, 1, false)]));
    assert_eq!(state.choose_discovery_pane(1, &all), Some(2));
    assert_eq!(state.choose_discovery_pane(2, &all), Some(4));

    let plugin = PaneInfo { is_plugin: true, ..layered(5, true, true) };
    let suppressed = PaneInfo { is_suppressed: true, ..layered(6, true, true) };
    assert_eq!(state.choose_discovery_pane(1, &[plugin, suppressed]), None);
    assert_eq!(state.choose_discovery_pane(1, &[plugin, suppressed, all[0]]), Some(1));
}

#[test]
fn only_unnamed_tabs_with_new_terminals_are_asked_about() {
    let mut state = State::default();
    state.init(text_map(&[]), String::new());
    state.handle(granted());
    state.handle(Event::TabUpdate(vec![tab(1, 0, true), tab(2, 1, false)]));
    assert_eq!(state.handle(panes(&[(0, &[10]), (1, &[20])])), vec![query(10), query(20)]);
    // nothing new
    assert_eq!(state.handle(panes(&[(0, &[10]), (1, &[20])])), vec![]);
    // tab 1 waits for git: its directory is known
    state.handle(cd(10, "/x"));
    assert_eq!(state.handle(panes(&[(0, &[10, 11]), (1, &[20, 21])])), vec![query(20)]);
    // terminals that change tabs are new to the tab they come to
    assert_eq!(state.handle(panes(&[(0, &[10, 21]), (1, &[11, 20])])), vec![query(11)]);
}

#[test]
fn answers_lead_to_no_query() {
    let mut state = two_tabs(OFF);
    assert_eq!(state.answer_query(10, None), vec![]);
    assert_eq!(state.answer_query(10, Some(cwd(""))), vec![]);
    assert_eq!(state.answer_query(10, Some(cwd("/src/api"))), vec![rename(1, "api")]);
    assert_eq!(state.answer_query(99, Some(cwd("/src/web"))), vec![]);
    let mut state = two_tabs(&[]);
    assert_eq!(state.answer_query(20, Some(cwd("/src/web"))), vec![ask_git("/src/web")]);
}

#[test]
fn the_latest_directory_of_a_terminal_is_kept_last() {
    let mut list = vec![];
    upsert_cwd(&mut list, 1, cwd("/a"));
    upsert_cwd(&mut list, 2, cwd("/b"));
    upsert_cwd(&mut list, 1, cwd("/c"));
    assert_eq!(list, vec![(2, cwd("/b")), (1, cwd("/c"))]);
}

#[test]
fn directories_wait_for_the_tab_of_their_terminal() {
    let mut state = two_tabs(OFF);
    state.handle(cd(11, "/one"));
    state.handle(cd(31, "/later"));
    state.handle(cd(12, "/gone"));
    state.handle(cd(11, "/two"));
    // terminal 31 is at a position that is not known yet, terminal 12 nowhere
    assert_eq!(
        state.handle(panes(&[(0, &[10, 11]), (1, &[20]), (2, &[31])])),
        vec![rename(1, "two")]
    );
    assert_eq!(state.pending_cwds, vec![(31, cwd("/later"))]);
    assert!(state.deferred_panes.is_some());
    assert_eq!(
        state.handle(Event::TabUpdate(vec![tab(1, 0, true), tab(2, 1, false), tab(3, 2, false)])),
        vec![rename(3, "later")]
    );
    assert!(state.deferred_panes.is_none());
    assert!(state.pending_cwds.is_empty());
}

#[test]
fn the_last_report_for_a_tab_counts() {
    let mut state = two_tabs(OFF);
    state.handle(cd(11, "/one"));
    state.handle(cd(12, "/two"));
    state.handle(cd(13, ""));
    assert_eq!(
        state.handle(panes(&[(0, &[10, 11, 12, 13]), (1, &[20])])),
        vec![rename(1, "one"), rename(1, "two")]
    );
    assert_eq!(state.tab_cwds.get(1), Some(&cwd("/two")));
}

#[test]
fn plugins_do_not_name_tabs() {
    let mut state = two_tabs(OFF);
    assert_eq!(state.handle(Event::CwdChanged(PaneId::Plugin(10), cwd("/x"))), vec![]);
    assert!(state.pending_cwds.is_empty());
    assert!(!state.tab_cwds.contains_key(1));
}

#[test]
fn a_newer_manifest_takes_the_place_of_one_that_is_kept() {
    let mut state = two_tabs(OFF);
    state.handle(panes(&[(0, &[10]), (5, &[50])]));
    assert!(state.deferred_panes.is_some());
    state.handle(panes(&[(0, &[10])]));
    assert!(state.deferred_panes.is_none());
}

#[test]
fn the_first_snapshots_can_come_in_either_order() {
    let tabs = || Event::TabUpdate(vec![tab(1, 0, true), tab(2, 1, false)]);
    let manifest = || panes(&[(0, &[10, 11]), (1, &[20])]);
    let start = || {
        let mut state = State::default();
        state.init(text_map(OFF), String::new());
        state.handle(granted());
        state.handle(cd(99, "/gone"));
        state.handle(cd(11, "/src/api"));
        state
    };
    let mut one = start();
    let mut effects = one.handle(tabs());
    effects.append(&mut one.handle(manifest()));
    let mut other = start();
    let mut others = other.handle(manifest());
    others.append(&mut other.handle(tabs()));
    assert_eq!(effects, vec![rename(1, "api"), query(20)]);
    assert_eq!(effects, others);
    assert_eq!(one.pending_cwds, other.pending_cwds);
}

#[test]
fn the_same_again_changes_nothing() {
    let mut state = two_tabs(&[("git_detection", "false"), ("pane_count", " {pane_count}")]);
    state.handle(cd(31, "/later"));
    let manifest = || panes(&[(0, &[10, 11]), (1, &[20, 21]), (2, &[31])]);
    assert_eq!(state.handle(manifest()), vec![query(10), query(20)]);
    assert_eq!(state.handle(manifest()), vec![]);
    assert_eq!(state.pending_cwds, vec![(31, cwd("/later"))]);
    assert!(state.deferred_panes.is_some());

    let tabs = || Event::TabUpdate(vec![tab(1, 0, false), tab(2, 1, true)]);
    assert_eq!(state.handle(tabs()), vec![]);
    assert_eq!(state.handle(tabs()), vec![]);
    assert_eq!(state.active_tab_id, Some(2));

    assert_eq!(state.handle(cd(10, "/src/api")), vec![rename(1, "api 2")]);
    assert_eq!(state.handle(cd(10, "/src/api")), vec![]);
}

#[test]
fn a_terminal_under_two_tabs_is_new_every_time() {
    let mut state = two_tabs(OFF);
    let manifest = || panes(&[(0, &[10, 11]), (1, &[11])]);
    assert_eq!(state.handle(manifest()), vec![query(10), query(11)]);
    assert_eq!(state.handle(manifest()), vec![query(10)]);
}

#[test]
fn gone_tabs_are_forgotten() {
    let mut state = two_tabs(OFF);
    state.handle(cd(10, "/src/api"));
    state.handle_pipe(pipe("set_prefix", &[("value", "<"), ("tab_id", "1")]));
    state.handle_pipe(pipe("set_suffix", &[("value", ">"), ("tab_id", "1")]));
    state.handle(Event::TabUpdate(vec![tab(2, 0, true)]));
    assert!(!state.base_names.contains_key(1));
    assert!(!state.rendered_names.contains_key(1));
    assert!(!state.tab_cwds.contains_key(1));
    assert!(!state.tab_pane_counts.contains_key(1));
    assert!(!state.tab_prefixes.contains_key(1));
    assert!(!state.tab_suffixes.contains_key(1));
    assert_eq!(state.active_tab_id, Some(2));
}

#[test]
fn tabs_that_stay_are_kept() {
    let mut state = two_tabs(&[]);
    state.handle(cd(10, "/x"));
    state.handle(cd(20, "/x"));
    state.handle_pipe(pipe("set_prefix", &[("value", "<"), ("tab_id", "2")]));
    // tab 1 is gone and tab 2 moves to its position
    assert_eq!(state.handle(Event::TabUpdate(vec![tab(2, 0, true)])), vec![]);
    assert_eq!(state.handle(root("/x", "/x")), vec![rename(2, "<x")]);
}

#[test]
fn the_active_tab_is_remembered_where_no_tab_says_it_is() {
    let mut state = two_tabs(OFF);
    state.handle(Event::TabUpdate(vec![tab(1, 0, false), tab(2, 1, false)]));
    assert_eq!(state.active_tab_id, Some(1));
    state.handle(Event::TabUpdate(vec![tab(1, 0, true), tab(2, 1, true)]));
    assert_eq!(state.active_tab_id, Some(2));
}

#[test]
fn nothing_is_done_until_permissions_are_granted() {
    let mut state = State::default();
    state.init(text_map(OFF), String::new());
    assert_eq!(state.handle(Event::TabUpdate(vec![tab(1, 0, true)])), vec![]);
    assert_eq!(state.handle(panes(&[(0, &[10])])), vec![]);
    assert_eq!(state.handle(cd(10, "/src/api")), vec![]);
    let denied = Event::PermissionRequestResult(PermissionStatus::Denied);
    assert_eq!(state.handle(denied), vec![]);
    assert_eq!(state.handle(root("/x", "/x")), vec![]);
    assert_eq!(state.git_cache_len(), 0);
    assert!(!state.got_permissions);
}

#[test]
fn the_latest_snapshots_before_permissions_count() {
    let mut state = State::default();
    state.init(text_map(OFF), String::new());
    state.handle(Event::TabUpdate(vec![tab(8, 0, true)]));
    state.handle(Event::TabUpdate(vec![tab(1, 0, true), tab(2, 1, false)]));
    state.handle(panes(&[(0, &[80])]));
    state.handle(panes(&[(0, &[10]), (1, &[20])]));
    state.handle(cd(10, "/old"));
    state.handle(cd(10, "/src/api"));
    assert_eq!(state.handle(granted()), vec![rename(1, "api"), query(20)]);
    assert!(state.buffered_tabs.is_none());
    assert!(state.buffered_panes.is_none());
    assert!(state.buffered_cwds.is_empty());
}

#[test]
fn other_events_change_nothing() {
    let mut state = two_tabs(OFF);
    assert_eq!(state.handle(Event::Other), vec![]);
    assert_eq!(state.handle(granted()), vec![]);
    let denied = Event::PermissionRequestResult(PermissionStatus::Denied);
    assert_eq!(state.handle(denied), vec![]);
    assert!(state.got_permissions);
    let foreign = Event::RunCommandResult(Some(0), b"/x".to_vec(), text_map(&[("job", "/x")]));
    assert_eq!(state.handle(foreign), vec![]);
    assert_eq!(state.git_cache_len(), 0);
}

#[test]
fn a_command_line_is_let_go_first() {
    let mut state = two_tabs(OFF);
    state.handle(cd(10, "/src/api"));
    let message = |name: &str| PipeMessage {
        source: PipeSource::Cli("pipe-7".to_string()),
        ..pipe(name, &[("value", "!")])
    };
    let go = || Effect::UnblockCliPipe("pipe-7".to_string());
    assert_eq!(state.handle_pipe(message("set_prefix")), vec![go(), rename(1, "!api")]);
    assert_eq!(state.handle_pipe(message("no_such_pipe")), vec![go()]);
    assert_eq!(state.handle_pipe(pipe("no_such_pipe", &[])), vec![]);
}

#[test]
fn a_map_by_tab_keeps_one_value_per_tab() {
    let mut map: TabMap<String> = TabMap::new();
    assert_eq!(map.get(1), None);
    map.insert(1, "a".to_string());
    map.insert(1, "b".to_string());
    map.insert(2, "c".to_string());
    assert_eq!(map.get(1), Some(&"b".to_string()));
    let alive = std::collections::HashSet::from([2]);
    map.retain(&alive);
    assert!(!map.contains_key(1));
    assert!(map.remove(2));
    assert!(!map.remove(2));
}

#[test]
fn a_map_by_text_keeps_one_value_per_key() {
    let mut map: TextMap<String> = TextMap::new();
    assert!(map.is_empty());
    map.insert("a".to_string(), "1".to_string());
    map.insert("b".to_string(), "2".to_string());
    map.insert("a".to_string(), "3".to_string());
    assert_eq!(map.get("a"), Some(&"3".to_string()));
    assert_eq!(map.get("b"), Some(&"2".to_string()));
    assert_eq!(map.get("c"), None);
    assert_eq!(map.remove("a"), Some("3".to_string()));
    assert_eq!(map.remove("a"), None);
    assert!(map.contains_key("b"));
    assert!(!map.is_empty());
}

#[test]
fn maps_by_text_are_equal_whatever_the_order_of_their_entries() {
    let one = text_map(&[("a", "1"), ("b", "2")]);
    let other = text_map(&[("b", "2"), ("a", "1")]);
    assert_eq!(one, other);
    assert_eq!(one, one.clone());
    assert_ne!(one, text_map(&[("a", "1")]));
    assert_ne!(text_map(&[("a", "1")]), one);
    assert_ne!(one, text_map(&[("a", "1"), ("b", "3")]));
    assert_ne!(one, text_map(&[("a", "1"), ("c", "2")]));
    assert_eq!(text_map(&[]), text_map(&[]));
}

#[test]
fn effects_can_be_cloned_and_compared() {
    let run = |path: &str, context: &[(&str, &str)]| Effect::RunGit {
        cwd: cwd(path),
        context: text_map(context),
    };
    let one = run("/a", &[("cwd", "/a"), ("job", "7")]);
    assert_eq!(one, run("/a/", &[("job", "7"), ("cwd", "/a")]));
    assert_ne!(one, run("/b", &[("job", "7"), ("cwd", "/a")]));
    for effect in [
        one,
        rename(1, "a"),
        query(2),
        Effect::UnblockCliPipe("p".to_string()),
        Effect::RequestPermissions(vec![PermissionType::RunCommands]),
        Effect::Subscribe(vec![EventType::TabUpdate, EventType::CwdChanged]),
    ] {
        assert_eq!(effect.clone(), effect);
    }
}
