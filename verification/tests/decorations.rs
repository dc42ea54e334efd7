//! Names: how they are composed, kept on display and decorated.

use zellij_tab_namer::cwd::Cwd;
use zellij_tab_namer::events::{
    Effect, Event, PaneId, PaneInfo, PaneManifest, PermissionStatus, PipeMessage, PipeSource,
    TabInfo,
};
use zellij_tab_namer::maps::TextMap;
use zellij_tab_namer::state::State;

fn text_map(entries: &[(&str, &str)]) -> TextMap<String> {
    let mut map = TextMap::new();
    for (key, value) in entries {
        map.insert(key.to_string(), value.to_string());
    }
    map
}

fn cwd(path: &str) -> Cwd {
    Cwd::new(path.as_bytes().to_vec())
}

fn tab(id: usize, position: usize, active: bool) -> TabInfo {
    TabInfo {
        tab_id: id,
        position,
        active,
        ..Default::default()
    }
}

fn pane(id: u32) -> PaneInfo {
    PaneInfo {
        id,
        ..Default::default()
    }
}

fn panes(entries: &[(usize, &[u32])]) -> Event {
    let panes = entries
        .iter()
        .map(|(position, ids)| (*position, ids.iter().map(|id| pane(*id)).collect()))
        .collect();
    Event::PaneUpdate(PaneManifest { panes })
}

fn cd(pane_id: u32, path: &str) -> Event {
    Event::CwdChanged(PaneId::Terminal(pane_id), cwd(path))
}

fn granted() -> Event {
    Event::PermissionRequestResult(PermissionStatus::Granted)
}

fn pipe(name: &str, args: &[(&str, &str)]) -> PipeMessage {
    PipeMessage {
        source: PipeSource::Keybind,
        name: name.to_string(),
        args: text_map(args),
    }
}

fn rename(tab_id: usize, name: &str) -> Effect {
    Effect::RenameTab {
        tab_id,
        name: name.to_string(),
    }
}

/// Permissions granted; tab 1 at position 0 holds pane 10 and is active, tab 2 at position 1 holds
/// pane 20.
fn two_tabs(config: &[(&str, &str)]) -> State {
    let mut state = State::default();
    state.init(text_map(config), "/home/u".to_string());
    state.handle(granted());
    state.handle(Event::TabUpdate(vec![tab(1, 0, true), tab(2, 1, false)]));
    state.handle(panes(&[(0, &[10]), (1, &[20])]));
    state
}

/// As above, with tab 1 named `api` and no git.
fn named(config: &[(&str, &str)]) -> State {
    let mut all = vec![("git_detection", "false")];
    all.extend_from_slice(config);
    let mut state = two_tabs(&all);
    assert_eq!(state.handle(cd(10, "/src/api")), vec![rename(1, "api")]);
    state
}

#[test]
fn a_name_is_prefix_base_suffix_and_count() {
    let mut state = named(&[("pane_count", " ({pane_count})")]);
    assert_eq!(state.handle_pipe(pipe("set_prefix", &[("value", "<")])), vec![rename(1, "<api")]);
    assert_eq!(state.handle_pipe(pipe("set_suffix", &[("value", ">")])), vec![rename(1, "<api>")]);
    assert_eq!(
        state.handle(panes(&[(0, &[10, 11, 12]), (1, &[20])])),
        vec![rename(1, "<api> (3)")]
    );
    assert_eq!(state.compose_rendered_name(1, "web"), "<web> (3)");
    assert_eq!(state.compose_rendered_name(2, "web"), "web");
    // decorations outlive another directory
    assert_eq!(state.handle(cd(10, "/src/web")), vec![rename(1, "<web> (3)")]);
}

#[test]
fn a_count_is_shown_above_one_pane_only() {
    let mut state = named(&[("pane_count", "#{pane_count}#{pane_count}")]);
    assert_eq!(state.handle(panes(&[(0, &[10, 11]), (1, &[20])])), vec![rename(1, "api#2#2")]);
    assert_eq!(state.handle(panes(&[(0, &[10]), (1, &[20])])), vec![rename(1, "api")]);
    let plugin = PaneInfo { id: 11, is_plugin: true, ..Default::default() };
    let with_plugin = PaneManifest { panes: vec![(0, vec![pane(10), plugin]), (1, vec![pane(20)])] };
    assert_eq!(state.handle(Event::PaneUpdate(with_plugin)), vec![]);
}

#[test]
fn a_format_need_not_show_the_number() {
    let mut state = named(&[("pane_count", "+")]);
    assert_eq!(state.handle(panes(&[(0, &[10, 11]), (1, &[20])])), vec![rename(1, "api+")]);
    // the name is the same for another number
    assert_eq!(state.handle(panes(&[(0, &[10, 11, 12]), (1, &[20])])), vec![]);
}

#[test]
fn a_tab_that_a_manifest_leaves_out_keeps_the_count_on_display() {
    let mut state = named(&[("pane_count", " ({pane_count})")]);
    state.handle(panes(&[(0, &[10, 11, 12]), (1, &[20])]));
    assert_eq!(state.handle(panes(&[(1, &[20])])), vec![]);
    assert_eq!(state.rendered_names.get(1), Some(&"api (3)".to_string()));
    assert_eq!(state.compose_rendered_name(1, "api"), "api");
    // the next rename of the tab makes up for it
    assert_eq!(state.handle_pipe(pipe("set_prefix", &[("value", "!")])), vec![rename(1, "!api")]);
}

#[test]
fn no_rename_is_idle() {
    let mut state = named(&[]);
    assert_eq!(state.handle(cd(10, "/src/api")), vec![]);
    assert_eq!(state.handle(cd(10, "/other/api")), vec![]);
    state.refresh_tab_name(1);
    state.refresh_tab_name(9);
    assert_eq!(state.handle(Event::Other), vec![]);
}

#[test]
fn home_is_a_tilde_and_no_home_is_none() {
    let mut state = State::default();
    assert_eq!(state.derive_name(""), "/");
    state.init(text_map(&[]), "/home/u".to_string());
    assert_eq!(state.derive_name("/home/u"), "~");
    assert_eq!(state.derive_name("/home/u/"), "u");
    assert_eq!(state.derive_name("/home/u/x"), "x");
}

#[test]
fn setting_and_clearing_a_decoration_takes_it_back() {
    let mut state = named(&[]);
    assert_eq!(state.handle_pipe(pipe("set_prefix", &[("value", "* ")])), vec![rename(1, "* api")]);
    assert_eq!(state.handle_pipe(pipe("clear_prefix", &[])), vec![rename(1, "api")]);
    assert_eq!(state.handle_pipe(pipe("set_suffix", &[("value", " *")])), vec![rename(1, "api *")]);
    assert_eq!(state.handle_pipe(pipe("clear_suffix", &[])), vec![rename(1, "api")]);
    // an empty value, and none at all, clear as well
    state.handle_pipe(pipe("set_prefix", &[("value", "* ")]));
    assert_eq!(state.handle_pipe(pipe("set_prefix", &[("value", "")])), vec![rename(1, "api")]);
    state.handle_pipe(pipe("set_suffix", &[("value", " *")]));
    assert_eq!(state.handle_pipe(pipe("set_suffix", &[])), vec![rename(1, "api")]);
    assert!(!state.tab_prefixes.contains_key(1));
    assert!(!state.tab_suffixes.contains_key(1));
}

#[test]
fn the_last_decoration_counts() {
    let mut state = named(&[]);
    state.handle_pipe(pipe("set_prefix", &[("value", "a")]));
    assert_eq!(state.handle_pipe(pipe("set_prefix", &[("value", "b")])), vec![rename(1, "bapi")]);
}

#[test]
fn prefix_and_suffix_can_come_in_either_order() {
    let mut state = named(&[]);
    state.handle_pipe(pipe("set_suffix", &[("value", ">")]));
    assert_eq!(state.handle_pipe(pipe("set_prefix", &[("value", "<")])), vec![rename(1, "<api>")]);
    let mut state = named(&[]);
    state.handle_pipe(pipe("set_prefix", &[("value", "<")]));
    assert_eq!(state.handle_pipe(pipe("set_suffix", &[("value", ">")])), vec![rename(1, "<api>")]);
}

#[test]
fn clear_all_clears_both_with_one_rename() {
    let mut state = named(&[]);
    assert_eq!(state.handle_pipe(pipe("clear_all", &[])), vec![]);
    state.handle_pipe(pipe("set_prefix", &[("value", "<")]));
    state.handle_pipe(pipe("set_suffix", &[("value", ">")]));
    assert_eq!(state.handle_pipe(pipe("clear_all", &[])), vec![rename(1, "api")]);
    assert_eq!(state.handle_pipe(pipe("clear_all", &[])), vec![]);
}

#[test]
fn the_same_decoration_is_silent() {
    let mut state = named(&[]);
    assert_eq!(state.handle_pipe(pipe("clear_prefix", &[])), vec![]);
    state.handle_pipe(pipe("set_prefix", &[("value", "*")]));
    assert_eq!(state.handle_pipe(pipe("set_prefix", &[("value", "*")])), vec![]);
}

#[test]
fn a_decoration_waits_for_a_name() {
    let mut state = named(&[]);
    let message = pipe("set_suffix", &[("value", "!"), ("tab_id", "2")]);
    assert_eq!(state.handle_pipe(message), vec![]);
    assert_eq!(state.handle(cd(20, "/src/web")), vec![rename(2, "web!")]);
    // and concerns that tab alone
    assert_eq!(state.rendered_names.get(1), Some(&"api".to_string()));
}

#[test]
fn decorations_can_come_before_permissions() {
    let mut state = State::default();
    state.init(text_map(&[("git_detection", "false")]), String::new());
    // no tab is active yet
    assert_eq!(state.handle_pipe(pipe("set_prefix", &[("value", "!")])), vec![]);
    let message = pipe("set_prefix", &[("value", "* "), ("tab_id", "1")]);
    assert_eq!(state.handle_pipe(message), vec![]);
    state.handle(Event::TabUpdate(vec![tab(1, 0, true)]));
    state.handle(panes(&[(0, &[10])]));
    state.handle(cd(10, "/src/api"));
    assert_eq!(state.handle(granted()), vec![rename(1, "* api")]);
}

#[test]
fn a_tab_is_meant_by_number_or_as_the_active_one() {
    let state = named(&[]);
    assert_eq!(state.resolve_tab_id(&text_map(&[])), Some(1));
    assert_eq!(state.resolve_tab_id(&text_map(&[("tab_id", "active")])), Some(1));
    assert_eq!(state.resolve_tab_id(&text_map(&[("tab_id", "2")])), Some(2));
    assert_eq!(state.resolve_tab_id(&text_map(&[("tab_id", "+2")])), Some(2));
    assert_eq!(state.resolve_tab_id(&text_map(&[("tab_id", "007")])), Some(7));
    let max = usize::MAX.to_string();
    assert_eq!(state.resolve_tab_id(&text_map(&[("tab_id", &max)])), Some(usize::MAX));
    for wrong in ["", "-1", "Active", "1 ", "99999999999999999999999", "x"] {
        assert_eq!(state.resolve_tab_id(&text_map(&[("tab_id", wrong)])), None, "{wrong:?}");
    }
}

#[test]
fn a_message_about_no_tab_changes_nothing() {
    let mut state = named(&[]);
    for name in ["set_prefix", "set_suffix", "clear_prefix", "clear_suffix", "clear_all"] {
        let message = pipe(name, &[("value", "!"), ("tab_id", "none")]);
        assert_eq!(state.handle_pipe(message), vec![]);
    }
    assert_eq!(state.compose_rendered_name(1, "api"), "api");
}

#[test]
fn the_first_name_is_always_sent() {
    let mut state = two_tabs(&[("git_detection", "false")]);
    assert_eq!(state.answer_query(10, Some(cwd("/src/api"))), vec![rename(1, "api")]);
}
