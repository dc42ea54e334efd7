//! Git's answers: when git is asked, who is named by an answer, and what is remembered.

use zellij_tab_namer::cwd::Cwd;
use zellij_tab_namer::events::{
    Effect, Event, PaneId, PaneInfo, PaneManifest, PermissionStatus, PipeMessage, PipeSource,
    TabInfo,
};
use zellij_tab_namer::git::{git_root_answer, is_ancestor};
use zellij_tab_namer::maps::TextMap;
use zellij_tab_namer::model::MAX_GIT_CACHE_ENTRIES;
use zellij_tab_namer::state::State;

fn text_map(entries: &[(&str, &str)]) -> TextMap<String> {
    let mut map = TextMap::new();
    for (key, value) in entries {
        map.insert(key.to_string(), value.to_string());
    }
    map
}

fn cwd(path: &str) -> Cwd {
    Cwd::new(path.as_bytes().to_vec())
}

fn tab(id: usize, position: usize, active: bool) -> TabInfo {
    TabInfo {
        tab_id: id,
        position,
        active,
        ..Default::default()
    }
}

fn pane(id: u32) -> PaneInfo {
    PaneInfo {
        id,
        ..Default::default()
    }
}

fn panes(entries: &[(usize, &[u32])]) -> Event {
    let panes = entries
        .iter()
        .map(|(position, ids)| (*position, ids.iter().map(|id| pane(*id)).collect()))
        .collect();
    Event::PaneUpdate(PaneManifest { panes })
}

fn cd(pane_id: u32, path: &str) -> Event {
    Event::CwdChanged(PaneId::Terminal(pane_id), cwd(path))
}

fn git_result(exit_code: Option<i32>, stdout: &str, path: &str) -> Event {
    Event::RunCommandResult(
        exit_code,
        stdout.as_bytes().to_vec(),
        text_map(&[("cwd", path)]),
    )
}

fn root(stdout: &str, path: &str) -> Event {
    git_result(Some(0), stdout, path)
}

fn granted() -> Event {
    Event::PermissionRequestResult(PermissionStatus::Granted)
}

fn pipe(name: &str, args: &[(&str, &str)]) -> PipeMessage {
    PipeMessage {
        source: PipeSource::Keybind,
        name: name.to_string(),
        args: text_map(args),
    }
}

fn rename(tab_id: usize, name: &str) -> Effect {
    Effect::RenameTab {
        tab_id,
        name: name.to_string(),
    }
}

fn ask_git(path: &str) -> Effect {
    Effect::RunGit {
        cwd: cwd(path),
        context: text_map(&[("cwd", path)]),
    }
}

/// Permissions granted; tab 1 at position 0 holds pane 10 and is active, tab 2 at position 1 holds
/// pane 20.
fn two_tabs(config: &[(&str, &str)]) -> State {
    let mut state = State::default();
    state.init(text_map(config), "/home/u".to_string());
    state.handle(granted());
    state.handle(Event::TabUpdate(vec![tab(1, 0, true), tab(2, 1, false)]));
    state.handle(panes(&[(0, &[10]), (1, &[20])]));
    state
}

#[test]
fn a_root_names_every_waiter_in_its_decorations() {
    let mut state = two_tabs(&[]);
    state.handle_pipe(pipe("set_prefix", &[("value", "* "), ("tab_id", "2")]));
    assert_eq!(state.handle(cd(10, "/src/repo/a")), vec![ask_git("/src/repo/a")]);
    assert_eq!(state.handle(cd(20, "/src/repo/a")), vec![]);
    assert_eq!(
        state.handle(root("/src/repo\n", "/src/repo/a")),
        vec![rename(1, "repo"), rename(2, "* repo")]
    );
}

#[test]
fn a_failure_of_git_names_the_folder() {
    for answer in [
        git_result(Some(128), "fatal: not a git repository\n", "/srv/data"),
        git_result(None, "/srv\n", "/srv/data"),
        git_result(Some(0), " \n\t", "/srv/data"),
    ] {
        let mut state = two_tabs(&[]);
        state.handle(cd(10, "/srv/data"));
        assert_eq!(state.handle(answer), vec![rename(1, "data")]);
        assert!(state.not_git.contains("/srv/data"));
    }
}

#[test]
fn home_outside_git_is_a_tilde() {
    let mut state = two_tabs(&[]);
    state.handle(cd(10, "/home/u"));
    assert_eq!(
        state.handle(git_result(Some(128), "", "/home/u")),
        vec![rename(1, "~")]
    );
}

#[test]
fn a_late_answer_leaves_a_tab_that_moved_on() {
    let mut state = two_tabs(&[]);
    state.handle(cd(20, "/known"));
    assert_eq!(state.handle(root("/known", "/known")), vec![rename(2, "known")]);

    // tab 1 asks about one directory and moves to one that is known already
    state.handle(cd(10, "/slow"));
    assert_eq!(state.handle(cd(10, "/known")), vec![rename(1, "known")]);
    assert_eq!(state.handle(root("/slow", "/slow")), vec![]);

    // and to one that is not: it keeps its name until its own answer comes
    state.handle(cd(10, "/slower"));
    state.handle(cd(10, "/slowest"));
    assert_eq!(state.handle(root("/slower", "/slower")), vec![]);
    assert_eq!(state.handle(root("/slowest", "/slowest")), vec![rename(1, "slowest")]);
}

#[test]
fn an_answer_names_waiters_only() {
    let mut state = two_tabs(&[]);
    state.handle(cd(10, "/a"));
    state.handle(cd(20, "/b"));
    assert_eq!(state.handle(root("/a", "/a")), vec![rename(1, "a")]);
    assert_eq!(state.base_names.contains_key(2), false);
}

#[test]
fn an_answer_is_remembered() {
    let mut state = two_tabs(&[]);
    state.handle(cd(10, "/src/repo/deep/er"));
    state.handle(root("/src/repo", "/src/repo/deep/er"));
    assert_eq!(state.handle(cd(20, "/src/repo/deep/er")), vec![rename(2, "repo")]);

    state.handle(cd(10, "/srv/data"));
    state.handle(git_result(Some(128), "", "/srv/data"));
    assert_eq!(state.handle(cd(20, "/srv/data")), vec![rename(2, "data")]);

    // a directory between the two is not the one that was asked about
    assert_eq!(state.handle(cd(20, "/src/repo/deep")), vec![ask_git("/src/repo/deep")]);
    // while the root itself is known
    assert_eq!(state.handle(cd(10, "/src/repo")), vec![rename(1, "repo")]);
}

#[test]
fn an_alias_is_named_after_its_root() {
    let mut state = two_tabs(&[]);
    state.handle(cd(10, "/link"));
    assert_eq!(state.handle(root("/real/place\n", "/link")), vec![rename(1, "place")]);
    assert_eq!(state.find_git_root("/link"), Some("place".to_string()));
    assert_eq!(state.find_git_root("/real/place/below"), Some("place".to_string()));
    assert_eq!(state.find_git_root("/elsewhere"), None);
    assert!(state.can_trust_git_root("/link"));
    assert!(state.can_trust_git_root("/real/place"));
    assert!(!state.can_trust_git_root("/real/place/below"));
}

#[test]
fn a_nearer_root_that_is_known_keeps_its_say() {
    let mut state = two_tabs(&[]);
    state.handle(cd(10, "/a/b"));
    state.handle(root("/a/b", "/a/b"));
    state.handle(cd(20, "/a/b/c"));
    assert_eq!(state.handle(root("/a", "/a/b/c")), vec![rename(2, "b")]);
}

#[test]
fn git_is_asked_once_per_directory() {
    let mut state = two_tabs(&[]);
    assert_eq!(state.handle(cd(10, "/x")), vec![ask_git("/x")]);
    assert_eq!(state.handle(cd(20, "/x")), vec![]);
    assert_eq!(state.handle(cd(10, "/x")), vec![]);
    // every tab that waits is gone: the next one asks again
    state.handle(Event::TabUpdate(vec![tab(3, 0, true)]));
    state.handle(panes(&[(0, &[30])]));
    assert_eq!(state.handle(cd(30, "/x")), vec![ask_git("/x")]);
}

#[test]
fn git_is_not_asked_when_detection_is_off() {
    let mut state = two_tabs(&[("git_detection", "false")]);
    assert_eq!(state.handle(cd(10, "/src/repo")), vec![rename(1, "repo")]);
    assert_eq!(state.handle(cd(20, "/home/u")), vec![rename(2, "~")]);
    assert!(state.pending_git.is_empty());
    // any other value leaves it on
    let mut state = two_tabs(&[("git_detection", "no")]);
    assert_eq!(state.handle(cd(10, "/src/repo")), vec![ask_git("/src/repo")]);
}

/// Two entries per directory.
fn visit(state: &mut State, count: usize) {
    for i in 0..count {
        let path = format!("/p/{i}");
        state.handle(cd(10, &path));
        state.handle(root(&path, &path));
    }
}

#[test]
fn full_caches_are_cleared_and_keep_the_fresh_answer() {
    let mut state = two_tabs(&[]);
    visit(&mut state, MAX_GIT_CACHE_ENTRIES / 2);
    assert_eq!(state.git_cache_len(), MAX_GIT_CACHE_ENTRIES);
    state.handle(cd(20, "/fresh"));
    assert_eq!(state.handle(root("/fresh", "/fresh")), vec![rename(2, "fresh")]);
    assert_eq!(state.git_cache_len(), 2);
    // a forgotten answer is asked for again
    assert_eq!(state.handle(cd(10, "/p/0")), vec![ask_git("/p/0")]);
}

/// One entry short of the limit.
fn nearly_full() -> State {
    let mut state = two_tabs(&[]);
    visit(&mut state, MAX_GIT_CACHE_ENTRIES / 2 - 1);
    state.handle(cd(10, "/none"));
    state.handle(git_result(Some(128), "", "/none"));
    assert_eq!(state.git_cache_len(), MAX_GIT_CACHE_ENTRIES - 1);
    state
}

#[test]
fn caches_are_cleared_for_an_answer_that_would_cross_their_limit() {
    let mut state = nearly_full();
    state.handle(cd(10, "/link"));
    assert_eq!(state.handle(root("/real", "/link")), vec![rename(1, "real")]);
    assert_eq!(state.git_cache_len(), 3);
    assert!(state.git_roots.contains("/real"));
    assert!(state.root_aliases.contains_key("/link"));
    assert!(state.resolved_cwds.contains("/link"));

    let mut state = nearly_full();
    state.handle(cd(10, "/next"));
    assert_eq!(state.handle(root("/next", "/next")), vec![rename(1, "next")]);
    assert_eq!(state.git_cache_len(), 2);
}

#[test]
fn caches_are_kept_for_an_answer_that_just_fits() {
    let mut state = nearly_full();
    state.handle(cd(10, "/p/0/below"));
    assert_eq!(state.handle(root("/p/0", "/p/0/below")), vec![rename(1, "0")]);
    assert_eq!(state.git_cache_len(), MAX_GIT_CACHE_ENTRIES);
    assert_eq!(state.handle(cd(20, "/p/7")), vec![rename(2, "7")]);

    let mut state = nearly_full();
    state.handle(cd(10, "/no"));
    assert_eq!(state.handle(git_result(Some(128), "", "/no")), vec![rename(1, "no")]);
    assert_eq!(state.git_cache_len(), MAX_GIT_CACHE_ENTRIES);
    // an answer that is known already adds nothing
    let mut state = nearly_full();
    state.handle(root("/p/0", "/p/0"));
    assert_eq!(state.git_cache_len(), MAX_GIT_CACHE_ENTRIES - 1);
}

#[test]
fn caches_never_pass_their_limit() {
    let mut state = two_tabs(&[]);
    for i in 0..MAX_GIT_CACHE_ENTRIES {
        let path = format!("/p/{i}");
        state.handle(cd(10, &path));
        state.handle(match i % 3 {
            0 => root(&format!("/real/{i}"), &path),
            1 => root(&path, &path),
            _ => git_result(Some(128), "", &path),
        });
        assert!(state.git_cache_len() <= MAX_GIT_CACHE_ENTRIES);
    }
}

#[test]
fn only_answers_change_the_caches() {
    let mut state = two_tabs(&[]);
    visit(&mut state, 3);
    assert_eq!(state.git_cache_len(), 6);
    state.handle(cd(10, "/elsewhere"));
    state.handle(Event::TabUpdate(vec![tab(7, 0, true)]));
    state.handle(panes(&[(0, &[70])]));
    state.handle(Event::Other);
    assert_eq!(state.git_cache_len(), 6);
}

#[test]
fn output_that_is_not_utf8_is_read_with_replacements() {
    let mut state = two_tabs(&[]);
    let raw = b"/tmp/\xff".to_vec();
    let here = Cwd::new(raw.clone());
    assert_eq!(here.text(), "/tmp/\u{fffd}");
    assert_eq!(here.raw(), &raw);
    // git runs in the directory as it is, and is told apart by its text
    assert_eq!(
        state.handle(Event::CwdChanged(PaneId::Terminal(10), Cwd::new(raw.clone()))),
        vec![Effect::RunGit {
            cwd: Cwd::new(raw),
            context: text_map(&[("cwd", "/tmp/\u{fffd}")]),
        }]
    );
    assert_eq!(
        state.handle(Event::RunCommandResult(
            Some(0),
            b"/tmp/\xfe\xff\n".to_vec(),
            text_map(&[("cwd", "/tmp/\u{fffd}")]),
        )),
        vec![rename(1, "\u{fffd}\u{fffd}")]
    );
}

#[test]
fn the_answer_is_what_git_printed_without_white_space_around_it() {
    assert_eq!(git_root_answer(Some(0), "/a b\r\n"), Some("/a b".to_string()));
    assert_eq!(git_root_answer(Some(0), "\u{2003}/a\u{a0}"), Some("/a".to_string()));
    assert_eq!(git_root_answer(Some(0), ""), None);
    assert_eq!(git_root_answer(Some(1), "/a"), None);
    assert_eq!(git_root_answer(None, "/a"), None);
}

#[test]
fn an_ancestor_is_the_path_or_one_of_its_parents() {
    assert!(is_ancestor("/a/b", "/a/b"));
    assert!(is_ancestor("/a/b", "/a"));
    assert!(is_ancestor("/a/b", "/"));
    assert!(!is_ancestor("/a/b", "/a/"));
    assert!(!is_ancestor("/ab", "/a"));
    assert!(!is_ancestor("/a", "/a/b"));
}
