//! Laws of events as a whole: permissions, pipe messages, and how a tab comes by its name.

use crate::cwd::{utf8_lossy, CwdView};
use crate::events::{
    EffectView, EventType, EventView, PaneId, PermissionStatus, PermissionType, PipeMessageView,
    PipeSourceView,
};
use crate::laws::git::{
    law_no_root_names_every_waiter, law_root_names_every_waiter, nearer_root_known,
};
use crate::laws::replays::{lemma_told, told};
use crate::laws::reports::{lemma_replay_unplaced, lemma_replayed_pending, unplaced};
use crate::lists::{lemma_filter_all, lemma_filter_twice};
use crate::model::{not_about, Decoration, Model};
use crate::paths::basename_of;
use crate::text::trimmed;
use crate::validity::lemma_handle_keeps;
use vstd::prelude::*;

verus! {

// ── Permissions ────────────────────────────────────────────────────────────

/// Until permissions are granted nothing is done, and nothing is known of tabs and panes.
pub proof fn law_silent_until_granted(m: Model, event: EventView)
    requires
        m.inv(),
        !m.got_permissions,
        event != EventView::PermissionRequestResult(PermissionStatus::Granted),
    ensures
        m.handle(event).effects == m.effects,
        !m.handle(event).got_permissions,
        m.handle(event).knows_nothing(),
{
}

/// Of the snapshots that come before permissions are granted the latest of each kind is what
/// counts, and so is the latest directory of each terminal.
pub proof fn law_latest_before_grant_counts(m: Model, first: EventView, second: EventView)
    requires
        !m.got_permissions,
        match (first, second) {
            (EventView::TabUpdate(_), EventView::TabUpdate(_)) => true,
            (EventView::PaneUpdate(_), EventView::PaneUpdate(_)) => true,
            (
                EventView::CwdChanged(PaneId::Terminal(a), _),
                EventView::CwdChanged(PaneId::Terminal(b), _),
            ) => a == b,
            _ => false,
        },
    ensures
        m.handle(first).handle(second) == m.handle(second),
{
    match (first, second) {
        (
            EventView::CwdChanged(PaneId::Terminal(a), cwd),
            EventView::CwdChanged(PaneId::Terminal(b), _),
        ) => {
            let kept = m.buffered_cwds.filter(not_about(a));
            let list = kept.push((a, cwd));
            reveal(Seq::filter);
            assert(list.drop_last() =~= kept);
            lemma_filter_twice(
                m.buffered_cwds,
                not_about(a),
                not_about(a),
                not_about(a),
            );
            assert(list.filter(not_about(a)) == kept);
        },
        _ => {},
    }
}

/// The state once permissions are granted and nothing that was kept is gone through.
pub open spec fn granted_afresh(m: Model) -> Model {
    Model {
        got_permissions: true,
        buffered_tabs: None,
        buffered_panes: None,
        buffered_cwds: Seq::empty(),
        ..m
    }
}

/// What was kept, gone through as if it came now: the tabs, the directories, the panes.
pub open spec fn fed_what_was_kept(m: Model) -> Model {
    let with_tabs = match m.buffered_tabs {
        Some(tabs) => granted_afresh(m).handle(EventView::TabUpdate(tabs)),
        None => granted_afresh(m),
    };
    let with_cwds = told(with_tabs, m.buffered_cwds);
    match m.buffered_panes {
        Some(manifest) => with_cwds.handle(EventView::PaneUpdate(manifest)),
        None => with_cwds,
    }
}

/// Granting permissions has the effect that what was kept would have if it came now: the tabs
/// first, then the directories, then the panes.
pub proof fn law_granting_replays_what_was_kept(m: Model)
    requires
        m.inv(),
        !m.got_permissions,
    ensures
        m.handle(EventView::PermissionRequestResult(PermissionStatus::Granted))
            == fed_what_was_kept(m),
{
    let with_tabs = match m.buffered_tabs {
        Some(tabs) => granted_afresh(m).handle(EventView::TabUpdate(tabs)),
        None => granted_afresh(m),
    };
    let none = with_tabs.pane_to_tab;
    lemma_replay_unplaced(with_tabs, m.buffered_cwds);
    lemma_replayed_pending(with_tabs, m.buffered_cwds);
    lemma_filter_all(m.buffered_cwds, unplaced(none));
    lemma_told(with_tabs, m.buffered_cwds);
    let with_cwds = with_tabs.replay_cwds(m.buffered_cwds);
    let released = Model { got_permissions: true, ..m }.release_tabs().release_cwds();
    assert(released.pending_cwds =~= m.buffered_cwds);
    assert(Model { buffered_panes: None, ..released } =~= with_cwds);
}

/// A second word on permissions, the result of a command that is not ours, and events of other
/// kinds change nothing.
pub proof fn law_other_events_change_nothing(m: Model, event: EventView)
    requires
        m.got_permissions,
        match event {
            EventView::PermissionRequestResult(_) => true,
            EventView::Other => true,
            EventView::RunCommandResult(_, _, context) => !context.contains_key("cwd"@),
            _ => false,
        },
    ensures
        m.handle(event) == m,
{
}

/// Running commands, and their results, are asked for where git is to be asked, and then only.
pub proof fn law_commands_are_asked_for_with_git(
    m: Model,
    config: Map<Seq<char>, Seq<char>>,
    home_dir: Seq<char>,
)
    ensures
        ({
            let after = m.init(config, home_dir);
            let off = config.contains_key("git_detection"@) && config["git_detection"@]
                == "false"@;
            &&& after.git_detection == !off
            &&& after.effects == m.effects.push(
                EffectView::RequestPermissions(after.permissions()),
            ).push(EffectView::Subscribe(after.subscriptions()))
            &&& after.permissions().contains(PermissionType::RunCommands) == !off
            &&& after.subscriptions().contains(EventType::RunCommandResult) == !off
        }),
{
    let after = m.init(config, home_dir);
    let permissions = after.permissions();
    let events = after.subscriptions();
    if after.git_detection {
        assert(permissions[2] == PermissionType::RunCommands);
        assert(events[4] == EventType::RunCommandResult);
    }
}

// ── Pipe messages ──────────────────────────────────────────────────────────

/// A command line that sent a pipe message is let go before anything else is done, once; nobody
/// else is.
pub proof fn law_command_line_is_let_go(m: Model, message: PipeMessageView)
    ensures
        ({
            let after = m.handle_pipe(message);
            let sent = m.effects.len() as int;
            &&& message.source matches PipeSourceView::Cli(id) ==> {
                &&& sent < after.effects.len()
                &&& after.effects[sent] == EffectView::UnblockCliPipe(id)
            }
            &&& forall|k: int|
                sent <= k < after.effects.len() && #[trigger] after.effects[k] is UnblockCliPipe
                    ==> k == sent && message.source is Cli
        }),
{
    let unblocked = m.unblock(message.source);
    let after = m.handle_pipe(message);
    lemma_run_pipe_renames(unblocked, message.name, message.args);
    assert(after.effects.len() <= unblocked.effects.len() + 1);
}

/// What a pipe message asks for leads to one rename at most.
proof fn lemma_run_pipe_renames(m: Model, name: Seq<char>, args: Map<Seq<char>, Seq<char>>)
    ensures
        m.run_pipe(name, args).effects == m.effects || (m.run_pipe(name, args).effects
            == m.effects.push(m.run_pipe(name, args).effects.last()) && m.run_pipe(
            name,
            args,
        ).effects.last() is RenameTab),
{
    let value = if args.contains_key("value"@) {
        args["value"@]
    } else {
        Seq::empty()
    };
    match m.resolve_tab_id(args) {
        Some(tab_id) => {
            lemma_decorate_renames(m, tab_id, Decoration::Prefix, value);
            lemma_decorate_renames(m, tab_id, Decoration::Suffix, value);
            lemma_decorate_renames(m, tab_id, Decoration::Prefix, Seq::empty());
            lemma_decorate_renames(m, tab_id, Decoration::Suffix, Seq::empty());
        },
        None => {},
    }
}

proof fn lemma_decorate_renames(
    m: Model,
    tab_id: usize,
    decoration: Decoration,
    value: Seq<char>,
)
    ensures
        m.decorate(tab_id, decoration, value).effects == m.effects || (m.decorate(
            tab_id,
            decoration,
            value,
        ).effects == m.effects.push(m.decorate(tab_id, decoration, value).effects.last())
            && m.decorate(tab_id, decoration, value).effects.last() is RenameTab),
{
}

/// A pipe message with another name does nothing but let go of its command line.
pub proof fn law_unknown_pipe_does_nothing(m: Model, message: PipeMessageView)
    requires
        message.name != "set_prefix"@,
        message.name != "set_suffix"@,
        message.name != "clear_prefix"@,
        message.name != "clear_suffix"@,
        message.name != "clear_all"@,
    ensures
        m.handle_pipe(message) == m.unblock(message.source),
{
}

// ── From a directory to a name ─────────────────────────────────────────────

/// The report of a terminal's directory.
pub open spec fn report(pane_id: u32, cwd: CwdView) -> EventView {
    EventView::CwdChanged(PaneId::Terminal(pane_id), cwd)
}

/// The result of asking git about a directory.
pub open spec fn git_result(exit_code: Option<i32>, stdout: Seq<u8>, cwd: CwdView) -> EventView {
    EventView::RunCommandResult(exit_code, stdout, map!["cwd"@ => cwd.text])
}

/// Whether a terminal's tab is known, and git is to be asked about the directory it reports or is
/// being asked already.
pub open spec fn needs_git(m: Model, pane_id: u32, cwd: CwdView) -> bool {
    &&& m.got_permissions
    &&& m.git_detection
    &&& m.pane_to_tab.contains_key(pane_id)
    &&& cwd.text.len() > 0
    &&& m.pending_git.contains_key(cwd.text) || m.cached_name(cwd.text) is None
}

/// The tab of a terminal that reports such a directory waits for the answer.
proof fn lemma_reporter_waits(m: Model, pane_id: u32, cwd: CwdView)
    requires
        m.inv(),
        needs_git(m, pane_id, cwd),
    ensures
        ({
            let asked = m.handle(report(pane_id, cwd)).drained();
            let tab_id = m.pane_to_tab[pane_id];
            &&& asked.inv()
            &&& asked.got_permissions
            &&& asked.waiters(cwd.text).contains(tab_id)
            &&& asked.tab_cwds[tab_id] == cwd
            &&& asked.home_dir == m.home_dir
            &&& asked.same_caches(m)
            &&& forall|name: Seq<char>| #[trigger]
                asked.compose_rendered_name(tab_id, name) == m.compose_rendered_name(tab_id, name)
        }),
{
    let asked = m.handle(report(pane_id, cwd)).drained();
    let tab_id = m.pane_to_tab[pane_id];
    lemma_handle_keeps(m, report(pane_id, cwd));
    if m.pending_git.contains_key(cwd.text) {
        let waiters = m.pending_git[cwd.text];
        assert(waiters.push(tab_id)[waiters.len() as int] == tab_id);
    } else {
        assert(seq![tab_id][0] == tab_id);
    }
}

/// Inside a repository a tab is named after it: the report of a directory that git is asked about,
/// and then git's answer, give the tab of the reporting terminal the name of the root, in its
/// decorations. Left out: answers that contradict a nearer root that is known already.
pub proof fn law_tab_is_named_after_its_repository(
    m: Model,
    pane_id: u32,
    cwd: CwdView,
    stdout: Seq<u8>,
)
    requires
        m.inv(),
        needs_git(m, pane_id, cwd),
        trimmed(utf8_lossy(stdout)).len() > 0,
        !nearer_root_known(
            m.bound_git_caches(cwd.text, Some(trimmed(utf8_lossy(stdout)))).git_roots,
            cwd.text,
            trimmed(utf8_lossy(stdout)),
        ),
    ensures
        ({
            let asked = m.handle(report(pane_id, cwd)).drained();
            let named = asked.handle(git_result(Some(0i32), stdout, cwd));
            let tab_id = m.pane_to_tab[pane_id];
            let name = basename_of(trimmed(utf8_lossy(stdout)));
            &&& named.base_names.contains_key(tab_id)
            &&& named.base_names[tab_id] == name
            &&& named.rendered_names[tab_id] == m.compose_rendered_name(tab_id, name)
        }),
{
    let asked = m.handle(report(pane_id, cwd)).drained();
    let root = trimmed(utf8_lossy(stdout));
    lemma_reporter_waits(m, pane_id, cwd);
    assert(asked.record_verdict(cwd.text, Some(root)).git_cache_len() == m.record_verdict(
        cwd.text,
        Some(root),
    ).git_cache_len());
    law_root_names_every_waiter(asked, cwd.text, root, m.pane_to_tab[pane_id]);
}

/// Outside repositories a tab is named after its folder, `~` for home: where git fails, or prints
/// nothing, the tab of the reporting terminal gets the name of the directory, in its decorations.
pub proof fn law_tab_is_named_after_its_folder(
    m: Model,
    pane_id: u32,
    cwd: CwdView,
    exit_code: Option<i32>,
    stdout: Seq<u8>,
)
    requires
        m.inv(),
        needs_git(m, pane_id, cwd),
        exit_code != Some(0i32) || trimmed(utf8_lossy(stdout)).len() == 0,
    ensures
        ({
            let asked = m.handle(report(pane_id, cwd)).drained();
            let named = asked.handle(git_result(exit_code, stdout, cwd));
            let tab_id = m.pane_to_tab[pane_id];
            let name = m.derive_name(cwd.text);
            &&& named.base_names.contains_key(tab_id)
            &&& named.base_names[tab_id] == name
            &&& named.rendered_names[tab_id] == m.compose_rendered_name(tab_id, name)
        }),
{
    let asked = m.handle(report(pane_id, cwd)).drained();
    lemma_reporter_waits(m, pane_id, cwd);
    law_no_root_names_every_waiter(asked, cwd.text, m.pane_to_tab[pane_id]);
}

/// Without git detection, and for a directory that the caches know, a tab is named at once.
pub proof fn law_tab_is_named_at_once(m: Model, pane_id: u32, cwd: CwdView)
    requires
        m.got_permissions,
        m.pane_to_tab.contains_key(pane_id),
        cwd.text.len() > 0,
        !m.git_detection || (!m.pending_git.contains_key(cwd.text) && m.cached_name(
            cwd.text,
        ) is Some),
    ensures
        ({
            let named = m.handle(report(pane_id, cwd));
            let tab_id = m.pane_to_tab[pane_id];
            let name = if m.git_detection {
                m.cached_name(cwd.text)->0
            } else {
                m.derive_name(cwd.text)
            };
            &&& named.base_names.contains_key(tab_id)
            &&& named.base_names[tab_id] == name
            &&& named.rendered_names[tab_id] == m.compose_rendered_name(tab_id, name)
        }),
{
}

/// No tab is left behind: one whose directory is known has a name, or waits for git's answer on
/// that directory.
pub proof fn law_no_tab_is_left_behind(m: Model, event: EventView, tab_id: usize)
    requires
        m.inv(),
        m.handle(event).tab_cwds.contains_key(tab_id),
    ensures
        m.handle(event).base_names.contains_key(tab_id) || m.handle(event).waiters(
            m.handle(event).tab_cwds[tab_id].text,
        ).contains(tab_id),
{
    lemma_handle_keeps(m, event);
    assert(m.handle(event).settled(tab_id));
}

} // verus!
