//! Laws of git's answers: when git is asked, who is named by an answer, and what is remembered.

use crate::cwd::{utf8_lossy, CwdView};
use crate::events::{EffectView, EventView, ManifestView, PaneId, PaneInfo, PermissionStatus};
use crate::frames::{lemma_discover_frame, lemma_refresh_counts_frame, lemma_replay_frame};
use crate::laws::paths::law_ancestors_are_ever_shorter_prefixes;
use crate::model::{
    discovery_pane, first_root, git_root_of, tabs_with_new_terminals, Model, MAX_GIT_CACHE_ENTRIES,
};
use crate::paths::{ancestors_of, basename_of};
use crate::validity::{
    lemma_answered_is_known, lemma_handle_keeps, lemma_resolve_waiters_keeps, lemma_resolved,
    lemma_take_verdict_keeps,
};
use vstd::prelude::*;

verus! {

// ── Who is named by an answer ──────────────────────────────────────────────

/// Whether a root is an ancestor of a directory, and another that is known already stands nearer to
/// it.
pub open spec fn nearer_root_known(roots: Set<Seq<char>>, cwd: Seq<char>, root: Seq<char>) -> bool {
    &&& ancestors_of(cwd).contains(root)
    &&& exists|i: int|
        0 <= i < ancestors_of(cwd).len() && roots.contains(#[trigger] ancestors_of(cwd)[i])
            && ancestors_of(cwd)[i].len() > root.len()
}

/// The first known root of a list that gets shorter is `root`, where nothing longer is known.
proof fn lemma_first_root_is(roots: Set<Seq<char>>, paths: Seq<Seq<char>>, root: Seq<char>)
    requires
        roots.contains(root),
        paths.contains(root),
        forall|i: int, j: int|
            #![trigger paths[i], paths[j]]
            0 <= i < j < paths.len() ==> paths[j].len() < paths[i].len(),
        forall|i: int|
            0 <= i < paths.len() && roots.contains(#[trigger] paths[i]) ==> paths[i].len()
                <= root.len(),
    ensures
        first_root(roots, paths) == Some(root),
    decreases paths.len(),
{
    let k = choose|k: int| 0 <= k < paths.len() && paths[k] == root;
    if roots.contains(paths[0]) {
        if k > 0 {
            assert(paths[k].len() < paths[0].len());
        }
    } else {
        let rest = paths.skip(1);
        assert(rest[k - 1] == root);
        assert forall|i: int, j: int|
            #![trigger rest[i], rest[j]]
            0 <= i < j < rest.len() implies rest[j].len() < rest[i].len() by {
            assert(rest[i] == paths[i + 1] && rest[j] == paths[j + 1]);
        }
        assert forall|i: int| 0 <= i < rest.len() && roots.contains(#[trigger] rest[i]) implies
            rest[i].len() <= root.len() by {
            assert(rest[i] == paths[i + 1]);
        }
        lemma_first_root_is(roots, rest, root);
    }
}

/// The caches name a directory after the root that git has just answered with, unless they had
/// another answer for the directory or knew a nearer root.
pub proof fn law_answer_names_the_directory(m: Model, cwd: Seq<char>, root: Seq<char>)
    requires
        !m.not_git.contains(cwd),
        !m.root_aliases.contains_key(cwd),
        !nearer_root_known(m.git_roots, cwd, root),
    ensures
        m.record_verdict(cwd, Some(root)).cached_name(cwd) == Some(basename_of(root)),
{
    let after = m.record_verdict(cwd, Some(root));
    let paths = ancestors_of(cwd);
    if paths.contains(root) {
        law_ancestors_are_ever_shorter_prefixes(cwd);
        assert forall|i: int| 0 <= i < paths.len() && after.git_roots.contains(
            #[trigger] paths[i],
        ) implies paths[i].len() <= root.len() by {
            if paths[i] != root {
                assert(m.git_roots.contains(ancestors_of(cwd)[i]));
            }
        }
        lemma_first_root_is(after.git_roots, paths, root);
    }
}

/// A tab that waits for git's answer on the directory it is in is named after the root that git
/// answers with, and shows that name in its decorations; so is every other tab that waits for the
/// same answer. Left out: answers that contradict a nearer root that is known already.
pub proof fn law_root_names_every_waiter(m: Model, cwd: Seq<char>, root: Seq<char>, tab_id: usize)
    requires
        m.inv(),
        m.waiters(cwd).contains(tab_id),
        m.tab_cwds[tab_id].text == cwd,
        !nearer_root_known(m.bound_git_caches(cwd, Some(root)).git_roots, cwd, root),
    ensures
        m.on_git_verdict(cwd, Some(root)).base_names.contains_key(tab_id),
        m.on_git_verdict(cwd, Some(root)).base_names[tab_id] == basename_of(root),
        m.on_git_verdict(cwd, Some(root)).rendered_names[tab_id] == m.compose_rendered_name(
            tab_id,
            basename_of(root),
        ),
{
    let bounded = m.without_waiters(cwd).bound_git_caches(cwd, Some(root));
    assert(bounded.git_roots == m.bound_git_caches(cwd, Some(root)).git_roots);
    let recorded = m.take_verdict(cwd, Some(root));
    lemma_take_verdict_keeps(m, cwd, Some(root));
    law_answer_names_the_directory(bounded, cwd, root);
    lemma_waits_somewhere(m, cwd, tab_id);
    lemma_resolved(recorded, m.waiters(cwd), tab_id);
}

/// A tab that waits for git's answer on the directory it is in is named after the directory where
/// git answers that it is in no repository, and shows that name in its decorations.
pub proof fn law_no_root_names_every_waiter(m: Model, cwd: Seq<char>, tab_id: usize)
    requires
        m.inv(),
        m.waiters(cwd).contains(tab_id),
        m.tab_cwds[tab_id].text == cwd,
    ensures
        m.on_git_verdict(cwd, None).base_names.contains_key(tab_id),
        m.on_git_verdict(cwd, None).base_names[tab_id] == m.derive_name(cwd),
        m.on_git_verdict(cwd, None).rendered_names[tab_id] == m.compose_rendered_name(
            tab_id,
            m.derive_name(cwd),
        ),
{
    lemma_take_verdict_keeps(m, cwd, None);
    lemma_waits_somewhere(m, cwd, tab_id);
    lemma_resolved(m.take_verdict(cwd, None), m.waiters(cwd), tab_id);
}

/// Who waits is in some directory.
proof fn lemma_waits_somewhere(m: Model, cwd: Seq<char>, tab_id: usize)
    requires
        m.waiters_inv(),
        m.waiters(cwd).contains(tab_id),
    ensures
        m.tab_cwds.contains_key(tab_id),
{
    let waiters = m.pending_git[cwd];
    let i = choose|i: int| 0 <= i < waiters.len() && waiters[i] == tab_id;
    assert(m.tab_cwds.contains_key(m.pending_git[cwd][i]));
}

/// An answer that comes late does not name a tab that has moved on: the tab gets the name that the
/// caches have for the directory it is in now, or keeps the one it has.
pub proof fn law_late_answer_leaves_moved_tabs(
    m: Model,
    cwd: Seq<char>,
    root: Option<Seq<char>>,
    tab_id: usize,
)
    requires
        m.inv(),
        m.tab_cwds.contains_key(tab_id),
        m.tab_cwds[tab_id].text != cwd,
    ensures
        ({
            let after = m.on_git_verdict(cwd, root);
            let name = m.take_verdict(cwd, root).cached_name(m.tab_cwds[tab_id].text);
            ||| name is Some && after.base_names.contains_key(tab_id) && after.base_names[tab_id]
                == name->0
            ||| after.base_names.contains_key(tab_id) == m.base_names.contains_key(tab_id)
                && after.base_names[tab_id] == m.base_names[tab_id]
                && after.rendered_names.contains_key(tab_id) == m.rendered_names.contains_key(
                tab_id,
            ) && after.rendered_names[tab_id] == m.rendered_names[tab_id]
        }),
{
    lemma_take_verdict_keeps(m, cwd, root);
    lemma_resolved(m.take_verdict(cwd, root), m.waiters(cwd), tab_id);
}

/// An answer changes the names of the tabs that waited for it alone.
pub proof fn law_answer_names_waiters_only(
    m: Model,
    cwd: Seq<char>,
    root: Option<Seq<char>>,
    tab_id: usize,
)
    requires
        m.inv(),
        !m.waiters(cwd).contains(tab_id),
    ensures
        m.on_git_verdict(cwd, root).base_names.contains_key(tab_id) == m.base_names.contains_key(
            tab_id,
        ),
        m.on_git_verdict(cwd, root).base_names[tab_id] == m.base_names[tab_id],
        m.on_git_verdict(cwd, root).rendered_names.contains_key(tab_id)
            == m.rendered_names.contains_key(tab_id),
        m.on_git_verdict(cwd, root).rendered_names[tab_id] == m.rendered_names[tab_id],
{
    lemma_take_verdict_keeps(m, cwd, root);
    lemma_resolved(m.take_verdict(cwd, root), m.waiters(cwd), tab_id);
}

/// A directory, once git has answered for it, is known: a tab that enters it later is named at once
/// and git is not asked again.
pub proof fn law_answer_is_remembered(
    m: Model,
    cwd: CwdView,
    root: Option<Seq<char>>,
    tab_id: usize,
)
    requires
        m.inv(),
        m.git_detection,
        cwd.text.len() > 0,
    ensures
        ({
            let answered = m.on_git_verdict(cwd.text, root);
            let entered = answered.enter_cwd(tab_id, cwd);
            &&& answered.cached_name(cwd.text) is Some
            &&& entered.base_names.contains_key(tab_id)
            &&& entered.base_names[tab_id] == answered.cached_name(cwd.text)->0
            &&& entered.pending_git == answered.pending_git
            &&& forall|c: Seq<char>| #[trigger]
                git_queries(entered.effects, c) == git_queries(answered.effects, c)
        }),
{
    let recorded = m.take_verdict(cwd.text, root);
    let answered = m.on_git_verdict(cwd.text, root);
    lemma_take_verdict_keeps(m, cwd.text, root);
    lemma_answered_is_known(
        m.without_waiters(cwd.text).bound_git_caches(cwd.text, root),
        cwd.text,
        root,
    );
    lemma_resolve_waiters_keeps(recorded, m.waiters(cwd.text));
    assert(answered.cached_name(cwd.text) == recorded.cached_name(cwd.text));
    lemma_asks_enter(answered, tab_id, cwd);
}

/// A directory that no answer is known for, nor awaited, is asked about, even where it lies under a
/// root that is known: a nearer one may lie between. Until the answer comes the tab keeps its name.
pub proof fn law_nested_directory_is_asked_about(m: Model, tab_id: usize, cwd: CwdView)
    requires
        m.git_detection,
        cwd.text.len() > 0,
        !m.pending_git.contains_key(cwd.text),
        !m.not_git.contains(cwd.text),
        !m.can_trust_git_root(cwd.text),
    ensures
        m.enter_cwd(tab_id, cwd).effects == m.effects.push(
            EffectView::RunGit { cwd, context: map!["cwd"@ => cwd.text] },
        ),
        m.enter_cwd(tab_id, cwd).pending_git == m.pending_git.insert(cwd.text, seq![tab_id]),
        m.enter_cwd(tab_id, cwd).base_names == m.base_names,
        m.enter_cwd(tab_id, cwd).rendered_names == m.rendered_names,
{
}

// ── How often git is asked ─────────────────────────────────────────────────

/// How many of the effects ask git about a directory.
pub open spec fn git_queries(effects: Seq<EffectView>, cwd: Seq<char>) -> nat
    decreases effects.len(),
{
    if effects.len() == 0 {
        0
    } else {
        git_queries(effects.drop_last(), cwd) + match effects.last() {
            EffectView::RunGit { cwd: asked, context: _ } => if asked.text == cwd {
                1nat
            } else {
                0
            },
            _ => 0,
        }
    }
}

/// One where a directory is waited for in the later state alone, else nothing.
pub open spec fn newly_awaited(before: Model, after: Model, cwd: Seq<char>) -> nat {
    if after.pending_git.contains_key(cwd) && !before.pending_git.contains_key(cwd) {
        1
    } else {
        0
    }
}

/// From one state to a later one git is asked once about a directory that is waited for anew, and
/// else not; and nobody stops waiting for it.
pub open spec fn asks_once_about(before: Model, after: Model, cwd: Seq<char>) -> bool {
    &&& before.pending_git.contains_key(cwd) ==> after.pending_git.contains_key(cwd)
    &&& git_queries(after.effects, cwd) == git_queries(before.effects, cwd) + newly_awaited(
        before,
        after,
        cwd,
    )
}

/// The same of every directory.
pub open spec fn asks_once(before: Model, after: Model) -> bool {
    forall|cwd: Seq<char>| #[trigger] asks_once_about(before, after, cwd)
}

/// From one state to a later one git is not asked.
pub open spec fn asks_nothing(before: Model, after: Model) -> bool {
    forall|cwd: Seq<char>|
        #![trigger git_queries(after.effects, cwd)]
        git_queries(after.effects, cwd) == git_queries(before.effects, cwd)
}

proof fn lemma_push_query(effects: Seq<EffectView>, effect: EffectView, cwd: Seq<char>)
    ensures
        git_queries(effects.push(effect), cwd) == git_queries(effects, cwd) + match effect {
            EffectView::RunGit { cwd: asked, context: _ } => if asked.text == cwd {
                1nat
            } else {
                0
            },
            _ => 0,
        },
{
    assert(effects.push(effect).drop_last() =~= effects);
}

proof fn lemma_refresh_asks_nothing(m: Model, tab_id: usize)
    ensures
        asks_nothing(m, m.refresh_tab_name(tab_id)),
{
    assert forall|cwd: Seq<char>| #[trigger]
        git_queries(m.refresh_tab_name(tab_id).effects, cwd) == git_queries(m.effects, cwd) by {
        lemma_push_query(
            m.effects,
            EffectView::RenameTab {
                tab_id,
                name: m.compose_rendered_name(tab_id, m.base_names[tab_id]),
            },
            cwd,
        );
    }
}

proof fn lemma_asks_enter(m: Model, tab_id: usize, cwd: CwdView)
    ensures
        asks_once(m, m.enter_cwd(tab_id, cwd)),
        !m.git_detection ==> asks_nothing(m, m.enter_cwd(tab_id, cwd)),
        m.cached_name(cwd.text) is Some ==> asks_nothing(m, m.enter_cwd(tab_id, cwd)),
{
    let entered = Model { tab_cwds: m.tab_cwds.insert(tab_id, cwd), ..m };
    let after = m.enter_cwd(tab_id, cwd);
    lemma_refresh_asks_nothing(
        Model {
            base_names: entered.base_names.insert(tab_id, m.derive_name(cwd.text)),
            ..entered
        },
        tab_id,
    );
    if m.cached_name(cwd.text) is Some {
        lemma_refresh_asks_nothing(
            Model {
                base_names: entered.base_names.insert(tab_id, m.cached_name(cwd.text)->0),
                ..entered
            },
            tab_id,
        );
    }
    assert forall|c: Seq<char>| #[trigger] asks_once_about(m, after, c) by {
        lemma_push_query(
            m.effects,
            EffectView::RunGit { cwd, context: map!["cwd"@ => cwd.text] },
            c,
        );
    }
}

proof fn lemma_asks_cwd_changed(m: Model, pane_id: PaneId, cwd: CwdView)
    ensures
        asks_once(m, m.on_cwd_changed(pane_id, cwd)),
        !m.git_detection ==> asks_nothing(m, m.on_cwd_changed(pane_id, cwd)),
        m.on_cwd_changed(pane_id, cwd).git_detection == m.git_detection,
{
    match pane_id {
        PaneId::Terminal(id) => {
            if m.pane_to_tab.contains_key(id) {
                lemma_asks_enter(m, m.pane_to_tab[id], cwd);
            }
        },
        PaneId::Plugin(_) => {},
    }
}

proof fn lemma_asks_replay(m: Model, cwds: Seq<(u32, CwdView)>)
    ensures
        asks_once(m, m.replay_cwds(cwds)),
        !m.git_detection ==> asks_nothing(m, m.replay_cwds(cwds)),
        m.replay_cwds(cwds).git_detection == m.git_detection,
    decreases cwds.len(),
{
    if cwds.len() > 0 {
        let before = m.replay_cwds(cwds.drop_last());
        let after = m.replay_cwds(cwds);
        lemma_asks_replay(m, cwds.drop_last());
        lemma_asks_cwd_changed(before, PaneId::Terminal(cwds.last().0), cwds.last().1);
        assert forall|c: Seq<char>| #[trigger] asks_once_about(m, after, c) by {
            assert(asks_once_about(m, before, c));
            assert(asks_once_about(before, after, c));
        }
        if !m.git_detection {
            assert forall|c: Seq<char>| #[trigger] git_queries(after.effects, c) == git_queries(
                m.effects,
                c,
            ) by {
                assert(git_queries(before.effects, c) == git_queries(m.effects, c));
            }
        }
    }
}

proof fn lemma_refresh_counts_asks_nothing(
    m: Model,
    manifest: ManifestView,
    before: Map<usize, usize>,
)
    ensures
        asks_nothing(m, m.refresh_counts(manifest, before)),
        m.refresh_counts(manifest, before).pending_git == m.pending_git,
        m.refresh_counts(manifest, before).git_detection == m.git_detection,
    decreases manifest.len(),
{
    if manifest.len() > 0 {
        let rest = m.refresh_counts(manifest.drop_last(), before);
        lemma_refresh_counts_asks_nothing(m, manifest.drop_last(), before);
        if m.index_to_id.contains_key(manifest.last().0) {
            lemma_refresh_asks_nothing(rest, m.index_to_id[manifest.last().0]);
        }
        assert forall|c: Seq<char>| #[trigger]
            git_queries(m.refresh_counts(manifest, before).effects, c) == git_queries(
            m.effects,
            c,
        ) by {
            assert(git_queries(rest.effects, c) == git_queries(m.effects, c));
        }
    }
}

proof fn lemma_discover_asks_nothing(m: Model, tabs: Seq<(usize, Seq<PaneInfo>)>)
    ensures
        asks_nothing(m, m.discover_all(tabs)),
        m.discover_all(tabs).pending_git == m.pending_git,
        m.discover_all(tabs).git_detection == m.git_detection,
    decreases tabs.len(),
{
    if tabs.len() > 0 {
        let rest = m.discover_all(tabs.drop_last());
        lemma_discover_asks_nothing(m, tabs.drop_last());
        assert forall|c: Seq<char>| #[trigger] git_queries(m.discover_all(tabs).effects, c)
            == git_queries(m.effects, c) by {
            assert(git_queries(rest.effects, c) == git_queries(m.effects, c));
            let pane = discovery_pane(
                rest.floating_visible.contains(tabs.last().0),
                tabs.last().1,
            );
            if pane is Some {
                lemma_push_query(rest.effects, EffectView::QueryPaneCwd { pane_id: pane->0 }, c);
            }
        }
    }
}

proof fn lemma_asks_pane_update(m: Model, manifest: ManifestView)
    ensures
        asks_once(m, m.on_pane_update(manifest)),
        !m.git_detection ==> asks_nothing(m, m.on_pane_update(manifest)),
        m.on_pane_update(manifest).git_detection == m.git_detection,
{
    let placed = m.place_panes(manifest);
    lemma_refresh_counts_asks_nothing(placed, manifest, m.tab_pane_counts);
    let followed = placed.follow_counts(manifest, m.tab_pane_counts);
    let cleared = Model { pending_cwds: Seq::empty(), ..followed };
    lemma_asks_replay(cleared, followed.pending_cwds);
    let kept = followed.replay_pending(manifest);
    let tabs = tabs_with_new_terminals(manifest, m.index_to_id, m.pane_to_tab);
    lemma_discover_asks_nothing(kept, tabs);
    let after = m.on_pane_update(manifest);
    assert(after.effects == kept.discover_all(tabs).effects);
    let replayed = cleared.replay_cwds(followed.pending_cwds);
    assert forall|c: Seq<char>| #[trigger] asks_once_about(m, after, c) by {
        assert(asks_once_about(cleared, replayed, c));
        assert(git_queries(after.effects, c) == git_queries(kept.effects, c));
        assert(git_queries(followed.effects, c) == git_queries(placed.effects, c));
    }
    if !m.git_detection {
        assert forall|c: Seq<char>| #[trigger] git_queries(after.effects, c) == git_queries(
            m.effects,
            c,
        ) by {
            assert(git_queries(replayed.effects, c) == git_queries(cleared.effects, c));
            assert(git_queries(followed.effects, c) == git_queries(placed.effects, c));
        }
    }
}

proof fn lemma_resolve_asks_nothing(m: Model, waiters: Seq<usize>)
    ensures
        asks_nothing(m, m.resolve_waiters(waiters)),
    decreases waiters.len(),
{
    if waiters.len() > 0 {
        let rest = m.resolve_waiters(waiters.drop_last());
        let last = waiters.last();
        lemma_resolve_asks_nothing(m, waiters.drop_last());
        let name = rest.cached_name(rest.tab_cwds[last].text);
        if name is Some {
            lemma_refresh_asks_nothing(
                Model { base_names: rest.base_names.insert(last, name->0), ..rest },
                last,
            );
        }
        assert forall|c: Seq<char>| #[trigger] git_queries(m.resolve_waiters(waiters).effects, c)
            == git_queries(m.effects, c) by {
            assert(git_queries(rest.effects, c) == git_queries(m.effects, c));
        }
    }
}

/// The state that an event's queries are counted from: tabs that are gone wait for nothing.
pub open spec fn still_waiting(m: Model, event: EventView) -> Model {
    match event {
        EventView::TabUpdate(tabs) => if m.got_permissions {
            m.place_tabs(tabs)
        } else {
            m
        },
        _ => m,
    }
}

/// At most one query to git is under way for each directory: an event makes git be asked about a
/// directory once at most, only where no tab that is still there waits for an answer on it, and the
/// directory is then waited for.
pub proof fn law_one_query_per_directory(m: Model, event: EventView, cwd: Seq<char>)
    requires
        m.inv(),
    ensures
        git_queries(m.handle(event).effects, cwd) <= git_queries(m.effects, cwd) + 1,
        git_queries(m.handle(event).effects, cwd) >= git_queries(m.effects, cwd),
        git_queries(m.handle(event).effects, cwd) > git_queries(m.effects, cwd) ==> {
            &&& m.handle(event).pending_git.contains_key(cwd)
            &&& !still_waiting(m, event).pending_git.contains_key(cwd)
        },
{
    lemma_queries_of_event(m, event, cwd);
}

/// Without git detection git is never asked.
pub proof fn law_git_is_not_asked_when_off(m: Model, event: EventView, cwd: Seq<char>)
    requires
        m.inv(),
        !m.git_detection,
    ensures
        git_queries(m.handle(event).effects, cwd) == git_queries(m.effects, cwd),
{
    lemma_queries_of_event(m, event, cwd);
}

proof fn lemma_queries_of_event(m: Model, event: EventView, cwd: Seq<char>)
    requires
        m.inv(),
    ensures
        git_queries(m.effects, cwd) <= git_queries(m.handle(event).effects, cwd) <= git_queries(
            m.effects,
            cwd,
        ) + 1,
        git_queries(m.handle(event).effects, cwd) > git_queries(m.effects, cwd) ==> {
            &&& m.handle(event).pending_git.contains_key(cwd)
            &&& !still_waiting(m, event).pending_git.contains_key(cwd)
        },
        !m.git_detection ==> git_queries(m.handle(event).effects, cwd) == git_queries(
            m.effects,
            cwd,
        ),
{
    let after = m.handle(event);
    if m.got_permissions {
        match event {
            EventView::TabUpdate(tabs) => {
                if m.deferred_panes is Some {
                    lemma_asks_pane_update(m.place_tabs(tabs), m.deferred_panes->0);
                    assert(asks_once_about(m.place_tabs(tabs), after, cwd));
                }
            },
            EventView::PaneUpdate(manifest) => {
                lemma_asks_pane_update(m, manifest);
                assert(asks_once_about(m, after, cwd));
            },
            EventView::CwdChanged(pane_id, c) => {
                lemma_asks_cwd_changed(m, pane_id, c);
                assert(asks_once_about(m, after, cwd));
            },
            EventView::RunCommandResult(exit_code, stdout, context) => {
                if context.contains_key("cwd"@) {
                    let c = context["cwd"@];
                    let root = git_root_of(exit_code, utf8_lossy(stdout));
                    lemma_resolve_asks_nothing(m.take_verdict(c, root), m.waiters(c));
                }
            },
            _ => {},
        }
    } else if event == EventView::PermissionRequestResult(PermissionStatus::Granted) {
        let with_cwds = Model { got_permissions: true, ..m }.release_tabs().release_cwds();
        match with_cwds.buffered_panes {
            Some(manifest) => {
                let taken = Model { buffered_panes: None, ..with_cwds };
                lemma_asks_pane_update(taken, manifest);
                assert(asks_once_about(taken, after, cwd));
            },
            None => {},
        }
    }
}

// ── What is remembered ─────────────────────────────────────────────────────

/// The git caches stay within their limit, whatever happens.
pub proof fn law_git_caches_are_bounded(m: Model, event: EventView)
    requires
        m.inv(),
    ensures
        m.handle(event).git_cache_len() <= MAX_GIT_CACHE_ENTRIES,
{
    lemma_handle_keeps(m, event);
}

/// What is known of repositories changes by git's answers alone.
pub proof fn law_only_answers_change_the_caches(m: Model, event: EventView)
    requires
        m.inv(),
        !(event is RunCommandResult),
    ensures
        m.handle(event).same_caches(m),
{
    if m.got_permissions {
        match event {
            EventView::TabUpdate(tabs) => {
                if m.deferred_panes is Some {
                    lemma_pane_update_keeps_caches(m.place_tabs(tabs), m.deferred_panes->0);
                }
            },
            EventView::PaneUpdate(manifest) => lemma_pane_update_keeps_caches(m, manifest),
            _ => {},
        }
    } else if event == EventView::PermissionRequestResult(PermissionStatus::Granted) {
        let with_cwds = Model { got_permissions: true, ..m }.release_tabs().release_cwds();
        match with_cwds.buffered_panes {
            Some(manifest) => {
                lemma_pane_update_keeps_caches(
                    Model { buffered_panes: None, ..with_cwds },
                    manifest,
                );
            },
            None => {},
        }
    }
}

proof fn lemma_pane_update_keeps_caches(m: Model, manifest: ManifestView)
    ensures
        m.on_pane_update(manifest).same_caches(m),
{
    let placed = m.place_panes(manifest);
    lemma_refresh_counts_frame(placed, manifest, m.tab_pane_counts);
    let followed = placed.follow_counts(manifest, m.tab_pane_counts);
    lemma_replay_frame(
        Model { pending_cwds: Seq::empty(), ..followed },
        followed.pending_cwds,
    );
    lemma_discover_frame(
        followed.replay_pending(manifest),
        tabs_with_new_terminals(manifest, m.index_to_id, m.pane_to_tab),
    );
}

/// An answer is never forgotten but by clearing the caches for want of room: where there is room
/// for an answer, those for all other directories are kept beside it.
pub proof fn law_answers_are_kept_while_there_is_room(
    m: Model,
    cwd: Seq<char>,
    root: Option<Seq<char>>,
)
    requires
        m.inv(),
        !m.no_room_for(cwd, root),
    ensures
        m.git_roots.subset_of(m.on_git_verdict(cwd, root).git_roots),
        m.not_git.subset_of(m.on_git_verdict(cwd, root).not_git),
        m.resolved_cwds.subset_of(m.on_git_verdict(cwd, root).resolved_cwds),
        forall|c: Seq<char>| #[trigger]
            m.root_aliases.contains_key(c) && c != cwd ==> m.on_git_verdict(
                cwd,
                root,
            ).root_aliases.contains_key(c) && m.on_git_verdict(cwd, root).root_aliases[c]
                == m.root_aliases[c],
{
    lemma_take_verdict_keeps(m, cwd, root);
    lemma_resolve_waiters_keeps(m.take_verdict(cwd, root), m.waiters(cwd));
    assert(m.without_waiters(cwd).record_verdict(cwd, root).git_cache_len() == m.record_verdict(
        cwd,
        root,
    ).git_cache_len());
}

/// The answer that the caches are cleared for is in them: clearing makes room for it.
pub proof fn law_fresh_answer_survives(m: Model, cwd: Seq<char>, root: Option<Seq<char>>)
    requires
        m.inv(),
    ensures
        match root {
            Some(r) => {
                &&& m.on_git_verdict(cwd, root).git_roots.contains(r)
                &&& m.on_git_verdict(cwd, root).resolved_cwds.contains(cwd)
                &&& ancestors_of(cwd).contains(r) || (m.on_git_verdict(
                    cwd,
                    root,
                ).root_aliases.contains_key(cwd) && m.on_git_verdict(cwd, root).root_aliases[cwd]
                    == r)
            },
            None => m.on_git_verdict(cwd, root).not_git.contains(cwd),
        },
{
    lemma_take_verdict_keeps(m, cwd, root);
    lemma_resolve_waiters_keeps(m.take_verdict(cwd, root), m.waiters(cwd));
}

} // verus!
