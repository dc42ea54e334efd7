//! Laws of the permission gate: it decides when events are taken, and nothing else.

use crate::cwd::{utf8_lossy, CwdView};
use crate::events::{EventView, ManifestView, PaneId, PaneInfo};
use crate::model::{git_root_of, tabs_with_new_terminals, Model};
use vstd::prelude::*;

verus! {

/// A state with permissions granted, or not.
pub open spec fn gated(m: Model, granted: bool) -> Model {
    Model { got_permissions: granted, ..m }
}

proof fn lemma_refresh_gated(m: Model, granted: bool, tab_id: usize)
    ensures
        gated(m, granted).refresh_tab_name(tab_id) == gated(m.refresh_tab_name(tab_id), granted),
{
    assert(gated(m, granted).compose_rendered_name(tab_id, m.base_names[tab_id])
        == m.compose_rendered_name(tab_id, m.base_names[tab_id]));
}

proof fn lemma_apply_gated(m: Model, granted: bool, tab_id: usize, name: Seq<char>)
    ensures
        gated(m, granted).apply_name(tab_id, name) == gated(m.apply_name(tab_id, name), granted),
{
    lemma_refresh_gated(
        Model { base_names: m.base_names.insert(tab_id, name), ..m },
        granted,
        tab_id,
    );
}

proof fn lemma_cached_gated(m: Model, granted: bool, tab_id: usize, cwd: Seq<char>)
    ensures
        gated(m, granted).cached_name(cwd) == m.cached_name(cwd),
        gated(m, granted).derive_name(cwd) == m.derive_name(cwd),
        gated(m, granted).apply_cached_name(tab_id, cwd) == gated(
            m.apply_cached_name(tab_id, cwd),
            granted,
        ),
{
    match m.cached_name(cwd) {
        Some(name) => lemma_apply_gated(m, granted, tab_id, name),
        None => {},
    }
}

proof fn lemma_report_gated(m: Model, granted: bool, pane_id: PaneId, cwd: CwdView)
    ensures
        gated(m, granted).on_cwd_changed(pane_id, cwd) == gated(
            m.on_cwd_changed(pane_id, cwd),
            granted,
        ),
{
    match pane_id {
        PaneId::Terminal(id) => {
            if m.pane_to_tab.contains_key(id) && cwd.text.len() > 0 {
                let tab_id = m.pane_to_tab[id];
                let entered = Model { tab_cwds: m.tab_cwds.insert(tab_id, cwd), ..m };
                lemma_cached_gated(m, granted, tab_id, cwd.text);
                lemma_cached_gated(entered, granted, tab_id, cwd.text);
                lemma_apply_gated(entered, granted, tab_id, m.derive_name(cwd.text));
            }
        },
        PaneId::Plugin(_) => {},
    }
}

proof fn lemma_replay_gated(m: Model, granted: bool, cwds: Seq<(u32, CwdView)>)
    ensures
        gated(m, granted).replay_cwds(cwds) == gated(m.replay_cwds(cwds), granted),
    decreases cwds.len(),
{
    if cwds.len() > 0 {
        lemma_replay_gated(m, granted, cwds.drop_last());
        lemma_report_gated(
            m.replay_cwds(cwds.drop_last()),
            granted,
            PaneId::Terminal(cwds.last().0),
            cwds.last().1,
        );
    }
}

proof fn lemma_refresh_counts_gated(
    m: Model,
    granted: bool,
    manifest: ManifestView,
    before: Map<usize, usize>,
)
    ensures
        gated(m, granted).refresh_counts(manifest, before) == gated(
            m.refresh_counts(manifest, before),
            granted,
        ),
    decreases manifest.len(),
{
    if manifest.len() > 0 {
        lemma_refresh_counts_gated(m, granted, manifest.drop_last(), before);
        lemma_refresh_gated(
            m.refresh_counts(manifest.drop_last(), before),
            granted,
            m.index_to_id[manifest.last().0],
        );
    }
}

proof fn lemma_discover_gated(m: Model, granted: bool, tabs: Seq<(usize, Seq<PaneInfo>)>)
    ensures
        gated(m, granted).discover_all(tabs) == gated(m.discover_all(tabs), granted),
    decreases tabs.len(),
{
    if tabs.len() > 0 {
        lemma_discover_gated(m, granted, tabs.drop_last());
    }
}

proof fn lemma_panes_gated(m: Model, granted: bool, manifest: ManifestView)
    ensures
        gated(m, granted).on_pane_update(manifest) == gated(m.on_pane_update(manifest), granted),
{
    let before = m.tab_pane_counts;
    let placed = m.place_panes(manifest);
    assert(gated(m, granted).place_panes(manifest) == gated(placed, granted));
    lemma_refresh_counts_gated(placed, granted, manifest, before);
    let followed = placed.follow_counts(manifest, before);
    assert(gated(placed, granted).follow_counts(manifest, before) == gated(followed, granted));
    let cleared = Model { pending_cwds: Seq::empty(), ..followed };
    lemma_replay_gated(cleared, granted, followed.pending_cwds);
    let kept = followed.replay_pending(manifest);
    assert(gated(followed, granted).replay_pending(manifest) == gated(kept, granted));
    lemma_discover_gated(
        kept,
        granted,
        tabs_with_new_terminals(manifest, m.index_to_id, m.pane_to_tab),
    );
}

proof fn lemma_resolve_gated(m: Model, granted: bool, waiters: Seq<usize>)
    ensures
        gated(m, granted).resolve_waiters(waiters) == gated(m.resolve_waiters(waiters), granted),
    decreases waiters.len(),
{
    if waiters.len() > 0 {
        let before = m.resolve_waiters(waiters.drop_last());
        lemma_resolve_gated(m, granted, waiters.drop_last());
        lemma_cached_gated(
            before,
            granted,
            waiters.last(),
            before.tab_cwds[waiters.last()].text,
        );
    }
}

/// What taking an event comes to does not depend on whether permissions are granted, and leaves that
/// as it is; once they are granted, every event that comes is taken.
pub proof fn law_permissions_only_decide_when(m: Model, granted: bool, event: EventView)
    ensures
        gated(m, granted).handle_event(event) == gated(m.handle_event(event), granted),
        m.got_permissions ==> m.handle(event) == m.handle_event(event),
{
    match event {
        EventView::TabUpdate(tabs) => {
            let placed = m.place_tabs(tabs);
            assert(gated(m, granted).place_tabs(tabs) == gated(placed, granted));
            match m.deferred_panes {
                Some(manifest) => lemma_panes_gated(placed, granted, manifest),
                None => {},
            }
        },
        EventView::PaneUpdate(manifest) => lemma_panes_gated(m, granted, manifest),
        EventView::CwdChanged(pane_id, cwd) => lemma_report_gated(m, granted, pane_id, cwd),
        EventView::RunCommandResult(exit_code, stdout, context) => {
            let cwd = context["cwd"@];
            let root = git_root_of(exit_code, utf8_lossy(stdout));
            let recorded = m.take_verdict(cwd, root);
            assert(gated(m, granted).take_verdict(cwd, root) == gated(recorded, granted)) by {
                let apart = m.without_waiters(cwd);
                assert(gated(m, granted).without_waiters(cwd) == gated(apart, granted));
                assert(gated(apart, granted).record_verdict(cwd, root) == gated(
                    apart.record_verdict(cwd, root),
                    granted,
                ));
                assert(gated(apart, granted).bound_git_caches(cwd, root) == gated(
                    apart.bound_git_caches(cwd, root),
                    granted,
                ));
            }
            lemma_resolve_gated(recorded, granted, m.waiters(cwd));
        },
        EventView::PermissionRequestResult(_) => {},
        EventView::Other => {},
    }
}

} // verus!
