//! Laws of tabs that are gone: nothing is kept of them.

use crate::cwd::CwdView;
use crate::events::{EventView, ManifestView, PaneInfo, TabInfo};
use crate::frames::{lemma_discover_frame, lemma_refresh_counts_frame, lemma_replay_frame};
use crate::laws::reports::{
    law_early_manifest_is_kept, lemma_pane_update_twice, one_tab_per_terminal,
};
use crate::lists::{lemma_filter_all, lemma_filter_members};
use crate::maps::among;
use crate::model::{
    active_tab, counts_by_tab, floating_tabs, tab_ids, tabs_by_position, tabs_with_new_terminals,
    terminals_by_tab, with_terminals, Model,
};
use crate::validity::{lemma_handle_keeps, lemma_place_tabs_keeps};
use vstd::prelude::*;

verus! {

/// Whether all that is kept by tab is about tabs of the set.
pub open spec fn only_about(m: Model, alive: Set<usize>) -> bool {
    &&& m.base_names.dom().subset_of(alive)
    &&& m.rendered_names.dom().subset_of(alive)
    &&& m.tab_cwds.dom().subset_of(alive)
    &&& m.tab_pane_counts.dom().subset_of(alive)
    &&& m.tab_prefixes.dom().subset_of(alive)
    &&& m.tab_suffixes.dom().subset_of(alive)
    &&& forall|cwd: Seq<char>, i: int|
        #![trigger m.pending_git[cwd][i]]
        m.pending_git.contains_key(cwd) && 0 <= i < m.pending_git[cwd].len() ==> alive.contains(
            m.pending_git[cwd][i],
        )
}

/// Whether a map leads to tabs of the set alone.
pub open spec fn leads_into<K>(map: Map<K, usize>, alive: Set<usize>) -> bool {
    forall|k: K| #[trigger] map.contains_key(k) ==> alive.contains(map[k])
}

proof fn lemma_positions_lead_into(tabs: Seq<TabInfo>, alive: Set<usize>)
    requires
        forall|i: int| 0 <= i < tabs.len() ==> alive.contains((#[trigger] tabs[i]).tab_id),
    ensures
        leads_into(tabs_by_position(tabs), alive),
    decreases tabs.len(),
{
    if tabs.len() > 0 {
        let rest = tabs.drop_last();
        assert forall|i: int| 0 <= i < rest.len() implies alive.contains(
            (#[trigger] rest[i]).tab_id,
        ) by {
            assert(rest[i] == tabs[i]);
        }
        lemma_positions_lead_into(rest, alive);
        assert(alive.contains(tabs[tabs.len() - 1].tab_id));
    }
}

proof fn lemma_counts_only_about(manifest: ManifestView, tabs: Map<usize, usize>, alive: Set<usize>)
    requires
        leads_into(tabs, alive),
    ensures
        counts_by_tab(manifest, tabs).dom().subset_of(alive),
    decreases manifest.len(),
{
    if manifest.len() > 0 {
        lemma_counts_only_about(manifest.drop_last(), tabs, alive);
    }
}

proof fn lemma_terminals_lead_into(
    manifest: ManifestView,
    tabs: Map<usize, usize>,
    alive: Set<usize>,
)
    requires
        leads_into(tabs, alive),
    ensures
        leads_into(terminals_by_tab(manifest, tabs), alive),
    decreases manifest.len(),
{
    if manifest.len() > 0 {
        lemma_terminals_lead_into(manifest.drop_last(), tabs, alive);
        if tabs.contains_key(manifest.last().0) {
            lemma_with_terminals_leads_into(
                terminals_by_tab(manifest.drop_last(), tabs),
                manifest.last().1,
                tabs[manifest.last().0],
                alive,
            );
        }
    }
}

proof fn lemma_with_terminals_leads_into(
    into: Map<u32, usize>,
    panes: Seq<PaneInfo>,
    tab_id: usize,
    alive: Set<usize>,
)
    requires
        leads_into(into, alive),
        alive.contains(tab_id),
    ensures
        leads_into(with_terminals(into, panes, tab_id), alive),
    decreases panes.len(),
{
    if panes.len() > 0 {
        lemma_with_terminals_leads_into(into, panes.drop_last(), tab_id, alive);
    }
}

proof fn lemma_enter_only_about(m: Model, tab_id: usize, cwd: CwdView, alive: Set<usize>)
    requires
        only_about(m, alive),
        alive.contains(tab_id),
    ensures
        only_about(m.enter_cwd(tab_id, cwd), alive),
{
    let after = m.enter_cwd(tab_id, cwd);
    assert forall|c: Seq<char>, i: int|
        #![trigger after.pending_git[c][i]]
        after.pending_git.contains_key(c) && 0 <= i < after.pending_git[c].len() implies
        alive.contains(after.pending_git[c][i]) by {
        if m.pending_git.contains_key(c) && i < m.pending_git[c].len() {
            assert(alive.contains(m.pending_git[c][i]));
        }
    }
}

proof fn lemma_replay_only_about(m: Model, cwds: Seq<(u32, CwdView)>, alive: Set<usize>)
    requires
        only_about(m, alive),
        leads_into(m.pane_to_tab, alive),
    ensures
        only_about(m.replay_cwds(cwds), alive),
        m.replay_cwds(cwds).pane_to_tab == m.pane_to_tab,
    decreases cwds.len(),
{
    if cwds.len() > 0 {
        let rest = m.replay_cwds(cwds.drop_last());
        lemma_replay_only_about(m, cwds.drop_last(), alive);
        if m.pane_to_tab.contains_key(cwds.last().0) {
            lemma_enter_only_about(rest, m.pane_to_tab[cwds.last().0], cwds.last().1, alive);
        }
    }
}

proof fn lemma_refresh_counts_only_about(
    m: Model,
    manifest: ManifestView,
    before: Map<usize, usize>,
    alive: Set<usize>,
)
    requires
        only_about(m, alive),
    ensures
        only_about(m.refresh_counts(manifest, before), alive),
        m.refresh_counts(manifest, before).pane_to_tab == m.pane_to_tab,
    decreases manifest.len(),
{
    if manifest.len() > 0 {
        lemma_refresh_counts_only_about(m, manifest.drop_last(), before, alive);
    }
}

proof fn lemma_pane_update_only_about(m: Model, manifest: ManifestView, alive: Set<usize>)
    requires
        only_about(m, alive),
        leads_into(m.index_to_id, alive),
    ensures
        only_about(m.on_pane_update(manifest), alive),
        leads_into(m.on_pane_update(manifest).pane_to_tab, alive),
{
    let placed = m.place_panes(manifest);
    lemma_counts_only_about(manifest, m.index_to_id, alive);
    lemma_terminals_lead_into(manifest, m.index_to_id, alive);
    lemma_refresh_counts_only_about(placed, manifest, m.tab_pane_counts, alive);
    let followed = placed.follow_counts(manifest, m.tab_pane_counts);
    let cleared = Model { pending_cwds: Seq::empty(), ..followed };
    lemma_replay_only_about(cleared, followed.pending_cwds, alive);
    lemma_discover_frame(
        followed.replay_pending(manifest),
        tabs_with_new_terminals(manifest, m.index_to_id, m.pane_to_tab),
    );
}

/// A snapshot of all tabs leaves nothing that is kept by tab of a tab that is not in it: no name,
/// directory, number of panes or decoration, and it waits for no answer.
pub proof fn law_gone_tabs_are_forgotten(m: Model, tabs: Seq<TabInfo>)
    ensures
        only_about(m.on_tab_update(tabs), tab_ids(tabs)),
{
    let alive = tab_ids(tabs);
    let placed = m.place_tabs(tabs);
    assert forall|cwd: Seq<char>, i: int|
        #![trigger placed.pending_git[cwd][i]]
        placed.pending_git.contains_key(cwd) && 0 <= i < placed.pending_git[cwd].len() implies
        alive.contains(placed.pending_git[cwd][i]) by {
        let waiters = m.pending_git[cwd];
        lemma_filter_members(waiters, among(alive));
        assert(waiters.filter(among(alive)).contains(placed.pending_git[cwd][i]));
    }
    lemma_positions_lead_into(tabs, alive);
    match m.deferred_panes {
        Some(manifest) => lemma_pane_update_only_about(placed, manifest, alive),
        None => {},
    }
}

/// A snapshot of all tabs changes nothing of a tab that is still there, where no manifest waits for
/// it: names, directory and decorations stay, and it waits for the answers it waited for.
pub proof fn law_tabs_that_stay_are_kept(m: Model, tabs: Seq<TabInfo>, tab_id: usize)
    requires
        tab_ids(tabs).contains(tab_id),
        m.deferred_panes is None,
    ensures
        ({
            let after = m.on_tab_update(tabs);
            &&& after.effects == m.effects
            &&& after.base_names.get(tab_id) == m.base_names.get(tab_id)
            &&& after.rendered_names.get(tab_id) == m.rendered_names.get(tab_id)
            &&& after.tab_cwds.get(tab_id) == m.tab_cwds.get(tab_id)
            &&& after.tab_pane_counts.get(tab_id) == m.tab_pane_counts.get(tab_id)
            &&& after.tab_prefixes.get(tab_id) == m.tab_prefixes.get(tab_id)
            &&& after.tab_suffixes.get(tab_id) == m.tab_suffixes.get(tab_id)
            &&& forall|cwd: Seq<char>| #[trigger]
                m.waiters(cwd).contains(tab_id) ==> after.waiters(cwd).contains(tab_id)
        }),
{
    let alive = tab_ids(tabs);
    let after = m.on_tab_update(tabs);
    assert forall|cwd: Seq<char>| #[trigger] m.waiters(cwd).contains(tab_id) implies after.waiters(
        cwd,
    ).contains(tab_id) by {
        lemma_filter_members(m.pending_git[cwd], among(alive));
        assert(m.pending_git[cwd].filter(among(alive)).contains(tab_id));
    }
}

/// Where a tab says it is active, what was active before does not matter; where none does, it
/// stays.
proof fn lemma_active_tab(tabs: Seq<TabInfo>, before: Option<usize>, other: Option<usize>)
    ensures
        active_tab(tabs, before) == active_tab(tabs, other) || (active_tab(tabs, before) == before
            && active_tab(tabs, other) == other),
    decreases tabs.len(),
{
    if tabs.len() > 0 {
        lemma_active_tab(tabs.drop_last(), before, other);
    }
}

/// A snapshot of all tabs moves tabs as it says, whatever manifest it lets be gone through.
pub proof fn lemma_tab_update_places(m: Model, tabs: Seq<TabInfo>)
    ensures
        m.on_tab_update(tabs).index_to_id == tabs_by_position(tabs),
        m.on_tab_update(tabs).floating_visible == floating_tabs(tabs),
        m.on_tab_update(tabs).active_tab_id == active_tab(tabs, m.active_tab_id),
{
    let placed = m.place_tabs(tabs);
    match m.deferred_panes {
        Some(manifest) => {
            let panes = placed.place_panes(manifest);
            lemma_refresh_counts_frame(panes, manifest, placed.tab_pane_counts);
            let followed = panes.follow_counts(manifest, placed.tab_pane_counts);
            lemma_replay_frame(
                Model { pending_cwds: Seq::empty(), ..followed },
                followed.pending_cwds,
            );
            lemma_discover_frame(
                followed.replay_pending(manifest),
                tabs_with_new_terminals(manifest, placed.index_to_id, placed.pane_to_tab),
            );
        },
        None => {},
    }
}

/// The same snapshot of all tabs, taken again, changes nothing and leads to nothing. Left out: those
/// that leave a manifest to wait for further tabs which lists a terminal under two tabs, as it is
/// gone through every time.
pub proof fn law_same_tabs_again_change_nothing(m: Model, tabs: Seq<TabInfo>)
    requires
        m.inv(),
        m.handle(EventView::TabUpdate(tabs)).deferred_panes matches Some(manifest)
            ==> one_tab_per_terminal(manifest, tabs_by_position(tabs)),
    ensures
        m.handle(EventView::TabUpdate(tabs)).handle(EventView::TabUpdate(tabs)) == m.handle(
            EventView::TabUpdate(tabs),
        ),
{
    if m.got_permissions {
        let alive = tab_ids(tabs);
        let after = m.on_tab_update(tabs);
        law_gone_tabs_are_forgotten(m, tabs);
        lemma_handle_keeps(m, EventView::TabUpdate(tabs));
        lemma_tab_update_places(m, tabs);
        lemma_active_tab(tabs, m.active_tab_id, active_tab(tabs, m.active_tab_id));
        let again = after.place_tabs(tabs);
        assert(again.pending_git =~= after.pending_git) by {
            assert forall|cwd: Seq<char>| #[trigger] after.pending_git.contains_key(cwd) implies
                after.pending_git[cwd].filter(among(alive)) == after.pending_git[cwd] by {
                let waiters = after.pending_git[cwd];
                assert forall|i: int| 0 <= i < waiters.len() implies among(alive)(
                    #[trigger] waiters[i],
                ) by {
                    assert(alive.contains(after.pending_git[cwd][i]));
                }
                lemma_filter_all(waiters, among(alive));
            }
        }
        assert(again =~= Model { deferred_panes: None, ..after });
        if m.deferred_panes is Some && after.deferred_panes is Some {
            let manifest = m.deferred_panes->0;
            let placed = m.place_tabs(tabs);
            law_early_manifest_is_kept(placed, manifest);
            lemma_place_tabs_keeps(m, tabs);
            lemma_pane_update_twice(placed, manifest);
            assert(again.place_panes(manifest) =~= after.place_panes(manifest));
        }
    }
}

} // verus!
