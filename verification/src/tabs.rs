//! Snapshots of all tabs.

use crate::events::TabInfo;
use crate::maps::TabMap;
use crate::model::{active_tab, floating_tabs, tab_ids, tabs_by_position};
use crate::state::State;
use std::collections::HashSet;
use vstd::prelude::*;

verus! {

broadcast use vstd::std_specs::hash::group_hash_axioms;

impl State {
    /// Forgets what is known of tabs that are gone, and puts the tabs where the snapshot says.
    fn place_tabs(&mut self, tabs: &Vec<TabInfo>)
        ensures
            final(self)@ == old(self)@.place_tabs(tabs@),
    {
        let alive = ids_of(tabs);
        self.active_tab_id = find_active(tabs, self.active_tab_id);
        self.base_names.retain(&alive);
        self.rendered_names.retain(&alive);
        self.tab_cwds.retain(&alive);
        self.tab_pane_counts.retain(&alive);
        self.tab_prefixes.retain(&alive);
        self.tab_suffixes.retain(&alive);
        self.pending_git.retain_waiters(&alive);
        self.index_to_id = find_positions(tabs);
        self.floating_visible = find_floating(tabs);
        self.deferred_panes = None;
        assert(self@ =~= old(self)@.place_tabs(tabs@));
    }

    /// Takes a snapshot of all tabs, and goes through a manifest that came ahead of it.
    pub fn on_tab_update(&mut self, tabs: Vec<TabInfo>)
        ensures
            final(self)@ == old(self)@.on_tab_update(tabs@),
    {
        let deferred = self.deferred_panes.take();
        self.place_tabs(&tabs);
        assert(self@ =~= old(self)@.place_tabs(tabs@));
        match deferred {
            Some(manifest) => {
                self.on_pane_update(manifest);
            },
            None => {},
        }
    }
}

/// The ids of the tabs.
fn ids_of(tabs: &Vec<TabInfo>) -> (ids: HashSet<usize>)
    ensures
        ids@ == tab_ids(tabs@),
{
    let mut ids: HashSet<usize> = HashSet::new();
    let mut i: usize = 0;
    while i < tabs.len()
        invariant
            i <= tabs.len(),
            forall|id: usize| #[trigger] ids@.contains(id) ==> tab_ids(tabs@).contains(id),
            forall|k: int| 0 <= k < i ==> ids@.contains((#[trigger] tabs@[k]).tab_id),
        decreases tabs.len() - i,
    {
        assert(tab_ids(tabs@).contains(tabs@[i as int].tab_id));
        let _ = ids.insert(tabs[i].tab_id);
        i = i + 1;
    }
    assert(ids@ =~= tab_ids(tabs@));
    ids
}

/// The tabs whose floating layer is shown.
fn find_floating(tabs: &Vec<TabInfo>) -> (ids: HashSet<usize>)
    ensures
        ids@ == floating_tabs(tabs@),
{
    let mut ids: HashSet<usize> = HashSet::new();
    let mut i: usize = 0;
    while i < tabs.len()
        invariant
            i <= tabs.len(),
            forall|id: usize| #[trigger] ids@.contains(id) ==> floating_tabs(tabs@).contains(id),
            forall|k: int|
                0 <= k < i && (#[trigger] tabs@[k]).are_floating_panes_visible ==> ids@.contains(
                    tabs@[k].tab_id,
                ),
        decreases tabs.len() - i,
    {
        if tabs[i].are_floating_panes_visible {
            assert(floating_tabs(tabs@).contains(tabs@[i as int].tab_id));
            let _ = ids.insert(tabs[i].tab_id);
        }
        i = i + 1;
    }
    assert(ids@ =~= floating_tabs(tabs@));
    ids
}

/// The last tab that says it is active; `before` where none does.
fn find_active(tabs: &Vec<TabInfo>, before: Option<usize>) -> (active: Option<usize>)
    ensures
        active == active_tab(tabs@, before),
{
    let mut active: Option<usize> = before;
    let mut i: usize = 0;
    assert(tabs@.take(0) =~= Seq::empty());
    while i < tabs.len()
        invariant
            i <= tabs.len(),
            active == active_tab(tabs@.take(i as int), before),
        decreases tabs.len() - i,
    {
        assert(tabs@.take(i + 1).drop_last() =~= tabs@.take(i as int));
        if tabs[i].active {
            active = Some(tabs[i].tab_id);
        }
        i = i + 1;
    }
    assert(tabs@.take(i as int) =~= tabs@);
    active
}

/// The tab at each position.
fn find_positions(tabs: &Vec<TabInfo>) -> (positions: TabMap<usize>)
    ensures
        positions@ == tabs_by_position(tabs@),
{
    let mut positions: TabMap<usize> = TabMap::new();
    let mut i: usize = 0;
    assert(tabs@.take(0) =~= Seq::empty());
    while i < tabs.len()
        invariant
            i <= tabs.len(),
            positions@ == tabs_by_position(tabs@.take(i as int)),
        decreases tabs.len() - i,
    {
        assert(tabs@.take(i + 1).drop_last() =~= tabs@.take(i as int));
        positions.insert(tabs[i].position, tabs[i].tab_id);
        i = i + 1;
    }
    assert(tabs@.take(i as int) =~= tabs@);
    positions
}

} // verus!
