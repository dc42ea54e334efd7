//! Snapshots of all panes: where they are, and which tabs are asked about.

use crate::cwd::Cwd;
use crate::events::{cwds_view, Effect, ManifestView, PaneId, PaneInfo, PaneManifest};
use crate::frames::lemma_refresh_counts_frame;
use crate::maps::TabMap;
use crate::model::{
    candidates, counts_by_tab, discovery_pane, first_pane, has_new_terminal, manifest_terminals,
    only_panes, tabs_with_new_terminals, terminal_count, terminals_by_tab, with_terminals, Model,
};
use crate::pending::retain_cwds;
use crate::state::State;
use std::collections::{HashMap, HashSet};
use vstd::prelude::*;

verus! {

broadcast use vstd::std_specs::hash::group_hash_axioms;

impl State {
    /// The pane whose working directory names the tab.
    pub fn choose_discovery_pane(&self, tab_id: usize, panes: &[PaneInfo]) -> (pane_id: Option<u32>)
        ensures
            pane_id == discovery_pane(self@.floating_visible.contains(tab_id), panes@),
    {
        let floating = self.floating_visible.contains(&tab_id);
        let focused_in_sight = find_pane(panes, true, Some(floating));
        if focused_in_sight.is_some() {
            return focused_in_sight;
        }
        let in_sight = find_pane(panes, false, Some(floating));
        if in_sight.is_some() {
            return in_sight;
        }
        let focused = find_pane(panes, true, None);
        if focused.is_some() {
            return focused;
        }
        find_pane(panes, false, None)
    }

    /// Puts the panes where the manifest says. Hands out the tabs that have a new terminal, each
    /// with its entry in the manifest, and the numbers of panes as they were.
    fn place_panes(&mut self, manifest: &PaneManifest) -> (result: (
        Vec<(usize, usize)>,
        TabMap<usize>,
    ))
        ensures
            final(self)@ == old(self)@.place_panes(manifest@),
            entries_valid(result.0@, manifest@),
            entries_view(result.0@, manifest@) == tabs_with_new_terminals(
                manifest@,
                old(self)@.index_to_id,
                old(self)@.pane_to_tab,
            ),
            result.1@ == old(self)@.tab_pane_counts,
    {
        self.deferred_panes = None;
        let mut places: HashMap<u32, usize> = HashMap::new();
        let mut counts: TabMap<usize> = TabMap::new();
        let mut new_tabs: Vec<(usize, usize)> = Vec::new();
        let mut i: usize = 0;
        proof {
            assert(manifest@.take(0) =~= Seq::empty());
            assert(entries_view(new_tabs@, manifest@) =~= Seq::empty());
        }
        while i < manifest.panes.len()
            invariant
                i <= manifest.panes.len(),
                self@.index_to_id == old(self)@.index_to_id,
                self@.pane_to_tab == old(self)@.pane_to_tab,
                *self == (State { deferred_panes: None, ..*old(self) }),
                places@ == terminals_by_tab(manifest@.take(i as int), self@.index_to_id),
                counts@ == counts_by_tab(manifest@.take(i as int), self@.index_to_id),
                entries_valid(new_tabs@, manifest@),
                entries_view(new_tabs@, manifest@) == tabs_with_new_terminals(
                    manifest@.take(i as int),
                    self@.index_to_id,
                    self@.pane_to_tab,
                ),
            decreases manifest.panes.len() - i,
        {
            let ghost upto = manifest@.take(i + 1);
            let ghost earlier = new_tabs@;
            proof {
                assert(upto.drop_last() =~= manifest@.take(i as int));
                assert(upto.last() == manifest@[i as int]);
            }
            let position: usize = manifest.panes[i].0;
            match self.index_to_id.get(position) {
                Some(id) => {
                    let tab_id: usize = *id;
                    let panes = &manifest.panes[i].1;
                    let is_new = finds_new_terminal(panes.as_slice(), &self.pane_to_tab, tab_id);
                    let count = place_terminals(panes.as_slice(), tab_id, &mut places);
                    counts.insert(tab_id, count);
                    if is_new {
                        new_tabs.push((tab_id, i));
                        assert(entries_view(new_tabs@, manifest@) =~= entries_view(
                            earlier,
                            manifest@,
                        ).push((tab_id, manifest@[i as int].1)));
                    }
                },
                None => {},
            }
            i = i + 1;
        }
        assert(manifest@.take(i as int) =~= manifest@);
        std::mem::swap(&mut counts, &mut self.tab_pane_counts);
        self.pane_to_tab = places;
        assert(self@ =~= old(self)@.place_panes(manifest@));
        (new_tabs, counts)
    }

    /// Renames the tabs of the manifest whose number of panes is not what it was, where names show
    /// it.
    fn follow_counts(&mut self, manifest: &PaneManifest, before: &TabMap<usize>)
        requires
            old(self)@.tab_pane_counts == counts_by_tab(manifest@, old(self)@.index_to_id),
        ensures
            final(self)@ == old(self)@.follow_counts(manifest@, before@),
    {
        if self.pane_count_format.is_none() {
            return;
        }
        let ghost start = self@;
        let mut i: usize = 0;
        assert(manifest@.take(0) =~= Seq::empty());
        while i < manifest.panes.len()
            invariant
                i <= manifest.panes.len(),
                start.tab_pane_counts == counts_by_tab(manifest@, start.index_to_id),
                self@ == start.refresh_counts(manifest@.take(i as int), before@),
            decreases manifest.panes.len() - i,
        {
            let ghost upto = manifest@.take(i + 1);
            proof {
                assert(upto.drop_last() =~= manifest@.take(i as int));
                assert(upto.last() == manifest@[i as int]);
                lemma_refresh_counts_frame(start, manifest@.take(i as int), before@);
                lemma_counted(manifest@, start.index_to_id, i as int);
            }
            let position: usize = manifest.panes[i].0;
            match self.index_to_id.get(position) {
                Some(id) => {
                    let tab_id: usize = *id;
                    let old_count: usize = match before.get(tab_id) {
                        Some(count) => *count,
                        None => 0,
                    };
                    let changed = match self.tab_pane_counts.get(tab_id) {
                        Some(count) => *count != old_count,
                        None => false,
                    };
                    if changed {
                        self.refresh_tab_name(tab_id);
                    }
                },
                None => {},
            }
            i = i + 1;
        }
        assert(manifest@.take(i as int) =~= manifest@);
    }

    /// Goes through the directories that waited for their pane again, and drops those of panes that
    /// no longer exist.
    fn replay_pending(&mut self, manifest: &PaneManifest)
        ensures
            final(self)@ == old(self)@.replay_pending(manifest@),
    {
        let mut pending: Vec<(u32, Cwd)> = Vec::new();
        std::mem::swap(&mut pending, &mut self.pending_cwds);
        let ghost start = Model { pending_cwds: Seq::empty(), ..old(self)@ };
        let ghost cwds = cwds_view(pending@);
        proof {
            assert(cwds_view(self.pending_cwds@) =~= Seq::empty());
            assert(self@ =~= start);
            assert(cwds.take(0) =~= Seq::empty());
        }
        let mut i: usize = 0;
        while i < pending.len()
            invariant
                i <= pending.len(),
                cwds == cwds_view(pending@),
                self@ == start.replay_cwds(cwds.take(i as int)),
            decreases pending.len() - i,
        {
            proof {
                assert(cwds.take(i + 1).drop_last() =~= cwds.take(i as int));
                assert(cwds.take(i + 1).last() == (pending@[i as int].0, pending@[i as int].1@));
            }
            let terminal_id: u32 = pending[i].0;
            let cwd = pending[i].1.clone();
            self.on_cwd_changed(PaneId::Terminal(terminal_id), cwd);
            i = i + 1;
        }
        assert(cwds.take(i as int) =~= cwds);
        let ghost replayed = self@;
        let terminals = terminals_of(manifest);
        retain_cwds(&mut self.pending_cwds, &terminals);
        assert(self@ =~= (Model {
            pending_cwds: only_panes(replayed.pending_cwds, manifest_terminals(manifest@)),
            ..replayed
        }));
    }

    /// Asks about each tab of which neither a name nor a directory is known.
    fn discover_all(&mut self, manifest: &PaneManifest, tabs: &Vec<(usize, usize)>)
        requires
            entries_valid(tabs@, manifest@),
        ensures
            final(self)@ == old(self)@.discover_all(entries_view(tabs@, manifest@)),
    {
        let ghost start = self@;
        let ghost all = entries_view(tabs@, manifest@);
        let mut i: usize = 0;
        assert(all.take(0) =~= Seq::empty());
        while i < tabs.len()
            invariant
                i <= tabs.len(),
                all == entries_view(tabs@, manifest@),
                entries_valid(tabs@, manifest@),
                self@ == start.discover_all(all.take(i as int)),
            decreases tabs.len() - i,
        {
            let tab_id: usize = tabs[i].0;
            let place: usize = tabs[i].1;
            proof {
                assert(all.take(i + 1).drop_last() =~= all.take(i as int));
                assert(all.take(i + 1).last() == (tab_id, manifest@[place as int].1));
            }
            if !self.base_names.contains_key(tab_id) && !self.tab_cwds.contains_key(tab_id) {
                match self.choose_discovery_pane(tab_id, manifest.panes[place].1.as_slice()) {
                    Some(pane_id) => {
                        self.emit(Effect::QueryPaneCwd { pane_id });
                    },
                    None => {},
                }
            }
            i = i + 1;
        }
        assert(all.take(i as int) =~= all);
    }

    /// Keeps a manifest with a tab position that is not known.
    fn defer(&mut self, manifest: PaneManifest)
        ensures
            final(self)@ == old(self)@.defer(manifest@),
    {
        let mut i: usize = 0;
        while i < manifest.panes.len()
            invariant
                i <= manifest.panes.len(),
                self@ == old(self)@,
                forall|k: int|
                    0 <= k < i ==> self@.index_to_id.contains_key((#[trigger] manifest@[k]).0),
            decreases manifest.panes.len() - i,
        {
            if !self.index_to_id.contains_key(manifest.panes[i].0) {
                assert(!self@.index_to_id.contains_key(manifest@[i as int].0));
                self.deferred_panes = Some(manifest);
                assert(self@ =~= old(self)@.defer(manifest@));
                return;
            }
            i = i + 1;
        }
    }

    /// Takes a snapshot of all panes: places and counts them, goes through the directories that
    /// waited for their pane, and asks about the tabs that are still unnamed.
    pub fn on_pane_update(&mut self, manifest: PaneManifest)
        ensures
            final(self)@ == old(self)@.on_pane_update(manifest@),
    {
        let (new_tabs, before) = self.place_panes(&manifest);
        self.follow_counts(&manifest, &before);
        self.replay_pending(&manifest);
        self.discover_all(&manifest, &new_tabs);
        self.defer(manifest);
    }
}

/// Every tab of known position in a manifest is counted.
pub proof fn lemma_counted(manifest: ManifestView, tabs: Map<usize, usize>, i: int)
    requires
        0 <= i < manifest.len(),
    ensures
        tabs.contains_key(manifest[i].0) ==> counts_by_tab(manifest, tabs).contains_key(
            tabs[manifest[i].0],
        ),
    decreases manifest.len(),
{
    if i < manifest.len() - 1 {
        assert(manifest.drop_last()[i] == manifest[i]);
        lemma_counted(manifest.drop_last(), tabs, i);
    }
}

/// The terminals of a manifest.
fn terminals_of(manifest: &PaneManifest) -> (terminals: HashSet<u32>)
    ensures
        terminals@ == manifest_terminals(manifest@),
{
    let mut terminals: HashSet<u32> = HashSet::new();
    let mut i: usize = 0;
    while i < manifest.panes.len()
        invariant
            i <= manifest.panes.len(),
            forall|id: u32| #[trigger]
                terminals@.contains(id) ==> manifest_terminals(manifest@).contains(id),
            forall|k: int, j: int|
                0 <= k < i && 0 <= j < manifest@[k].1.len() && !(
                #[trigger] manifest@[k].1[j]).is_plugin ==> terminals@.contains(
                    manifest@[k].1[j].id,
                ),
        decreases manifest.panes.len() - i,
    {
        let panes = &manifest.panes[i].1;
        assert(manifest@[i as int].1 == panes@);
        let mut j: usize = 0;
        while j < panes.len()
            invariant
                i < manifest.panes.len(),
                j <= panes.len(),
                manifest@[i as int].1 == panes@,
                forall|id: u32| #[trigger]
                    terminals@.contains(id) ==> manifest_terminals(manifest@).contains(id),
                forall|k: int, l: int|
                    0 <= k < i && 0 <= l < manifest@[k].1.len() && !(
                    #[trigger] manifest@[k].1[l]).is_plugin ==> terminals@.contains(
                        manifest@[k].1[l].id,
                    ),
                forall|l: int|
                    0 <= l < j && !(#[trigger] manifest@[i as int].1[l]).is_plugin
                        ==> terminals@.contains(manifest@[i as int].1[l].id),
            decreases panes.len() - j,
        {
            let pane = panes[j];
            assert(manifest@[i as int].1[j as int] == pane);
            if !pane.is_plugin {
                let _ = terminals.insert(pane.id);
            }
            j = j + 1;
        }
        i = i + 1;
    }
    assert(terminals@ =~= manifest_terminals(manifest@));
    terminals
}

/// Tabs with the place of their entry in a manifest.
spec fn entries_valid(list: Seq<(usize, usize)>, manifest: ManifestView) -> bool {
    forall|i: int| 0 <= i < list.len() ==> (#[trigger] list[i]).1 < manifest.len()
}

/// Tabs with the panes of their entry in a manifest.
spec fn entries_view(list: Seq<(usize, usize)>, manifest: ManifestView) -> Seq<
    (usize, Seq<PaneInfo>),
> {
    list.map_values(|entry: (usize, usize)| (entry.0, manifest[entry.1 as int].1))
}

/// The first candidate that is focused, where that is asked for, and in the layer asked for.
fn find_pane(panes: &[PaneInfo], focused: bool, floating: Option<bool>) -> (pane_id: Option<u32>)
    ensures
        pane_id == first_pane(panes@, candidates(focused, floating)),
{
    let ghost wanted = candidates(focused, floating);
    let mut i: usize = 0;
    assert(panes@.skip(0) =~= panes@);
    while i < panes.len()
        invariant
            i <= panes.len(),
            wanted == candidates(focused, floating),
            first_pane(panes@.skip(i as int), wanted) == first_pane(panes@, wanted),
        decreases panes.len() - i,
    {
        let pane = panes[i];
        let in_layer = match floating {
            Some(layer) => pane.is_floating == layer,
            None => true,
        };
        assert(panes@.skip(i as int)[0] == pane);
        assert(panes@.skip(i as int).skip(1) =~= panes@.skip(i + 1));
        if !pane.is_plugin && !pane.is_suppressed && (!focused || pane.is_focused) && in_layer {
            return Some(pane.id);
        }
        i = i + 1;
    }
    None
}

/// Whether some terminal among the panes was not in the tab so far.
fn finds_new_terminal(panes: &[PaneInfo], known: &HashMap<u32, usize>, tab_id: usize) -> (found:
    bool)
    ensures
        found == has_new_terminal(known@, panes@, tab_id),
{
    let mut i: usize = 0;
    while i < panes.len()
        invariant
            i <= panes.len(),
            forall|k: int|
                0 <= k < i ==> (#[trigger] panes@[k]).is_plugin || (known@.contains_key(
                    panes@[k].id,
                ) && known@[panes@[k].id] == tab_id),
        decreases panes.len() - i,
    {
        let pane = panes[i];
        if !pane.is_plugin {
            let stayed = match known.get(&pane.id) {
                Some(known_tab) => *known_tab == tab_id,
                None => false,
            };
            if !stayed {
                assert(panes@[i as int] == pane);
                return true;
            }
        }
        i = i + 1;
    }
    false
}

/// Places every terminal among the panes in the tab and counts them.
fn place_terminals(panes: &[PaneInfo], tab_id: usize, places: &mut HashMap<u32, usize>) -> (count:
    usize)
    ensures
        final(places)@ == with_terminals(old(places)@, panes@, tab_id),
        count == terminal_count(panes@),
{
    let mut count: usize = 0;
    let mut i: usize = 0;
    assert(panes@.take(0) =~= Seq::empty());
    while i < panes.len()
        invariant
            i <= panes.len(),
            count <= i,
            places@ == with_terminals(old(places)@, panes@.take(i as int), tab_id),
            count == terminal_count(panes@.take(i as int)),
        decreases panes.len() - i,
    {
        let pane = panes[i];
        assert(panes@.take(i + 1).drop_last() =~= panes@.take(i as int));
        assert(panes@.take(i + 1).last() == pane);
        if !pane.is_plugin {
            count = count + 1;
            let _ = places.insert(pane.id, tab_id);
        }
        i = i + 1;
    }
    assert(panes@.take(i as int) =~= panes@);
    count
}

} // verus!
