//! Laws of snapshots, field by field: what is known of tabs and panes once one is gone through.

use crate::cwd::CwdView;
use crate::events::{EventView, ManifestView, PaneInfo, TabInfo};
use crate::frames::{lemma_discover_frame, lemma_refresh_counts_frame, lemma_replay_frame};
use crate::laws::reports::{
    law_early_manifest_is_kept, law_pending_directories_await_their_tab, lemma_pane_update_places,
    lemma_with_terminals, still_pending,
};
use crate::laws::tabs::lemma_tab_update_places;
use crate::lists::lemma_filter_members;
use crate::maps::among;
use crate::model::{
    active_tab, counts_by_tab, manifest_terminals, tab_ids, tabs_by_position,
    tabs_with_new_terminals, terminal_count, terminals_by_tab, Model,
};
use vstd::prelude::*;

verus! {

// ── Tabs ───────────────────────────────────────────────────────────────────

/// Whether a snapshot lists a tab.
pub open spec fn lists(tabs: Seq<TabInfo>, tab_id: usize) -> bool {
    exists|i: int| 0 <= i < tabs.len() && (#[trigger] tabs[i]).tab_id == tab_id
}

proof fn lemma_active(tabs: Seq<TabInfo>, before: Option<usize>)
    ensures
        (forall|i: int| 0 <= i < tabs.len() ==> !(#[trigger] tabs[i]).active) ==> active_tab(
            tabs,
            before,
        ) == before,
        forall|i: int|
            0 <= i < tabs.len() && (#[trigger] tabs[i]).active && (forall|j: int|
                i < j < tabs.len() ==> !(#[trigger] tabs[j]).active) ==> active_tab(tabs, before)
                == Some(tabs[i].tab_id),
    decreases tabs.len(),
{
    if tabs.len() > 0 {
        let rest = tabs.drop_last();
        lemma_active(rest, before);
        assert(tabs[tabs.len() - 1] == tabs.last());
        assert forall|i: int| 0 <= i < rest.len() implies #[trigger] rest[i] == tabs[i] by {}
        if !tabs.last().active {
            assert forall|i: int|
                0 <= i < tabs.len() && (#[trigger] tabs[i]).active && (forall|j: int|
                    i < j < tabs.len() ==> !(#[trigger] tabs[j]).active) implies active_tab(
                tabs,
                before,
            ) == Some(tabs[i].tab_id) by {
                assert(rest[i] == tabs[i]);
                assert forall|j: int| i < j < rest.len() implies !(#[trigger] rest[j]).active by {
                    assert(rest[j] == tabs[j]);
                }
            }
            if forall|i: int| 0 <= i < tabs.len() ==> !(#[trigger] tabs[i]).active {
                assert forall|i: int| 0 <= i < rest.len() implies !(#[trigger] rest[i]).active by {
                    assert(rest[i] == tabs[i]);
                }
            }
        }
    }
}

/// Once a snapshot of all tabs is taken, the active tab is the last that has its active flag set,
/// whatever its other fields; where none has it set, the active tab is the one it was.
pub proof fn law_flagged_tab_is_active(m: Model, tabs: Seq<TabInfo>, i: int)
    requires
        m.got_permissions,
    ensures
        0 <= i < tabs.len() && tabs[i].active && (forall|j: int|
            i < j < tabs.len() ==> !(#[trigger] tabs[j]).active) ==> m.handle(
            EventView::TabUpdate(tabs),
        ).active_tab_id == Some(tabs[i].tab_id),
        (forall|j: int| 0 <= j < tabs.len() ==> !(#[trigger] tabs[j]).active) ==> m.handle(
            EventView::TabUpdate(tabs),
        ).active_tab_id == m.active_tab_id,
{
    lemma_tab_update_places(m, tabs);
    lemma_active(tabs, m.active_tab_id);
}

/// The tab at a position is the last that is listed there.
proof fn lemma_last_at_position(tabs: Seq<TabInfo>, i: int)
    requires
        0 <= i < tabs.len(),
        forall|j: int| i < j < tabs.len() ==> (#[trigger] tabs[j]).position != tabs[i].position,
    ensures
        tabs_by_position(tabs).get(tabs[i].position) == Some(tabs[i].tab_id),
    decreases tabs.len(),
{
    let rest = tabs.drop_last();
    if i < rest.len() {
        assert(tabs[tabs.len() - 1].position != tabs[i].position);
        assert forall|j: int| i < j < rest.len() implies (#[trigger] rest[j]).position
            != rest[i].position by {
            assert(rest[j] == tabs[j]);
        }
        lemma_last_at_position(rest, i);
    }
}

/// No tab is at a position where none is listed.
proof fn lemma_position_is_listed(tabs: Seq<TabInfo>, p: usize)
    requires
        tabs_by_position(tabs).contains_key(p),
    ensures
        exists|i: int| 0 <= i < tabs.len() && (#[trigger] tabs[i]).position == p,
    decreases tabs.len(),
{
    let rest = tabs.drop_last();
    if tabs.last().position == p {
        assert(tabs[tabs.len() - 1].position == p);
    } else {
        lemma_position_is_listed(rest, p);
        let i = choose|i: int| 0 <= i < rest.len() && (#[trigger] rest[i]).position == p;
        assert(tabs[i] == rest[i]);
    }
}

/// Once a snapshot of all tabs is taken, the tab at a position is the last that is listed there; no
/// tab is at a position where none is listed.
pub proof fn law_tabs_are_where_they_are_listed(m: Model, tabs: Seq<TabInfo>, i: int, p: usize)
    requires
        m.got_permissions,
    ensures
        0 <= i < tabs.len() && (forall|j: int|
            i < j < tabs.len() ==> (#[trigger] tabs[j]).position != tabs[i].position) ==> m.handle(
            EventView::TabUpdate(tabs),
        ).index_to_id.get(tabs[i].position) == Some(tabs[i].tab_id),
        m.handle(EventView::TabUpdate(tabs)).index_to_id.contains_key(p) ==> exists|j: int|
            0 <= j < tabs.len() && (#[trigger] tabs[j]).position == p,
{
    lemma_tab_update_places(m, tabs);
    if 0 <= i < tabs.len() && (forall|j: int|
        i < j < tabs.len() ==> (#[trigger] tabs[j]).position != tabs[i].position) {
        lemma_last_at_position(tabs, i);
    }
    if tabs_by_position(tabs).contains_key(p) {
        lemma_position_is_listed(tabs, p);
    }
}

/// Once a snapshot of all tabs is taken, the floating layer of a tab is shown where it is listed so,
/// and then only.
pub proof fn law_floating_layers_are_shown_as_listed(m: Model, tabs: Seq<TabInfo>, tab_id: usize)
    requires
        m.got_permissions,
    ensures
        m.handle(EventView::TabUpdate(tabs)).floating_visible.contains(tab_id) <==> exists|i: int|
            0 <= i < tabs.len() && (#[trigger] tabs[i]).tab_id == tab_id
                && tabs[i].are_floating_panes_visible,
{
    lemma_tab_update_places(m, tabs);
}

/// A snapshot of all tabs forgets the tabs that it does not list, and keeps all that is known of the
/// others; it changes nothing else and leads to nothing, where no manifest waits for it.
pub proof fn law_snapshot_of_tabs_forgets_the_unlisted(
    m: Model,
    tabs: Seq<TabInfo>,
    tab_id: usize,
    cwd: Seq<char>,
)
    requires
        m.got_permissions,
        m.deferred_panes is None,
    ensures
        ({
            let after = m.handle(EventView::TabUpdate(tabs));
            let stays = lists(tabs, tab_id);
            &&& after.base_names.get(tab_id) == if stays { m.base_names.get(tab_id) } else { None }
            &&& after.rendered_names.get(tab_id) == if stays {
                m.rendered_names.get(tab_id)
            } else {
                None
            }
            &&& after.tab_cwds.get(tab_id) == if stays { m.tab_cwds.get(tab_id) } else { None }
            &&& after.tab_pane_counts.get(tab_id) == if stays {
                m.tab_pane_counts.get(tab_id)
            } else {
                None
            }
            &&& after.tab_prefixes.get(tab_id) == if stays {
                m.tab_prefixes.get(tab_id)
            } else {
                None
            }
            &&& after.tab_suffixes.get(tab_id) == if stays {
                m.tab_suffixes.get(tab_id)
            } else {
                None
            }
            &&& after.pending_git.contains_key(cwd) <==> m.pending_git.contains_key(cwd) && exists|
                i: int,
            |
                0 <= i < m.pending_git[cwd].len() && lists(tabs, #[trigger] m.pending_git[cwd][i])
            &&& after.pending_git.contains_key(cwd) ==> after.pending_git[cwd]
                == m.pending_git[cwd].filter(|t: usize| lists(tabs, t))
            &&& after == Model {
                active_tab_id: after.active_tab_id,
                index_to_id: after.index_to_id,
                floating_visible: after.floating_visible,
                base_names: after.base_names,
                rendered_names: after.rendered_names,
                tab_cwds: after.tab_cwds,
                tab_pane_counts: after.tab_pane_counts,
                tab_prefixes: after.tab_prefixes,
                tab_suffixes: after.tab_suffixes,
                pending_git: after.pending_git,
                ..m
            }
        }),
{
    let after = m.handle(EventView::TabUpdate(tabs));
    let alive = tab_ids(tabs);
    let keep = |t: usize| lists(tabs, t);
    assert(alive.contains(tab_id) == lists(tabs, tab_id));
    assert(keep =~= among(alive));
    let waiters = m.pending_git[cwd];
    lemma_filter_members(waiters, among(alive));
    let kept = waiters.filter(among(alive));
    if kept.len() > 0 {
        assert(kept.contains(kept[0]));
        let i = choose|i: int| 0 <= i < waiters.len() && waiters[i] == kept[0];
        assert(lists(tabs, m.pending_git[cwd][i]));
    }
    if exists|i: int|
        0 <= i < m.pending_git[cwd].len() && lists(tabs, #[trigger] m.pending_git[cwd][i]) {
        let i = choose|i: int|
            0 <= i < m.pending_git[cwd].len() && lists(tabs, #[trigger] m.pending_git[cwd][i]);
        assert(waiters.contains(waiters[i]));
        assert(kept.contains(waiters[i]));
    }
}

/// A snapshot of all tabs that a manifest waits for is taken first, and the manifest after it, as if
/// it had come then.
pub proof fn law_waiting_manifest_follows_the_tabs(
    m: Model,
    tabs: Seq<TabInfo>,
    manifest: ManifestView,
)
    requires
        m.got_permissions,
        m.deferred_panes == Some(manifest),
    ensures
        m.handle(EventView::TabUpdate(tabs)) == (Model { deferred_panes: None, ..m }).handle(
            EventView::TabUpdate(tabs),
        ).handle(EventView::PaneUpdate(manifest)),
{
    assert(m.place_tabs(tabs) =~= (Model { deferred_panes: None, ..m }).place_tabs(tabs));
}

// ── Panes ──────────────────────────────────────────────────────────────────

/// Whether an entry of a manifest is at a known position and lists a terminal.
pub open spec fn holds_terminal(
    manifest: ManifestView,
    tabs: Map<usize, usize>,
    i: int,
    id: u32,
) -> bool {
    &&& 0 <= i < manifest.len()
    &&& tabs.contains_key(manifest[i].0)
    &&& exists|j: int|
        0 <= j < manifest[i].1.len() && (#[trigger] manifest[i].1[j]).is_plugin == false
            && manifest[i].1[j].id == id
}

proof fn lemma_terminals(manifest: ManifestView, tabs: Map<usize, usize>, id: u32)
    ensures
        terminals_by_tab(manifest, tabs).contains_key(id) ==> exists|i: int| #[trigger]
            holds_terminal(manifest, tabs, i, id),
        forall|i: int| #[trigger]
            holds_terminal(manifest, tabs, i, id) && (forall|k: int|
                i < k < manifest.len() ==> !#[trigger] holds_terminal(manifest, tabs, k, id))
                ==> terminals_by_tab(manifest, tabs).get(id) == Some(tabs[manifest[i].0]),
        forall|i: int| #[trigger]
            holds_terminal(manifest, tabs, i, id) ==> terminals_by_tab(
                manifest,
                tabs,
            ).contains_key(id),
    decreases manifest.len(),
{
    if manifest.len() > 0 {
        let rest = manifest.drop_last();
        let n = manifest.len() - 1;
        let last = manifest.last();
        lemma_terminals(rest, tabs, id);
        lemma_with_terminals(terminals_by_tab(rest, tabs), last.1, tabs[last.0], id);
        assert(manifest[n] == last);
        assert forall|i: int| 0 <= i < n implies #[trigger] holds_terminal(manifest, tabs, i, id)
            == holds_terminal(rest, tabs, i, id) by {
            assert(rest[i] == manifest[i]);
        }
        let here = exists|j: int|
            0 <= j < last.1.len() && !(#[trigger] last.1[j]).is_plugin && last.1[j].id == id;
        assert(holds_terminal(manifest, tabs, n, id) == (tabs.contains_key(last.0) && here));
        assert forall|i: int| #[trigger]
            holds_terminal(manifest, tabs, i, id) && (forall|k: int|
                i < k < manifest.len() ==> !#[trigger] holds_terminal(
                    manifest,
                    tabs,
                    k,
                    id,
                )) implies terminals_by_tab(manifest, tabs).get(id) == Some(
            tabs[manifest[i].0],
        ) by {
            if i < n {
                assert(!holds_terminal(manifest, tabs, n, id));
                assert(holds_terminal(rest, tabs, i, id));
                assert forall|k: int| i < k < rest.len() implies !#[trigger] holds_terminal(
                    rest,
                    tabs,
                    k,
                    id,
                ) by {
                    assert(!holds_terminal(manifest, tabs, k, id));
                }
                assert(rest[i] == manifest[i]);
            }
        }
        assert forall|i: int| #[trigger] holds_terminal(manifest, tabs, i, id) implies
            terminals_by_tab(manifest, tabs).contains_key(id) by {
            if i < n {
                assert(holds_terminal(rest, tabs, i, id));
            }
        }
        if terminals_by_tab(manifest, tabs).contains_key(id) && !holds_terminal(
            manifest,
            tabs,
            n,
            id,
        ) {
            let i = choose|i: int| #[trigger] holds_terminal(rest, tabs, i, id);
            assert(holds_terminal(manifest, tabs, i, id));
        }
    }
}

/// Once a snapshot of all panes is taken, every terminal that it lists at a known position, and no
/// other, is known to be in a tab: the one at the last such position.
pub proof fn law_terminals_are_where_they_are_listed(
    m: Model,
    manifest: ManifestView,
    i: int,
    id: u32,
)
    requires
        m.got_permissions,
    ensures
        ({
            let after = m.handle(EventView::PaneUpdate(manifest));
            &&& holds_terminal(manifest, m.index_to_id, i, id) && (forall|k: int|
                i < k < manifest.len() ==> !#[trigger] holds_terminal(
                    manifest,
                    m.index_to_id,
                    k,
                    id,
                )) ==> after.pane_to_tab.get(id) == Some(m.index_to_id[manifest[i].0])
            &&& after.pane_to_tab.contains_key(id) <==> exists|k: int| #[trigger]
                holds_terminal(manifest, m.index_to_id, k, id)
        }),
{
    lemma_pane_update_places(m, manifest);
    lemma_terminals(manifest, m.index_to_id, id);
}

/// The number of panes that are terminals.
pub open spec fn number_of_terminals(panes: Seq<PaneInfo>) -> nat {
    panes.filter(|pane: PaneInfo| pane.is_plugin == false).len()
}

proof fn lemma_terminal_count(panes: Seq<PaneInfo>)
    ensures
        terminal_count(panes) == number_of_terminals(panes),
        terminal_count(panes) <= panes.len(),
    decreases panes.len(),
{
    reveal(Seq::filter);
    if panes.len() > 0 {
        lemma_terminal_count(panes.drop_last());
    }
}

/// Whether an entry of a manifest is that of a tab.
pub open spec fn is_entry_of(
    manifest: ManifestView,
    tabs: Map<usize, usize>,
    i: int,
    tab_id: usize,
) -> bool {
    &&& 0 <= i < manifest.len()
    &&& tabs.get(manifest[i].0) == Some(tab_id)
}

proof fn lemma_counts(manifest: ManifestView, tabs: Map<usize, usize>, tab_id: usize)
    ensures
        counts_by_tab(manifest, tabs).contains_key(tab_id) <==> exists|i: int| #[trigger]
            is_entry_of(manifest, tabs, i, tab_id),
        forall|i: int| #[trigger]
            is_entry_of(manifest, tabs, i, tab_id) && (forall|k: int|
                i < k < manifest.len() ==> !#[trigger] is_entry_of(manifest, tabs, k, tab_id))
                ==> counts_by_tab(manifest, tabs).get(tab_id) == Some(
                number_of_terminals(manifest[i].1) as usize,
            ),
    decreases manifest.len(),
{
    if manifest.len() > 0 {
        let rest = manifest.drop_last();
        let n = manifest.len() - 1;
        lemma_counts(rest, tabs, tab_id);
        lemma_terminal_count(manifest.last().1);
        assert(manifest[n] == manifest.last());
        assert forall|i: int| 0 <= i < n implies #[trigger] is_entry_of(manifest, tabs, i, tab_id)
            == is_entry_of(rest, tabs, i, tab_id) by {
            assert(rest[i] == manifest[i]);
        }
        assert forall|i: int| #[trigger]
            is_entry_of(manifest, tabs, i, tab_id) && (forall|k: int|
                i < k < manifest.len() ==> !#[trigger] is_entry_of(
                    manifest,
                    tabs,
                    k,
                    tab_id,
                )) implies counts_by_tab(manifest, tabs).get(tab_id) == Some(
            number_of_terminals(manifest[i].1) as usize,
        ) by {
            if i < n {
                assert(!is_entry_of(manifest, tabs, n, tab_id));
                assert(is_entry_of(rest, tabs, i, tab_id));
                assert forall|k: int| i < k < rest.len() implies !#[trigger] is_entry_of(
                    rest,
                    tabs,
                    k,
                    tab_id,
                ) by {
                    assert(!is_entry_of(manifest, tabs, k, tab_id));
                }
                assert(rest[i] == manifest[i]);
            }
        }
        if counts_by_tab(manifest, tabs).contains_key(tab_id) && !is_entry_of(
            manifest,
            tabs,
            n,
            tab_id,
        ) {
            let i = choose|i: int| #[trigger] is_entry_of(rest, tabs, i, tab_id);
            assert(is_entry_of(manifest, tabs, i, tab_id));
        }
        if exists|i: int| #[trigger] is_entry_of(manifest, tabs, i, tab_id) {
            let i = choose|i: int| #[trigger] is_entry_of(manifest, tabs, i, tab_id);
            if i < n {
                assert(is_entry_of(rest, tabs, i, tab_id));
            }
        }
    }
}

/// Once a snapshot of all panes is taken, the number of panes is known of every tab that it lists,
/// and of no other: that of the panes in the tab's last entry that are no plugins, in whichever
/// layer they are and whether or not they are in sight.
pub proof fn law_terminals_are_counted(m: Model, manifest: ManifestView, i: int, tab_id: usize)
    requires
        m.got_permissions,
    ensures
        ({
            let after = m.handle(EventView::PaneUpdate(manifest));
            &&& after.tab_pane_counts.contains_key(tab_id) <==> exists|k: int| #[trigger]
                is_entry_of(manifest, m.index_to_id, k, tab_id)
            &&& is_entry_of(manifest, m.index_to_id, i, tab_id) && manifest[i].1.len()
                <= usize::MAX && (forall|k: int|
                i < k < manifest.len() ==> !#[trigger] is_entry_of(
                    manifest,
                    m.index_to_id,
                    k,
                    tab_id,
                )) ==> after.tab_pane_counts.contains_key(tab_id) && after.tab_pane_counts[tab_id]
                as nat == number_of_terminals(manifest[i].1)
        }),
{
    lemma_pane_update_places(m, manifest);
    lemma_counts(manifest, m.index_to_id, tab_id);
    if is_entry_of(manifest, m.index_to_id, i, tab_id) {
        lemma_terminal_count(manifest[i].1);
    }
}

/// A snapshot of all panes is kept for later where it lists a position that is not known, and then
/// only; an older one is never kept.
pub proof fn law_manifest_waits_for_unknown_positions(m: Model, manifest: ManifestView)
    requires
        m.got_permissions,
    ensures
        ({
            let after = m.handle(EventView::PaneUpdate(manifest));
            let waits = exists|i: int|
                0 <= i < manifest.len() && !m.index_to_id.contains_key((#[trigger] manifest[i]).0);
            after.deferred_panes == if waits {
                Some(manifest)
            } else {
                None
            }
        }),
{
    law_early_manifest_is_kept(m, manifest);
}

/// A snapshot of all panes changes neither what is known of tabs and repositories nor decorations
/// and settings.
pub proof fn law_snapshot_of_panes_leaves_the_rest(m: Model, manifest: ManifestView)
    requires
        m.got_permissions,
    ensures
        ({
            let after = m.handle(EventView::PaneUpdate(manifest));
            after == Model {
                effects: after.effects,
                deferred_panes: after.deferred_panes,
                base_names: after.base_names,
                rendered_names: after.rendered_names,
                tab_pane_counts: after.tab_pane_counts,
                pane_to_tab: after.pane_to_tab,
                pending_cwds: after.pending_cwds,
                tab_cwds: after.tab_cwds,
                pending_git: after.pending_git,
                ..m
            }
        }),
{
    let placed = m.place_panes(manifest);
    lemma_refresh_counts_frame(placed, manifest, m.tab_pane_counts);
    let followed = placed.follow_counts(manifest, m.tab_pane_counts);
    lemma_replay_frame(
        Model { pending_cwds: Seq::empty(), ..followed },
        followed.pending_cwds,
    );
    lemma_discover_frame(
        followed.replay_pending(manifest),
        tabs_with_new_terminals(manifest, m.index_to_id, m.pane_to_tab),
    );
}

/// Whether a manifest lists a terminal, at whatever position.
pub open spec fn lists_terminal(manifest: ManifestView, id: u32) -> bool {
    exists|i: int, j: int|
        0 <= i < manifest.len() && 0 <= j < manifest[i].1.len() && (
        #[trigger] manifest[i].1[j]).is_plugin == false && manifest[i].1[j].id == id
}

/// Once a snapshot of all panes is taken, the directories that wait are those that waited for a
/// terminal which it lists and which is in no known tab, in the order they were in.
pub proof fn law_directories_wait_for_listed_terminals(m: Model, manifest: ManifestView)
    requires
        m.inv(),
        m.got_permissions,
    ensures
        ({
            let after = m.handle(EventView::PaneUpdate(manifest));
            after.pending_cwds == m.pending_cwds.filter(
                |entry: (u32, CwdView)|
                    lists_terminal(manifest, entry.0) && !after.pane_to_tab.contains_key(entry.0),
            )
        }),
{
    law_pending_directories_await_their_tab(m, manifest);
    let after = m.handle(EventView::PaneUpdate(manifest));
    let places = terminals_by_tab(manifest, m.index_to_id);
    let keep = |entry: (u32, CwdView)|
        lists_terminal(manifest, entry.0) && !after.pane_to_tab.contains_key(entry.0);
    assert(keep =~= still_pending(manifest_terminals(manifest), places)) by {
        assert forall|entry: (u32, CwdView)| #[trigger] keep(entry) == still_pending(
            manifest_terminals(manifest),
            places,
        )(entry) by {
            assert(manifest_terminals(manifest).contains(entry.0) == lists_terminal(
                manifest,
                entry.0,
            ));
        }
    }
}

} // verus!
