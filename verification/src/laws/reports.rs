//! Laws of directories that are reported ahead of their panes, and of snapshots and reports that
//! come in another order than they describe, or twice.

use crate::cwd::CwdView;
use crate::events::{EventView, ManifestView, PaneId, PaneInfo, TabInfo};
use crate::frames::{lemma_discover_frame, lemma_refresh_counts_frame, lemma_replay_frame};
use crate::lists::{lemma_filter_all, lemma_filter_members, lemma_filter_twice};
use crate::model::{
    about, all_positions_known, counts_by_tab, has_new_terminal, manifest_terminals, not_about,
    only_panes, tabs_by_position, tabs_with_new_terminals, terminals_by_tab, upserted,
    with_terminals, Model,
};
use crate::panes::lemma_counted;
use crate::validity::{distinct_panes, lemma_filter_distinct_panes, lemma_pane_update_keeps};
use vstd::prelude::*;

verus! {

// ── Lists ──────────────────────────────────────────────────────────────────

/// The latest directory of each terminal is what is kept of it, and it comes last.
pub proof fn law_latest_report_is_kept(list: Seq<(u32, CwdView)>, pane: u32, cwd: CwdView)
    ensures
        upserted(list, pane, cwd).last() == (pane, cwd),
        forall|i: int|
            0 <= i < upserted(list, pane, cwd).len() - 1 ==> {
                &&& (#[trigger] upserted(list, pane, cwd)[i]).0 != pane
                &&& list.contains(upserted(list, pane, cwd)[i])
            },
        forall|entry: (u32, CwdView)|
            list.contains(entry) && entry.0 != pane ==> #[trigger] upserted(
                list,
                pane,
                cwd,
            ).contains(entry),
{
    let kept = list.filter(not_about(pane));
    let all = upserted(list, pane, cwd);
    lemma_filter_members(list, not_about(pane));
    assert forall|i: int| 0 <= i < all.len() - 1 implies (#[trigger] all[i]).0 != pane
        && list.contains(all[i]) by {
        assert(all[i] == kept[i]);
        assert(kept.contains(kept[i]));
    }
    assert forall|entry: (u32, CwdView)| list.contains(entry) && entry.0 != pane implies
        #[trigger] all.contains(entry) by {
        assert(kept.contains(entry));
        let i = choose|i: int| 0 <= i < kept.len() && kept[i] == entry;
        assert(all[i] == entry);
    }
}

// ── Directories that wait for their pane ───────────────────────────────────

/// Entries about terminals that no tab is known for.
pub open spec fn unplaced(places: Map<u32, usize>) -> spec_fn((u32, CwdView)) -> bool {
    |entry: (u32, CwdView)| !places.contains_key(entry.0)
}

/// Entries about terminals of a manifest that no tab is known for.
pub open spec fn still_pending(
    terminals: Set<u32>,
    places: Map<u32, usize>,
) -> spec_fn((u32, CwdView)) -> bool {
    |entry: (u32, CwdView)| terminals.contains(entry.0) && !places.contains_key(entry.0)
}

/// Going through directories again keeps, in their order, those of terminals without a tab.
pub proof fn lemma_replayed_pending(m: Model, cwds: Seq<(u32, CwdView)>)
    requires
        m.pending_cwds == Seq::<(u32, CwdView)>::empty(),
        distinct_panes(cwds),
    ensures
        m.replay_cwds(cwds).pending_cwds == cwds.filter(unplaced(m.pane_to_tab)),
        m.replay_cwds(cwds).pane_to_tab == m.pane_to_tab,
    decreases cwds.len(),
{
    reveal(Seq::filter);
    if cwds.len() > 0 {
        let rest = cwds.drop_last();
        let last = cwds.last();
        assert forall|i: int, j: int|
            #![trigger rest[i], rest[j]]
            0 <= i < j < rest.len() implies rest[i].0 != rest[j].0 by {
            assert(rest[i] == cwds[i] && rest[j] == cwds[j]);
        }
        lemma_replayed_pending(m, rest);
        let kept = rest.filter(unplaced(m.pane_to_tab));
        if !m.pane_to_tab.contains_key(last.0) {
            lemma_filter_members(rest, unplaced(m.pane_to_tab));
            assert forall|i: int| 0 <= i < kept.len() implies not_about(last.0)(
                #[trigger] kept[i],
            ) by {
                assert(kept.contains(kept[i]));
                let k = choose|k: int| 0 <= k < rest.len() && rest[k] == kept[i];
                assert(cwds[k].0 != cwds[cwds.len() - 1].0);
            }
            lemma_filter_all(kept, not_about(last.0));
        }
    }
}

/// Once a snapshot of all panes is gone through, the directories that wait are those of its
/// terminals whose tab is not known yet, in the order they came; those of terminals that no longer
/// exist are gone.
pub proof fn law_pending_directories_await_their_tab(m: Model, manifest: ManifestView)
    requires
        distinct_panes(m.pending_cwds),
    ensures
        m.on_pane_update(manifest).pane_to_tab == terminals_by_tab(manifest, m.index_to_id),
        m.on_pane_update(manifest).pending_cwds == m.pending_cwds.filter(
            still_pending(
                manifest_terminals(manifest),
                terminals_by_tab(manifest, m.index_to_id),
            ),
        ),
{
    let places = terminals_by_tab(manifest, m.index_to_id);
    let terminals = manifest_terminals(manifest);
    let placed = m.place_panes(manifest);
    lemma_refresh_counts_frame(placed, manifest, m.tab_pane_counts);
    let followed = placed.follow_counts(manifest, m.tab_pane_counts);
    let cleared = Model { pending_cwds: Seq::empty(), ..followed };
    lemma_replayed_pending(cleared, m.pending_cwds);
    lemma_filter_twice(
        m.pending_cwds,
        unplaced(places),
        about(terminals),
        still_pending(terminals, places),
    );
    lemma_discover_frame(
        followed.replay_pending(manifest),
        tabs_with_new_terminals(manifest, m.index_to_id, m.pane_to_tab),
    );
}

/// The last directory that is reported for a tab, those without text left out.
pub open spec fn last_report(
    cwds: Seq<(u32, CwdView)>,
    places: Map<u32, usize>,
    tab_id: usize,
) -> Option<CwdView>
    decreases cwds.len(),
{
    if cwds.len() == 0 {
        None
    } else if places.contains_key(cwds.last().0) && places[cwds.last().0] == tab_id
        && cwds.last().1.text.len() > 0 {
        Some(cwds.last().1)
    } else {
        last_report(cwds.drop_last(), places, tab_id)
    }
}

/// Of the directories that are reported for a tab, the last is the one that the tab is in.
pub proof fn lemma_last_report(m: Model, cwds: Seq<(u32, CwdView)>, tab_id: usize)
    ensures
        m.replay_cwds(cwds).pane_to_tab == m.pane_to_tab,
        match last_report(cwds, m.pane_to_tab, tab_id) {
            Some(cwd) => m.replay_cwds(cwds).tab_cwds.contains_key(tab_id) && m.replay_cwds(
                cwds,
            ).tab_cwds[tab_id] == cwd,
            None => m.replay_cwds(cwds).tab_cwds.contains_key(tab_id) == m.tab_cwds.contains_key(
                tab_id,
            ) && m.replay_cwds(cwds).tab_cwds[tab_id] == m.tab_cwds[tab_id],
        },
    decreases cwds.len(),
{
    if cwds.len() > 0 {
        lemma_last_report(m, cwds.drop_last(), tab_id);
    }
}

/// The directories that waited for their panes count in the order they came: a tab is in the last
/// one that was reported for it.
pub proof fn law_last_report_counts(m: Model, manifest: ManifestView, tab_id: usize)
    ensures
        match last_report(
            m.pending_cwds,
            terminals_by_tab(manifest, m.index_to_id),
            tab_id,
        ) {
            Some(cwd) => m.on_pane_update(manifest).tab_cwds.contains_key(tab_id)
                && m.on_pane_update(manifest).tab_cwds[tab_id] == cwd,
            None => m.on_pane_update(manifest).tab_cwds.contains_key(tab_id)
                == m.tab_cwds.contains_key(tab_id) && m.on_pane_update(manifest).tab_cwds[tab_id]
                == m.tab_cwds[tab_id],
        },
{
    let placed = m.place_panes(manifest);
    lemma_refresh_counts_frame(placed, manifest, m.tab_pane_counts);
    let followed = placed.follow_counts(manifest, m.tab_pane_counts);
    let cleared = Model { pending_cwds: Seq::empty(), ..followed };
    lemma_last_report(cleared, m.pending_cwds, tab_id);
    lemma_discover_frame(
        followed.replay_pending(manifest),
        tabs_with_new_terminals(manifest, m.index_to_id, m.pane_to_tab),
    );
}

/// A directory without text leaves no trace: the tab can still be asked about.
pub proof fn law_empty_directory_leaves_no_trace(m: Model, pane_id: u32, cwd: CwdView)
    requires
        cwd.text.len() == 0,
        m.pane_to_tab.contains_key(pane_id),
    ensures
        m.on_cwd_changed(PaneId::Terminal(pane_id), cwd) == m,
{
}

/// Directories of plugins do not matter.
pub proof fn law_plugins_do_not_name_tabs(m: Model, pane_id: u32, cwd: CwdView)
    ensures
        m.handle(EventView::CwdChanged(PaneId::Plugin(pane_id), cwd)) == m,
{
}

// ── Snapshots in another order ─────────────────────────────────────────────

/// A manifest is kept where one of its tab positions is not known, and then only; an older one is
/// not kept beside it.
pub proof fn law_early_manifest_is_kept(m: Model, manifest: ManifestView)
    ensures
        m.on_pane_update(manifest).deferred_panes == if all_positions_known(
            manifest,
            m.index_to_id,
        ) {
            None
        } else {
            Some(manifest)
        },
{
    let placed = m.place_panes(manifest);
    lemma_refresh_counts_frame(placed, manifest, m.tab_pane_counts);
    let followed = placed.follow_counts(manifest, m.tab_pane_counts);
    let cleared = Model { pending_cwds: Seq::empty(), ..followed };
    lemma_replay_frame(cleared, followed.pending_cwds);
    lemma_discover_frame(
        followed.replay_pending(manifest),
        tabs_with_new_terminals(manifest, m.index_to_id, m.pane_to_tab),
    );
}

/// A manifest that came ahead of its tabs is gone through as soon as they are known, and is then
/// not kept any longer.
pub proof fn law_early_manifest_is_gone_through(
    m: Model,
    manifest: ManifestView,
    tabs: Seq<TabInfo>,
)
    requires
        m.deferred_panes == Some(manifest),
        all_positions_known(manifest, tabs_by_position(tabs)),
    ensures
        m.on_tab_update(tabs) == m.place_tabs(tabs).on_pane_update(manifest),
        m.on_tab_update(tabs).deferred_panes is None,
{
    law_early_manifest_is_kept(m.place_tabs(tabs), manifest);
}

/// Whether two states differ in nothing but the directories that wait for their pane.
pub open spec fn same_but_pending(a: Model, b: Model) -> bool {
    a == Model { pending_cwds: a.pending_cwds, ..b }
}

/// Directories of terminals without a tab change nothing but what waits.
proof fn lemma_replay_some(
    a: Model,
    b: Model,
    cwds: Seq<(u32, CwdView)>,
    keep: spec_fn((u32, CwdView)) -> bool,
)
    requires
        same_but_pending(a, b),
        forall|i: int|
            0 <= i < cwds.len() && a.pane_to_tab.contains_key((#[trigger] cwds[i]).0) ==> keep(
                cwds[i],
            ),
    ensures
        same_but_pending(a.replay_cwds(cwds), b.replay_cwds(cwds.filter(keep))),
        a.replay_cwds(cwds).pane_to_tab == a.pane_to_tab,
    decreases cwds.len(),
{
    reveal(Seq::filter);
    if cwds.len() > 0 {
        let rest = cwds.drop_last();
        let last = cwds.last();
        assert(last == cwds[cwds.len() - 1]);
        assert forall|i: int|
            0 <= i < rest.len() && a.pane_to_tab.contains_key((#[trigger] rest[i]).0) implies keep(
            rest[i],
        ) by {
            assert(rest[i] == cwds[i]);
        }
        lemma_replay_some(a, b, rest, keep);
        let a1 = a.replay_cwds(rest);
        let b1 = b.replay_cwds(rest.filter(keep));
        lemma_report_same(a1, b1, last.0, last.1);
        if keep(last) {
            let kept = rest.filter(keep).push(last);
            assert(kept.drop_last() =~= rest.filter(keep));
            assert(b.replay_cwds(kept) == b1.on_cwd_changed(PaneId::Terminal(last.0), last.1));
        }
    }
}

/// A report does the same whatever else waits for its pane.
proof fn lemma_report_same(a: Model, b: Model, pane: u32, cwd: CwdView)
    requires
        same_but_pending(a, b),
    ensures
        same_but_pending(
            a.on_cwd_changed(PaneId::Terminal(pane), cwd),
            b.on_cwd_changed(PaneId::Terminal(pane), cwd),
        ),
        !a.pane_to_tab.contains_key(pane) ==> same_but_pending(
            a.on_cwd_changed(PaneId::Terminal(pane), cwd),
            b,
        ),
        a.on_cwd_changed(PaneId::Terminal(pane), cwd).pane_to_tab == a.pane_to_tab,
{
    if a.pane_to_tab.contains_key(pane) && cwd.text.len() > 0 {
        let tab_id = a.pane_to_tab[pane];
        assert(a.cached_name(cwd.text) == b.cached_name(cwd.text));
        assert(a.derive_name(cwd.text) == b.derive_name(cwd.text));
        let ea = Model { tab_cwds: a.tab_cwds.insert(tab_id, cwd), ..a };
        let eb = Model { tab_cwds: b.tab_cwds.insert(tab_id, cwd), ..b };
        assert(ea.cached_name(cwd.text) == a.cached_name(cwd.text));
        assert(eb.cached_name(cwd.text) == b.cached_name(cwd.text));
        lemma_apply_same(ea, eb, tab_id, a.derive_name(cwd.text));
        if a.cached_name(cwd.text) is Some {
            lemma_apply_same(ea, eb, tab_id, a.cached_name(cwd.text)->0);
        }
    }
}

proof fn lemma_apply_same(a: Model, b: Model, tab_id: usize, name: Seq<char>)
    requires
        same_but_pending(a, b),
    ensures
        same_but_pending(a.apply_name(tab_id, name), b.apply_name(tab_id, name)),
{
    let na = Model { base_names: a.base_names.insert(tab_id, name), ..a };
    let nb = Model { base_names: b.base_names.insert(tab_id, name), ..b };
    assert(na.compose_rendered_name(tab_id, name) == nb.compose_rendered_name(tab_id, name));
}

pub proof fn lemma_refresh_counts_same(
    a: Model,
    b: Model,
    manifest: ManifestView,
    before: Map<usize, usize>,
)
    requires
        same_but_pending(a, b),
    ensures
        same_but_pending(a.refresh_counts(manifest, before), b.refresh_counts(manifest, before)),
        a.refresh_counts(manifest, before).pending_cwds == a.pending_cwds,
        b.refresh_counts(manifest, before).pending_cwds == b.pending_cwds,
    decreases manifest.len(),
{
    if manifest.len() > 0 {
        let rest = manifest.drop_last();
        lemma_refresh_counts_same(a, b, rest, before);
        let ra = a.refresh_counts(rest, before);
        let rb = b.refresh_counts(rest, before);
        if a.index_to_id.contains_key(manifest.last().0) {
            let tab_id = a.index_to_id[manifest.last().0];
            assert(ra.compose_rendered_name(tab_id, ra.base_names[tab_id])
                == rb.compose_rendered_name(tab_id, rb.base_names[tab_id]));
        }
    }
}

/// A terminal that has a tab is one of the manifest.
proof fn lemma_placed_is_listed(manifest: ManifestView, tabs: Map<usize, usize>, pane: u32)
    requires
        terminals_by_tab(manifest, tabs).contains_key(pane),
    ensures
        manifest_terminals(manifest).contains(pane),
{
    lemma_place_is_listed(manifest, tabs, pane);
}

/// A snapshot of all panes does the same whether or not directories of terminals that it does not
/// list wait for their pane.
proof fn lemma_pane_update_ignores_unlisted(a: Model, b: Model, manifest: ManifestView)
    requires
        same_but_pending(a, b),
        distinct_panes(a.pending_cwds),
        b.pending_cwds == only_panes(a.pending_cwds, manifest_terminals(manifest)),
    ensures
        a.on_pane_update(manifest) == b.on_pane_update(manifest),
{
    let terminals = manifest_terminals(manifest);
    let places = terminals_by_tab(manifest, a.index_to_id);
    let keep = about(terminals);
    let cwds = a.pending_cwds;
    let pa = a.place_panes(manifest);
    let pb = b.place_panes(manifest);
    lemma_refresh_counts_same(pa, pb, manifest, a.tab_pane_counts);
    let fa = pa.follow_counts(manifest, a.tab_pane_counts);
    let fb = pb.follow_counts(manifest, b.tab_pane_counts);
    lemma_refresh_counts_frame(pa, manifest, a.tab_pane_counts);
    let ca = Model { pending_cwds: Seq::empty(), ..fa };
    let cb = Model { pending_cwds: Seq::empty(), ..fb };
    assert(ca == cb);
    assert forall|i: int|
        0 <= i < cwds.len() && ca.pane_to_tab.contains_key((#[trigger] cwds[i]).0) implies keep(
        cwds[i],
    ) by {
        lemma_placed_is_listed(manifest, a.index_to_id, cwds[i].0);
    }
    lemma_replay_some(ca, cb, cwds, keep);
    lemma_filter_distinct_panes(cwds, keep);
    lemma_replayed_pending(ca, cwds);
    lemma_replayed_pending(cb, cwds.filter(keep));
    lemma_filter_twice(cwds, unplaced(places), keep, still_pending(terminals, places));
    lemma_filter_twice(cwds, keep, unplaced(places), still_pending(terminals, places));
    let left = cwds.filter(still_pending(terminals, places));
    lemma_filter_members(cwds, still_pending(terminals, places));
    assert forall|i: int| 0 <= i < left.len() implies keep(#[trigger] left[i]) by {
        assert(left.contains(left[i]));
    }
    lemma_filter_all(left, keep);
    assert(fa.replay_pending(manifest) == fb.replay_pending(manifest));
}

/// Nothing is placed, counted or renamed where no position is known.
proof fn lemma_no_position_known(m: Model, manifest: ManifestView, before: Map<usize, usize>)
    requires
        m.index_to_id == Map::<usize, usize>::empty(),
    ensures
        terminals_by_tab(manifest, m.index_to_id) == Map::<u32, usize>::empty(),
        counts_by_tab(manifest, m.index_to_id) == Map::<usize, usize>::empty(),
        tabs_with_new_terminals(manifest, m.index_to_id, m.pane_to_tab) == Seq::<
            (usize, Seq<PaneInfo>),
        >::empty(),
        m.refresh_counts(manifest, before) == m,
    decreases manifest.len(),
{
    if manifest.len() > 0 {
        lemma_no_position_known(m, manifest.drop_last(), before);
    }
}

/// Whether nothing is known of where tabs and panes are.
pub open spec fn knows_no_place(m: Model) -> bool {
    &&& m.index_to_id == Map::<usize, usize>::empty()
    &&& m.pane_to_tab == Map::<u32, usize>::empty()
    &&& m.tab_pane_counts == Map::<usize, usize>::empty()
    &&& m.deferred_panes is None
}

/// At the start the snapshots of panes and tabs can come in either order.
pub proof fn law_first_snapshots_commute(m: Model, manifest: ManifestView, tabs: Seq<TabInfo>)
    requires
        knows_no_place(m),
        distinct_panes(m.pending_cwds),
    ensures
        m.on_pane_update(manifest).on_tab_update(tabs) == m.on_tab_update(tabs).on_pane_update(
            manifest,
        ),
{
    let terminals = manifest_terminals(manifest);
    let placed = m.place_panes(manifest);
    lemma_no_position_known(m, manifest, m.tab_pane_counts);
    lemma_no_position_known(placed, manifest, m.tab_pane_counts);
    assert(placed =~= m);
    let cleared = Model { pending_cwds: Seq::empty(), ..m };
    let none = m.pane_to_tab;
    lemma_replay_unplaced(cleared, m.pending_cwds);
    lemma_replayed_pending(cleared, m.pending_cwds);
    lemma_filter_all(m.pending_cwds, unplaced(none));
    let waiting = only_panes(m.pending_cwds, terminals);
    let early = m.on_pane_update(manifest);
    let kept = Model { pending_cwds: waiting, ..m };
    assert(early == kept.defer(manifest));
    let at = m.place_tabs(tabs);
    let bt = early.place_tabs(tabs);
    assert(bt =~= Model { pending_cwds: waiting, ..at });
    lemma_pane_update_ignores_unlisted(at, bt, manifest);
    if all_positions_known(manifest, m.index_to_id) {
        assert(manifest.len() == 0) by {
            if manifest.len() > 0 {
                assert(m.index_to_id.contains_key(manifest[0].0));
            }
        }
        assert(bt.tab_pane_counts =~= Map::empty());
        lemma_filter_twice(m.pending_cwds, about(terminals), about(terminals), about(terminals));
        lemma_empty_manifest(bt, manifest);
    }
}

/// Directories of terminals without a tab only wait.
pub proof fn lemma_replay_unplaced(m: Model, cwds: Seq<(u32, CwdView)>)
    requires
        m.pane_to_tab == Map::<u32, usize>::empty(),
    ensures
        same_but_pending(m.replay_cwds(cwds), m),
    decreases cwds.len(),
{
    if cwds.len() > 0 {
        lemma_replay_unplaced(m, cwds.drop_last());
    }
}

/// A snapshot without panes changes nothing where no pane was known and no directory waits for one.
proof fn lemma_empty_manifest(m: Model, manifest: ManifestView)
    requires
        manifest.len() == 0,
        m.pane_to_tab == Map::<u32, usize>::empty(),
        m.tab_pane_counts == Map::<usize, usize>::empty(),
        m.deferred_panes is None,
        m.pending_cwds == only_panes(m.pending_cwds, manifest_terminals(manifest)),
    ensures
        m.on_pane_update(manifest) == m,
{
    let terminals = manifest_terminals(manifest);
    lemma_filter_members(m.pending_cwds, about(terminals));
    assert(m.pending_cwds =~= Seq::empty()) by {
        if m.pending_cwds.len() > 0 {
            assert(m.pending_cwds.contains(m.pending_cwds[0]));
        }
    }
    assert(m.place_panes(manifest) =~= m);
    reveal(Seq::filter);
    assert(m.replay_pending(manifest) =~= m);
}

// ── The same again ─────────────────────────────────────────────────────────

/// Whether no terminal of a manifest is listed under two tabs, among those of known position.
pub open spec fn one_tab_per_terminal(manifest: ManifestView, tabs: Map<usize, usize>) -> bool {
    forall|i: int, j: int, k: int, l: int|
        #![trigger manifest[i].1[j], manifest[k].1[l]]
        is_placed(manifest, tabs, i, j) && is_placed(manifest, tabs, k, l)
            && manifest[i].1[j].id == manifest[k].1[l].id ==> tabs[manifest[i].0]
            == tabs[manifest[k].0]
}

/// Whether a pane of a manifest is a terminal of a tab of known position.
pub open spec fn is_placed(manifest: ManifestView, tabs: Map<usize, usize>, i: int, j: int) -> bool {
    &&& 0 <= i < manifest.len()
    &&& 0 <= j < manifest[i].1.len()
    &&& tabs.contains_key(manifest[i].0)
    &&& !manifest[i].1[j].is_plugin
}

/// Placing panes in a tab places their terminals there, and leaves all others where they were.
pub proof fn lemma_with_terminals(into: Map<u32, usize>, panes: Seq<PaneInfo>, tab_id: usize, id: u32)
    ensures
        ({
            let all = with_terminals(into, panes, tab_id);
            if exists|j: int|
                0 <= j < panes.len() && !(#[trigger] panes[j]).is_plugin && panes[j].id == id {
                all.contains_key(id) && all[id] == tab_id
            } else {
                all.contains_key(id) == into.contains_key(id) && all[id] == into[id]
            }
        }),
    decreases panes.len(),
{
    if panes.len() > 0 {
        let rest = panes.drop_last();
        lemma_with_terminals(into, rest, tab_id, id);
        assert(panes[panes.len() - 1] == panes.last());
        assert forall|j: int| 0 <= j < rest.len() implies #[trigger] panes[j] == rest[j] by {}
        if exists|j: int|
            0 <= j < rest.len() && !(#[trigger] rest[j]).is_plugin && rest[j].id == id {
            let j = choose|j: int|
                0 <= j < rest.len() && !(#[trigger] rest[j]).is_plugin && rest[j].id == id;
            assert(panes[j] == rest[j]);
        }
    }
}

/// A terminal of a tab of known position has a tab.
pub proof fn lemma_listed_is_placed(manifest: ManifestView, tabs: Map<usize, usize>, i: int, j: int)
    requires
        is_placed(manifest, tabs, i, j),
    ensures
        terminals_by_tab(manifest, tabs).contains_key(manifest[i].1[j].id),
    decreases manifest.len(),
{
    let rest = manifest.drop_last();
    let id = manifest[i].1[j].id;
    if i < rest.len() {
        assert(rest[i] == manifest[i]);
        lemma_listed_is_placed(rest, tabs, i, j);
    } else {
        assert(manifest.last().1[j].id == id);
    }
    lemma_with_terminals(
        terminals_by_tab(rest, tabs),
        manifest.last().1,
        tabs[manifest.last().0],
        id,
    );
}

/// The tab that a terminal has is one that it is listed under.
pub proof fn lemma_place_is_listed(manifest: ManifestView, tabs: Map<usize, usize>, id: u32)
    requires
        terminals_by_tab(manifest, tabs).contains_key(id),
    ensures
        exists|i: int, j: int|
            #![trigger manifest[i].1[j]]
            is_placed(manifest, tabs, i, j) && manifest[i].1[j].id == id && terminals_by_tab(
                manifest,
                tabs,
            )[id] == tabs[manifest[i].0],
    decreases manifest.len(),
{
    let rest = manifest.drop_last();
    let n = manifest.len() - 1;
    let panes = manifest.last().1;
    let before = terminals_by_tab(rest, tabs);
    lemma_with_terminals(before, panes, tabs[manifest.last().0], id);
    let here = exists|j: int|
        0 <= j < panes.len() && !(#[trigger] panes[j]).is_plugin && panes[j].id == id;
    if tabs.contains_key(manifest.last().0) && here {
        let j = choose|j: int|
            0 <= j < panes.len() && !(#[trigger] panes[j]).is_plugin && panes[j].id == id;
        assert(manifest[n].1[j] == panes[j]);
        assert(is_placed(manifest, tabs, n, j));
    } else {
        lemma_place_is_listed(rest, tabs, id);
        let (i, j) = choose|i: int, j: int|
            #![trigger rest[i].1[j]]
            is_placed(rest, tabs, i, j) && rest[i].1[j].id == id && before[id] == tabs[rest[i].0];
        assert(manifest[i].1[j] == rest[i].1[j]);
        assert(is_placed(manifest, tabs, i, j));
    }
}

/// Once a manifest is gone through, none of its terminals is new to its tab.
proof fn lemma_nothing_is_new(manifest: ManifestView, tabs: Map<usize, usize>, i: int)
    requires
        one_tab_per_terminal(manifest, tabs),
        0 <= i < manifest.len(),
        tabs.contains_key(manifest[i].0),
    ensures
        !has_new_terminal(
            terminals_by_tab(manifest, tabs),
            manifest[i].1,
            tabs[manifest[i].0],
        ),
{
    let places = terminals_by_tab(manifest, tabs);
    let panes = manifest[i].1;
    assert forall|j: int| 0 <= j < panes.len() && !(#[trigger] panes[j]).is_plugin implies
        places.contains_key(panes[j].id) && places[panes[j].id] == tabs[manifest[i].0] by {
        let id = panes[j].id;
        assert(is_placed(manifest, tabs, i, j));
        lemma_listed_is_placed(manifest, tabs, i, j);
        lemma_place_is_listed(manifest, tabs, id);
        let (k, l) = choose|k: int, l: int|
            #![trigger manifest[k].1[l]]
            is_placed(manifest, tabs, k, l) && manifest[k].1[l].id == id && places[id]
                == tabs[manifest[k].0];
        assert(manifest[i].1[j].id == manifest[k].1[l].id);
    }
}

/// Where no terminal is new to its tab, no tab has a new one.
proof fn lemma_no_new_terminals(
    manifest: ManifestView,
    tabs: Map<usize, usize>,
    known: Map<u32, usize>,
)
    requires
        forall|i: int|
            0 <= i < manifest.len() && tabs.contains_key((#[trigger] manifest[i]).0)
                ==> !has_new_terminal(known, manifest[i].1, tabs[manifest[i].0]),
    ensures
        tabs_with_new_terminals(manifest, tabs, known) == Seq::<(usize, Seq<PaneInfo>)>::empty(),
    decreases manifest.len(),
{
    if manifest.len() > 0 {
        let rest = manifest.drop_last();
        assert forall|i: int|
            0 <= i < rest.len() && tabs.contains_key((#[trigger] rest[i]).0) implies
            !has_new_terminal(known, rest[i].1, tabs[rest[i].0]) by {
            assert(rest[i] == manifest[i]);
        }
        lemma_no_new_terminals(rest, tabs, known);
        assert(manifest[manifest.len() - 1] == manifest.last());
    }
}

/// Where no number of panes has changed no tab is renamed.
proof fn lemma_no_count_changed(m: Model, manifest: ManifestView)
    requires
        forall|i: int|
            0 <= i < manifest.len() && m.index_to_id.contains_key((#[trigger] manifest[i]).0)
                ==> m.tab_pane_counts.contains_key(m.index_to_id[manifest[i].0]),
    ensures
        m.refresh_counts(manifest, m.tab_pane_counts) == m,
    decreases manifest.len(),
{
    if manifest.len() > 0 {
        let rest = manifest.drop_last();
        assert forall|i: int|
            0 <= i < rest.len() && m.index_to_id.contains_key((#[trigger] rest[i]).0) implies
            m.tab_pane_counts.contains_key(m.index_to_id[rest[i].0]) by {
            assert(rest[i] == manifest[i]);
        }
        lemma_no_count_changed(m, rest);
        assert(manifest[manifest.len() - 1] == manifest.last());
    }
}

/// Directories of terminals without a tab, gone through again, wait as they did.
proof fn lemma_replay_waits(m: Model, cwds: Seq<(u32, CwdView)>)
    requires
        forall|i: int| 0 <= i < cwds.len() ==> !m.pane_to_tab.contains_key((#[trigger] cwds[i]).0),
    ensures
        same_but_pending(m.replay_cwds(cwds), m),
    decreases cwds.len(),
{
    if cwds.len() > 0 {
        let rest = cwds.drop_last();
        assert forall|i: int| 0 <= i < rest.len() implies !m.pane_to_tab.contains_key(
            (#[trigger] rest[i]).0,
        ) by {
            assert(rest[i] == cwds[i]);
        }
        lemma_replay_waits(m, rest);
        assert(cwds[cwds.len() - 1] == cwds.last());
    }
}

/// What going through a manifest has left is as going through it again leaves it.
proof fn lemma_same_panes_again(a: Model, manifest: ManifestView)
    requires
        one_tab_per_terminal(manifest, a.index_to_id),
        distinct_panes(a.pending_cwds),
        a.pane_to_tab == terminals_by_tab(manifest, a.index_to_id),
        a.tab_pane_counts == counts_by_tab(manifest, a.index_to_id),
        a.deferred_panes == (if all_positions_known(manifest, a.index_to_id) {
            None
        } else {
            Some(manifest)
        }),
        forall|i: int|
            0 <= i < a.pending_cwds.len() ==> still_pending(
                manifest_terminals(manifest),
                a.pane_to_tab,
            )(#[trigger] a.pending_cwds[i]),
    ensures
        a.on_pane_update(manifest) == a,
{
    let terminals = manifest_terminals(manifest);
    let cwds = a.pending_cwds;
    let placed = a.place_panes(manifest);
    assert(placed =~= Model { deferred_panes: None, ..a });
    assert forall|i: int|
        0 <= i < manifest.len() && placed.index_to_id.contains_key((#[trigger] manifest[i]).0)
            implies placed.tab_pane_counts.contains_key(
        placed.index_to_id[manifest[i].0],
    ) by {
        lemma_counted(manifest, placed.index_to_id, i);
    }
    lemma_no_count_changed(placed, manifest);
    let cleared = Model { pending_cwds: Seq::empty(), ..placed };
    assert forall|i: int| 0 <= i < cwds.len() implies !cleared.pane_to_tab.contains_key(
        (#[trigger] cwds[i]).0,
    ) && unplaced(cleared.pane_to_tab)(cwds[i]) && about(terminals)(cwds[i]) by {
        assert(still_pending(terminals, a.pane_to_tab)(cwds[i]));
    }
    lemma_replay_waits(cleared, cwds);
    lemma_replayed_pending(cleared, cwds);
    lemma_filter_all(cwds, unplaced(cleared.pane_to_tab));
    lemma_filter_all(cwds, about(terminals));
    assert(placed.replay_pending(manifest) =~= placed);
    assert forall|i: int|
        0 <= i < manifest.len() && a.index_to_id.contains_key((#[trigger] manifest[i]).0) implies
        !has_new_terminal(a.pane_to_tab, manifest[i].1, a.index_to_id[manifest[i].0]) by {
        lemma_nothing_is_new(manifest, a.index_to_id, i);
    }
    lemma_no_new_terminals(manifest, a.index_to_id, a.pane_to_tab);
}

/// What going through a manifest leaves of panes, counts and tabs.
pub proof fn lemma_pane_update_places(m: Model, manifest: ManifestView)
    ensures
        m.on_pane_update(manifest).index_to_id == m.index_to_id,
        m.on_pane_update(manifest).tab_pane_counts == counts_by_tab(manifest, m.index_to_id),
        m.on_pane_update(manifest).pane_to_tab == terminals_by_tab(manifest, m.index_to_id),
{
    let placed = m.place_panes(manifest);
    lemma_refresh_counts_frame(placed, manifest, m.tab_pane_counts);
    let followed = placed.follow_counts(manifest, m.tab_pane_counts);
    lemma_replay_frame(
        Model { pending_cwds: Seq::empty(), ..followed },
        followed.pending_cwds,
    );
    lemma_discover_frame(
        followed.replay_pending(manifest),
        tabs_with_new_terminals(manifest, m.index_to_id, m.pane_to_tab),
    );
}

/// Going through a manifest twice is going through it once.
pub proof fn lemma_pane_update_twice(m: Model, manifest: ManifestView)
    requires
        m.core_inv(),
        one_tab_per_terminal(manifest, m.index_to_id),
    ensures
        m.on_pane_update(manifest).on_pane_update(manifest) == m.on_pane_update(manifest),
{
    let after = m.on_pane_update(manifest);
    let keep = still_pending(
        manifest_terminals(manifest),
        terminals_by_tab(manifest, m.index_to_id),
    );
    law_pending_directories_await_their_tab(m, manifest);
    law_early_manifest_is_kept(m, manifest);
    lemma_pane_update_places(m, manifest);
    lemma_pane_update_keeps(m, manifest);
    lemma_filter_members(m.pending_cwds, keep);
    assert forall|i: int| 0 <= i < after.pending_cwds.len() implies keep(
        #[trigger] after.pending_cwds[i],
    ) by {
        assert(after.pending_cwds.contains(after.pending_cwds[i]));
    }
    lemma_same_panes_again(after, manifest);
}

/// The same snapshot of all panes, taken again, changes nothing and leads to nothing. Left out:
/// manifests that list a terminal under two tabs, as it is new to one of them every time.
pub proof fn law_same_panes_again_change_nothing(m: Model, manifest: ManifestView)
    requires
        m.inv(),
        one_tab_per_terminal(manifest, m.index_to_id),
    ensures
        m.handle(EventView::PaneUpdate(manifest)).handle(EventView::PaneUpdate(manifest))
            == m.handle(EventView::PaneUpdate(manifest)),
{
    if m.got_permissions {
        lemma_pane_update_keeps(m, manifest);
        lemma_pane_update_twice(m, manifest);
    }
}

/// The same report of a terminal's directory, taken again, changes nothing and leads to nothing.
pub proof fn law_same_report_again_changes_nothing(m: Model, pane_id: u32, cwd: CwdView)
    ensures
        ({
            let report = EventView::CwdChanged(PaneId::Terminal(pane_id), cwd);
            m.handle(report).handle(report) == m.handle(report)
        }),
{
    if !m.got_permissions {
        lemma_upserted_again(m.buffered_cwds, pane_id, cwd);
    } else if !m.pane_to_tab.contains_key(pane_id) {
        lemma_upserted_again(m.pending_cwds, pane_id, cwd);
    } else if cwd.text.len() > 0 {
        let tab_id = m.pane_to_tab[pane_id];
        let once = m.enter_cwd(tab_id, cwd);
        assert(once.tab_cwds.insert(tab_id, cwd) =~= once.tab_cwds);
        let again = Model { tab_cwds: once.tab_cwds.insert(tab_id, cwd), ..once };
        assert(again == once);
        if !m.git_detection || (!m.pending_git.contains_key(cwd.text) && m.cached_name(
            cwd.text,
        ) is Some) {
            let name = if m.git_detection {
                m.cached_name(cwd.text)->0
            } else {
                m.derive_name(cwd.text)
            };
            assert(once.cached_name(cwd.text) == m.cached_name(cwd.text));
            assert(once.base_names.insert(tab_id, name) =~= once.base_names);
        } else if m.pending_git.contains_key(cwd.text) {
            let waiters = m.pending_git[cwd.text];
            assert(waiters.push(tab_id)[waiters.len() as int] == tab_id);
        } else {
            assert(seq![tab_id][0] == tab_id);
        }
    }
}

/// The latest word, said again, is the latest word.
proof fn lemma_upserted_again(list: Seq<(u32, CwdView)>, pane: u32, cwd: CwdView)
    ensures
        upserted(upserted(list, pane, cwd), pane, cwd) == upserted(list, pane, cwd),
{
    let kept = list.filter(not_about(pane));
    lemma_filter_twice(list, not_about(pane), not_about(pane), not_about(pane));
    reveal(Seq::filter);
    assert(kept.push((pane, cwd)).drop_last() =~= kept);
}

} // verus!
