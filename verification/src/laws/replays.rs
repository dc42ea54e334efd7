//! Laws of snapshots of panes, step by step: the names that show a number follow it, the directories
//! that waited are reported, and then tabs are asked about.

use crate::cwd::CwdView;
use crate::events::{EffectView, EventView, ManifestView};
use crate::frames::{lemma_discover_frame, lemma_refresh_counts_frame, lemma_replay_frame};
use crate::laws::counts::{count_before, is_current, lemma_refresh_counts_current};
use crate::laws::directories::{in_directory, reports};
use crate::laws::panes::{
    before_queries, brings_a_terminal, calls_for_a_query, is_asked, law_nearest_candidate_speaks,
    lemma_before_queries, lemma_one_speaks, lemma_pane_update_shape, may_speak, query_for, speaks,
};
use crate::laws::reports::{law_early_manifest_is_kept, lemma_refresh_counts_same};
use crate::laws::snapshots::is_entry_of;
use crate::lists::{lemma_filter_all, lemma_filter_members, lemma_filter_step};
use crate::model::{
    discovery_pane, has_new_terminal, manifest_terminals, only_panes, tabs_with_new_terminals,
    Model,
};
use vstd::prelude::*;

verus! {

// ── Names that show a number of panes ──────────────────────────────────────

/// Whether an entry of a tab comes before an entry of another in a manifest.
pub open spec fn precedes(
    manifest: ManifestView,
    tabs: Map<usize, usize>,
    first: usize,
    second: usize,
) -> bool {
    exists|i: int, j: int|
        i < j && #[trigger] is_entry_of(manifest, tabs, i, first) && #[trigger] is_entry_of(
            manifest,
            tabs,
            j,
            second,
        )
}

/// Whether the effects from `sent` on, up to `end`, are renames of tabs of a manifest, in its order
/// and no more than one of each.
pub open spec fn renames_in_order(
    manifest: ManifestView,
    tabs: Map<usize, usize>,
    effects: Seq<EffectView>,
    sent: int,
    end: int,
) -> bool {
    &&& forall|k: int|
        sent <= k < end ==> #[trigger] effects[k] is RenameTab && exists|i: int| #[trigger]
            is_entry_of(manifest, tabs, i, effects[k]->tab_id)
    &&& forall|k: int, l: int|
        #![trigger effects[k], effects[l]]
        sent <= k < l < end ==> effects[k]->tab_id != effects[l]->tab_id && precedes(
            manifest,
            tabs,
            effects[k]->tab_id,
            effects[l]->tab_id,
        )
}

/// Once the tabs whose number of panes has changed are renamed, those among the effects are current.
proof fn lemma_refresh_in_order(m: Model, manifest: ManifestView, before: Map<usize, usize>)
    ensures
        ({
            let after = m.refresh_counts(manifest, before);
            &&& m.effects.len() <= after.effects.len()
            &&& after.effects.take(m.effects.len() as int) == m.effects
            &&& renames_in_order(
                manifest,
                m.index_to_id,
                after.effects,
                m.effects.len() as int,
                after.effects.len() as int,
            )
            &&& forall|k: int|
                m.effects.len() <= k < after.effects.len() ==> after.base_names.contains_key(
                    (#[trigger] after.effects[k])->tab_id,
                ) && is_current(after, after.effects[k]->tab_id)
        }),
    decreases manifest.len(),
{
    let after = m.refresh_counts(manifest, before);
    let sent = m.effects.len() as int;
    if manifest.len() > 0 {
        let rest = manifest.drop_last();
        let n = manifest.len() - 1;
        let middle = m.refresh_counts(rest, before);
        lemma_refresh_in_order(m, rest, before);
        lemma_refresh_counts_frame(m, rest, before);
        lemma_refresh_counts_frame(m, manifest, before);
        let tabs = m.index_to_id;
        assert forall|i: int, t: usize| #[trigger] is_entry_of(rest, tabs, i, t) implies is_entry_of(
            manifest,
            tabs,
            i,
            t,
        ) by {
            assert(rest[i] == manifest[i]);
        }
        assert(after.effects.take(sent) =~= m.effects) by {
            assert(middle.effects.take(sent) =~= m.effects);
            assert(after.effects.take(sent) =~= middle.effects.take(sent));
        }
        assert forall|k: int, l: int|
            #![trigger middle.effects[k], middle.effects[l]]
            sent <= k < l < middle.effects.len() implies precedes(
            manifest,
            tabs,
            middle.effects[k]->tab_id,
            middle.effects[l]->tab_id,
        ) by {
            let a = middle.effects[k]->tab_id;
            let b = middle.effects[l]->tab_id;
            assert(precedes(rest, tabs, a, b));
            let (i, j) = choose|i: int, j: int|
                i < j && #[trigger] is_entry_of(rest, tabs, i, a) && #[trigger] is_entry_of(
                    rest,
                    tabs,
                    j,
                    b,
                );
            assert(is_entry_of(manifest, tabs, i, a) && is_entry_of(manifest, tabs, j, b));
        }
        assert forall|k: int| sent <= k < middle.effects.len() implies exists|i: int|
            0 <= i < n && #[trigger] is_entry_of(
                manifest,
                tabs,
                i,
                (#[trigger] middle.effects[k])->tab_id,
            ) by {
            let a = middle.effects[k]->tab_id;
            let i = choose|i: int| #[trigger] is_entry_of(rest, tabs, i, a);
            assert(is_entry_of(manifest, tabs, i, a));
        }
        if after != middle {
            let t = tabs[manifest.last().0];
            assert(is_entry_of(manifest, tabs, n, t));
            assert(after == middle.refresh_tab_name(t));
            assert(middle.base_names.contains_key(t) && !is_current(middle, t));
            assert(after.effects[middle.effects.len() as int]->tab_id == t);
            assert forall|k: int| sent <= k < middle.effects.len() implies (
            #[trigger] after.effects[k]) == middle.effects[k] && middle.effects[k]->tab_id != t
                && precedes(manifest, tabs, middle.effects[k]->tab_id, t) by {
                let a = middle.effects[k]->tab_id;
                assert(is_current(middle, a));
                let i = choose|i: int|
                    0 <= i < n && #[trigger] is_entry_of(manifest, tabs, i, a);
                assert(i < n && is_entry_of(manifest, tabs, i, a) && is_entry_of(
                    manifest,
                    tabs,
                    n,
                    t,
                ));
            }
        }
    } else {
        assert(after.effects.take(sent) =~= m.effects);
    }
}

/// The name on display of a tab whose number has not changed, or that has no entry, stays.
proof fn lemma_refresh_elsewhere(
    m: Model,
    manifest: ManifestView,
    before: Map<usize, usize>,
    tab_id: usize,
)
    requires
        m.tab_pane_counts[tab_id] == count_before(before, tab_id) || !m.base_names.contains_key(
            tab_id,
        ) || forall|i: int| !#[trigger] is_entry_of(manifest, m.index_to_id, i, tab_id),
    ensures
        m.refresh_counts(manifest, before).rendered_names.get(tab_id) == m.rendered_names.get(
            tab_id,
        ),
    decreases manifest.len(),
{
    if manifest.len() > 0 {
        let rest = manifest.drop_last();
        assert forall|i: int|
            0 <= i < rest.len() implies #[trigger] is_entry_of(rest, m.index_to_id, i, tab_id)
                == is_entry_of(manifest, m.index_to_id, i, tab_id) by {
            assert(rest[i] == manifest[i]);
        }
        lemma_refresh_elsewhere(m, rest, before, tab_id);
        lemma_refresh_counts_frame(m, rest, before);
        assert(is_entry_of(manifest, m.index_to_id, manifest.len() - 1, tab_id) == (
        m.index_to_id.get(manifest.last().0) == Some(tab_id)));
    }
}

/// A snapshot of panes that no directory waits for, by its steps.
proof fn lemma_quiet_update(m: Model, manifest: ManifestView)
    requires
        m.pending_cwds.len() == 0,
    ensures
        ({
            let placed = m.place_panes(manifest);
            let followed = placed.follow_counts(manifest, m.tab_pane_counts);
            let after = m.on_pane_update(manifest);
            &&& before_queries(m, manifest) == followed
            &&& followed == Model {
                effects: followed.effects,
                rendered_names: followed.rendered_names,
                ..placed
            }
            &&& after == Model {
                effects: after.effects,
                deferred_panes: after.deferred_panes,
                ..followed
            }
        }),
{
    reveal(before_queries);
    let placed = m.place_panes(manifest);
    lemma_refresh_counts_frame(placed, manifest, m.tab_pane_counts);
    let followed = placed.follow_counts(manifest, m.tab_pane_counts);
    reveal(Seq::filter);
    assert(followed.pending_cwds =~= Seq::empty());
    assert(only_panes(followed.pending_cwds, manifest_terminals(manifest)) =~= Seq::empty());
    assert(followed.replay_pending(manifest) =~= followed);
    lemma_discover_frame(
        followed,
        tabs_with_new_terminals(manifest, m.index_to_id, m.pane_to_tab),
    );
}

/// The number of panes that a tab was last known to hold; none where that is not known.
pub open spec fn last_count(m: Model, tab_id: usize) -> usize {
    match m.tab_pane_counts.get(tab_id) {
        Some(count) => count,
        None => 0,
    }
}

/// Where no directory waits, a snapshot of panes changes no base name, no directory and no waiter;
/// the name on display is composed afresh of exactly the tabs with a base name that are listed with
/// another number of panes than before, where there is a format for it.
pub proof fn law_names_follow_the_number_of_panes(m: Model, manifest: ManifestView, tab_id: usize)
    requires
        m.got_permissions,
        m.pending_cwds.len() == 0,
    ensures
        ({
            let after = m.handle(EventView::PaneUpdate(manifest));
            let listed = exists|i: int| #[trigger]
                is_entry_of(manifest, m.index_to_id, i, tab_id);
            &&& after.base_names == m.base_names
            &&& after.tab_cwds == m.tab_cwds
            &&& after.pending_git == m.pending_git
            &&& after.rendered_names.get(tab_id) == if m.pane_count_format is Some
                && m.base_names.contains_key(tab_id) && listed && after.tab_pane_counts[tab_id]
                != last_count(m, tab_id) {
                Some(after.compose_rendered_name(tab_id, m.base_names[tab_id]))
            } else {
                m.rendered_names.get(tab_id)
            }
        }),
{
    let placed = m.place_panes(manifest);
    let before = m.tab_pane_counts;
    lemma_quiet_update(m, manifest);
    let after = m.on_pane_update(manifest);
    let followed = placed.follow_counts(manifest, before);
    if m.pane_count_format is Some {
        if m.base_names.contains_key(tab_id) && placed.tab_pane_counts[tab_id] != last_count(
            m,
            tab_id,
        ) && exists|i: int| #[trigger] is_entry_of(manifest, m.index_to_id, i, tab_id) {
            let i = choose|i: int| #[trigger] is_entry_of(manifest, m.index_to_id, i, tab_id);
            assert(m.index_to_id.contains_key(manifest[i].0));
            lemma_refresh_counts_current(placed, manifest, before, tab_id);
            assert(after.compose_rendered_name(tab_id, m.base_names[tab_id])
                == followed.compose_rendered_name(tab_id, m.base_names[tab_id]));
        } else {
            lemma_refresh_elsewhere(placed, manifest, before, tab_id);
        }
    }
}

// ── Queries ────────────────────────────────────────────────────────────────

/// Whether an entry of a manifest has its tab asked about, which has neither a name nor a directory
/// at the end.
pub open spec fn is_asked_about(m: Model, manifest: ManifestView, after: Model, i: int) -> bool {
    &&& exists|k: int| #[trigger] calls_for_a_query(m, manifest, i, k)
    &&& !after.base_names.contains_key(m.index_to_id[manifest[i].0])
    &&& !after.tab_cwds.contains_key(m.index_to_id[manifest[i].0])
}

/// The query that an entry of a manifest calls for: one to the pane that speaks for its tab.
pub open spec fn query_of(m: Model, manifest: ManifestView, i: int) -> EffectView {
    EffectView::QueryPaneCwd {
        pane_id: manifest[i].1[choose|k: int| #[trigger] calls_for_a_query(m, manifest, i, k)].id,
    }
}

/// The queries that a manifest calls for, one for each entry whose tab is asked about, in order.
pub open spec fn queries(m: Model, manifest: ManifestView, after: Model) -> Seq<EffectView> {
    Seq::new(manifest.len(), |i: int| i).filter(
        |i: int| is_asked_about(m, manifest, after, i),
    ).map_values(|i: int| query_of(m, manifest, i))
}

/// An entry has its tab asked about if and only if the pane that speaks for it is found.
proof fn lemma_query_of(m: Model, manifest: ManifestView, kept: Model, i: int)
    requires
        0 <= i < manifest.len(),
        kept.floating_visible == m.floating_visible,
    ensures
        ({
            let tab_id = m.index_to_id[manifest[i].0];
            let entry = (tab_id, manifest[i].1);
            &&& is_asked_about(m, manifest, kept, i) == (m.index_to_id.contains_key(manifest[i].0)
                && has_new_terminal(m.pane_to_tab, manifest[i].1, tab_id) && is_asked(kept, entry))
            &&& is_asked_about(m, manifest, kept, i) ==> query_of(m, manifest, i) == query_for(
                kept,
                entry,
            )
        }),
{
    let tab_id = m.index_to_id[manifest[i].0];
    let panes = manifest[i].1;
    let floating = m.floating_visible.contains(tab_id);
    law_nearest_candidate_speaks(floating, panes);
    assert(has_new_terminal(m.pane_to_tab, panes, tab_id) == brings_a_terminal(
        m.pane_to_tab,
        panes,
        tab_id,
    )) by {
        if has_new_terminal(m.pane_to_tab, panes, tab_id) {
            let j = choose|j: int|
                0 <= j < panes.len() && !(#[trigger] panes[j]).is_plugin && !(
                m.pane_to_tab.contains_key(panes[j].id) && m.pane_to_tab[panes[j].id] == tab_id);
            assert(panes[j].is_plugin == false && m.pane_to_tab.get(panes[j].id) != Some(tab_id));
        }
    }
    match discovery_pane(floating, panes) {
        Some(id) => {
            let l = choose|l: int| #[trigger] speaks(floating, panes, l) && panes[l].id == id;
            if exists|k: int| #[trigger] calls_for_a_query(m, manifest, i, k) {
                let k = choose|k: int| #[trigger] calls_for_a_query(m, manifest, i, k);
                lemma_one_speaks(floating, panes, k, l);
            }
            if m.index_to_id.contains_key(manifest[i].0) && has_new_terminal(
                m.pane_to_tab,
                panes,
                tab_id,
            ) {
                assert(calls_for_a_query(m, manifest, i, l));
            }
        },
        None => {
            assert forall|k: int| !#[trigger] calls_for_a_query(m, manifest, i, k) by {
                if calls_for_a_query(m, manifest, i, k) {
                    assert(may_speak(panes[k]));
                }
            }
        },
    }
}

proof fn lemma_queries(m: Model, manifest: ManifestView, kept: Model, n: int)
    requires
        0 <= n <= manifest.len(),
        kept.floating_visible == m.floating_visible,
    ensures
        kept.discover_all(
            tabs_with_new_terminals(manifest.take(n), m.index_to_id, m.pane_to_tab),
        ).effects == kept.effects + Seq::new(manifest.len(), |i: int| i).take(n).filter(
            |i: int| is_asked_about(m, manifest, kept, i),
        ).map_values(|i: int| query_of(m, manifest, i)),
    decreases n,
{
    let all = Seq::new(manifest.len(), |i: int| i);
    let asked = |i: int| is_asked_about(m, manifest, kept, i);
    let query = |i: int| query_of(m, manifest, i);
    let now = all.take(n).filter(asked).map_values(query);
    if n > 0 {
        let before = all.take(n - 1).filter(asked);
        let shorter = manifest.take(n - 1);
        lemma_queries(m, manifest, kept, n - 1);
        lemma_filter_step(all, n - 1, asked);
        lemma_query_of(m, manifest, kept, n - 1);
        assert(manifest.take(n).drop_last() =~= shorter);
        assert(manifest.take(n).last() == manifest[n - 1]);
        let tabs = tabs_with_new_terminals(shorter, m.index_to_id, m.pane_to_tab);
        let tab_id = m.index_to_id[manifest[n - 1].0];
        let entry = (tab_id, manifest[n - 1].1);
        lemma_discover_frame(kept, tabs);
        assert(all[n - 1] == n - 1);
        if asked(n - 1) {
            assert(now =~= before.map_values(query).push(query(n - 1)));
        } else {
            assert(now == before.map_values(query));
        }
        if m.index_to_id.contains_key(manifest[n - 1].0) && has_new_terminal(
            m.pane_to_tab,
            manifest[n - 1].1,
            tab_id,
        ) {
            assert(tabs.push(entry).drop_last() =~= tabs);
            assert(is_asked(kept.discover_all(tabs), entry) == is_asked(kept, entry));
        }
        assert(kept.effects + before.map_values(query).push(query(n - 1)) =~= (kept.effects
            + before.map_values(query)).push(query(n - 1)));
    } else {
        reveal(Seq::filter);
        assert(all.take(0).filter(asked) =~= Seq::empty());
        assert(now =~= Seq::empty());
        assert(kept.effects + now =~= kept.effects);
    }
}

/// A snapshot of panes by its queries.
proof fn lemma_queries_come_last(m: Model, manifest: ManifestView)
    ensures
        m.on_pane_update(manifest).effects == before_queries(m, manifest).effects + queries(
            m,
            manifest,
            m.on_pane_update(manifest),
        ),
{
    let kept = before_queries(m, manifest);
    let after = m.on_pane_update(manifest);
    lemma_before_queries(m, manifest);
    lemma_pane_update_shape(m, manifest);
    lemma_queries(m, manifest, kept, manifest.len() as int);
    let all = Seq::new(manifest.len(), |i: int| i);
    assert(all.take(manifest.len() as int) =~= all);
    assert(manifest.take(manifest.len() as int) =~= manifest);
    assert((|i: int| is_asked_about(m, manifest, kept, i)) =~= (|i: int|
        is_asked_about(m, manifest, after, i)));
}

/// The last that a snapshot of panes leads to are the queries that it calls for, in order, each
/// once; there are no others.
pub proof fn law_queries_come_last(m: Model, manifest: ManifestView)
    requires
        m.got_permissions,
    ensures
        ({
            let after = m.handle(EventView::PaneUpdate(manifest));
            let asked = queries(m, manifest, after);
            let rest = after.effects.len() - asked.len();
            &&& m.effects.len() <= rest
            &&& after.effects.skip(rest) == asked
            &&& forall|k: int|
                m.effects.len() <= k < rest ==> !(#[trigger] after.effects[k] is QueryPaneCwd)
        }),
{
    let after = m.handle(EventView::PaneUpdate(manifest));
    let asked = queries(m, manifest, after);
    let kept = before_queries(m, manifest);
    lemma_before_queries(m, manifest);
    lemma_queries_come_last(m, manifest);
    assert(after.effects.skip(kept.effects.len() as int) =~= asked);
    assert forall|k: int| m.effects.len() <= k < kept.effects.len() implies !(
    #[trigger] after.effects[k] is QueryPaneCwd) by {
        assert(after.effects[k] == kept.effects[k]);
    }
}

/// Where no directory waits, the first that a snapshot of panes leads to are renames of tabs that it
/// lists, in its order, and of no tab more than one.
pub proof fn law_renames_come_in_order(m: Model, manifest: ManifestView)
    requires
        m.got_permissions,
        m.pending_cwds.len() == 0,
    ensures
        ({
            let after = m.handle(EventView::PaneUpdate(manifest));
            renames_in_order(
                manifest,
                m.index_to_id,
                after.effects,
                m.effects.len() as int,
                after.effects.len() - queries(m, manifest, after).len(),
            )
        }),
{
    let after = m.handle(EventView::PaneUpdate(manifest));
    let kept = before_queries(m, manifest);
    lemma_quiet_update(m, manifest);
    lemma_queries_come_last(m, manifest);
    lemma_refresh_in_order(m.place_panes(manifest), manifest, m.tab_pane_counts);
    assert(forall|k: int|
        0 <= k < kept.effects.len() ==> #[trigger] after.effects[k] == kept.effects[k]);
}

// ── Directories that waited ────────────────────────────────────────────────

/// The state once directories are reported, one after the other.
pub open spec fn told(m: Model, cwds: Seq<(u32, CwdView)>) -> Model
    decreases cwds.len(),
{
    if cwds.len() == 0 {
        m
    } else {
        told(m, cwds.drop_last()).handle(reports(cwds.last().0, cwds.last().1))
    }
}

/// Reporting directories is going through them.
pub proof fn lemma_told(m: Model, cwds: Seq<(u32, CwdView)>)
    requires
        m.got_permissions,
    ensures
        told(m, cwds) == m.replay_cwds(cwds),
        told(m, cwds).got_permissions,
    decreases cwds.len(),
{
    lemma_replay_frame(m, cwds);
    if cwds.len() > 0 {
        lemma_told(m, cwds.drop_last());
    }
}

/// Going through directories does the same whatever manifest is kept.
proof fn lemma_replay_beside(m: Model, deferred: Option<ManifestView>, cwds: Seq<(u32, CwdView)>)
    ensures
        (Model { deferred_panes: deferred, ..m }).replay_cwds(cwds) == (Model {
            deferred_panes: deferred,
            ..m.replay_cwds(cwds)
        }),
    decreases cwds.len(),
{
    if cwds.len() > 0 {
        let rest = cwds.drop_last();
        let (id, cwd) = cwds.last();
        lemma_replay_beside(m, deferred, rest);
        let a = m.replay_cwds(rest);
        let b = Model { deferred_panes: deferred, ..a };
        if a.pane_to_tab.contains_key(id) && cwd.text.len() > 0 {
            let tab_id = a.pane_to_tab[id];
            let ea = in_directory(a, tab_id, cwd);
            let eb = in_directory(b, tab_id, cwd);
            assert(a.cached_name(cwd.text) == b.cached_name(cwd.text));
            assert(ea.cached_name(cwd.text) == eb.cached_name(cwd.text));
            assert(a.derive_name(cwd.text) == b.derive_name(cwd.text));
            lemma_apply_beside(ea, deferred, tab_id, a.derive_name(cwd.text));
            if ea.cached_name(cwd.text) is Some {
                lemma_apply_beside(ea, deferred, tab_id, ea.cached_name(cwd.text)->0);
            }
        }
    }
}

proof fn lemma_apply_beside(
    m: Model,
    deferred: Option<ManifestView>,
    tab_id: usize,
    name: Seq<char>,
)
    ensures
        (Model { deferred_panes: deferred, ..m }).apply_name(tab_id, name) == (Model {
            deferred_panes: deferred,
            ..m.apply_name(tab_id, name)
        }),
{
    let a = Model { base_names: m.base_names.insert(tab_id, name), ..m };
    let b = Model { deferred_panes: deferred, ..a };
    assert(a.compose_rendered_name(tab_id, name) == b.compose_rendered_name(tab_id, name));
}

/// Effects other than queries for directories.
pub open spec fn is_no_query() -> spec_fn(EffectView) -> bool {
    |effect: EffectView| !(effect is QueryPaneCwd)
}

proof fn lemma_without_queries(first: Seq<EffectView>, asked: Seq<EffectView>)
    requires
        forall|k: int| 0 <= k < first.len() ==> !(#[trigger] first[k] is QueryPaneCwd),
        forall|k: int| 0 <= k < asked.len() ==> #[trigger] asked[k] is QueryPaneCwd,
    ensures
        (first + asked).filter(is_no_query()) == first,
{
    let left = asked.filter(is_no_query());
    Seq::filter_distributes_over_add(first, asked, is_no_query());
    lemma_filter_all(first, is_no_query());
    lemma_filter_members(asked, is_no_query());
    if left.len() > 0 {
        assert(left.contains(left[0]));
        let k = choose|k: int| 0 <= k < asked.len() && asked[k] == left[0];
        assert(asked[k] is QueryPaneCwd);
    }
    assert(first + left =~= first);
}

/// A snapshot of panes that directories wait for is taken as if none did, but for its queries; then
/// the directories are reported, in the order they came, as if they came now; and then the tabs are
/// asked about that have neither a name nor a directory even so.
pub proof fn law_waiting_directories_are_reported(m: Model, manifest: ManifestView)
    requires
        m.got_permissions,
    ensures
        ({
            let after = m.handle(EventView::PaneUpdate(manifest));
            let quiet = (Model { pending_cwds: Seq::empty(), ..m }).handle(
                EventView::PaneUpdate(manifest),
            );
            let renames = quiet.effects.skip(m.effects.len() as int).filter(is_no_query());
            let counted = Model { effects: m.effects + renames, ..quiet };
            let reported = told(counted, m.pending_cwds);
            after == Model {
                effects: reported.effects + queries(m, manifest, after),
                pending_cwds: after.pending_cwds,
                ..reported
            }
        }),
{
    let silent = Model { pending_cwds: Seq::empty(), ..m };
    let after = m.on_pane_update(manifest);
    let quiet = silent.on_pane_update(manifest);
    let sent = m.effects.len() as int;
    let renames = quiet.effects.skip(sent).filter(is_no_query());
    let counted = Model { effects: m.effects + renames, ..quiet };
    let before = m.tab_pane_counts;
    let placed = m.place_panes(manifest);
    let followed = placed.follow_counts(manifest, before);
    let quiet_placed = silent.place_panes(manifest);
    lemma_refresh_counts_same(quiet_placed, placed, manifest, before);
    lemma_refresh_counts_frame(placed, manifest, before);
    let cleared = Model { pending_cwds: Seq::empty(), ..followed };
    assert(quiet_placed.follow_counts(manifest, before) == cleared);
    lemma_quiet_update(silent, manifest);
    lemma_queries_come_last(silent, manifest);
    lemma_refresh_in_order(quiet_placed, manifest, before);
    let asked = queries(silent, manifest, quiet);
    assert(quiet.effects == cleared.effects + asked);
    let first = cleared.effects.skip(sent);
    assert(cleared.effects.take(sent) =~= m.effects);
    assert(m.effects + first =~= cleared.effects);
    assert(quiet.effects.skip(sent) =~= first + asked);
    assert forall|k: int| 0 <= k < first.len() implies !(#[trigger] first[k] is QueryPaneCwd) by {
        if m.pane_count_format is Some {
            assert(cleared.effects[sent + k] is RenameTab);
        }
    }
    lemma_without_queries(first, asked);
    assert(counted =~= Model { deferred_panes: quiet.deferred_panes, ..cleared });
    lemma_replay_beside(cleared, quiet.deferred_panes, m.pending_cwds);
    lemma_told(counted, m.pending_cwds);
    law_early_manifest_is_kept(m, manifest);
    law_early_manifest_is_kept(silent, manifest);
    lemma_queries_come_last(m, manifest);
    let kept = before_queries(m, manifest);
    assert(kept == followed.replay_pending(manifest)) by {
        reveal(before_queries);
    }
    lemma_replay_frame(cleared, m.pending_cwds);
    lemma_discover_frame(
        kept,
        tabs_with_new_terminals(manifest, m.index_to_id, m.pane_to_tab),
    );
    assert(after == Model {
        effects: after.effects,
        deferred_panes: after.deferred_panes,
        ..kept
    }) by {
        reveal(before_queries);
    }
}

} // verus!
