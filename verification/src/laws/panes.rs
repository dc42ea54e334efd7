//! Laws of panes and tabs: who is asked about, whose directory counts, and what is forgotten.

use crate::cwd::CwdView;
use crate::events::{EffectView, ManifestView, PaneId, PaneInfo};
use crate::frames::{lemma_discover_frame, lemma_refresh_counts_frame, lemma_replay_frame};
use crate::model::{
    candidates, discovery_pane, first_pane, has_new_terminal, tabs_with_new_terminals,
    terminals_by_tab, Model,
};
use vstd::prelude::*;

verus! {

// ── The pane that speaks for a tab ─────────────────────────────────────────

/// How far a candidate stands from the pane that is asked for: in the visible layer and focused, in
/// the visible layer, focused, neither.
pub open spec fn distance(floating: bool, pane: PaneInfo) -> nat {
    if pane.is_focused && pane.is_floating == floating {
        0
    } else if pane.is_floating == floating {
        1
    } else if pane.is_focused {
        2
    } else {
        3
    }
}

/// Whether a pane can speak for its tab: a terminal, and not one that runs out of sight.
pub open spec fn may_speak(pane: PaneInfo) -> bool {
    pane.is_plugin == false && pane.is_suppressed == false
}

/// Whether the pane at `k` is the first of the nearest that can speak.
pub open spec fn speaks(floating: bool, panes: Seq<PaneInfo>, k: int) -> bool {
    &&& 0 <= k < panes.len()
    &&& may_speak(panes[k])
    &&& forall|j: int|
        0 <= j < panes.len() && may_speak(#[trigger] panes[j]) ==> distance(floating, panes[k])
            <= distance(floating, panes[j])
    &&& forall|j: int|
        0 <= j < k && may_speak(#[trigger] panes[j]) ==> distance(floating, panes[k])
            < distance(floating, panes[j])
}

proof fn lemma_first_pane(panes: Seq<PaneInfo>, wanted: spec_fn(PaneInfo) -> bool)
    ensures
        match first_pane(panes, wanted) {
            Some(id) => exists|k: int|
                0 <= k < panes.len() && wanted(#[trigger] panes[k]) && panes[k].id == id && forall|
                    j: int,
                |
                    0 <= j < k ==> !wanted(#[trigger] panes[j]),
            None => forall|j: int| 0 <= j < panes.len() ==> !wanted(#[trigger] panes[j]),
        },
    decreases panes.len(),
{
    if panes.len() > 0 && !wanted(panes[0]) {
        let rest = panes.skip(1);
        lemma_first_pane(rest, wanted);
        match first_pane(rest, wanted) {
            Some(id) => {
                let k = choose|k: int|
                    0 <= k < rest.len() && wanted(#[trigger] rest[k]) && rest[k].id == id
                        && forall|j: int| 0 <= j < k ==> !wanted(#[trigger] rest[j]);
                assert(wanted(panes[k + 1]));
                assert forall|j: int| 0 <= j < k + 1 implies !wanted(#[trigger] panes[j]) by {
                    if j > 0 {
                        assert(!wanted(rest[j - 1]));
                    }
                }
            },
            None => {
                assert forall|j: int| 0 <= j < panes.len() implies !wanted(#[trigger] panes[j]) by {
                    if j > 0 {
                        assert(!wanted(rest[j - 1]));
                    }
                }
            },
        }
    }
}

/// The pane whose directory names a tab is a terminal that is not suppressed, and of these the first
/// of the nearest: what is seen comes before a focus that is out of sight. There is one wherever
/// there is such a terminal, and then only.
pub proof fn law_nearest_candidate_speaks(floating: bool, panes: Seq<PaneInfo>)
    ensures
        match discovery_pane(floating, panes) {
            Some(id) => exists|k: int| #[trigger] speaks(floating, panes, k) && panes[k].id == id,
            None => forall|j: int| 0 <= j < panes.len() ==> !may_speak(#[trigger] panes[j]),
        },
{
    let focused_in_sight = candidates(true, Some(floating));
    let in_sight = candidates(false, Some(floating));
    let focused = candidates(true, None);
    let any = candidates(false, None);
    lemma_first_pane(panes, focused_in_sight);
    lemma_first_pane(panes, in_sight);
    lemma_first_pane(panes, focused);
    lemma_first_pane(panes, any);
    if first_pane(panes, focused_in_sight) is Some {
        lemma_speaks(floating, panes, focused_in_sight);
    } else if first_pane(panes, in_sight) is Some {
        assert forall|j: int| 0 <= j < panes.len() && may_speak(#[trigger] panes[j]) implies
            distance(floating, panes[j]) >= 1 by {
            assert(!focused_in_sight(panes[j]));
        }
        lemma_speaks(floating, panes, in_sight);
    } else if first_pane(panes, focused) is Some {
        assert forall|j: int| 0 <= j < panes.len() && may_speak(#[trigger] panes[j]) implies
            distance(floating, panes[j]) >= 2 by {
            assert(!in_sight(panes[j]));
        }
        lemma_speaks(floating, panes, focused);
    } else if first_pane(panes, any) is Some {
        assert forall|j: int| 0 <= j < panes.len() && may_speak(#[trigger] panes[j]) implies
            distance(floating, panes[j]) >= 3 by {
            assert(!in_sight(panes[j]));
            assert(!focused(panes[j]));
        }
        lemma_speaks(floating, panes, any);
    } else {
        assert forall|j: int| 0 <= j < panes.len() implies !may_speak(#[trigger] panes[j]) by {
            assert(!any(panes[j]));
        }
    }
}

/// The first pane of a kind speaks where all candidates are of that kind or further away.
proof fn lemma_speaks(floating: bool, panes: Seq<PaneInfo>, wanted: spec_fn(PaneInfo) -> bool)
    requires
        first_pane(panes, wanted) is Some,
        forall|j: int|
            0 <= j < panes.len() && #[trigger] wanted(panes[j]) ==> may_speak(panes[j]),
        forall|i: int, j: int|
            #![trigger wanted(panes[i]), may_speak(panes[j])]
            0 <= i < panes.len() && 0 <= j < panes.len() && wanted(panes[i]) && may_speak(
                panes[j],
            ) ==> if wanted(panes[j]) {
                distance(floating, panes[i]) <= distance(floating, panes[j])
            } else {
                distance(floating, panes[i]) < distance(floating, panes[j])
            },
    ensures
        exists|k: int| #[trigger]
            speaks(floating, panes, k) && panes[k].id == first_pane(panes, wanted)->0,
{
    lemma_first_pane(panes, wanted);
    let id = first_pane(panes, wanted)->0;
    let k = choose|k: int|
        0 <= k < panes.len() && wanted(#[trigger] panes[k]) && panes[k].id == id && forall|j: int|
            0 <= j < k ==> !wanted(#[trigger] panes[j]);
    assert(speaks(floating, panes, k));
}

// ── Queries ────────────────────────────────────────────────────────────────

/// Whether a later state has emitted more than an earlier one, and no query for a directory among
/// it.
pub open spec fn asks_no_pane(before: Model, after: Model) -> bool {
    &&& before.effects.len() <= after.effects.len()
    &&& forall|k: int|
        0 <= k < before.effects.len() ==> #[trigger] after.effects[k] == before.effects[k]
    &&& forall|k: int|
        before.effects.len() <= k < after.effects.len() ==> !(
        #[trigger] after.effects[k] is QueryPaneCwd)
}

proof fn lemma_cwd_changed_asks_no_pane(m: Model, pane_id: PaneId, cwd: CwdView)
    ensures
        asks_no_pane(m, m.on_cwd_changed(pane_id, cwd)),
{
}

proof fn lemma_asks_no_pane_transitive(a: Model, b: Model, c: Model)
    requires
        asks_no_pane(a, b),
        asks_no_pane(b, c),
    ensures
        asks_no_pane(a, c),
{
    assert forall|k: int| 0 <= k < a.effects.len() implies #[trigger] c.effects[k]
        == a.effects[k] by {
        assert(b.effects[k] == a.effects[k]);
    }
    assert forall|k: int| a.effects.len() <= k < c.effects.len() implies !(
    #[trigger] c.effects[k] is QueryPaneCwd) by {
        if k < b.effects.len() {
            assert(c.effects[k] == b.effects[k]);
        }
    }
}

proof fn lemma_replay_asks_no_pane(m: Model, cwds: Seq<(u32, CwdView)>)
    ensures
        asks_no_pane(m, m.replay_cwds(cwds)),
    decreases cwds.len(),
{
    if cwds.len() > 0 {
        let rest = m.replay_cwds(cwds.drop_last());
        lemma_replay_asks_no_pane(m, cwds.drop_last());
        lemma_cwd_changed_asks_no_pane(rest, PaneId::Terminal(cwds.last().0), cwds.last().1);
        lemma_asks_no_pane_transitive(m, rest, m.replay_cwds(cwds));
    }
}

proof fn lemma_refresh_counts_asks_no_pane(
    m: Model,
    manifest: ManifestView,
    before: Map<usize, usize>,
)
    ensures
        asks_no_pane(m, m.refresh_counts(manifest, before)),
    decreases manifest.len(),
{
    if manifest.len() > 0 {
        let rest = m.refresh_counts(manifest.drop_last(), before);
        lemma_refresh_counts_asks_no_pane(m, manifest.drop_last(), before);
        assert(asks_no_pane(rest, m.refresh_counts(manifest, before)));
        lemma_asks_no_pane_transitive(m, rest, m.refresh_counts(manifest, before));
    }
}

/// Reports of directories, answers to queries among them, lead to no query: so a loop that carries
/// out queries and hands back their answers ends after one round. A query that failed changes
/// nothing.
pub proof fn law_answers_lead_to_no_query(m: Model, pane_id: u32, answer: Option<CwdView>)
    ensures
        asks_no_pane(m, m.answer_query(pane_id, answer)),
        answer is None ==> m.answer_query(pane_id, answer) == m,
{
}

/// The state in which, on a snapshot of all panes, tabs are asked about.
#[verifier::opaque]
pub open spec fn before_queries(m: Model, manifest: ManifestView) -> Model {
    m.place_panes(manifest).follow_counts(manifest, m.tab_pane_counts).replay_pending(manifest)
}

pub proof fn lemma_before_queries(m: Model, manifest: ManifestView)
    ensures
        asks_no_pane(m, before_queries(m, manifest)),
        before_queries(m, manifest).floating_visible == m.floating_visible,
        before_queries(m, manifest).index_to_id == m.index_to_id,
        before_queries(m, manifest).pane_to_tab == terminals_by_tab(manifest, m.index_to_id),
{
    reveal(before_queries);
    let placed = m.place_panes(manifest);
    lemma_refresh_counts_asks_no_pane(placed, manifest, m.tab_pane_counts);
    lemma_refresh_counts_frame(placed, manifest, m.tab_pane_counts);
    let followed = placed.follow_counts(manifest, m.tab_pane_counts);
    let cleared = Model { pending_cwds: Seq::empty(), ..followed };
    lemma_replay_asks_no_pane(cleared, followed.pending_cwds);
    lemma_replay_frame(cleared, followed.pending_cwds);
    let replayed = cleared.replay_cwds(followed.pending_cwds);
    lemma_asks_no_pane_transitive(m, cleared, replayed);
}

/// Whether a tab is asked about in a state.
pub open spec fn is_asked(m: Model, entry: (usize, Seq<PaneInfo>)) -> bool {
    &&& !m.base_names.contains_key(entry.0)
    &&& !m.tab_cwds.contains_key(entry.0)
    &&& discovery_pane(m.floating_visible.contains(entry.0), entry.1) is Some
}

/// The query for a tab.
pub open spec fn query_for(m: Model, entry: (usize, Seq<PaneInfo>)) -> EffectView {
    EffectView::QueryPaneCwd {
        pane_id: discovery_pane(m.floating_visible.contains(entry.0), entry.1)->0,
    }
}

/// Whether an effect is the query for one of the tabs that are asked about.
pub open spec fn is_query_of(
    m: Model,
    tabs: Seq<(usize, Seq<PaneInfo>)>,
    effect: EffectView,
) -> bool {
    exists|i: int|
        0 <= i < tabs.len() && #[trigger] is_asked(m, tabs[i]) && effect == query_for(m, tabs[i])
}

/// Whether an effect is among those after the first `sent`.
pub open spec fn emitted_after(sent: nat, effects: Seq<EffectView>, effect: EffectView) -> bool {
    exists|k: int| sent <= k < effects.len() && #[trigger] effects[k] == effect
}

/// Asking emits the queries for the tabs that are asked about, and nothing else.
proof fn lemma_discover_all(m: Model, tabs: Seq<(usize, Seq<PaneInfo>)>)
    ensures
        m.effects.len() <= m.discover_all(tabs).effects.len(),
        forall|k: int|
            0 <= k < m.effects.len() ==> #[trigger] m.discover_all(tabs).effects[k] == m.effects[k],
        forall|i: int|
            0 <= i < tabs.len() && #[trigger] is_asked(m, tabs[i]) ==> emitted_after(
                m.effects.len(),
                m.discover_all(tabs).effects,
                query_for(m, tabs[i]),
            ),
        forall|k: int|
            m.effects.len() <= k < m.discover_all(tabs).effects.len() ==> is_query_of(
                m,
                tabs,
                #[trigger] m.discover_all(tabs).effects[k],
            ),
    decreases tabs.len(),
{
    if tabs.len() > 0 {
        let rest = tabs.drop_last();
        let last = tabs.last();
        lemma_discover_all(m, rest);
        lemma_discover_frame(m, rest);
        let before = m.discover_all(rest);
        let after = m.discover_all(tabs);
        let sent = m.effects.len();
        assert(after == before.discover(last.0, last.1));
        assert(is_asked(before, last) == is_asked(m, last));
        assert forall|i: int|
            0 <= i < tabs.len() && #[trigger] is_asked(m, tabs[i]) implies emitted_after(
            sent,
            after.effects,
            query_for(m, tabs[i]),
        ) by {
            if i < rest.len() {
                assert(is_asked(m, rest[i]));
                let k = choose|k: int|
                    sent <= k < before.effects.len() && #[trigger] before.effects[k] == query_for(
                        m,
                        rest[i],
                    );
                assert(after.effects[k] == before.effects[k]);
            } else {
                assert(after.effects[before.effects.len() as int] == query_for(m, last));
            }
        }
        assert forall|k: int| sent <= k < after.effects.len() implies is_query_of(
            m,
            tabs,
            #[trigger] after.effects[k],
        ) by {
            if k < before.effects.len() {
                assert(after.effects[k] == before.effects[k]);
                let i = choose|i: int|
                    0 <= i < rest.len() && #[trigger] is_asked(m, rest[i]) && before.effects[k]
                        == query_for(m, rest[i]);
                assert(is_asked(m, tabs[i]));
            } else {
                assert(is_asked(m, tabs[rest.len() as int]));
            }
        }
    }
}

/// A snapshot of all panes, by what is asked at its end.
pub proof fn lemma_pane_update_shape(m: Model, manifest: ManifestView)
    ensures
        ({
            let kept = before_queries(m, manifest);
            let asked = kept.discover_all(
                tabs_with_new_terminals(manifest, m.index_to_id, m.pane_to_tab),
            );
            &&& m.on_pane_update(manifest).effects == asked.effects
            &&& m.on_pane_update(manifest).base_names == kept.base_names
            &&& m.on_pane_update(manifest).tab_cwds == kept.tab_cwds
        }),
{
    reveal(before_queries);
    lemma_discover_frame(
        before_queries(m, manifest),
        tabs_with_new_terminals(manifest, m.index_to_id, m.pane_to_tab),
    );
}

/// The entries of a manifest with a new terminal, by their place.
proof fn lemma_new_terminals(
    manifest: ManifestView,
    tabs: Map<usize, usize>,
    known: Map<u32, usize>,
)
    ensures
        forall|i: int|
            0 <= i < manifest.len() && tabs.contains_key((#[trigger] manifest[i]).0)
                && has_new_terminal(known, manifest[i].1, tabs[manifest[i].0])
                ==> tabs_with_new_terminals(manifest, tabs, known).contains(
                (tabs[manifest[i].0], manifest[i].1),
            ),
        forall|n: int|
            0 <= n < tabs_with_new_terminals(manifest, tabs, known).len() ==> exists|i: int|
                0 <= i < manifest.len() && tabs.contains_key((#[trigger] manifest[i]).0)
                    && has_new_terminal(known, manifest[i].1, tabs[manifest[i].0]) && (
                #[trigger] tabs_with_new_terminals(manifest, tabs, known)[n]) == (
                    tabs[manifest[i].0],
                    manifest[i].1,
                ),
    decreases manifest.len(),
{
    if manifest.len() > 0 {
        let rest = manifest.drop_last();
        lemma_new_terminals(rest, tabs, known);
        let before = tabs_with_new_terminals(rest, tabs, known);
        let all = tabs_with_new_terminals(manifest, tabs, known);
        assert forall|i: int|
            0 <= i < manifest.len() && tabs.contains_key((#[trigger] manifest[i]).0)
                && has_new_terminal(known, manifest[i].1, tabs[manifest[i].0]) implies all.contains(
            (tabs[manifest[i].0], manifest[i].1),
        ) by {
            let entry = (tabs[manifest[i].0], manifest[i].1);
            if i < rest.len() {
                assert(rest[i] == manifest[i]);
                let n = choose|n: int| 0 <= n < before.len() && before[n] == entry;
                assert(all[n] == entry);
            } else {
                assert(all[all.len() - 1] == entry);
            }
        }
        assert forall|n: int| 0 <= n < all.len() implies exists|i: int|
            0 <= i < manifest.len() && tabs.contains_key((#[trigger] manifest[i]).0)
                && has_new_terminal(known, manifest[i].1, tabs[manifest[i].0]) && (
            #[trigger] all[n]) == (tabs[manifest[i].0], manifest[i].1) by {
            if n < before.len() {
                assert(all[n] == before[n]);
                let i = choose|i: int|
                    0 <= i < rest.len() && tabs.contains_key((#[trigger] rest[i]).0)
                        && has_new_terminal(known, rest[i].1, tabs[rest[i].0]) && before[n] == (
                        tabs[rest[i].0],
                        rest[i].1,
                    );
                assert(manifest[i] == rest[i]);
            } else {
                assert(manifest[manifest.len() - 1] == manifest.last());
            }
        }
    }
}

/// Whether some terminal among the panes was not known to be in the tab.
pub open spec fn brings_a_terminal(
    known: Map<u32, usize>,
    panes: Seq<PaneInfo>,
    tab_id: usize,
) -> bool {
    exists|j: int|
        0 <= j < panes.len() && (#[trigger] panes[j]).is_plugin == false && known.get(panes[j].id)
            != Some(tab_id)
}

/// Whether an entry of a manifest is that of a tab of known position with a terminal that is new to
/// it, and for which the pane at `k` speaks.
pub open spec fn calls_for_a_query(m: Model, manifest: ManifestView, i: int, k: int) -> bool {
    &&& 0 <= i < manifest.len()
    &&& m.index_to_id.contains_key(manifest[i].0)
    &&& brings_a_terminal(m.pane_to_tab, manifest[i].1, m.index_to_id[manifest[i].0])
    &&& speaks(
        m.floating_visible.contains(m.index_to_id[manifest[i].0]),
        manifest[i].1,
        k,
    )
}

/// Two panes that speak for a tab are one.
pub proof fn lemma_one_speaks(floating: bool, panes: Seq<PaneInfo>, k: int, l: int)
    requires
        speaks(floating, panes, k),
        speaks(floating, panes, l),
    ensures
        k == l,
{
    if k < l {
        assert(may_speak(panes[k]));
    } else if l < k {
        assert(may_speak(panes[l]));
    }
}

/// No tab goes without a name for want of asking: once a snapshot of all panes is gone through, a
/// tab of known position that has a new terminal has a name or a directory, or the pane that speaks
/// for it is asked.
pub proof fn law_unnamed_tab_is_asked_about(m: Model, manifest: ManifestView, i: int, k: int)
    requires
        calls_for_a_query(m, manifest, i, k),
    ensures
        ({
            let after = m.on_pane_update(manifest);
            let tab_id = m.index_to_id[manifest[i].0];
            let pane_id = manifest[i].1[k].id;
            ||| after.base_names.contains_key(tab_id)
            ||| after.tab_cwds.contains_key(tab_id)
            ||| emitted_after(
                m.effects.len(),
                after.effects,
                EffectView::QueryPaneCwd { pane_id },
            )
        }),
{
    let floating = m.floating_visible.contains(m.index_to_id[manifest[i].0]);
    law_nearest_candidate_speaks(floating, manifest[i].1);
    assert(may_speak(manifest[i].1[k]));
    let l = choose|l: int| #[trigger]
        speaks(floating, manifest[i].1, l) && manifest[i].1[l].id == discovery_pane(
            floating,
            manifest[i].1,
        )->0;
    lemma_one_speaks(floating, manifest[i].1, k, l);
    assert(has_new_terminal(m.pane_to_tab, manifest[i].1, m.index_to_id[manifest[i].0]));
    let kept = before_queries(m, manifest);
    let tabs = tabs_with_new_terminals(manifest, m.index_to_id, m.pane_to_tab);
    let after = m.on_pane_update(manifest);
    let tab_id = m.index_to_id[manifest[i].0];
    let entry = (tab_id, manifest[i].1);
    lemma_before_queries(m, manifest);
    lemma_pane_update_shape(m, manifest);
    lemma_new_terminals(manifest, m.index_to_id, m.pane_to_tab);
    assert(tabs.contains(entry));
    let n = choose|n: int| 0 <= n < tabs.len() && tabs[n] == entry;
    if !after.base_names.contains_key(tab_id) && !after.tab_cwds.contains_key(tab_id) {
        lemma_discover_all(kept, tabs);
        assert(is_asked(kept, tabs[n]));
        let k = choose|k: int|
            kept.effects.len() <= k < after.effects.len() && #[trigger] after.effects[k]
                == query_for(kept, tabs[n]);
        assert(m.effects.len() <= k);
        assert(after.effects[k] == query_for(kept, entry));
    }
}

/// No tab is asked about that has a name or a directory: a query goes to the pane that speaks for
/// a tab with a new terminal, of which neither is known.
pub proof fn law_only_unnamed_tabs_are_asked_about(m: Model, manifest: ManifestView, k: int)
    requires
        m.effects.len() <= k < m.on_pane_update(manifest).effects.len(),
        m.on_pane_update(manifest).effects[k] is QueryPaneCwd,
    ensures
        exists|i: int, l: int| #[trigger]
            calls_for_a_query(m, manifest, i, l) && {
                let tab_id = m.index_to_id[manifest[i].0];
                &&& !m.on_pane_update(manifest).base_names.contains_key(tab_id)
                &&& !m.on_pane_update(manifest).tab_cwds.contains_key(tab_id)
                &&& m.on_pane_update(manifest).effects[k] == EffectView::QueryPaneCwd {
                    pane_id: manifest[i].1[l].id,
                }
            },
{
    let kept = before_queries(m, manifest);
    let tabs = tabs_with_new_terminals(manifest, m.index_to_id, m.pane_to_tab);
    let after = m.on_pane_update(manifest);
    lemma_before_queries(m, manifest);
    lemma_pane_update_shape(m, manifest);
    lemma_discover_all(kept, tabs);
    let discovered = kept.discover_all(tabs);
    if k < kept.effects.len() {
        assert(discovered.effects[k] == kept.effects[k]);
    }
    assert(is_query_of(kept, tabs, discovered.effects[k]));
    let n = choose|n: int|
        0 <= n < tabs.len() && #[trigger] is_asked(kept, tabs[n]) && discovered.effects[k]
            == query_for(kept, tabs[n]);
    lemma_new_terminals(manifest, m.index_to_id, m.pane_to_tab);
    let entry = tabs_with_new_terminals(manifest, m.index_to_id, m.pane_to_tab)[n];
    let i = choose|i: int|
        0 <= i < manifest.len() && m.index_to_id.contains_key((#[trigger] manifest[i]).0)
            && has_new_terminal(m.pane_to_tab, manifest[i].1, m.index_to_id[manifest[i].0])
            && entry == (m.index_to_id[manifest[i].0], manifest[i].1);
    let floating = m.floating_visible.contains(m.index_to_id[manifest[i].0]);
    law_nearest_candidate_speaks(floating, manifest[i].1);
    let l = choose|l: int| #[trigger]
        speaks(floating, manifest[i].1, l) && manifest[i].1[l].id == discovery_pane(
            floating,
            manifest[i].1,
        )->0;
    assert(brings_a_terminal(m.pane_to_tab, manifest[i].1, m.index_to_id[manifest[i].0]));
    assert(calls_for_a_query(m, manifest, i, l));
}

} // verus!
