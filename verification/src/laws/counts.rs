//! Laws of names that show a number of panes: they are kept up to date.

use crate::cwd::{utf8_lossy, CwdView};
use crate::events::{EventView, ManifestView, PaneId, PermissionStatus, PipeMessageView, TabInfo};
use crate::frames::{lemma_discover_frame, lemma_refresh_counts_frame};
use crate::model::{
    counts_by_tab, git_root_of, tabs_with_new_terminals, text_for, Decoration, Model,
};
use vstd::prelude::*;

verus! {

/// Whether the name on display of a tab is the one that is composed for it now.
pub open spec fn is_current(m: Model, tab_id: usize) -> bool {
    &&& m.rendered_names.contains_key(tab_id)
    &&& m.rendered_names[tab_id] == m.compose_rendered_name(tab_id, m.base_names[tab_id])
}

/// Whether every tab with a base name displays the name that is composed for it now.
pub open spec fn all_current(m: Model) -> bool {
    forall|tab_id: usize| #[trigger] m.base_names.contains_key(tab_id) ==> is_current(m, tab_id)
}

/// Whether a manifest leaves out a tab whose name shows a number of panes.
pub open spec fn leaves_out_a_count(m: Model, manifest: ManifestView) -> bool {
    exists|tab_id: usize| #[trigger]
        m.base_names.contains_key(tab_id) && m.pane_count_suffix(tab_id).len() > 0
            && !counts_by_tab(manifest, m.index_to_id).contains_key(tab_id)
}

/// Whether an event brings such a manifest, or lets it be gone through.
pub open spec fn drops_a_count(m: Model, event: EventView) -> bool {
    match event {
        EventView::PaneUpdate(manifest) => m.got_permissions && leaves_out_a_count(m, manifest),
        EventView::TabUpdate(tabs) => m.got_permissions && m.deferred_panes is Some
            && leaves_out_a_count(m.place_tabs(tabs), m.deferred_panes->0),
        _ => false,
    }
}

proof fn lemma_refresh_current(m: Model, tab_id: usize, other: usize)
    ensures
        m.base_names.contains_key(tab_id) ==> is_current(m.refresh_tab_name(tab_id), tab_id),
        is_current(m, other) ==> is_current(m.refresh_tab_name(tab_id), other),
{
}

proof fn lemma_apply_name_current(m: Model, tab_id: usize, name: Seq<char>)
    requires
        all_current(m),
    ensures
        all_current(m.apply_name(tab_id, name)),
{
    let changed = Model { base_names: m.base_names.insert(tab_id, name), ..m };
    let after = m.apply_name(tab_id, name);
    assert forall|t: usize| #[trigger] after.base_names.contains_key(t) implies is_current(
        after,
        t,
    ) by {
        if t != tab_id {
            assert(m.base_names.contains_key(t));
            assert(is_current(changed, t));
        }
        lemma_refresh_current(changed, tab_id, t);
    }
}

/// Whether names are current depends on names, decorations, numbers of panes and the format alone.
proof fn lemma_same_current(m: Model, after: Model)
    requires
        all_current(m),
        after.base_names == m.base_names,
        after.rendered_names == m.rendered_names,
        after.tab_prefixes == m.tab_prefixes,
        after.tab_suffixes == m.tab_suffixes,
        after.tab_pane_counts == m.tab_pane_counts,
        after.pane_count_format == m.pane_count_format,
    ensures
        all_current(after),
{
    assert forall|t: usize| #[trigger] after.base_names.contains_key(t) implies is_current(
        after,
        t,
    ) by {
        assert(is_current(m, t));
    }
}

proof fn lemma_cwd_changed_current(m: Model, pane_id: PaneId, cwd: CwdView)
    requires
        all_current(m),
    ensures
        all_current(m.on_cwd_changed(pane_id, cwd)),
{
    let after = m.on_cwd_changed(pane_id, cwd);
    match pane_id {
        PaneId::Terminal(id) => {
            if m.pane_to_tab.contains_key(id) && cwd.text.len() > 0 {
                let tab_id = m.pane_to_tab[id];
                let entered = Model { tab_cwds: m.tab_cwds.insert(tab_id, cwd), ..m };
                lemma_same_current(m, entered);
                if !m.git_detection {
                    lemma_apply_name_current(entered, tab_id, m.derive_name(cwd.text));
                } else if m.pending_git.contains_key(cwd.text) {
                    lemma_same_current(m, after);
                } else if m.cached_name(cwd.text) is Some {
                    assert(entered.cached_name(cwd.text) == m.cached_name(cwd.text));
                    lemma_apply_name_current(entered, tab_id, m.cached_name(cwd.text)->0);
                } else {
                    lemma_same_current(m, after);
                }
            } else {
                lemma_same_current(m, after);
            }
        },
        PaneId::Plugin(_) => {},
    }
}

proof fn lemma_replay_current(m: Model, cwds: Seq<(u32, CwdView)>)
    requires
        all_current(m),
    ensures
        all_current(m.replay_cwds(cwds)),
    decreases cwds.len(),
{
    if cwds.len() > 0 {
        lemma_replay_current(m, cwds.drop_last());
        lemma_cwd_changed_current(
            m.replay_cwds(cwds.drop_last()),
            PaneId::Terminal(cwds.last().0),
            cwds.last().1,
        );
    }
}

proof fn lemma_resolve_current(m: Model, waiters: Seq<usize>)
    requires
        all_current(m),
    ensures
        all_current(m.resolve_waiters(waiters)),
    decreases waiters.len(),
{
    if waiters.len() > 0 {
        let rest = m.resolve_waiters(waiters.drop_last());
        let last = waiters.last();
        lemma_resolve_current(m, waiters.drop_last());
        let name = rest.cached_name(rest.tab_cwds[last].text);
        if name is Some {
            lemma_apply_name_current(rest, last, name->0);
        }
    }
}

/// A tab that is counted has an entry in the manifest.
proof fn lemma_counted_has_entry(manifest: ManifestView, tabs: Map<usize, usize>, tab_id: usize)
    requires
        counts_by_tab(manifest, tabs).contains_key(tab_id),
    ensures
        exists|i: int|
            0 <= i < manifest.len() && tabs.contains_key((#[trigger] manifest[i]).0)
                && tabs[manifest[i].0] == tab_id,
    decreases manifest.len(),
{
    if manifest.len() > 0 {
        let last = manifest.last();
        if tabs.contains_key(last.0) && tabs[last.0] == tab_id {
            assert(manifest[manifest.len() - 1] == last);
        } else {
            let rest = manifest.drop_last();
            lemma_counted_has_entry(rest, tabs, tab_id);
            let i = choose|i: int|
                0 <= i < rest.len() && tabs.contains_key((#[trigger] rest[i]).0)
                    && tabs[rest[i].0] == tab_id;
            assert(manifest[i] == rest[i]);
        }
    }
}

/// The number of panes that a tab is compared by when a new manifest comes.
pub open spec fn count_before(before: Map<usize, usize>, tab_id: usize) -> usize {
    if before.contains_key(tab_id) {
        before[tab_id]
    } else {
        0
    }
}

/// Once the tabs whose number has changed are renamed, a tab is current that was so, or has an
/// entry and another number.
pub proof fn lemma_refresh_counts_current(
    m: Model,
    manifest: ManifestView,
    before: Map<usize, usize>,
    tab_id: usize,
)
    requires
        m.base_names.contains_key(tab_id),
        is_current(m, tab_id) || (m.tab_pane_counts[tab_id] != count_before(before, tab_id)
            && exists|i: int|
            0 <= i < manifest.len() && m.index_to_id.contains_key((#[trigger] manifest[i]).0)
                && m.index_to_id[manifest[i].0] == tab_id),
    ensures
        is_current(m.refresh_counts(manifest, before), tab_id),
        m.refresh_counts(manifest, before).base_names == m.base_names,
    decreases manifest.len(),
{
    if manifest.len() > 0 {
        let rest = manifest.drop_last();
        let last = manifest.last();
        let here = m.index_to_id.contains_key(last.0) && m.index_to_id[last.0] == tab_id;
        lemma_refresh_counts_frame(m, rest, before);
        if is_current(m, tab_id) {
            lemma_refresh_counts_current(m, rest, before, tab_id);
        } else if !here {
            let i = choose|i: int|
                0 <= i < manifest.len() && m.index_to_id.contains_key((#[trigger] manifest[i]).0)
                    && m.index_to_id[manifest[i].0] == tab_id;
            assert(rest[i] == manifest[i]);
            lemma_refresh_counts_current(m, rest, before, tab_id);
        }
        if m.index_to_id.contains_key(last.0) {
            lemma_refresh_current(
                m.refresh_counts(rest, before),
                m.index_to_id[last.0],
                tab_id,
            );
        }
    }
}

proof fn lemma_pane_update_current(m: Model, manifest: ManifestView)
    requires
        all_current(m),
        !leaves_out_a_count(m, manifest),
    ensures
        all_current(m.on_pane_update(manifest)),
{
    let placed = m.place_panes(manifest);
    let before = m.tab_pane_counts;
    let followed = placed.follow_counts(manifest, before);
    lemma_refresh_counts_frame(placed, manifest, before);
    assert forall|t: usize| #[trigger] followed.base_names.contains_key(t) implies is_current(
        followed,
        t,
    ) by {
        assert(m.base_names.contains_key(t));
        assert(is_current(m, t));
        if m.pane_count_format is Some {
            if placed.tab_pane_counts.contains_key(t) {
                lemma_counted_has_entry(manifest, m.index_to_id, t);
                if placed.tab_pane_counts[t] == count_before(before, t) {
                    assert(placed.pane_count_suffix(t) == m.pane_count_suffix(t));
                }
            } else {
                assert(m.pane_count_suffix(t).len() == 0);
                assert(m.pane_count_suffix(t) =~= placed.pane_count_suffix(t));
            }
            lemma_refresh_counts_current(placed, manifest, before, t);
        }
    }
    let cleared = Model { pending_cwds: Seq::empty(), ..followed };
    lemma_same_current(followed, cleared);
    lemma_replay_current(cleared, followed.pending_cwds);
    let kept = followed.replay_pending(manifest);
    lemma_same_current(cleared.replay_cwds(followed.pending_cwds), kept);
    let tabs = tabs_with_new_terminals(manifest, m.index_to_id, m.pane_to_tab);
    lemma_discover_frame(kept, tabs);
    lemma_same_current(kept, m.on_pane_update(manifest));
}

proof fn lemma_place_tabs_current(m: Model, tabs: Seq<TabInfo>)
    requires
        all_current(m),
    ensures
        all_current(m.place_tabs(tabs)),
{
    let after = m.place_tabs(tabs);
    assert forall|t: usize| #[trigger] after.base_names.contains_key(t) implies is_current(
        after,
        t,
    ) by {
        assert(m.base_names.contains_key(t));
        assert(is_current(m, t));
    }
}

/// Every tab shows the name that is composed for it now, the number of its panes included: an event
/// keeps it so. Left out: manifests that leave out a tab whose name shows a number of panes.
pub proof fn law_names_stay_current(m: Model, event: EventView)
    requires
        m.inv(),
        all_current(m),
        !drops_a_count(m, event),
    ensures
        all_current(m.handle(event)),
{
    if m.got_permissions {
        match event {
            EventView::TabUpdate(tabs) => {
                lemma_place_tabs_current(m, tabs);
                if m.deferred_panes is Some {
                    lemma_pane_update_current(m.place_tabs(tabs), m.deferred_panes->0);
                }
            },
            EventView::PaneUpdate(manifest) => lemma_pane_update_current(m, manifest),
            EventView::CwdChanged(pane_id, cwd) => lemma_cwd_changed_current(m, pane_id, cwd),
            EventView::RunCommandResult(exit_code, stdout, context) => {
                if context.contains_key("cwd"@) {
                    let cwd = context["cwd"@];
                    let root = git_root_of(exit_code, utf8_lossy(stdout));
                    lemma_same_current(m, m.take_verdict(cwd, root));
                    lemma_resolve_current(m.take_verdict(cwd, root), m.waiters(cwd));
                }
            },
            _ => {},
        }
    } else if event == EventView::PermissionRequestResult(PermissionStatus::Granted) {
        let granted = Model { got_permissions: true, ..m };
        lemma_same_current(m, granted);
        let with_tabs = granted.release_tabs();
        assert(all_current(with_tabs)) by {
            assert(with_tabs.base_names =~= m.base_names);
        }
        let with_cwds = with_tabs.release_cwds();
        match with_cwds.buffered_panes {
            Some(manifest) => {
                let taken = Model { buffered_panes: None, ..with_cwds };
                assert(taken.base_names =~= m.base_names);
                lemma_pane_update_current(taken, manifest);
            },
            None => {},
        }
    } else {
        lemma_same_current(m, m.handle(event));
    }
}

/// The same of pipe messages.
pub proof fn law_names_stay_current_when_decorated(m: Model, message: PipeMessageView)
    requires
        all_current(m),
    ensures
        all_current(m.handle_pipe(message)),
{
    let unblocked = m.unblock(message.source);
    lemma_same_current(m, unblocked);
    let value = if message.args.contains_key("value"@) {
        message.args["value"@]
    } else {
        Seq::empty()
    };
    match unblocked.resolve_tab_id(message.args) {
        Some(tab_id) => {
            lemma_decorate_current(unblocked, tab_id, Decoration::Prefix, value);
            lemma_decorate_current(unblocked, tab_id, Decoration::Suffix, value);
            lemma_decorate_current(unblocked, tab_id, Decoration::Prefix, Seq::empty());
            lemma_decorate_current(unblocked, tab_id, Decoration::Suffix, Seq::empty());
            let cleared = Model {
                tab_prefixes: unblocked.tab_prefixes.remove(tab_id),
                tab_suffixes: unblocked.tab_suffixes.remove(tab_id),
                ..unblocked
            };
            lemma_decorated_current(unblocked, cleared, tab_id);
        },
        None => {},
    }
}

/// Once a tab with other decorations is renamed, names are current.
pub proof fn lemma_decorated_current(m: Model, changed: Model, tab_id: usize)
    requires
        all_current(m),
        changed == (Model {
            tab_prefixes: changed.tab_prefixes,
            tab_suffixes: changed.tab_suffixes,
            ..m
        }),
        forall|t: usize|
            t != tab_id ==> #[trigger] text_for(changed.tab_prefixes, t) == text_for(
                m.tab_prefixes,
                t,
            ),
        forall|t: usize|
            t != tab_id ==> #[trigger] text_for(changed.tab_suffixes, t) == text_for(
                m.tab_suffixes,
                t,
            ),
    ensures
        all_current(changed.refresh_tab_name(tab_id)),
{
    let after = changed.refresh_tab_name(tab_id);
    assert forall|t: usize| #[trigger] after.base_names.contains_key(t) implies is_current(
        after,
        t,
    ) by {
        assert(m.base_names.contains_key(t));
        assert(is_current(m, t));
        if t != tab_id {
            assert(changed.compose_rendered_name(t, m.base_names[t]) == m.compose_rendered_name(
                t,
                m.base_names[t],
            ));
            assert(is_current(changed, t));
        }
        lemma_refresh_current(changed, tab_id, t);
    }
}

/// A decoration keeps names current.
pub proof fn lemma_decorate_current(
    m: Model,
    tab_id: usize,
    decoration: Decoration,
    value: Seq<char>,
)
    requires
        all_current(m),
    ensures
        all_current(m.decorate(tab_id, decoration, value)),
{
    let map = m.decorations(decoration);
    lemma_decorated_current(m, m.with_decorations(decoration, map.remove(tab_id)), tab_id);
    lemma_decorated_current(m, m.with_decorations(decoration, map.insert(tab_id, value)), tab_id);
}

/// At first no tab has a name.
pub proof fn law_names_are_current_at_first()
    ensures
        all_current(Model::initial()),
{
}

} // verus!
