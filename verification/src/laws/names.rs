//! Laws of names: how they are composed, kept on display and decorated.

use crate::cwd::{utf8_lossy, CwdView};
use crate::events::{
    EffectView, EventView, ManifestView, PaneId, PaneInfo, PermissionStatus, PipeMessageView,
};
use crate::model::{
    discovery_pane, git_root_of, tab_ids, tabs_with_new_terminals, text_for, Decoration, Model,
};
use crate::paths::basename_of;
use vstd::prelude::*;

verus! {

// ── Composition ────────────────────────────────────────────────────────────

/// The name on display of a tab with a base name is its prefix, the base name, its suffix and the
/// suffix for some number of panes, in that order.
pub proof fn law_display_is_composed(m: Model, tab_id: usize)
    requires
        m.inv(),
        m.base_names.contains_key(tab_id),
    ensures
        m.rendered_names.contains_key(tab_id),
        exists|count: usize|
            m.rendered_names[tab_id] == text_for(m.tab_prefixes, tab_id) + m.base_names[tab_id]
                + text_for(m.tab_suffixes, tab_id) + #[trigger] m.count_suffix(count),
{
    assert(m.base_names.dom().contains(tab_id));
    assert(m.displays(tab_id));
    let count = choose|count: usize|
        m.rendered_names[tab_id] == #[trigger] m.name_with_count(tab_id, count);
    assert(m.rendered_names[tab_id] == text_for(m.tab_prefixes, tab_id) + m.base_names[tab_id]
        + text_for(m.tab_suffixes, tab_id) + m.count_suffix(count));
}

/// A tab of one pane, or of none, shows no number of panes; nor does any tab where there is no
/// format for it.
pub proof fn law_no_count_up_to_one_pane(m: Model, tab_id: usize, base_name: Seq<char>)
    requires
        m.pane_count(tab_id) <= 1 || m.pane_count_format is None,
    ensures
        m.compose_rendered_name(tab_id, base_name) == text_for(m.tab_prefixes, tab_id) + base_name
            + text_for(m.tab_suffixes, tab_id),
{
    let name = text_for(m.tab_prefixes, tab_id) + base_name + text_for(m.tab_suffixes, tab_id);
    assert(name + Seq::<char>::empty() =~= name);
}

/// Home is shown as `~`, any other directory under its final component.
pub proof fn law_home_is_a_tilde(m: Model, cwd: Seq<char>)
    ensures
        m.home_dir.len() > 0 && cwd == m.home_dir ==> m.derive_name(cwd) == seq!['~'],
        !(m.home_dir.len() > 0 && cwd == m.home_dir) ==> m.derive_name(cwd)
            == basename_of(cwd),
{
}

// ── Display ────────────────────────────────────────────────────────────────

/// The names on display once the effects have been carried out.
pub open spec fn renamed(names: Map<usize, Seq<char>>, effects: Seq<EffectView>) -> Map<
    usize,
    Seq<char>,
>
    decreases effects.len(),
{
    if effects.len() == 0 {
        names
    } else {
        match effects.last() {
            EffectView::RenameTab { tab_id, name } => renamed(names, effects.drop_last()).insert(
                tab_id,
                name,
            ),
            _ => renamed(names, effects.drop_last()),
        }
    }
}

/// Whether every rename among the effects gives its tab another name than is on display.
pub open spec fn no_idle_rename(names: Map<usize, Seq<char>>, effects: Seq<EffectView>) -> bool
    decreases effects.len(),
{
    if effects.len() == 0 {
        true
    } else {
        &&& no_idle_rename(names, effects.drop_last())
        &&& effects.last() matches EffectView::RenameTab { tab_id, name } ==> !(renamed(
            names,
            effects.drop_last(),
        ).contains_key(tab_id) && renamed(names, effects.drop_last())[tab_id] == name)
    }
}

/// Whether, of the effects, those after the first `sent` take the names on display to those on
/// record, without an idle rename.
pub open spec fn display_follows(names: Map<usize, Seq<char>>, sent: int, after: Model) -> bool {
    &&& 0 <= sent <= after.effects.len()
    &&& renamed(names, after.effects.skip(sent)) == after.rendered_names
    &&& no_idle_rename(names, after.effects.skip(sent))
}

/// One more effect among those that follow.
proof fn lemma_follows_push(
    names: Map<usize, Seq<char>>,
    sent: int,
    m: Model,
    effect: EffectView,
    after: Model,
)
    requires
        display_follows(names, sent, m),
        after.effects == m.effects.push(effect),
        match effect {
            EffectView::RenameTab { tab_id, name } => {
                &&& after.rendered_names == m.rendered_names.insert(tab_id, name)
                &&& !(m.rendered_names.contains_key(tab_id) && m.rendered_names[tab_id] == name)
            },
            _ => after.rendered_names == m.rendered_names,
        },
    ensures
        display_follows(names, sent, after),
{
    let tail = after.effects.skip(sent);
    assert(tail.drop_last() =~= m.effects.skip(sent));
    assert(tail.last() == effect);
}

proof fn lemma_refresh_follows(names: Map<usize, Seq<char>>, sent: int, m: Model, tab_id: usize)
    requires
        display_follows(names, sent, m),
    ensures
        display_follows(names, sent, m.refresh_tab_name(tab_id)),
{
    let after = m.refresh_tab_name(tab_id);
    if after != m {
        let name = m.compose_rendered_name(tab_id, m.base_names[tab_id]);
        lemma_follows_push(names, sent, m, EffectView::RenameTab { tab_id, name }, after);
    }
}

proof fn lemma_apply_name_follows(
    names: Map<usize, Seq<char>>,
    sent: int,
    m: Model,
    tab_id: usize,
    name: Seq<char>,
)
    requires
        display_follows(names, sent, m),
    ensures
        display_follows(names, sent, m.apply_name(tab_id, name)),
{
    lemma_refresh_follows(
        names,
        sent,
        Model { base_names: m.base_names.insert(tab_id, name), ..m },
        tab_id,
    );
}

proof fn lemma_cwd_changed_follows(
    names: Map<usize, Seq<char>>,
    sent: int,
    m: Model,
    pane_id: PaneId,
    cwd: CwdView,
)
    requires
        display_follows(names, sent, m),
    ensures
        display_follows(names, sent, m.on_cwd_changed(pane_id, cwd)),
{
    match pane_id {
        PaneId::Terminal(id) => {
            if m.pane_to_tab.contains_key(id) && cwd.text.len() > 0 {
                let tab_id = m.pane_to_tab[id];
                let entered = Model { tab_cwds: m.tab_cwds.insert(tab_id, cwd), ..m };
                lemma_apply_name_follows(names, sent, entered, tab_id, m.derive_name(cwd.text));
                if m.cached_name(cwd.text) is Some {
                    let name = m.cached_name(cwd.text)->0;
                    assert(entered.cached_name(cwd.text) == Some(name));
                    lemma_apply_name_follows(names, sent, entered, tab_id, name);
                } else {
                    lemma_follows_push(
                        names,
                        sent,
                        m,
                        EffectView::RunGit { cwd, context: map!["cwd"@ => cwd.text] },
                        entered.ask_git(tab_id, cwd),
                    );
                }
            }
        },
        PaneId::Plugin(_) => {},
    }
}

proof fn lemma_replay_follows(
    names: Map<usize, Seq<char>>,
    sent: int,
    m: Model,
    cwds: Seq<(u32, CwdView)>,
)
    requires
        display_follows(names, sent, m),
    ensures
        display_follows(names, sent, m.replay_cwds(cwds)),
    decreases cwds.len(),
{
    if cwds.len() > 0 {
        lemma_replay_follows(names, sent, m, cwds.drop_last());
        lemma_cwd_changed_follows(
            names,
            sent,
            m.replay_cwds(cwds.drop_last()),
            PaneId::Terminal(cwds.last().0),
            cwds.last().1,
        );
    }
}

proof fn lemma_refresh_counts_follows(
    names: Map<usize, Seq<char>>,
    sent: int,
    m: Model,
    manifest: ManifestView,
    before: Map<usize, usize>,
)
    requires
        display_follows(names, sent, m),
    ensures
        display_follows(names, sent, m.refresh_counts(manifest, before)),
    decreases manifest.len(),
{
    if manifest.len() > 0 {
        lemma_refresh_counts_follows(names, sent, m, manifest.drop_last(), before);
        if m.index_to_id.contains_key(manifest.last().0) {
            lemma_refresh_follows(
                names,
                sent,
                m.refresh_counts(manifest.drop_last(), before),
                m.index_to_id[manifest.last().0],
            );
        }
    }
}

proof fn lemma_discover_follows(
    names: Map<usize, Seq<char>>,
    sent: int,
    m: Model,
    tabs: Seq<(usize, Seq<PaneInfo>)>,
)
    requires
        display_follows(names, sent, m),
    ensures
        display_follows(names, sent, m.discover_all(tabs)),
    decreases tabs.len(),
{
    if tabs.len() > 0 {
        let rest = m.discover_all(tabs.drop_last());
        lemma_discover_follows(names, sent, m, tabs.drop_last());
        let pane = discovery_pane(rest.floating_visible.contains(tabs.last().0), tabs.last().1);
        if m.discover_all(tabs) != rest {
            lemma_follows_push(
                names,
                sent,
                rest,
                EffectView::QueryPaneCwd { pane_id: pane->0 },
                m.discover_all(tabs),
            );
        }
    }
}

proof fn lemma_pane_update_follows(
    names: Map<usize, Seq<char>>,
    sent: int,
    m: Model,
    manifest: ManifestView,
)
    requires
        display_follows(names, sent, m),
    ensures
        display_follows(names, sent, m.on_pane_update(manifest)),
{
    let placed = m.place_panes(manifest);
    lemma_refresh_counts_follows(names, sent, placed, manifest, m.tab_pane_counts);
    let followed = placed.follow_counts(manifest, m.tab_pane_counts);
    let cleared = Model { pending_cwds: Seq::empty(), ..followed };
    lemma_replay_follows(names, sent, cleared, followed.pending_cwds);
    lemma_discover_follows(
        names,
        sent,
        followed.replay_pending(manifest),
        tabs_with_new_terminals(manifest, m.index_to_id, m.pane_to_tab),
    );
}

proof fn lemma_resolve_follows(
    names: Map<usize, Seq<char>>,
    sent: int,
    m: Model,
    waiters: Seq<usize>,
)
    requires
        display_follows(names, sent, m),
    ensures
        display_follows(names, sent, m.resolve_waiters(waiters)),
    decreases waiters.len(),
{
    if waiters.len() > 0 {
        let rest = m.resolve_waiters(waiters.drop_last());
        let last = waiters.last();
        lemma_resolve_follows(names, sent, m, waiters.drop_last());
        let name = rest.cached_name(rest.tab_cwds[last].text);
        if name is Some {
            lemma_apply_name_follows(names, sent, rest, last, name->0);
        }
    }
}

/// The names on display before an event, without those of tabs that the event says are gone.
pub open spec fn shown_before(m: Model, event: EventView) -> Map<usize, Seq<char>> {
    match event {
        EventView::TabUpdate(tabs) => if m.got_permissions {
            m.rendered_names.restrict(tab_ids(tabs))
        } else {
            m.rendered_names
        },
        _ => m.rendered_names,
    }
}

/// The names on record are those on display: carrying out what an event hands out takes the one to
/// the other, and no rename among it gives a tab the name it has.
pub proof fn law_renames_keep_the_display(m: Model, event: EventView)
    requires
        m.inv(),
    ensures
        display_follows(shown_before(m, event), m.effects.len() as int, m.handle(event)),
{
    let names = shown_before(m, event);
    let sent = m.effects.len() as int;
    assert(m.effects.skip(sent) =~= Seq::empty());
    if m.got_permissions {
        match event {
            EventView::TabUpdate(tabs) => {
                if m.deferred_panes is Some {
                    lemma_pane_update_follows(
                        names,
                        sent,
                        m.place_tabs(tabs),
                        m.deferred_panes->0,
                    );
                }
            },
            EventView::PaneUpdate(manifest) => {
                lemma_pane_update_follows(names, sent, m, manifest);
            },
            EventView::CwdChanged(pane_id, cwd) => {
                lemma_cwd_changed_follows(names, sent, m, pane_id, cwd);
            },
            EventView::RunCommandResult(exit_code, stdout, context) => {
                if context.contains_key("cwd"@) {
                    let cwd = context["cwd"@];
                    let root = git_root_of(exit_code, utf8_lossy(stdout));
                    lemma_resolve_follows(names, sent, m.take_verdict(cwd, root), m.waiters(cwd));
                }
            },
            _ => {},
        }
    } else if event == EventView::PermissionRequestResult(PermissionStatus::Granted) {
        let with_tabs = Model { got_permissions: true, ..m }.release_tabs();
        assert(with_tabs.rendered_names =~= m.rendered_names);
        let with_cwds = with_tabs.release_cwds();
        match with_cwds.buffered_panes {
            Some(manifest) => {
                lemma_pane_update_follows(
                    names,
                    sent,
                    Model { buffered_panes: None, ..with_cwds },
                    manifest,
                );
            },
            None => {},
        }
    }
}

/// The same of pipe messages.
pub proof fn law_pipe_renames_keep_the_display(m: Model, message: PipeMessageView)
    ensures
        display_follows(m.rendered_names, m.effects.len() as int, m.handle_pipe(message)),
{
    let names = m.rendered_names;
    let sent = m.effects.len() as int;
    assert(m.effects.skip(sent) =~= Seq::empty());
    let unblocked = m.unblock(message.source);
    if unblocked != m {
        lemma_follows_push(names, sent, m, unblocked.effects.last(), unblocked);
    }
    match unblocked.resolve_tab_id(message.args) {
        Some(tab_id) => {
            let value = if message.args.contains_key("value"@) {
                message.args["value"@]
            } else {
                Seq::empty()
            };
            lemma_decorate_follows(names, sent, unblocked, tab_id, Decoration::Prefix, value);
            lemma_decorate_follows(names, sent, unblocked, tab_id, Decoration::Suffix, value);
            lemma_decorate_follows(
                names,
                sent,
                unblocked,
                tab_id,
                Decoration::Prefix,
                Seq::empty(),
            );
            lemma_decorate_follows(
                names,
                sent,
                unblocked,
                tab_id,
                Decoration::Suffix,
                Seq::empty(),
            );
            lemma_refresh_follows(
                names,
                sent,
                Model {
                    tab_prefixes: unblocked.tab_prefixes.remove(tab_id),
                    tab_suffixes: unblocked.tab_suffixes.remove(tab_id),
                    ..unblocked
                },
                tab_id,
            );
        },
        None => {},
    }
}

proof fn lemma_decorate_follows(
    names: Map<usize, Seq<char>>,
    sent: int,
    m: Model,
    tab_id: usize,
    decoration: Decoration,
    value: Seq<char>,
)
    requires
        display_follows(names, sent, m),
    ensures
        display_follows(names, sent, m.decorate(tab_id, decoration, value)),
{
    let map = m.decorations(decoration);
    lemma_refresh_follows(
        names,
        sent,
        m.with_decorations(decoration, map.remove(tab_id)),
        tab_id,
    );
    lemma_refresh_follows(
        names,
        sent,
        m.with_decorations(decoration, map.insert(tab_id, value)),
        tab_id,
    );
}

/// A tab that is named for the first time is renamed, whatever it was called before.
pub proof fn law_first_name_is_sent(m: Model, tab_id: usize, name: Seq<char>)
    requires
        !m.rendered_names.contains_key(tab_id),
    ensures
        m.apply_name(tab_id, name).effects == m.effects.push(
            EffectView::RenameTab { tab_id, name: m.compose_rendered_name(tab_id, name) },
        ),
{
}

/// A tab whose name is up to date is not renamed.
pub proof fn law_refreshing_twice_is_refreshing_once(m: Model, tab_id: usize)
    ensures
        m.refresh_tab_name(tab_id).refresh_tab_name(tab_id) == m.refresh_tab_name(tab_id),
{
}

} // verus!
