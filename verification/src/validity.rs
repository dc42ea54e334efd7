//! What holds of the tab namer at all times, and that every step keeps it.

use crate::cwd::{utf8_lossy, CwdView};
use crate::events::{
    EffectView, EventView, ManifestView, PaneId, PaneInfo, PermissionStatus, PipeMessageView,
    PipeSourceView, TabInfo,
};
use crate::lists::{lemma_filter_members, lemma_filter_no_duplicates};
use crate::maps::among;
use crate::model::{
    about, all_positions_known, first_root, git_root_of, manifest_terminals, not_about, tab_ids,
    tabs_with_new_terminals, text_for, upserted, Decoration, Model, MAX_GIT_CACHE_ENTRIES,
};
use crate::paths::{ancestors_of, lemma_ancestors_first};
use vstd::prelude::*;

verus! {

/// No pane has two entries.
pub open spec fn distinct_panes(list: Seq<(u32, CwdView)>) -> bool {
    forall|i: int, j: int|
        #![trigger list[i], list[j]]
        0 <= i < j < list.len() ==> list[i].0 != list[j].0
}

/// The decorations on record are not empty.
pub open spec fn no_empty_text(map: Map<usize, Seq<char>>) -> bool {
    forall|t: usize| #[trigger] map.contains_key(t) ==> map[t].len() > 0
}

impl Model {
    /// The git caches are finite and within their limit.
    pub open spec fn caches_inv(self) -> bool {
        &&& self.git_roots.finite()
        &&& self.not_git.finite()
        &&& self.root_aliases.dom().finite()
        &&& self.resolved_cwds.finite()
        &&& self.git_cache_len() <= MAX_GIT_CACHE_ENTRIES
    }

    /// Somebody waits for every answer git is asked for; nobody waits twice; and whoever waits is
    /// in some directory.
    pub open spec fn waiters_inv(self) -> bool {
        forall|cwd: Seq<char>| #[trigger]
            self.pending_git.contains_key(cwd) ==> {
                &&& self.pending_git[cwd].len() > 0
                &&& self.pending_git[cwd].no_duplicates()
                &&& forall|i: int|
                    0 <= i < self.pending_git[cwd].len() ==> self.tab_cwds.contains_key(
                        #[trigger] self.pending_git[cwd][i],
                    )
            }
    }

    /// The caches have no answer from git for a directory that git is being asked about.
    pub open spec fn questions_inv(self) -> bool {
        forall|cwd: Seq<char>| #[trigger]
            self.pending_git.contains_key(cwd) ==> {
                &&& !self.not_git.contains(cwd)
                &&& !self.root_aliases.contains_key(cwd)
                &&& !self.resolved_cwds.contains(cwd)
            }
    }

    /// The caches know a root for every directory that git has answered with one for.
    pub open spec fn answers_inv(self) -> bool {
        forall|cwd: Seq<char>| #[trigger]
            self.resolved_cwds.contains(cwd) ==> self.find_git_root(cwd) is Some
    }

    /// The tabs with a base name are those with a rendered name, and each is in some directory.
    pub open spec fn names_inv(self) -> bool {
        &&& self.base_names.dom() == self.rendered_names.dom()
        &&& self.base_names.dom().subset_of(self.tab_cwds.dom())
    }

    /// The name of a tab with a base name, would it show `count` panes.
    pub open spec fn name_with_count(self, tab_id: usize, count: usize) -> Seq<char> {
        text_for(self.tab_prefixes, tab_id) + self.base_names[tab_id] + text_for(
            self.tab_suffixes,
            tab_id,
        ) + self.count_suffix(count)
    }

    /// The name on display of a tab with a base name is that name in its decorations, with some
    /// number of panes.
    pub open spec fn displays(self, tab_id: usize) -> bool {
        exists|count: usize|
            self.rendered_names[tab_id] == #[trigger] self.name_with_count(tab_id, count)
    }

    /// Every tab with a base name displays it in its decorations.
    pub open spec fn display_inv(self) -> bool {
        forall|tab_id: usize| #[trigger]
            self.base_names.contains_key(tab_id) ==> self.displays(tab_id)
    }

    /// A manifest is kept only while one of its tab positions is not known.
    pub open spec fn deferral_inv(self) -> bool {
        self.deferred_panes matches Some(manifest) ==> !all_positions_known(
            manifest,
            self.index_to_id,
        )
    }

    /// What holds in the middle of a step.
    pub open spec fn core_inv(self) -> bool {
        &&& self.caches_inv()
        &&& self.waiters_inv()
        &&& self.questions_inv()
        &&& self.answers_inv()
        &&& self.names_inv()
        &&& self.display_inv()
        &&& self.deferral_inv()
        &&& no_empty_text(self.tab_prefixes)
        &&& no_empty_text(self.tab_suffixes)
        &&& distinct_panes(self.pending_cwds)
    }

    /// A tab whose directory is known is named, or waits for git's answer on that directory.
    pub open spec fn settled(self, tab_id: usize) -> bool {
        &&& self.tab_cwds[tab_id].text.len() > 0
        &&& self.base_names.contains_key(tab_id) || self.waiters(
            self.tab_cwds[tab_id].text,
        ).contains(tab_id)
    }

    /// No tab whose directory is known is left without a name to come.
    pub open spec fn settled_inv(self) -> bool {
        forall|tab_id: usize| #[trigger]
            self.tab_cwds.contains_key(tab_id) ==> self.settled(tab_id)
    }

    /// Nothing is known of tabs and panes.
    pub open spec fn knows_nothing(self) -> bool {
        &&& self.base_names == Map::<usize, Seq<char>>::empty()
        &&& self.rendered_names == Map::<usize, Seq<char>>::empty()
        &&& self.tab_pane_counts == Map::<usize, usize>::empty()
        &&& self.index_to_id == Map::<usize, usize>::empty()
        &&& self.pane_to_tab == Map::<u32, usize>::empty()
        &&& self.tab_cwds == Map::<usize, CwdView>::empty()
        &&& self.pending_git == Map::<Seq<char>, Seq<usize>>::empty()
        &&& self.pending_cwds == Seq::<(u32, CwdView)>::empty()
        &&& self.deferred_panes is None
        &&& self.active_tab_id is None
    }

    /// Before permissions are granted events are only kept, one directory per terminal; after that
    /// nothing is kept any more.
    pub open spec fn buffers_inv(self) -> bool {
        if self.got_permissions {
            &&& self.buffered_tabs is None
            &&& self.buffered_panes is None
            &&& self.buffered_cwds.len() == 0
        } else {
            &&& self.knows_nothing()
            &&& distinct_panes(self.buffered_cwds)
        }
    }

    /// What holds between steps.
    pub open spec fn inv(self) -> bool {
        &&& self.core_inv()
        &&& self.settled_inv()
        &&& self.buffers_inv()
    }

    /// `self` has the buffers and settings of `before`.
    pub open spec fn same_buffers(self, before: Model) -> bool {
        &&& self.got_permissions == before.got_permissions
        &&& self.buffered_tabs == before.buffered_tabs
        &&& self.buffered_panes == before.buffered_panes
        &&& self.buffered_cwds == before.buffered_cwds
        &&& self.git_detection == before.git_detection
        &&& self.pane_count_format == before.pane_count_format
        &&& self.home_dir == before.home_dir
    }
}

// ── Lists ──────────────────────────────────────────────────────────────────

/// Filtering gives no pane a second entry.
pub proof fn lemma_filter_distinct_panes(
    list: Seq<(u32, CwdView)>,
    keep: spec_fn((u32, CwdView)) -> bool,
)
    requires
        distinct_panes(list),
    ensures
        distinct_panes(list.filter(keep)),
    decreases list.len(),
{
    reveal(Seq::filter);
    if list.len() > 0 {
        let rest = list.drop_last();
        assert(forall|i: int| 0 <= i < rest.len() ==> rest[i] == list[i]);
        lemma_filter_distinct_panes(rest, keep);
        lemma_filter_members(rest, keep);
        let kept = rest.filter(keep);
        assert forall|i: int| 0 <= i < kept.len() implies (#[trigger] kept[i]).0 != list.last().0 by {
            assert(kept.contains(kept[i]));
            let k = choose|k: int| 0 <= k < rest.len() && rest[k] == kept[i];
            assert(list[k].0 != list[list.len() - 1].0);
        }
    }
}

/// A latest word leaves one entry per pane.
pub proof fn lemma_upserted_distinct(list: Seq<(u32, CwdView)>, pane: u32, cwd: CwdView)
    requires
        distinct_panes(list),
    ensures
        distinct_panes(upserted(list, pane, cwd)),
{
    lemma_filter_distinct_panes(list, not_about(pane));
    lemma_filter_members(list, not_about(pane));
    let kept = list.filter(not_about(pane));
    assert forall|i: int| 0 <= i < kept.len() implies (#[trigger] kept[i]).0 != pane by {
        assert(kept.contains(kept[i]));
    }
}

// ── Names ──────────────────────────────────────────────────────────────────

/// Renaming keeps what holds, and leaves the tab with the name that is composed for it.
pub proof fn lemma_refresh_keeps(m: Model, tab_id: usize)
    requires
        m.core_inv(),
    ensures
        m.refresh_tab_name(tab_id).core_inv(),
        m.refresh_tab_name(tab_id) == (Model {
            effects: m.refresh_tab_name(tab_id).effects,
            rendered_names: m.refresh_tab_name(tab_id).rendered_names,
            ..m
        }),
{
    lemma_named_keeps(m, m, tab_id);
}

/// A tab that has just got its base name, or another decoration, is renamed.
proof fn lemma_named_keeps(m: Model, changed: Model, tab_id: usize)
    requires
        m.core_inv(),
        changed.caches_inv(),
        changed.waiters_inv(),
        changed.questions_inv(),
        changed.answers_inv(),
        changed.deferral_inv(),
        no_empty_text(changed.tab_prefixes),
        no_empty_text(changed.tab_suffixes),
        distinct_panes(changed.pending_cwds),
        changed.rendered_names == m.rendered_names,
        changed.pane_count_format == m.pane_count_format,
        changed.base_names.dom().subset_of(changed.tab_cwds.dom()),
        m.base_names.dom().subset_of(changed.base_names.dom()),
        changed.base_names.dom().subset_of(m.base_names.dom().insert(tab_id)),
        forall|t: usize|
            #![trigger m.base_names.contains_key(t)]
            t != tab_id && m.base_names.contains_key(t) ==> {
                &&& changed.base_names[t] == m.base_names[t]
                &&& text_for(changed.tab_prefixes, t) == text_for(m.tab_prefixes, t)
                &&& text_for(changed.tab_suffixes, t) == text_for(m.tab_suffixes, t)
            },
        changed.base_names.contains_key(tab_id) || changed == m,
    ensures
        changed.refresh_tab_name(tab_id).core_inv(),
{
    let after = changed.refresh_tab_name(tab_id);
    if changed.base_names.contains_key(tab_id) {
        assert(after.rendered_names.contains_key(tab_id));
        assert(after.rendered_names[tab_id] == after.name_with_count(
            tab_id,
            changed.pane_count(tab_id),
        ));
        assert forall|t: usize| #[trigger] after.base_names.contains_key(t) implies after.displays(
            t,
        ) by {
            if t != tab_id {
                assert(m.base_names.dom().insert(tab_id).contains(t));
                assert(m.base_names.contains_key(t));
                assert(m.displays(t));
                let count = choose|count: usize|
                    m.rendered_names[t] == #[trigger] m.name_with_count(t, count);
                assert(after.name_with_count(t, count) == m.name_with_count(t, count));
            }
        }
        assert(after.base_names.dom() =~= after.rendered_names.dom()) by {
            assert forall|t: usize| after.base_names.dom().contains(t)
                == after.rendered_names.dom().contains(t) by {
                assert(m.base_names.dom().contains(t) == m.rendered_names.dom().contains(t));
                assert(changed.base_names.dom().contains(t) ==> m.base_names.dom().insert(
                    tab_id,
                ).contains(t));
            }
        }
    }
}

/// Giving a base name to a tab whose directory is known keeps what holds.
pub proof fn lemma_apply_name_keeps(m: Model, tab_id: usize, name: Seq<char>)
    requires
        m.core_inv(),
        m.tab_cwds.contains_key(tab_id),
    ensures
        m.apply_name(tab_id, name).core_inv(),
        m.apply_name(tab_id, name) == (Model {
            effects: m.apply_name(tab_id, name).effects,
            base_names: m.base_names.insert(tab_id, name),
            rendered_names: m.apply_name(tab_id, name).rendered_names,
            ..m
        }),
{
    let changed = Model { base_names: m.base_names.insert(tab_id, name), ..m };
    lemma_named_keeps(m, changed, tab_id);
}

/// Naming a tab from the caches keeps what holds.
pub proof fn lemma_cached_name_keeps(m: Model, tab_id: usize, cwd: Seq<char>)
    requires
        m.core_inv(),
        m.tab_cwds.contains_key(tab_id),
    ensures
        m.apply_cached_name(tab_id, cwd).core_inv(),
        m.apply_cached_name(tab_id, cwd) == (Model {
            effects: m.apply_cached_name(tab_id, cwd).effects,
            base_names: m.apply_cached_name(tab_id, cwd).base_names,
            rendered_names: m.apply_cached_name(tab_id, cwd).rendered_names,
            ..m
        }),
{
    match m.cached_name(cwd) {
        Some(name) => lemma_apply_name_keeps(m, tab_id, name),
        None => {},
    }
}

// ── Known roots ────────────────────────────────────────────────────────────

/// A list has a first known root where it has a known root.
pub proof fn lemma_first_root(roots: Set<Seq<char>>, paths: Seq<Seq<char>>)
    ensures
        first_root(roots, paths) is Some <==> exists|i: int|
            0 <= i < paths.len() && roots.contains(#[trigger] paths[i]),
        first_root(roots, paths) matches Some(root) ==> roots.contains(root) && paths.contains(
            root,
        ),
    decreases paths.len(),
{
    if paths.len() > 0 {
        lemma_first_root(roots, paths.skip(1));
        if roots.contains(paths[0]) {
            assert(paths.contains(paths[0]));
        } else {
            let rest = paths.skip(1);
            if first_root(roots, rest) is Some {
                let i = choose|i: int| 0 <= i < rest.len() && roots.contains(#[trigger] rest[i]);
                assert(roots.contains(paths[i + 1]));
                let root = first_root(roots, rest)->0;
                let k = choose|k: int| 0 <= k < rest.len() && rest[k] == root;
                assert(paths[k + 1] == root);
            }
            if exists|i: int| 0 <= i < paths.len() && roots.contains(#[trigger] paths[i]) {
                let i = choose|i: int| 0 <= i < paths.len() && roots.contains(#[trigger] paths[i]);
                assert(rest[i - 1] == paths[i]);
            }
        }
    }
}

/// The caches name every directory for which they can be trusted.
pub proof fn lemma_trusted_is_known(m: Model, cwd: Seq<char>)
    requires
        m.answers_inv(),
        m.can_trust_git_root(cwd),
    ensures
        m.find_git_root(cwd) is Some,
        m.cached_name(cwd) is Some,
{
    lemma_first_root(m.git_roots, ancestors_of(cwd));
    lemma_ancestors_first(cwd);
    if m.git_roots.contains(cwd) {
        assert(m.git_roots.contains(ancestors_of(cwd)[0]));
    }
}

// ── Working directories ────────────────────────────────────────────────────

/// A tab that enters a directory keeps what holds.
pub proof fn lemma_enter_cwd_keeps(m: Model, tab_id: usize, cwd: CwdView)
    requires
        m.core_inv(),
    ensures
        m.enter_cwd(tab_id, cwd).core_inv(),
        m.enter_cwd(tab_id, cwd).same_but_naming(m),
        m.enter_cwd(tab_id, cwd).pending_cwds == m.pending_cwds,
{
    if cwd.text.len() > 0 {
        let entered = Model { tab_cwds: m.tab_cwds.insert(tab_id, cwd), ..m };
        lemma_same_display(m, entered);
        assert(entered.core_inv());
        if !m.git_detection {
            lemma_apply_name_keeps(entered, tab_id, m.derive_name(cwd.text));
        } else if m.pending_git.contains_key(cwd.text) {
            lemma_waiter_keeps(entered, tab_id, cwd.text, m.pending_git[cwd.text]);
        } else if m.cached_name(cwd.text) is Some {
            lemma_cached_name_keeps(entered, tab_id, cwd.text);
        } else {
            if m.can_trust_git_root(cwd.text) {
                lemma_trusted_is_known(m, cwd.text);
            }
            lemma_waiter_keeps(entered, tab_id, cwd.text, Seq::empty());
            assert(Seq::<usize>::empty().push(tab_id) =~= seq![tab_id]);
        }
    }
}

/// One more tab waits for an answer.
proof fn lemma_waiter_keeps(m: Model, tab_id: usize, cwd: Seq<char>, waiters: Seq<usize>)
    requires
        m.core_inv(),
        m.tab_cwds.contains_key(tab_id),
        waiters.no_duplicates(),
        forall|i: int| 0 <= i < waiters.len() ==> m.tab_cwds.contains_key(#[trigger] waiters[i]),
        !m.not_git.contains(cwd),
        !m.root_aliases.contains_key(cwd),
        !m.resolved_cwds.contains(cwd),
    ensures
        forall|effects: Seq<EffectView>|
            !waiters.contains(tab_id) ==> #[trigger] (Model {
                pending_git: m.pending_git.insert(cwd, waiters.push(tab_id)),
                effects,
                ..m
            }).core_inv(),
{
    assert forall|effects: Seq<EffectView>|
        !waiters.contains(tab_id) implies #[trigger] (Model {
        pending_git: m.pending_git.insert(cwd, waiters.push(tab_id)),
        effects,
        ..m
    }).core_inv() by {
        let after = Model {
            pending_git: m.pending_git.insert(cwd, waiters.push(tab_id)),
            effects,
            ..m
        };
        let list = waiters.push(tab_id);
        assert(list.no_duplicates()) by {
            assert forall|i: int, j: int| 0 <= i < list.len() && 0 <= j < list.len() && i
                != j implies list[i] != list[j] by {
                if i < waiters.len() {
                    assert(waiters.contains(waiters[i]));
                }
                if j < waiters.len() {
                    assert(waiters.contains(waiters[j]));
                }
            }
        }
        assert(after.waiters_inv());
        lemma_same_display(m, after);
    }
}

/// What is displayed depends on names, decorations and the format alone.
pub proof fn lemma_same_display(m: Model, after: Model)
    requires
        m.display_inv(),
        after.base_names == m.base_names,
        after.rendered_names == m.rendered_names,
        after.tab_prefixes == m.tab_prefixes,
        after.tab_suffixes == m.tab_suffixes,
        after.pane_count_format == m.pane_count_format,
    ensures
        after.display_inv(),
{
    assert forall|t: usize| #[trigger] after.base_names.contains_key(t) implies after.displays(
        t,
    ) by {
        assert(m.displays(t));
        let count = choose|count: usize|
            m.rendered_names[t] == #[trigger] m.name_with_count(t, count);
        assert(after.name_with_count(t, count) == m.name_with_count(t, count));
    }
}

/// A report of a pane's directory keeps what holds.
pub proof fn lemma_cwd_changed_keeps(m: Model, pane_id: PaneId, cwd: CwdView)
    requires
        m.core_inv(),
    ensures
        m.on_cwd_changed(pane_id, cwd).core_inv(),
        m.on_cwd_changed(pane_id, cwd).same_but_naming(m),
{
    match pane_id {
        PaneId::Terminal(id) => {
            if m.pane_to_tab.contains_key(id) {
                lemma_enter_cwd_keeps(m, m.pane_to_tab[id], cwd);
            } else {
                lemma_upserted_distinct(m.pending_cwds, id, cwd);
                lemma_same_display(m, m.on_cwd_changed(pane_id, cwd));
            }
        },
        PaneId::Plugin(_) => {},
    }
}

/// Reports of directories keep what holds.
pub proof fn lemma_replay_keeps(m: Model, cwds: Seq<(u32, CwdView)>)
    requires
        m.core_inv(),
    ensures
        m.replay_cwds(cwds).core_inv(),
        m.replay_cwds(cwds).same_but_naming(m),
    decreases cwds.len(),
{
    if cwds.len() > 0 {
        lemma_replay_keeps(m, cwds.drop_last());
        lemma_cwd_changed_keeps(
            m.replay_cwds(cwds.drop_last()),
            PaneId::Terminal(cwds.last().0),
            cwds.last().1,
        );
    }
}

// ── Git ────────────────────────────────────────────────────────────────────

/// Naming the tabs that waited keeps what holds.
pub proof fn lemma_resolve_waiters_keeps(m: Model, waiters: Seq<usize>)
    requires
        m.core_inv(),
    ensures
        m.resolve_waiters(waiters).core_inv(),
        m.resolve_waiters(waiters) == (Model {
            effects: m.resolve_waiters(waiters).effects,
            base_names: m.resolve_waiters(waiters).base_names,
            rendered_names: m.resolve_waiters(waiters).rendered_names,
            ..m
        }),
    decreases waiters.len(),
{
    if waiters.len() > 0 {
        lemma_resolve_waiters_keeps(m, waiters.drop_last());
        let rest = m.resolve_waiters(waiters.drop_last());
        let tab_id = waiters.last();
        if rest.tab_cwds.contains_key(tab_id) {
            lemma_cached_name_keeps(rest, tab_id, rest.tab_cwds[tab_id].text);
        }
    }
}

/// An answer makes up to three entries in the git caches, which stay finite.
pub proof fn lemma_record_verdict(m: Model, cwd: Seq<char>, root: Option<Seq<char>>)
    requires
        m.git_roots.finite(),
        m.not_git.finite(),
        m.root_aliases.dom().finite(),
        m.resolved_cwds.finite(),
    ensures
        m.git_cache_len() <= m.record_verdict(cwd, root).git_cache_len() <= m.git_cache_len() + 3,
        m.record_verdict(cwd, root).git_roots.finite(),
        m.record_verdict(cwd, root).not_git.finite(),
        m.record_verdict(cwd, root).root_aliases.dom().finite(),
        m.record_verdict(cwd, root).resolved_cwds.finite(),
{
    match root {
        Some(r) => {
            assert(m.root_aliases.insert(cwd, r).dom() =~= m.root_aliases.dom().insert(cwd));
        },
        None => {},
    }
}

/// An answer leaves the caches with a root for every directory that has one.
pub proof fn lemma_recorded_answers(m: Model, cwd: Seq<char>, root: Option<Seq<char>>)
    requires
        m.answers_inv(),
    ensures
        m.record_verdict(cwd, root).answers_inv(),
{
    let after = m.record_verdict(cwd, root);
    assert forall|c: Seq<char>| #[trigger] after.resolved_cwds.contains(
        c,
    ) implies after.find_git_root(c) is Some by {
        let paths = ancestors_of(c);
        lemma_first_root(m.git_roots, paths);
        lemma_first_root(after.git_roots, paths);
        if c == cwd && root is Some && paths.contains(root->0) {
            let i = choose|i: int| 0 <= i < paths.len() && paths[i] == root->0;
            assert(after.git_roots.contains(paths[i]));
        } else if !(c == cwd && root is Some) {
            assert(m.resolved_cwds.contains(c));
            if !m.root_aliases.contains_key(c) {
                let i = choose|i: int|
                    0 <= i < paths.len() && m.git_roots.contains(#[trigger] paths[i]);
                assert(after.git_roots.contains(paths[i]));
            }
        }
    }
}

/// With an answer put into them the git caches are within their limit.
pub proof fn lemma_caches_bounded(m: Model, cwd: Seq<char>, root: Option<Seq<char>>)
    ensures
        m.bound_git_caches(cwd, root).record_verdict(cwd, root).git_cache_len()
            <= MAX_GIT_CACHE_ENTRIES,
{
    lemma_record_verdict(m.without_caches(), cwd, root);
}

/// Putting an answer into the caches keeps what holds.
pub proof fn lemma_take_verdict_keeps(m: Model, cwd: Seq<char>, root: Option<Seq<char>>)
    requires
        m.core_inv(),
    ensures
        m.take_verdict(cwd, root).core_inv(),
        m.without_waiters(cwd).bound_git_caches(cwd, root).answers_inv(),
{
    let bounded = m.without_waiters(cwd).bound_git_caches(cwd, root);
    let recorded = m.take_verdict(cwd, root);
    lemma_record_verdict(bounded, cwd, root);
    lemma_caches_bounded(m.without_waiters(cwd), cwd, root);
    lemma_same_display(m, recorded);
    assert(bounded.answers_inv()) by {
        assert forall|c: Seq<char>| #[trigger] bounded.resolved_cwds.contains(
            c,
        ) implies bounded.find_git_root(c) is Some by {
            assert(m.resolved_cwds.contains(c));
        }
    }
    lemma_recorded_answers(bounded, cwd, root);
}

/// An answer of git keeps what holds.
pub proof fn lemma_git_verdict_keeps(m: Model, cwd: Seq<char>, root: Option<Seq<char>>)
    requires
        m.core_inv(),
    ensures
        m.on_git_verdict(cwd, root).core_inv(),
        m.on_git_verdict(cwd, root).same_but_naming(m),
        m.on_git_verdict(cwd, root).tab_cwds == m.tab_cwds,
        m.on_git_verdict(cwd, root).pending_cwds == m.pending_cwds,
{
    lemma_take_verdict_keeps(m, cwd, root);
    lemma_resolve_waiters_keeps(m.take_verdict(cwd, root), m.waiters(cwd));
}

/// Who waited is named from the caches by the directory it is in now, and shows that name; who did
/// not wait, or is in a directory that the caches do not know, stays as it is.
pub proof fn lemma_resolved(m: Model, waiters: Seq<usize>, tab_id: usize)
    requires
        m.core_inv(),
    ensures
        ({
            let after = m.resolve_waiters(waiters);
            let name = m.cached_name(m.tab_cwds[tab_id].text);
            if waiters.contains(tab_id) && m.tab_cwds.contains_key(tab_id) && name is Some {
                &&& after.base_names.contains_key(tab_id)
                &&& after.base_names[tab_id] == name->0
                &&& after.rendered_names[tab_id] == m.compose_rendered_name(tab_id, name->0)
            } else {
                &&& after.base_names.contains_key(tab_id) == m.base_names.contains_key(tab_id)
                &&& after.base_names[tab_id] == m.base_names[tab_id]
                &&& after.rendered_names.contains_key(tab_id) == m.rendered_names.contains_key(
                    tab_id,
                )
                &&& after.rendered_names[tab_id] == m.rendered_names[tab_id]
            }
        }),
    decreases waiters.len(),
{
    if waiters.len() > 0 {
        let rest = waiters.drop_last();
        let last = waiters.last();
        let before = m.resolve_waiters(rest);
        lemma_resolved(m, rest, tab_id);
        lemma_resolve_waiters_keeps(m, rest);
        assert(waiters =~= rest.push(last));
        assert(waiters.contains(tab_id) <==> rest.contains(tab_id) || last == tab_id) by {
            if rest.contains(tab_id) {
                let i = choose|i: int| 0 <= i < rest.len() && rest[i] == tab_id;
                assert(waiters[i] == tab_id);
            }
            if waiters.contains(tab_id) && last != tab_id {
                let i = choose|i: int| 0 <= i < waiters.len() && waiters[i] == tab_id;
                assert(rest[i] == tab_id);
            }
            assert(waiters[waiters.len() - 1] == last);
        }
        assert forall|cwd: Seq<char>| before.cached_name(cwd) == m.cached_name(cwd) by {}
        if before.tab_cwds.contains_key(last) {
            lemma_cached_name_keeps(before, last, before.tab_cwds[last].text);
        }
    }
}

// ── Tabs that are settled ──────────────────────────────────────────────────

/// A tab that enters a directory leaves every tab settled.
pub proof fn lemma_enter_cwd_settles(m: Model, tab_id: usize, cwd: CwdView)
    requires
        m.settled_inv(),
    ensures
        m.enter_cwd(tab_id, cwd).settled_inv(),
{
    let after = m.enter_cwd(tab_id, cwd);
    if cwd.text.len() > 0 {
        assert forall|t: usize| #[trigger] after.tab_cwds.contains_key(t) implies after.settled(
            t,
        ) by {
            if t == tab_id {
                if m.git_detection && m.pending_git.contains_key(cwd.text) {
                    let waiters = m.pending_git[cwd.text];
                    assert(waiters.push(tab_id)[waiters.len() as int] == tab_id);
                } else if m.git_detection && m.cached_name(cwd.text) is None {
                    assert(seq![tab_id][0] == tab_id);
                }
            } else {
                assert(m.settled(t));
                let text = m.tab_cwds[t].text;
                if m.waiters(text).contains(t) {
                    let i = choose|i: int| 0 <= i < m.waiters(text).len() && m.waiters(text)[i] == t;
                    assert(after.waiters(text)[i] == t);
                }
            }
        }
    }
}

/// A report of a pane's directory leaves every tab settled.
pub proof fn lemma_cwd_changed_settles(m: Model, pane_id: PaneId, cwd: CwdView)
    requires
        m.settled_inv(),
    ensures
        m.on_cwd_changed(pane_id, cwd).settled_inv(),
{
    match pane_id {
        PaneId::Terminal(id) => {
            if m.pane_to_tab.contains_key(id) {
                lemma_enter_cwd_settles(m, m.pane_to_tab[id], cwd);
            } else {
                lemma_same_settled(m, m.on_cwd_changed(pane_id, cwd));
            }
        },
        PaneId::Plugin(_) => {},
    }
}

/// Reports of directories leave every tab settled.
pub proof fn lemma_replay_settles(m: Model, cwds: Seq<(u32, CwdView)>)
    requires
        m.settled_inv(),
    ensures
        m.replay_cwds(cwds).settled_inv(),
    decreases cwds.len(),
{
    if cwds.len() > 0 {
        lemma_replay_settles(m, cwds.drop_last());
        lemma_cwd_changed_settles(
            m.replay_cwds(cwds.drop_last()),
            PaneId::Terminal(cwds.last().0),
            cwds.last().1,
        );
    }
}

/// Whether tabs are settled depends on directories, names and waiters alone.
pub proof fn lemma_same_settled(m: Model, after: Model)
    requires
        m.settled_inv(),
        after.tab_cwds == m.tab_cwds,
        after.base_names == m.base_names,
        after.pending_git == m.pending_git,
    ensures
        after.settled_inv(),
{
    assert forall|t: usize| #[trigger] after.tab_cwds.contains_key(t) implies after.settled(t) by {
        assert(m.settled(t));
    }
}

/// The caches name a directory that git has just answered for.
pub proof fn lemma_answered_is_known(m: Model, cwd: Seq<char>, root: Option<Seq<char>>)
    requires
        m.answers_inv(),
    ensures
        m.record_verdict(cwd, root).cached_name(cwd) is Some,
{
    lemma_recorded_answers(m, cwd, root);
    if root is Some {
        lemma_trusted_is_known(m.record_verdict(cwd, root), cwd);
    }
}

/// An answer of git leaves every tab settled.
pub proof fn lemma_git_verdict_settles(m: Model, cwd: Seq<char>, root: Option<Seq<char>>)
    requires
        m.core_inv(),
        m.settled_inv(),
    ensures
        m.on_git_verdict(cwd, root).settled_inv(),
{
    let recorded = m.take_verdict(cwd, root);
    lemma_take_verdict_keeps(m, cwd, root);
    let after = m.on_git_verdict(cwd, root);
    lemma_answered_is_known(m.without_waiters(cwd).bound_git_caches(cwd, root), cwd, root);
    lemma_resolve_waiters_keeps(recorded, m.waiters(cwd));
    assert forall|t: usize| #[trigger] after.tab_cwds.contains_key(t) implies after.settled(t) by {
        assert(m.settled(t));
        lemma_resolved(recorded, m.waiters(cwd), t);
    }
}

// ── Panes and tabs ─────────────────────────────────────────────────────────

/// Renaming the tabs whose number of panes has changed keeps what holds.
pub proof fn lemma_refresh_counts_keeps(m: Model, manifest: ManifestView, before: Map<usize, usize>)
    requires
        m.core_inv(),
    ensures
        m.refresh_counts(manifest, before).core_inv(),
        m.refresh_counts(manifest, before) == (Model {
            effects: m.refresh_counts(manifest, before).effects,
            rendered_names: m.refresh_counts(manifest, before).rendered_names,
            ..m
        }),
    decreases manifest.len(),
{
    if manifest.len() > 0 {
        let rest = m.refresh_counts(manifest.drop_last(), before);
        lemma_refresh_counts_keeps(m, manifest.drop_last(), before);
        if m.index_to_id.contains_key(manifest.last().0) {
            lemma_refresh_keeps(rest, m.index_to_id[manifest.last().0]);
        }
    }
}

/// Asking about tabs keeps what holds; it only emits.
pub proof fn lemma_discover_keeps(m: Model, tabs: Seq<(usize, Seq<PaneInfo>)>)
    requires
        m.core_inv(),
    ensures
        m.discover_all(tabs).core_inv(),
        m.discover_all(tabs) == (Model { effects: m.discover_all(tabs).effects, ..m }),
    decreases tabs.len(),
{
    if tabs.len() > 0 {
        lemma_discover_keeps(m, tabs.drop_last());
        lemma_same_display(m, m.discover_all(tabs));
    }
}

/// A snapshot of all panes keeps what holds.
pub proof fn lemma_pane_update_keeps(m: Model, manifest: ManifestView)
    requires
        m.core_inv(),
    ensures
        m.on_pane_update(manifest).core_inv(),
        m.on_pane_update(manifest).same_buffers(m),
        m.on_pane_update(manifest).tab_prefixes == m.tab_prefixes,
        m.on_pane_update(manifest).tab_suffixes == m.tab_suffixes,
        m.on_pane_update(manifest).index_to_id == m.index_to_id,
        m.settled_inv() ==> m.on_pane_update(manifest).settled_inv(),
{
    let placed = m.place_panes(manifest);
    lemma_same_display(m, placed);
    let followed = placed.follow_counts(manifest, m.tab_pane_counts);
    lemma_refresh_counts_keeps(placed, manifest, m.tab_pane_counts);
    let cleared = Model { pending_cwds: Seq::empty(), ..followed };
    lemma_same_display(followed, cleared);
    lemma_replay_keeps(cleared, followed.pending_cwds);
    let replayed = cleared.replay_cwds(followed.pending_cwds);
    let kept = followed.replay_pending(manifest);
    lemma_filter_distinct_panes(
        replayed.pending_cwds,
        about(manifest_terminals(manifest)),
    );
    lemma_same_display(replayed, kept);
    let tabs = tabs_with_new_terminals(manifest, m.index_to_id, m.pane_to_tab);
    lemma_discover_keeps(kept, tabs);
    let discovered = kept.discover_all(tabs);
    lemma_same_display(discovered, discovered.defer(manifest));
    if m.settled_inv() {
        lemma_same_settled(m, cleared);
        lemma_replay_settles(cleared, followed.pending_cwds);
        lemma_same_settled(replayed, discovered.defer(manifest));
    }
}

/// Forgetting tabs that are gone keeps what holds.
pub proof fn lemma_place_tabs_keeps(m: Model, tabs: Seq<TabInfo>)
    requires
        m.core_inv(),
    ensures
        m.place_tabs(tabs).core_inv(),
        m.place_tabs(tabs).same_buffers(m),
        m.settled_inv() ==> m.place_tabs(tabs).settled_inv(),
{
    let alive = tab_ids(tabs);
    let after = m.place_tabs(tabs);
    assert forall|cwd: Seq<char>| #[trigger] after.pending_git.contains_key(cwd) implies {
        &&& after.pending_git[cwd].len() > 0
        &&& after.pending_git[cwd].no_duplicates()
        &&& forall|i: int|
            0 <= i < after.pending_git[cwd].len() ==> after.tab_cwds.contains_key(
                #[trigger] after.pending_git[cwd][i],
            )
    } by {
        assert(m.pending_git.contains_key(cwd));
        let before = m.pending_git[cwd];
        let kept = before.filter(among(alive));
        assert(after.pending_git[cwd] == kept);
        lemma_filter_no_duplicates(before, among(alive));
        lemma_filter_members(before, among(alive));
        assert forall|i: int| 0 <= i < kept.len() implies after.tab_cwds.contains_key(
            #[trigger] kept[i],
        ) by {
            assert(kept.contains(kept[i]));
            assert(before.contains(kept[i]) && among(alive)(kept[i]));
            let k = choose|k: int| 0 <= k < before.len() && before[k] == kept[i];
            assert(m.tab_cwds.contains_key(before[k]));
        }
    }
    assert(after.base_names.dom() =~= after.rendered_names.dom()) by {
        assert forall|t: usize| after.base_names.dom().contains(t)
            == after.rendered_names.dom().contains(t) by {
            assert(m.base_names.dom().contains(t) == m.rendered_names.dom().contains(t));
        }
    }
    assert forall|t: usize| #[trigger] after.base_names.contains_key(t) implies after.displays(
        t,
    ) by {
        assert(m.base_names.contains_key(t));
        assert(m.displays(t));
        let count = choose|count: usize|
            m.rendered_names[t] == #[trigger] m.name_with_count(t, count);
        assert(after.name_with_count(t, count) == m.name_with_count(t, count));
    }
    if m.settled_inv() {
        assert forall|t: usize| #[trigger] after.tab_cwds.contains_key(t) implies after.settled(
            t,
        ) by {
            assert(m.settled(t));
            let text = m.tab_cwds[t].text;
            if m.waiters(text).contains(t) {
                lemma_filter_members(m.pending_git[text], among(alive));
                assert(m.pending_git[text].filter(among(alive)).contains(t));
            }
        }
    }
}

/// A snapshot of all tabs keeps what holds.
pub proof fn lemma_tab_update_keeps(m: Model, tabs: Seq<TabInfo>)
    requires
        m.core_inv(),
    ensures
        m.on_tab_update(tabs).core_inv(),
        m.on_tab_update(tabs).same_buffers(m),
        m.settled_inv() ==> m.on_tab_update(tabs).settled_inv(),
{
    lemma_place_tabs_keeps(m, tabs);
    match m.deferred_panes {
        Some(manifest) => lemma_pane_update_keeps(m.place_tabs(tabs), manifest),
        None => {},
    }
}

// ── Events and pipe messages ───────────────────────────────────────────────

/// What holds in the middle of a step holds once the tabs and directories that were kept are
/// released.
pub proof fn lemma_released_core(m: Model)
    requires
        m.inv(),
        !m.got_permissions,
    ensures
        ({
            let with_cwds = Model { got_permissions: true, ..m }.release_tabs().release_cwds();
            Model { buffered_panes: None, ..with_cwds }.core_inv()
        }),
{
    let granted = Model { got_permissions: true, ..m };
    lemma_same_display(m, granted);
    let with_tabs = granted.release_tabs();
    match m.buffered_tabs {
        Some(tabs) => {
            let taken = Model { buffered_tabs: None, ..granted };
            lemma_same_display(m, taken);
            lemma_tab_update_keeps(taken, tabs);
        },
        None => {},
    }
    let with_cwds = with_tabs.release_cwds();
    assert(with_cwds.pending_cwds =~= m.buffered_cwds);
    lemma_same_display(with_tabs, Model { buffered_panes: None, ..with_cwds });
}

/// Granting permissions keeps what holds.
pub proof fn lemma_grant_keeps(m: Model)
    requires
        m.inv(),
        !m.got_permissions,
    ensures
        m.grant().inv(),
        m.grant().got_permissions,
{
    let released = Model { got_permissions: true, ..m }.release_tabs().release_cwds();
    let taken = Model { buffered_panes: None, ..released };
    lemma_released_core(m);
    assert(taken.settled_inv());
    match m.buffered_panes {
        Some(manifest) => lemma_pane_update_keeps(taken, manifest),
        None => {
            assert(taken =~= released);
        },
    }
}

/// An event keeps what holds.
pub proof fn lemma_handle_keeps(m: Model, event: EventView)
    requires
        m.inv(),
    ensures
        m.handle(event).inv(),
        m.handle(event).drained().inv(),
{
    if m.got_permissions {
        match event {
            EventView::TabUpdate(tabs) => lemma_tab_update_keeps(m, tabs),
            EventView::PaneUpdate(manifest) => lemma_pane_update_keeps(m, manifest),
            EventView::CwdChanged(pane_id, cwd) => {
                lemma_cwd_changed_keeps(m, pane_id, cwd);
                lemma_cwd_changed_settles(m, pane_id, cwd);
            },
            EventView::RunCommandResult(exit_code, stdout, context) => {
                if context.contains_key("cwd"@) {
                    let root = git_root_of(exit_code, utf8_lossy(stdout));
                    lemma_git_verdict_keeps(m, context["cwd"@], root);
                    lemma_git_verdict_settles(m, context["cwd"@], root);
                }
            },
            _ => {},
        }
    } else if event == EventView::PermissionRequestResult(PermissionStatus::Granted) {
        lemma_grant_keeps(m);
    } else {
        match event {
            EventView::CwdChanged(PaneId::Terminal(id), cwd) => {
                lemma_upserted_distinct(m.buffered_cwds, id, cwd);
            },
            _ => {},
        }
        lemma_same_display(m, m.handle(event));
    }
    lemma_drained_keeps(m.handle(event));
}

/// Handing out the effects keeps what holds.
pub proof fn lemma_drained_keeps(m: Model)
    requires
        m.inv(),
    ensures
        m.drained().inv(),
{
    lemma_same_display(m, m.drained());
    lemma_same_settled(m, m.drained());
}

/// A decoration keeps what holds.
pub proof fn lemma_decorate_keeps(
    m: Model,
    tab_id: usize,
    decoration: Decoration,
    value: Seq<char>,
)
    requires
        m.core_inv(),
    ensures
        m.decorate(tab_id, decoration, value).core_inv(),
{
    let map = m.decorations(decoration);
    if value != text_for(map, tab_id) {
        let changed = if value.len() == 0 {
            m.with_decorations(decoration, map.remove(tab_id))
        } else {
            m.with_decorations(decoration, map.insert(tab_id, value))
        };
        lemma_decorated(m, changed, tab_id);
    }
}

/// Other decorations of one tab.
proof fn lemma_decorated(m: Model, changed: Model, tab_id: usize)
    requires
        m.core_inv(),
        changed == (Model {
            tab_prefixes: changed.tab_prefixes,
            tab_suffixes: changed.tab_suffixes,
            ..m
        }),
        no_empty_text(changed.tab_prefixes),
        no_empty_text(changed.tab_suffixes),
        forall|t: usize|
            t != tab_id ==> #[trigger] text_for(changed.tab_prefixes, t) == text_for(
                m.tab_prefixes,
                t,
            ),
        forall|t: usize|
            t != tab_id ==> #[trigger] text_for(changed.tab_suffixes, t) == text_for(
                m.tab_suffixes,
                t,
            ),
    ensures
        changed.refresh_tab_name(tab_id).core_inv(),
{
    if m.base_names.contains_key(tab_id) {
        lemma_named_keeps(m, changed, tab_id);
    } else {
        assert forall|t: usize| #[trigger] changed.base_names.contains_key(
            t,
        ) implies changed.displays(t) by {
            assert(m.displays(t));
            let count = choose|count: usize|
                m.rendered_names[t] == #[trigger] m.name_with_count(t, count);
            assert(changed.name_with_count(t, count) == m.name_with_count(t, count));
        }
    }
}

/// A decoration that a message sets keeps what holds.
proof fn lemma_set_decoration_keeps(
    m: Model,
    args: Map<Seq<char>, Seq<char>>,
    decoration: Decoration,
    value: Seq<char>,
)
    requires
        m.inv(),
    ensures
        m.set_decoration(args, decoration, value).inv(),
{
    match m.resolve_tab_id(args) {
        Some(tab_id) => {
            lemma_decorate_keeps(m, tab_id, decoration, value);
            lemma_same_settled(m, m.decorate(tab_id, decoration, value));
        },
        None => {},
    }
}

/// Clearing the decorations that a message is about keeps what holds.
proof fn lemma_clear_all_keeps(m: Model, args: Map<Seq<char>, Seq<char>>)
    requires
        m.inv(),
    ensures
        m.clear_all(args).inv(),
{
    match m.resolve_tab_id(args) {
        Some(tab_id) => {
            let cleared = Model {
                tab_prefixes: m.tab_prefixes.remove(tab_id),
                tab_suffixes: m.tab_suffixes.remove(tab_id),
                ..m
            };
            lemma_decorated(m, cleared, tab_id);
            lemma_same_settled(m, m.clear_decorations(tab_id));
        },
        None => {},
    }
}

/// Letting go of a command line keeps what holds.
proof fn lemma_unblock_keeps(m: Model, source: PipeSourceView)
    requires
        m.inv(),
    ensures
        m.unblock(source).inv(),
{
    lemma_same_display(m, m.unblock(source));
    lemma_same_settled(m, m.unblock(source));
}

/// What a pipe message asks for keeps what holds.
proof fn lemma_run_pipe_keeps(m: Model, name: Seq<char>, args: Map<Seq<char>, Seq<char>>)
    requires
        m.inv(),
    ensures
        m.run_pipe(name, args).inv(),
{
    let value = if args.contains_key("value"@) {
        args["value"@]
    } else {
        Seq::empty()
    };
    if name == "set_prefix"@ {
        lemma_set_decoration_keeps(m, args, Decoration::Prefix, value);
    } else if name == "set_suffix"@ {
        lemma_set_decoration_keeps(m, args, Decoration::Suffix, value);
    } else if name == "clear_prefix"@ {
        lemma_set_decoration_keeps(m, args, Decoration::Prefix, Seq::empty());
    } else if name == "clear_suffix"@ {
        lemma_set_decoration_keeps(m, args, Decoration::Suffix, Seq::empty());
    } else if name == "clear_all"@ {
        lemma_clear_all_keeps(m, args);
    }
}

/// A pipe message keeps what holds.
pub proof fn lemma_pipe_keeps(m: Model, message: PipeMessageView)
    requires
        m.inv(),
    ensures
        m.handle_pipe(message).inv(),
        m.handle_pipe(message).drained().inv(),
{
    lemma_unblock_keeps(m, message.source);
    lemma_run_pipe_keeps(m.unblock(message.source), message.name, message.args);
    lemma_drained_keeps(m.handle_pipe(message));
}

/// Reading the configuration before permissions are granted keeps what holds.
pub proof fn lemma_init_keeps(m: Model, config: Map<Seq<char>, Seq<char>>, home_dir: Seq<char>)
    requires
        m.inv(),
        !m.got_permissions,
    ensures
        m.init(config, home_dir).inv(),
        m.init(config, home_dir).drained().inv(),
{
    lemma_drained_keeps(m.init(config, home_dir));
}

/// What holds at all times holds at first.
pub proof fn lemma_initial_inv()
    ensures
        Model::initial().inv(),
{
}

} // verus!
