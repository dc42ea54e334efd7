//! The tab namer as a mathematical state machine: what each event, command result and pipe message
//! does to what is known of the session, and which effects it emits.

use crate::cwd::{utf8_lossy, CwdView};
use crate::events::{
    EffectView, EventType, EventView, ManifestView, PaneId, PaneInfo, PermissionStatus,
    PermissionType, PipeMessageView, PipeSourceView, TabInfo,
};
use crate::maps::live_waiters;
use crate::paths::{ancestors_of, basename_of};
use crate::text::{decimal_text, parsed_usize, replaced, trimmed};
use vstd::prelude::*;

verus! {

/// The upper bound on the number of entries in all git caches together. Nothing else ever leaves
/// those caches; they are cleared where an answer would cross it, and a cleared entry costs one more
/// query.
pub const MAX_GIT_CACHE_ENTRIES: usize = 4096;

/// Which side of the base name a decoration stands on.
#[derive(Debug, Clone, Copy, PartialEq, Eq, Structural)]
pub enum Decoration {
    Prefix,
    Suffix,
}

/// What the tab namer knows, and the effects it has emitted and not yet handed out.
#[verifier::ext_equal]
pub struct Model {
    pub effects: Seq<EffectView>,
    pub got_permissions: bool,
    pub buffered_tabs: Option<Seq<TabInfo>>,
    pub buffered_panes: Option<ManifestView>,
    pub buffered_cwds: Seq<(u32, CwdView)>,
    pub deferred_panes: Option<ManifestView>,
    pub git_detection: bool,
    pub pane_count_format: Option<Seq<char>>,
    pub base_names: Map<usize, Seq<char>>,
    pub rendered_names: Map<usize, Seq<char>>,
    pub tab_pane_counts: Map<usize, usize>,
    pub index_to_id: Map<usize, usize>,
    pub floating_visible: Set<usize>,
    pub pane_to_tab: Map<u32, usize>,
    pub git_roots: Set<Seq<char>>,
    pub not_git: Set<Seq<char>>,
    pub root_aliases: Map<Seq<char>, Seq<char>>,
    pub resolved_cwds: Set<Seq<char>>,
    pub pending_cwds: Seq<(u32, CwdView)>,
    pub tab_cwds: Map<usize, CwdView>,
    pub pending_git: Map<Seq<char>, Seq<usize>>,
    pub active_tab_id: Option<usize>,
    pub tab_prefixes: Map<usize, Seq<char>>,
    pub tab_suffixes: Map<usize, Seq<char>>,
    pub home_dir: Seq<char>,
}

// ── Lists of working directories ───────────────────────────────────────────

/// Entries about other panes than `pane`.
pub open spec fn not_about(pane: u32) -> spec_fn((u32, CwdView)) -> bool {
    |entry: (u32, CwdView)| entry.0 != pane
}

/// Entries about panes of the set.
pub open spec fn about(panes: Set<u32>) -> spec_fn((u32, CwdView)) -> bool {
    |entry: (u32, CwdView)| panes.contains(entry.0)
}

/// The list with `cwd` as the latest word on `pane`: earlier ones are gone, and it comes last.
pub open spec fn upserted(list: Seq<(u32, CwdView)>, pane: u32, cwd: CwdView) -> Seq<
    (u32, CwdView),
> {
    list.filter(not_about(pane)).push((pane, cwd))
}

/// The entries about panes of the set.
pub open spec fn only_panes(list: Seq<(u32, CwdView)>, panes: Set<u32>) -> Seq<(u32, CwdView)> {
    list.filter(about(panes))
}

// ── Tabs ───────────────────────────────────────────────────────────────────

/// The ids of the tabs.
pub open spec fn tab_ids(tabs: Seq<TabInfo>) -> Set<usize> {
    Set::new(|id: usize| exists|i: int| 0 <= i < tabs.len() && (#[trigger] tabs[i]).tab_id == id)
}

/// The tabs whose floating layer is shown.
pub open spec fn floating_tabs(tabs: Seq<TabInfo>) -> Set<usize> {
    Set::new(
        |id: usize|
            exists|i: int|
                0 <= i < tabs.len() && (#[trigger] tabs[i]).tab_id == id
                    && tabs[i].are_floating_panes_visible,
    )
}

/// The tab at each position; the last one where several claim a position.
pub open spec fn tabs_by_position(tabs: Seq<TabInfo>) -> Map<usize, usize>
    decreases tabs.len(),
{
    if tabs.len() == 0 {
        Map::empty()
    } else {
        tabs_by_position(tabs.drop_last()).insert(tabs.last().position, tabs.last().tab_id)
    }
}

/// The last tab that says it is active; `before` where none does.
pub open spec fn active_tab(tabs: Seq<TabInfo>, before: Option<usize>) -> Option<usize>
    decreases tabs.len(),
{
    if tabs.len() == 0 {
        before
    } else if tabs.last().active {
        Some(tabs.last().tab_id)
    } else {
        active_tab(tabs.drop_last(), before)
    }
}

// ── Panes ──────────────────────────────────────────────────────────────────

/// The number of terminals among the panes.
pub open spec fn terminal_count(panes: Seq<PaneInfo>) -> nat
    decreases panes.len(),
{
    if panes.len() == 0 {
        0
    } else {
        terminal_count(panes.drop_last()) + if panes.last().is_plugin {
            0nat
        } else {
            1
        }
    }
}

/// `into` with every terminal among the panes placed in `tab_id`.
pub open spec fn with_terminals(
    into: Map<u32, usize>,
    panes: Seq<PaneInfo>,
    tab_id: usize,
) -> Map<u32, usize>
    decreases panes.len(),
{
    if panes.len() == 0 {
        into
    } else if panes.last().is_plugin {
        with_terminals(into, panes.drop_last(), tab_id)
    } else {
        with_terminals(into, panes.drop_last(), tab_id).insert(panes.last().id, tab_id)
    }
}

/// Whether some terminal among the panes was not in `tab_id` so far: it is new, or has moved.
pub open spec fn has_new_terminal(
    known: Map<u32, usize>,
    panes: Seq<PaneInfo>,
    tab_id: usize,
) -> bool {
    exists|i: int|
        0 <= i < panes.len() && !(#[trigger] panes[i]).is_plugin && !(known.contains_key(
            panes[i].id,
        ) && known[panes[i].id] == tab_id)
}

/// The terminals of a manifest.
pub open spec fn manifest_terminals(manifest: ManifestView) -> Set<u32> {
    Set::new(
        |id: u32|
            exists|i: int, j: int|
                0 <= i < manifest.len() && 0 <= j < manifest[i].1.len() && !(
                #[trigger] manifest[i].1[j]).is_plugin && manifest[i].1[j].id == id,
    )
}

/// Where each terminal of a manifest is, among the tabs whose position is known.
pub open spec fn terminals_by_tab(manifest: ManifestView, tabs: Map<usize, usize>) -> Map<
    u32,
    usize,
>
    decreases manifest.len(),
{
    if manifest.len() == 0 {
        Map::empty()
    } else {
        let rest = terminals_by_tab(manifest.drop_last(), tabs);
        if tabs.contains_key(manifest.last().0) {
            with_terminals(rest, manifest.last().1, tabs[manifest.last().0])
        } else {
            rest
        }
    }
}

/// The number of terminals of each tab of a manifest whose position is known.
pub open spec fn counts_by_tab(manifest: ManifestView, tabs: Map<usize, usize>) -> Map<usize, usize>
    decreases manifest.len(),
{
    if manifest.len() == 0 {
        Map::empty()
    } else {
        let rest = counts_by_tab(manifest.drop_last(), tabs);
        if tabs.contains_key(manifest.last().0) {
            rest.insert(tabs[manifest.last().0], terminal_count(manifest.last().1) as usize)
        } else {
            rest
        }
    }
}

/// The tabs of known position that have a new terminal, each with its panes.
pub open spec fn tabs_with_new_terminals(
    manifest: ManifestView,
    tabs: Map<usize, usize>,
    known: Map<u32, usize>,
) -> Seq<(usize, Seq<PaneInfo>)>
    decreases manifest.len(),
{
    if manifest.len() == 0 {
        Seq::empty()
    } else {
        let rest = tabs_with_new_terminals(manifest.drop_last(), tabs, known);
        let (position, panes) = manifest.last();
        if tabs.contains_key(position) && has_new_terminal(known, panes, tabs[position]) {
            rest.push((tabs[position], panes))
        } else {
            rest
        }
    }
}

/// Whether every tab position of a manifest is known.
pub open spec fn all_positions_known(manifest: ManifestView, tabs: Map<usize, usize>) -> bool {
    forall|i: int| 0 <= i < manifest.len() ==> tabs.contains_key((#[trigger] manifest[i]).0)
}

/// The first pane that satisfies `wanted`.
pub open spec fn first_pane(panes: Seq<PaneInfo>, wanted: spec_fn(PaneInfo) -> bool) -> Option<u32>
    decreases panes.len(),
{
    if panes.len() == 0 {
        None
    } else if wanted(panes[0]) {
        Some(panes[0].id)
    } else {
        first_pane(panes.skip(1), wanted)
    }
}

/// A terminal in sight: one whose working directory may name its tab.
pub open spec fn is_candidate(pane: PaneInfo) -> bool {
    !pane.is_plugin && !pane.is_suppressed
}

/// Candidates that are focused, where that is asked for, and in the layer that is asked for.
pub open spec fn candidates(focused: bool, floating: Option<bool>) -> spec_fn(PaneInfo) -> bool {
    |pane: PaneInfo|
        {
            &&& is_candidate(pane)
            &&& focused ==> pane.is_focused
            &&& floating matches Some(layer) ==> pane.is_floating == layer
        }
}

/// The pane whose working directory names a tab. What is seen comes before what has focus in the
/// layer that is out of sight: the focused candidate of the visible layer, else any candidate of
/// that layer, else any focused one, else any.
pub open spec fn discovery_pane(floating: bool, panes: Seq<PaneInfo>) -> Option<u32> {
    if first_pane(panes, candidates(true, Some(floating))) is Some {
        first_pane(panes, candidates(true, Some(floating)))
    } else if first_pane(panes, candidates(false, Some(floating))) is Some {
        first_pane(panes, candidates(false, Some(floating)))
    } else if first_pane(panes, candidates(true, None)) is Some {
        first_pane(panes, candidates(true, None))
    } else {
        first_pane(panes, candidates(false, None))
    }
}

// ── Git ────────────────────────────────────────────────────────────────────

/// The first path of a list that is a known root.
pub open spec fn first_root(roots: Set<Seq<char>>, paths: Seq<Seq<char>>) -> Option<Seq<char>>
    decreases paths.len(),
{
    if paths.len() == 0 {
        None
    } else if roots.contains(paths[0]) {
        Some(paths[0])
    } else {
        first_root(roots, paths.skip(1))
    }
}

/// The root that git has answered: what it printed, trimmed, where it succeeded and printed
/// anything.
pub open spec fn git_root_of(exit_code: Option<i32>, output: Seq<char>) -> Option<Seq<char>> {
    if exit_code == Some(0i32) && trimmed(output).len() > 0 {
        Some(trimmed(output))
    } else {
        None
    }
}

/// The value that a map has for a tab, or nothing.
pub open spec fn text_for(map: Map<usize, Seq<char>>, tab_id: usize) -> Seq<char> {
    if map.contains_key(tab_id) {
        map[tab_id]
    } else {
        Seq::empty()
    }
}

impl Model {
    /// Nothing known, nothing emitted.
    pub open spec fn initial() -> Model {
        Model {
            effects: Seq::empty(),
            got_permissions: false,
            buffered_tabs: None,
            buffered_panes: None,
            buffered_cwds: Seq::empty(),
            deferred_panes: None,
            git_detection: false,
            pane_count_format: None,
            base_names: Map::empty(),
            rendered_names: Map::empty(),
            tab_pane_counts: Map::empty(),
            index_to_id: Map::empty(),
            floating_visible: Set::empty(),
            pane_to_tab: Map::empty(),
            git_roots: Set::empty(),
            not_git: Set::empty(),
            root_aliases: Map::empty(),
            resolved_cwds: Set::empty(),
            pending_cwds: Seq::empty(),
            tab_cwds: Map::empty(),
            pending_git: Map::empty(),
            active_tab_id: None,
            tab_prefixes: Map::empty(),
            tab_suffixes: Map::empty(),
            home_dir: Seq::empty(),
        }
    }

    /// One more effect.
    pub open spec fn emit(self, effect: EffectView) -> Model {
        Model { effects: self.effects.push(effect), ..self }
    }

    /// All effects handed out.
    pub open spec fn drained(self) -> Model {
        Model { effects: Seq::empty(), ..self }
    }

    // ── Names ──────────────────────────────────────────────────────────────

    /// The number of terminals that a tab is taken to hold.
    pub open spec fn pane_count(self, tab_id: usize) -> usize {
        if self.tab_pane_counts.contains_key(tab_id) {
            self.tab_pane_counts[tab_id]
        } else {
            1
        }
    }

    /// The suffix that shows a number of panes, where there is a format for it and the number is
    /// more than one.
    pub open spec fn count_suffix(self, count: usize) -> Seq<char> {
        match self.pane_count_format {
            Some(format) => if count > 1 {
                replaced(format, "{pane_count}"@, decimal_text(count as nat))
            } else {
                Seq::empty()
            },
            None => Seq::empty(),
        }
    }

    /// The suffix that shows the number of panes of a tab.
    pub open spec fn pane_count_suffix(self, tab_id: usize) -> Seq<char> {
        self.count_suffix(self.pane_count(tab_id))
    }

    /// The rendered name of a tab: prefix, base name, suffix and pane count suffix.
    pub open spec fn compose_rendered_name(self, tab_id: usize, base_name: Seq<char>) -> Seq<char> {
        text_for(self.tab_prefixes, tab_id) + base_name + text_for(self.tab_suffixes, tab_id)
            + self.pane_count_suffix(tab_id)
    }

    /// The tab is renamed, where it has a base name and another name is on display.
    pub open spec fn refresh_tab_name(self, tab_id: usize) -> Model {
        if !self.base_names.contains_key(tab_id) {
            self
        } else {
            let name = self.compose_rendered_name(tab_id, self.base_names[tab_id]);
            if self.rendered_names.contains_key(tab_id) && self.rendered_names[tab_id] == name {
                self
            } else {
                Model {
                    effects: self.effects.push(EffectView::RenameTab { tab_id, name }),
                    rendered_names: self.rendered_names.insert(tab_id, name),
                    ..self
                }
            }
        }
    }

    /// The tab has a base name.
    pub open spec fn apply_name(self, tab_id: usize, base_name: Seq<char>) -> Model {
        Model { base_names: self.base_names.insert(tab_id, base_name), ..self }.refresh_tab_name(
            tab_id,
        )
    }

    /// The name that a directory gives outside git: `~` for home, else its final component.
    pub open spec fn derive_name(self, cwd: Seq<char>) -> Seq<char> {
        if self.home_dir.len() > 0 && cwd == self.home_dir {
            seq!['~']
        } else {
            basename_of(cwd)
        }
    }

    // ── Git ────────────────────────────────────────────────────────────────

    /// The name of the root that a directory is known to be under: its alias, else its nearest
    /// ancestor that is a known root.
    pub open spec fn find_git_root(self, cwd: Seq<char>) -> Option<Seq<char>> {
        if self.root_aliases.contains_key(cwd) {
            Some(basename_of(self.root_aliases[cwd]))
        } else {
            match first_root(self.git_roots, ancestors_of(cwd)) {
                Some(root) => Some(basename_of(root)),
                None => None,
            }
        }
    }

    /// Whether no root can be hidden between a directory and its nearest known root: the directory
    /// is itself a root or an alias, or git has answered for it.
    pub open spec fn can_trust_git_root(self, cwd: Seq<char>) -> bool {
        ||| self.git_roots.contains(cwd)
        ||| self.root_aliases.contains_key(cwd)
        ||| self.resolved_cwds.contains(cwd)
    }

    /// The name that the caches give a directory.
    pub open spec fn cached_name(self, cwd: Seq<char>) -> Option<Seq<char>> {
        if self.not_git.contains(cwd) {
            Some(self.derive_name(cwd))
        } else if self.can_trust_git_root(cwd) {
            self.find_git_root(cwd)
        } else {
            None
        }
    }

    /// The tab is named from the caches, where they know its directory.
    pub open spec fn apply_cached_name(self, tab_id: usize, cwd: Seq<char>) -> Model {
        match self.cached_name(cwd) {
            Some(name) => self.apply_name(tab_id, name),
            None => self,
        }
    }

    /// The number of entries in the git caches.
    pub open spec fn git_cache_len(self) -> nat {
        self.git_roots.len() + self.not_git.len() + self.root_aliases.len()
            + self.resolved_cwds.len()
    }

    /// Nothing is known of repositories.
    pub open spec fn without_caches(self) -> Model {
        Model {
            git_roots: Set::empty(),
            not_git: Set::empty(),
            root_aliases: Map::empty(),
            resolved_cwds: Set::empty(),
            ..self
        }
    }

    /// Whether the git caches have no room for an answer: they are full, or it would take them past
    /// their limit.
    pub open spec fn no_room_for(self, cwd: Seq<char>, root: Option<Seq<char>>) -> bool {
        ||| self.git_cache_len() >= MAX_GIT_CACHE_ENTRIES
        ||| self.record_verdict(cwd, root).git_cache_len() > MAX_GIT_CACHE_ENTRIES
    }

    /// The git caches with room for an answer, cleared where they have none.
    pub open spec fn bound_git_caches(self, cwd: Seq<char>, root: Option<Seq<char>>) -> Model {
        if self.no_room_for(cwd, root) {
            self.without_caches()
        } else {
            self
        }
    }

    /// The git caches with one more answer: the root of `cwd`, an alias where the root is no
    /// ancestor of it; or that it is in no repository.
    pub open spec fn record_verdict(self, cwd: Seq<char>, root: Option<Seq<char>>) -> Model {
        match root {
            Some(root) => Model {
                git_roots: self.git_roots.insert(root),
                root_aliases: if ancestors_of(cwd).contains(root) {
                    self.root_aliases
                } else {
                    self.root_aliases.insert(cwd, root)
                },
                resolved_cwds: self.resolved_cwds.insert(cwd),
                ..self
            },
            None => Model { not_git: self.not_git.insert(cwd), ..self },
        }
    }

    /// The tabs that wait for the answer on a directory.
    pub open spec fn waiters(self, cwd: Seq<char>) -> Seq<usize> {
        if self.pending_git.contains_key(cwd) {
            self.pending_git[cwd]
        } else {
            Seq::empty()
        }
    }

    /// A tab that waited is named after the directory it is in now.
    pub open spec fn resolve_waiter(self, tab_id: usize) -> Model {
        if self.tab_cwds.contains_key(tab_id) {
            self.apply_cached_name(tab_id, self.tab_cwds[tab_id].text)
        } else {
            self
        }
    }

    /// The tabs that waited are named, one after the other.
    pub open spec fn resolve_waiters(self, waiters: Seq<usize>) -> Model
        decreases waiters.len(),
    {
        if waiters.len() == 0 {
            self
        } else {
            self.resolve_waiters(waiters.drop_last()).resolve_waiter(waiters.last())
        }
    }

    /// Nobody waits for the answer on a directory.
    pub open spec fn without_waiters(self, cwd: Seq<char>) -> Model {
        Model { pending_git: self.pending_git.remove(cwd), ..self }
    }

    /// Git's answer on a directory is in the caches, and nobody waits for it.
    pub open spec fn take_verdict(self, cwd: Seq<char>, root: Option<Seq<char>>) -> Model {
        self.without_waiters(cwd).bound_git_caches(cwd, root).record_verdict(cwd, root)
    }

    /// Git has answered for a directory.
    pub open spec fn on_git_verdict(self, cwd: Seq<char>, root: Option<Seq<char>>) -> Model {
        self.take_verdict(cwd, root).resolve_waiters(self.waiters(cwd))
    }

    /// A command has ended. Its context says which directory it was asked about.
    pub open spec fn on_run_command_result(
        self,
        exit_code: Option<i32>,
        stdout: Seq<u8>,
        context: Map<Seq<char>, Seq<char>>,
    ) -> Model {
        if context.contains_key("cwd"@) {
            self.on_git_verdict(context["cwd"@], git_root_of(exit_code, utf8_lossy(stdout)))
        } else {
            self
        }
    }

    // ── Working directories ────────────────────────────────────────────────

    /// The tab waits for git's answer on a directory, for which a query is under way.
    pub open spec fn join_waiters(self, tab_id: usize, cwd: Seq<char>) -> Model {
        if self.pending_git[cwd].contains(tab_id) {
            self
        } else {
            Model {
                pending_git: self.pending_git.insert(cwd, self.pending_git[cwd].push(tab_id)),
                ..self
            }
        }
    }

    /// The tab waits for git's answer on a directory, and git is asked.
    pub open spec fn ask_git(self, tab_id: usize, cwd: CwdView) -> Model {
        Model {
            pending_git: self.pending_git.insert(cwd.text, seq![tab_id]),
            effects: self.effects.push(
                EffectView::RunGit { cwd, context: map!["cwd"@ => cwd.text] },
            ),
            ..self
        }
    }

    /// The tab is in a directory. One without text leaves no trace.
    pub open spec fn enter_cwd(self, tab_id: usize, cwd: CwdView) -> Model {
        if cwd.text.len() == 0 {
            self
        } else {
            let entered = Model { tab_cwds: self.tab_cwds.insert(tab_id, cwd), ..self };
            if !self.git_detection {
                entered.apply_name(tab_id, self.derive_name(cwd.text))
            } else if self.pending_git.contains_key(cwd.text) {
                entered.join_waiters(tab_id, cwd.text)
            } else if self.cached_name(cwd.text) is Some {
                entered.apply_cached_name(tab_id, cwd.text)
            } else {
                entered.ask_git(tab_id, cwd)
            }
        }
    }

    /// A pane is in a directory: that is its tab's, or is kept until the pane's tab is known.
    pub open spec fn on_cwd_changed(self, pane_id: PaneId, cwd: CwdView) -> Model {
        match pane_id {
            PaneId::Terminal(id) => if self.pane_to_tab.contains_key(id) {
                self.enter_cwd(self.pane_to_tab[id], cwd)
            } else {
                Model { pending_cwds: upserted(self.pending_cwds, id, cwd), ..self }
            },
            PaneId::Plugin(_) => self,
        }
    }

    /// Terminals are in directories, one report after the other.
    pub open spec fn replay_cwds(self, cwds: Seq<(u32, CwdView)>) -> Model
        decreases cwds.len(),
    {
        if cwds.len() == 0 {
            self
        } else {
            self.replay_cwds(cwds.drop_last()).on_cwd_changed(
                PaneId::Terminal(cwds.last().0),
                cwds.last().1,
            )
        }
    }

    // ── Panes ──────────────────────────────────────────────────────────────

    /// The tabs of a manifest whose number of panes is not what it was are renamed.
    pub open spec fn refresh_counts(
        self,
        manifest: ManifestView,
        before: Map<usize, usize>,
    ) -> Model
        decreases manifest.len(),
    {
        if manifest.len() == 0 {
            self
        } else {
            let rest = self.refresh_counts(manifest.drop_last(), before);
            let position = manifest.last().0;
            if self.index_to_id.contains_key(position) {
                let tab_id = self.index_to_id[position];
                let old_count = if before.contains_key(tab_id) {
                    before[tab_id]
                } else {
                    0
                };
                if self.tab_pane_counts[tab_id] != old_count {
                    rest.refresh_tab_name(tab_id)
                } else {
                    rest
                }
            } else {
                rest
            }
        }
    }

    /// A tab of which neither a name nor a directory is known is asked about.
    pub open spec fn discover(self, tab_id: usize, panes: Seq<PaneInfo>) -> Model {
        if self.base_names.contains_key(tab_id) || self.tab_cwds.contains_key(tab_id) {
            self
        } else {
            match discovery_pane(self.floating_visible.contains(tab_id), panes) {
                Some(pane_id) => self.emit(EffectView::QueryPaneCwd { pane_id }),
                None => self,
            }
        }
    }

    /// The tabs are asked about, one after the other.
    pub open spec fn discover_all(self, tabs: Seq<(usize, Seq<PaneInfo>)>) -> Model
        decreases tabs.len(),
    {
        if tabs.len() == 0 {
            self
        } else {
            self.discover_all(tabs.drop_last()).discover(tabs.last().0, tabs.last().1)
        }
    }

    /// The panes are where the manifest says.
    pub open spec fn place_panes(self, manifest: ManifestView) -> Model {
        Model {
            deferred_panes: None,
            pane_to_tab: terminals_by_tab(manifest, self.index_to_id),
            tab_pane_counts: counts_by_tab(manifest, self.index_to_id),
            ..self
        }
    }

    /// The names that show a number of panes follow it.
    pub open spec fn follow_counts(
        self,
        manifest: ManifestView,
        before: Map<usize, usize>,
    ) -> Model {
        if self.pane_count_format is Some {
            self.refresh_counts(manifest, before)
        } else {
            self
        }
    }

    /// The directories that waited for their pane are gone through again; those of panes that no
    /// longer exist are dropped.
    pub open spec fn replay_pending(self, manifest: ManifestView) -> Model {
        let replayed = Model { pending_cwds: Seq::empty(), ..self }.replay_cwds(self.pending_cwds);
        Model {
            pending_cwds: only_panes(replayed.pending_cwds, manifest_terminals(manifest)),
            ..replayed
        }
    }

    /// A manifest with a tab position that is not known is kept for when it is.
    pub open spec fn defer(self, manifest: ManifestView) -> Model {
        if all_positions_known(manifest, self.index_to_id) {
            self
        } else {
            Model { deferred_panes: Some(manifest), ..self }
        }
    }

    /// A snapshot of all panes.
    pub open spec fn on_pane_update(self, manifest: ManifestView) -> Model {
        self.place_panes(manifest)
            .follow_counts(manifest, self.tab_pane_counts)
            .replay_pending(manifest)
            .discover_all(tabs_with_new_terminals(manifest, self.index_to_id, self.pane_to_tab))
            .defer(manifest)
    }

    // ── Tabs ───────────────────────────────────────────────────────────────

    /// What is known of tabs that are gone is forgotten, and the tabs are where the snapshot says.
    pub open spec fn place_tabs(self, tabs: Seq<TabInfo>) -> Model {
        let alive = tab_ids(tabs);
        Model {
            active_tab_id: active_tab(tabs, self.active_tab_id),
            base_names: self.base_names.restrict(alive),
            rendered_names: self.rendered_names.restrict(alive),
            tab_cwds: self.tab_cwds.restrict(alive),
            tab_pane_counts: self.tab_pane_counts.restrict(alive),
            tab_prefixes: self.tab_prefixes.restrict(alive),
            tab_suffixes: self.tab_suffixes.restrict(alive),
            pending_git: live_waiters(self.pending_git, alive),
            index_to_id: tabs_by_position(tabs),
            floating_visible: floating_tabs(tabs),
            deferred_panes: None,
            ..self
        }
    }

    /// A snapshot of all tabs. A manifest that came too early is gone through again.
    pub open spec fn on_tab_update(self, tabs: Seq<TabInfo>) -> Model {
        match self.deferred_panes {
            Some(manifest) => self.place_tabs(tabs).on_pane_update(manifest),
            None => self.place_tabs(tabs),
        }
    }

    // ── Events ─────────────────────────────────────────────────────────────

    /// An event once permissions are granted.
    pub open spec fn handle_event(self, event: EventView) -> Model {
        match event {
            EventView::TabUpdate(tabs) => self.on_tab_update(tabs),
            EventView::PaneUpdate(manifest) => self.on_pane_update(manifest),
            EventView::CwdChanged(pane_id, cwd) => self.on_cwd_changed(pane_id, cwd),
            EventView::RunCommandResult(exit_code, stdout, context) => self.on_run_command_result(
                exit_code,
                stdout,
                context,
            ),
            EventView::PermissionRequestResult(_) => self,
            EventView::Other => self,
        }
    }

    /// An event before that: the latest snapshot of each kind and the latest directory of each
    /// terminal are kept.
    pub open spec fn buffer_event(self, event: EventView) -> Model {
        match event {
            EventView::TabUpdate(tabs) => Model { buffered_tabs: Some(tabs), ..self },
            EventView::PaneUpdate(manifest) => Model { buffered_panes: Some(manifest), ..self },
            EventView::CwdChanged(PaneId::Terminal(id), cwd) => Model {
                buffered_cwds: upserted(self.buffered_cwds, id, cwd),
                ..self
            },
            _ => self,
        }
    }

    /// The tabs that were kept are gone through.
    pub open spec fn release_tabs(self) -> Model {
        match self.buffered_tabs {
            Some(tabs) => Model { buffered_tabs: None, ..self }.on_tab_update(tabs),
            None => self,
        }
    }

    /// The directories that were kept now wait for their pane.
    pub open spec fn release_cwds(self) -> Model {
        Model {
            pending_cwds: self.pending_cwds + self.buffered_cwds,
            buffered_cwds: Seq::empty(),
            ..self
        }
    }

    /// The panes that were kept are gone through.
    pub open spec fn release_panes(self) -> Model {
        match self.buffered_panes {
            Some(manifest) => Model { buffered_panes: None, ..self }.on_pane_update(manifest),
            None => self,
        }
    }

    /// Permissions are granted: what was kept is gone through.
    pub open spec fn grant(self) -> Model {
        Model { got_permissions: true, ..self }.release_tabs().release_cwds().release_panes()
    }

    /// An event.
    pub open spec fn handle(self, event: EventView) -> Model {
        if self.got_permissions {
            self.handle_event(event)
        } else if event == EventView::PermissionRequestResult(PermissionStatus::Granted) {
            self.grant()
        } else {
            self.buffer_event(event)
        }
    }

    /// A terminal that was asked about has answered with its directory, or has not.
    pub open spec fn answer_query(self, pane_id: u32, answer: Option<CwdView>) -> Model {
        match answer {
            Some(cwd) => self.handle(EventView::CwdChanged(PaneId::Terminal(pane_id), cwd)),
            None => self,
        }
    }

    // ── Pipe API ───────────────────────────────────────────────────────────

    /// The tab that a pipe message is about: the one it gives, the active one where it gives none
    /// or says so, and none where it gives no number.
    pub open spec fn resolve_tab_id(self, args: Map<Seq<char>, Seq<char>>) -> Option<usize> {
        if !args.contains_key("tab_id"@) || args["tab_id"@] == "active"@ {
            self.active_tab_id
        } else {
            parsed_usize(args["tab_id"@])
        }
    }

    /// The decorations of one kind.
    pub open spec fn decorations(self, decoration: Decoration) -> Map<usize, Seq<char>> {
        match decoration {
            Decoration::Prefix => self.tab_prefixes,
            Decoration::Suffix => self.tab_suffixes,
        }
    }

    /// Other decorations of one kind.
    pub open spec fn with_decorations(
        self,
        decoration: Decoration,
        map: Map<usize, Seq<char>>,
    ) -> Model {
        match decoration {
            Decoration::Prefix => Model { tab_prefixes: map, ..self },
            Decoration::Suffix => Model { tab_suffixes: map, ..self },
        }
    }

    /// The tab has a decoration, or none where the value is empty.
    pub open spec fn decorate(
        self,
        tab_id: usize,
        decoration: Decoration,
        value: Seq<char>,
    ) -> Model {
        let map = self.decorations(decoration);
        if value == text_for(map, tab_id) {
            self
        } else if value.len() == 0 {
            self.with_decorations(decoration, map.remove(tab_id)).refresh_tab_name(tab_id)
        } else {
            self.with_decorations(decoration, map.insert(tab_id, value)).refresh_tab_name(tab_id)
        }
    }

    /// The tab that the arguments give has a decoration.
    pub open spec fn set_decoration(
        self,
        args: Map<Seq<char>, Seq<char>>,
        decoration: Decoration,
        value: Seq<char>,
    ) -> Model {
        match self.resolve_tab_id(args) {
            Some(tab_id) => self.decorate(tab_id, decoration, value),
            None => self,
        }
    }

    /// The tab has no decorations.
    pub open spec fn clear_decorations(self, tab_id: usize) -> Model {
        if self.tab_prefixes.contains_key(tab_id) || self.tab_suffixes.contains_key(tab_id) {
            Model {
                tab_prefixes: self.tab_prefixes.remove(tab_id),
                tab_suffixes: self.tab_suffixes.remove(tab_id),
                ..self
            }.refresh_tab_name(tab_id)
        } else {
            self
        }
    }

    /// The tab that the arguments give has no decorations.
    pub open spec fn clear_all(self, args: Map<Seq<char>, Seq<char>>) -> Model {
        match self.resolve_tab_id(args) {
            Some(tab_id) => self.clear_decorations(tab_id),
            None => self,
        }
    }

    /// A command line that waits for its pipe need not wait.
    pub open spec fn unblock(self, source: PipeSourceView) -> Model {
        match source {
            PipeSourceView::Cli(pipe_id) => self.emit(EffectView::UnblockCliPipe(pipe_id)),
            _ => self,
        }
    }

    /// What a pipe message asks for, by its name.
    pub open spec fn run_pipe(self, name: Seq<char>, args: Map<Seq<char>, Seq<char>>) -> Model {
        let value = if args.contains_key("value"@) {
            args["value"@]
        } else {
            Seq::empty()
        };
        if name == "set_prefix"@ {
            self.set_decoration(args, Decoration::Prefix, value)
        } else if name == "set_suffix"@ {
            self.set_decoration(args, Decoration::Suffix, value)
        } else if name == "clear_prefix"@ {
            self.set_decoration(args, Decoration::Prefix, Seq::empty())
        } else if name == "clear_suffix"@ {
            self.set_decoration(args, Decoration::Suffix, Seq::empty())
        } else if name == "clear_all"@ {
            self.clear_all(args)
        } else {
            self
        }
    }

    /// A pipe message.
    pub open spec fn handle_pipe(self, message: PipeMessageView) -> Model {
        self.unblock(message.source).run_pipe(message.name, message.args)
    }

    // ── Start ──────────────────────────────────────────────────────────────

    /// What the configuration says.
    pub open spec fn configured(
        self,
        config: Map<Seq<char>, Seq<char>>,
        home_dir: Seq<char>,
    ) -> Model {
        Model {
            git_detection: !(config.contains_key("git_detection"@) && config["git_detection"@]
                == "false"@),
            pane_count_format: config.get("pane_count"@),
            home_dir,
            ..self
        }
    }

    /// The permissions to ask for: running commands only for git.
    pub open spec fn permissions(self) -> Seq<PermissionType> {
        let base = seq![
            PermissionType::ReadApplicationState,
            PermissionType::ChangeApplicationState,
        ];
        if self.git_detection {
            base.push(PermissionType::RunCommands)
        } else {
            base
        }
    }

    /// The events to subscribe to: command results only for git.
    pub open spec fn subscriptions(self) -> Seq<EventType> {
        let base = seq![
            EventType::TabUpdate,
            EventType::PaneUpdate,
            EventType::CwdChanged,
            EventType::PermissionRequestResult,
        ];
        if self.git_detection {
            base.push(EventType::RunCommandResult)
        } else {
            base
        }
    }

    /// The configuration is read, and permissions and events are asked for.
    pub open spec fn init(self, config: Map<Seq<char>, Seq<char>>, home_dir: Seq<char>) -> Model {
        let s = self.configured(config, home_dir);
        s.emit(EffectView::RequestPermissions(s.permissions())).emit(
            EffectView::Subscribe(s.subscriptions()),
        )
    }
}

} // verus!
