//! What steps leave as it is.

use crate::cwd::CwdView;
use crate::events::{ManifestView, PaneInfo};
use crate::model::Model;
use vstd::prelude::*;

verus! {

impl Model {
    /// `self` is `before` but for what a working directory or an answer of git can change.
    pub open spec fn same_but_naming(self, before: Model) -> bool {
        self == Model {
            effects: self.effects,
            base_names: self.base_names,
            rendered_names: self.rendered_names,
            tab_cwds: self.tab_cwds,
            pending_git: self.pending_git,
            pending_cwds: self.pending_cwds,
            git_roots: self.git_roots,
            not_git: self.not_git,
            root_aliases: self.root_aliases,
            resolved_cwds: self.resolved_cwds,
            ..before
        }
    }

    /// `self` has the git caches of `before`.
    pub open spec fn same_caches(self, before: Model) -> bool {
        &&& self.git_roots == before.git_roots
        &&& self.not_git == before.not_git
        &&& self.root_aliases == before.root_aliases
        &&& self.resolved_cwds == before.resolved_cwds
    }
}

/// Renaming the tabs whose number of panes has changed changes the display alone.
pub proof fn lemma_refresh_counts_frame(m: Model, manifest: ManifestView, before: Map<usize, usize>)
    ensures
        m.refresh_counts(manifest, before) == (Model {
            effects: m.refresh_counts(manifest, before).effects,
            rendered_names: m.refresh_counts(manifest, before).rendered_names,
            ..m
        }),
    decreases manifest.len(),
{
    if manifest.len() > 0 {
        lemma_refresh_counts_frame(m, manifest.drop_last(), before);
    }
}

/// Asking about tabs only emits.
pub proof fn lemma_discover_frame(m: Model, tabs: Seq<(usize, Seq<PaneInfo>)>)
    ensures
        m.discover_all(tabs) == (Model { effects: m.discover_all(tabs).effects, ..m }),
    decreases tabs.len(),
{
    if tabs.len() > 0 {
        lemma_discover_frame(m, tabs.drop_last());
    }
}

/// Reports of directories move neither tabs nor panes, and change nothing that is known of
/// repositories.
pub proof fn lemma_replay_frame(m: Model, cwds: Seq<(u32, CwdView)>)
    ensures
        m.replay_cwds(cwds).same_but_naming(m),
        m.replay_cwds(cwds).same_caches(m),
    decreases cwds.len(),
{
    if cwds.len() > 0 {
        lemma_replay_frame(m, cwds.drop_last());
    }
}

} // verus!
