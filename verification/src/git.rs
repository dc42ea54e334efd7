//! Directories, and the repositories that git says they are in.

use crate::cwd::{text_from_utf8_lossy, Cwd};
use crate::events::{Effect, PaneId};
use crate::maps::TextMap;
use crate::model::{first_root, git_root_of, Model, MAX_GIT_CACHE_ENTRIES};
use crate::paths::{ancestors, ancestors_of, basename, texts};
use crate::pending::upsert_cwd;
use crate::state::State;
use crate::text::{same_text, trim};
use crate::validity::lemma_caches_bounded;
use vstd::prelude::*;

verus! {

broadcast use vstd::std_specs::hash::group_hash_axioms;

impl State {
    /// The name of the root that a directory is known to be under.
    pub fn find_git_root(&self, cwd: &str) -> (name: Option<String>)
        ensures
            match name {
                Some(n) => self@.find_git_root(cwd@) == Some(n@),
                None => self@.find_git_root(cwd@) is None,
            },
    {
        match self.root_aliases.get(cwd) {
            Some(root) => {
                return Some(basename(root.as_str()));
            },
            None => {},
        }
        let paths = ancestors(cwd);
        let ghost all = ancestors_of(cwd@);
        let mut i: usize = 0;
        assert(all.skip(0) == all);
        while i < paths.len()
            invariant
                i <= paths.len(),
                all == ancestors_of(cwd@),
                texts(paths@) == all,
                !self.root_aliases@.contains_key(cwd@),
                first_root(self.git_roots@, all.skip(i as int)) == first_root(self.git_roots@, all),
            decreases paths.len() - i,
        {
            assert(texts(paths@)[i as int] == paths@[i as int]@);
            assert(all.skip(i as int)[0] == paths@[i as int]@);
            if self.git_roots.contains(paths[i].as_str()) {
                return Some(basename(paths[i].as_str()));
            }
            assert(all.skip(i as int).skip(1) == all.skip(i + 1));
            i = i + 1;
        }
        None
    }

    /// Whether no root can be hidden between a directory and its nearest known root.
    pub fn can_trust_git_root(&self, cwd: &str) -> (trusted: bool)
        ensures
            trusted == self@.can_trust_git_root(cwd@),
    {
        self.git_roots.contains(cwd) || self.root_aliases.contains_key(cwd)
            || self.resolved_cwds.contains(cwd)
    }

    /// Names the tab from the caches and says whether they know its directory.
    pub fn apply_cached_name(&mut self, tab_id: usize, cwd: &str) -> (known: bool)
        ensures
            final(self)@ == old(self)@.apply_cached_name(tab_id, cwd@),
            known == (old(self)@.cached_name(cwd@) is Some),
    {
        let name = if self.not_git.contains(cwd) {
            self.derive_name(cwd)
        } else if self.can_trust_git_root(cwd) {
            match self.find_git_root(cwd) {
                Some(repo_name) => repo_name,
                None => {
                    return false;
                },
            }
        } else {
            return false;
        };
        self.apply_name(tab_id, name);
        true
    }

    /// The number of entries in the git caches.
    pub fn git_cache_len(&self) -> (len: usize)
        requires
            self@.git_cache_len() <= usize::MAX,
        ensures
            len == self@.git_cache_len(),
    {
        proof {
            lemma_alias_texts_len(self.root_aliases@);
        }
        self.git_roots.len() + self.not_git.len() + self.root_aliases.len()
            + self.resolved_cwds.len()
    }

    /// Whether the git caches have more entries than `limit`.
    fn caches_exceed(&self, limit: usize) -> (exceed: bool)
        requires
            limit < usize::MAX,
        ensures
            exceed == (self@.git_cache_len() > limit),
    {
        proof {
            lemma_alias_texts_len(self.root_aliases@);
        }
        let roots = self.git_roots.len().saturating_add(self.not_git.len());
        let answers = self.root_aliases.len().saturating_add(self.resolved_cwds.len());
        roots.saturating_add(answers) > limit
    }

    /// Forgets what is known of repositories.
    fn clear_caches(&mut self)
        ensures
            final(self)@ == old(self)@.without_caches(),
    {
        self.git_roots.clear();
        self.not_git.clear();
        self.root_aliases.clear();
        self.resolved_cwds.clear();
        assert(self@ =~= old(self)@.without_caches());
    }

    /// Puts git's answer on a directory into the caches, which are cleared where they have no room
    /// for it. The answer itself is always there afterwards.
    fn record_within_limit(&mut self, cwd: &str, root: &Option<String>)
        ensures
            final(self)@ == old(self)@.bound_git_caches(cwd@, root_view(*root)).record_verdict(
                cwd@,
                root_view(*root),
            ),
            final(self)@.git_cache_len() <= MAX_GIT_CACHE_ENTRIES,
    {
        proof {
            lemma_caches_bounded(self@, cwd@, root_view(*root));
        }
        let full = self.caches_exceed(MAX_GIT_CACHE_ENTRIES - 1);
        if !full {
            self.record_verdict(cwd, root);
        }
        if full || self.caches_exceed(MAX_GIT_CACHE_ENTRIES) {
            self.clear_caches();
            assert(self@ =~= old(self)@.without_caches());
            self.record_verdict(cwd, root);
        }
    }

    /// Puts git's answer on a directory into the caches.
    fn record_verdict(&mut self, cwd: &str, root: &Option<String>)
        ensures
            final(self)@ == old(self)@.record_verdict(cwd@, root_view(*root)),
    {
        match root {
            Some(root) => {
                if !is_ancestor(cwd, root.as_str()) {
                    self.root_aliases.insert(cwd.to_owned(), root.clone());
                }
                self.git_roots.insert(root.clone());
                self.resolved_cwds.insert(cwd.to_owned());
                assert(self@ =~= old(self)@.record_verdict(cwd@, Some(root@)));
            },
            None => {
                self.not_git.insert(cwd.to_owned());
                assert(self@ =~= old(self)@.record_verdict(cwd@, None));
            },
        }
    }

    /// Takes git's answer on a directory, the root it is under if any, and names the tabs that
    /// waited for it. A tab that has moved on is named after the directory it is in now.
    pub fn on_git_verdict(&mut self, cwd: &str, root: Option<String>)
        ensures
            final(self)@ == old(self)@.on_git_verdict(cwd@, root_view(root)),
            final(self)@.git_cache_len() <= MAX_GIT_CACHE_ENTRIES,
    {
        let waiters: Vec<usize> = match self.pending_git.remove(cwd) {
            Some(waiters) => waiters,
            None => Vec::new(),
        };
        assert(self@ =~= old(self)@.without_waiters(cwd@));
        self.record_within_limit(cwd, &root);
        let ghost recorded = self@;
        let mut i: usize = 0;
        assert(waiters@.take(0) =~= Seq::<usize>::empty());
        while i < waiters.len()
            invariant
                i <= waiters.len(),
                self@ == recorded.resolve_waiters(waiters@.take(i as int)),
                self@.same_caches(recorded),
            decreases waiters.len() - i,
        {
            let tab_id: usize = waiters[i];
            assert(waiters@.take(i + 1).drop_last() =~= waiters@.take(i as int));
            let tab_cwd = match self.tab_cwds.get(tab_id) {
                Some(tab_cwd) => Some(tab_cwd.clone()),
                None => None,
            };
            match tab_cwd {
                Some(tab_cwd) => {
                    let _ = self.apply_cached_name(tab_id, tab_cwd.text());
                },
                None => {},
            }
            i = i + 1;
        }
        assert(waiters@.take(i as int) =~= waiters@);
    }

    /// Takes the result of a command. Its context says which directory it was asked about; without
    /// that it is not ours.
    pub fn on_run_command_result(
        &mut self,
        exit_code: Option<i32>,
        stdout: Vec<u8>,
        context: TextMap<String>,
    )
        ensures
            final(self)@ == old(self)@.on_run_command_result(exit_code, stdout@, context@),
            old(self)@.git_cache_len() <= MAX_GIT_CACHE_ENTRIES ==> final(self)@.git_cache_len()
                <= MAX_GIT_CACHE_ENTRIES,
    {
        match context.get("cwd") {
            Some(cwd) => {
                let output = text_from_utf8_lossy(stdout.as_slice());
                let root = git_root_answer(exit_code, output.as_str());
                self.on_git_verdict(cwd.as_str(), root);
            },
            None => {},
        }
    }

    /// Takes note that a tab is in a directory, and names it or asks git about it.
    pub fn enter_cwd(&mut self, tab_id: usize, cwd: Cwd)
        ensures
            final(self)@ == old(self)@.enter_cwd(tab_id, cwd@),
    {
        if cwd.text().is_empty() {
            return;
        }
        self.tab_cwds.insert(tab_id, cwd.clone());
        let ghost entered = Model {
            tab_cwds: old(self)@.tab_cwds.insert(tab_id, cwd@),
            ..old(self)@
        };
        assert(self@ =~= entered);

        if !self.git_detection {
            let name = self.derive_name(cwd.text());
            self.apply_name(tab_id, name);
            return;
        }
        match self.pending_git.remove(cwd.text()) {
            Some(mut waiters) => {
                let ghost waiting = waiters@;
                if !contains_id(&waiters, tab_id) {
                    waiters.push(tab_id);
                }
                self.pending_git.insert(cwd.text().to_owned(), waiters);
                proof {
                    let text = cwd@.text;
                    assert(entered.pending_git.remove(text).insert(text, waiting)
                        =~= entered.pending_git);
                    assert(entered.pending_git.remove(text).insert(text, waiting.push(tab_id))
                        =~= entered.pending_git.insert(text, waiting.push(tab_id)));
                    assert(self@ =~= entered.join_waiters(tab_id, text));
                }
                return;
            },
            None => {
                assert(old(self)@.pending_git.remove(cwd@.text) =~= old(self)@.pending_git);
                assert(self@ =~= entered);
            },
        }
        if self.apply_cached_name(tab_id, cwd.text()) {
            return;
        }
        let mut waiters: Vec<usize> = Vec::new();
        waiters.push(tab_id);
        assert(waiters@ =~= seq![tab_id]);
        self.pending_git.insert(cwd.text().to_owned(), waiters);
        let mut context: TextMap<String> = TextMap::new();
        context.insert("cwd".to_owned(), cwd.text().to_owned());
        assert(context@ =~= map!["cwd"@ => cwd@.text]);
        let ghost view = cwd@;
        self.emit(Effect::RunGit { cwd, context });
        assert(self@ =~= entered.ask_git(tab_id, view));
    }

    /// Takes note that a pane is in a directory. Only terminals matter; where the terminal's tab is
    /// not known yet, the directory is kept until it is.
    pub fn on_cwd_changed(&mut self, pane_id: PaneId, cwd: Cwd)
        ensures
            final(self)@ == old(self)@.on_cwd_changed(pane_id, cwd@),
    {
        match pane_id {
            PaneId::Terminal(terminal_id) => {
                let tab_id = match self.pane_to_tab.get(&terminal_id) {
                    Some(tab_id) => *tab_id,
                    None => {
                        upsert_cwd(&mut self.pending_cwds, terminal_id, cwd);
                        assert(self@ =~= old(self)@.on_cwd_changed(pane_id, cwd@));
                        return;
                    },
                };
                self.enter_cwd(tab_id, cwd);
            },
            PaneId::Plugin(_) => {},
        }
    }
}

/// The root that git has answered with, if any.
pub open spec fn root_view(root: Option<String>) -> Option<Seq<char>> {
    match root {
        Some(root) => Some(root@),
        None => None,
    }
}

/// Whether an id is in a list.
fn contains_id(ids: &Vec<usize>, id: usize) -> (found: bool)
    ensures
        found == ids@.contains(id),
{
    let mut i: usize = 0;
    while i < ids.len()
        invariant
            i <= ids.len(),
            forall|k: int| 0 <= k < i ==> ids@[k] != id,
        decreases ids.len() - i,
    {
        if ids[i] == id {
            return true;
        }
        i = i + 1;
    }
    false
}

/// The texts of the aliases are as many as the aliases.
proof fn lemma_alias_texts_len(aliases: Map<Seq<char>, String>)
    ensures
        aliases.map_values(|root: String| root@).len() == aliases.len(),
{
    assert(aliases.map_values(|root: String| root@).dom() =~= aliases.dom());
}

/// Whether a path is another one or an ancestor of it.
pub fn is_ancestor(path: &str, candidate: &str) -> (found: bool)
    ensures
        found == ancestors_of(path@).contains(candidate@),
{
    let paths = ancestors(path);
    let ghost all = ancestors_of(path@);
    let mut i: usize = 0;
    while i < paths.len()
        invariant
            i <= paths.len(),
            all == ancestors_of(path@),
            texts(paths@) == all,
            forall|k: int| 0 <= k < i ==> #[trigger] all[k] != candidate@,
        decreases paths.len() - i,
    {
        assert(texts(paths@)[i as int] == paths@[i as int]@);
        if same_text(paths[i].as_str(), candidate) {
            assert(all[i as int] == candidate@);
            return true;
        }
        i = i + 1;
    }
    false
}

/// The root that git has answered: what it printed, trimmed, where it succeeded and printed
/// anything.
pub fn git_root_answer(exit_code: Option<i32>, output: &str) -> (root: Option<String>)
    ensures
        match root {
            Some(r) => git_root_of(exit_code, output@) == Some(r@),
            None => git_root_of(exit_code, output@) is None,
        },
{
    let succeeded = match exit_code {
        Some(code) => code == 0,
        None => false,
    };
    if !succeeded {
        return None;
    }
    let root = trim(output);
    if root.is_empty() {
        None
    } else {
        Some(root.to_owned())
    }
}

} // verus!
