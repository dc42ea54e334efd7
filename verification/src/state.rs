//! The tab namer: events and pipe messages in, effects out.

use crate::cwd::{Cwd, CwdView};
use crate::events::{
    cwds_view, effects_view, Effect, Event, EventType, PaneId, PaneManifest, PermissionStatus,
    PermissionType, PipeMessage, PipeSource, TabInfo,
};
use crate::maps::{TabMap, TextMap};
use crate::model::{Decoration, Model};
use crate::naming::value_of;
use crate::pending::upsert_cwd;
use crate::text::same_text;
use crate::validity::{
    lemma_drained_keeps, lemma_handle_keeps, lemma_init_keeps, lemma_initial_inv, lemma_pipe_keeps,
};
use std::collections::{HashMap, HashSet};
use vstd::hash_map::StringHashMap;
use vstd::hash_set::StringHashSet;
use vstd::prelude::*;
use vstd::string::StringExecFns;

verus! {

broadcast use vstd::std_specs::hash::group_hash_axioms;

/// What the tab namer knows of the session. The fields are there to be read: a state keeps its
/// invariant, `Model::inv`, as long as it changes by the functions here alone.
pub struct State {
    /// Effects emitted by the call under way, handed out when it returns.
    pub effects: Vec<Effect>,
    pub got_permissions: bool,
    /// The latest snapshots and directories seen before permissions were granted.
    pub buffered_tabs: Option<Vec<TabInfo>>,
    pub buffered_panes: Option<PaneManifest>,
    pub buffered_cwds: Vec<(u32, Cwd)>,
    /// A manifest that came ahead of the snapshot of its tabs.
    pub deferred_panes: Option<PaneManifest>,
    /// Whether tabs are named after git repositories.
    pub git_detection: bool,
    /// The format of the pane count suffix.
    pub pane_count_format: Option<String>,
    /// The name of each tab without decorations.
    pub base_names: TabMap<String>,
    /// The name last sent for each tab.
    pub rendered_names: TabMap<String>,
    /// The number of terminals in each tab.
    pub tab_pane_counts: TabMap<usize>,
    /// The tab at each position.
    pub index_to_id: TabMap<usize>,
    /// Tabs whose floating layer is shown.
    pub floating_visible: HashSet<usize>,
    /// The tab that each terminal is in.
    pub pane_to_tab: HashMap<u32, usize>,
    /// Git roots that are known.
    pub git_roots: StringHashSet,
    /// Directories that are known to be in no repository.
    pub not_git: StringHashSet,
    /// Directories whose git root is none of their ancestors, as with symbolic links.
    pub root_aliases: StringHashMap<String>,
    /// Directories for which git has answered with a root.
    pub resolved_cwds: StringHashSet,
    /// Directories of terminals whose tab is not known yet, in the order they were reported.
    pub pending_cwds: Vec<(u32, Cwd)>,
    /// The directory of each tab.
    pub tab_cwds: TabMap<Cwd>,
    /// Directories that git is being asked about, with the tabs that wait for the answer.
    pub pending_git: TextMap<Vec<usize>>,
    pub active_tab_id: Option<usize>,
    /// What stands before and after each tab's base name.
    pub tab_prefixes: TabMap<String>,
    pub tab_suffixes: TabMap<String>,
    /// The directory that is shown as `~`.
    pub home_dir: String,
}

impl View for State {
    type V = Model;

    open spec fn view(&self) -> Model {
        Model {
            effects: effects_view(self.effects@),
            got_permissions: self.got_permissions,
            buffered_tabs: match self.buffered_tabs {
                Some(tabs) => Some(tabs@),
                None => None,
            },
            buffered_panes: match self.buffered_panes {
                Some(manifest) => Some(manifest@),
                None => None,
            },
            buffered_cwds: cwds_view(self.buffered_cwds@),
            deferred_panes: match self.deferred_panes {
                Some(manifest) => Some(manifest@),
                None => None,
            },
            git_detection: self.git_detection,
            pane_count_format: match self.pane_count_format {
                Some(format) => Some(format@),
                None => None,
            },
            base_names: self.base_names@,
            rendered_names: self.rendered_names@,
            tab_pane_counts: self.tab_pane_counts@,
            index_to_id: self.index_to_id@,
            floating_visible: self.floating_visible@,
            pane_to_tab: self.pane_to_tab@,
            git_roots: self.git_roots@,
            not_git: self.not_git@,
            root_aliases: self.root_aliases@.map_values(|root: String| root@),
            resolved_cwds: self.resolved_cwds@,
            pending_cwds: cwds_view(self.pending_cwds@),
            tab_cwds: self.tab_cwds@,
            pending_git: self.pending_git@,
            active_tab_id: self.active_tab_id,
            tab_prefixes: self.tab_prefixes@,
            tab_suffixes: self.tab_suffixes@,
            home_dir: self.home_dir@,
        }
    }
}

impl Default for State {
    fn default() -> (state: State)
        ensures
            state@ == Model::initial(),
            state@.inv(),
    {
        let state = State {
            effects: Vec::new(),
            got_permissions: false,
            buffered_tabs: None,
            buffered_panes: None,
            buffered_cwds: Vec::new(),
            deferred_panes: None,
            git_detection: false,
            pane_count_format: None,
            base_names: TabMap::new(),
            rendered_names: TabMap::new(),
            tab_pane_counts: TabMap::new(),
            index_to_id: TabMap::new(),
            floating_visible: HashSet::new(),
            pane_to_tab: HashMap::new(),
            git_roots: StringHashSet::new(),
            not_git: StringHashSet::new(),
            root_aliases: StringHashMap::new(),
            resolved_cwds: StringHashSet::new(),
            pending_cwds: Vec::new(),
            tab_cwds: TabMap::new(),
            pending_git: TextMap::new(),
            active_tab_id: None,
            tab_prefixes: TabMap::new(),
            tab_suffixes: TabMap::new(),
            home_dir: String::new(),
        };
        proof {
            assert(state@ =~= Model::initial());
            lemma_initial_inv();
        }
        state
    }
}

impl State {
    /// One more effect.
    pub(crate) fn emit(&mut self, effect: Effect)
        ensures
            final(self)@ == old(self)@.emit(effect@),
    {
        self.effects.push(effect);
        assert(effects_view(self.effects@) =~= effects_view(old(self).effects@).push(effect@));
        assert(self@ =~= old(self)@.emit(effect@));
    }

    /// Hands out the effects emitted so far.
    fn take_effects(&mut self) -> (effects: Vec<Effect>)
        ensures
            effects_view(effects@) == old(self)@.effects,
            final(self)@ == old(self)@.drained(),
    {
        let mut effects: Vec<Effect> = Vec::new();
        std::mem::swap(&mut effects, &mut self.effects);
        assert(self@ =~= old(self)@.drained());
        effects
    }

    /// Takes an event once permissions are granted.
    pub fn handle_event(&mut self, event: Event)
        ensures
            final(self)@ == old(self)@.handle_event(event@),
    {
        match event {
            Event::TabUpdate(tabs) => {
                self.on_tab_update(tabs);
            },
            Event::PaneUpdate(manifest) => {
                self.on_pane_update(manifest);
            },
            Event::CwdChanged(pane_id, cwd) => {
                self.on_cwd_changed(pane_id, cwd);
            },
            Event::RunCommandResult(exit_code, stdout, context) => {
                self.on_run_command_result(exit_code, stdout, context);
            },
            Event::PermissionRequestResult(_) => {},
            Event::Other => {},
        }
    }

    /// Goes through what was kept until permissions were granted. The directories wait for their
    /// pane first, so that they name their tabs before any tab is asked about.
    fn grant(&mut self)
        ensures
            final(self)@ == old(self)@.grant(),
    {
        self.got_permissions = true;
        let ghost granted = Model { got_permissions: true, ..old(self)@ };
        assert(self@ =~= granted);
        match self.buffered_tabs.take() {
            Some(tabs) => {
                assert(self@ =~= (Model { buffered_tabs: None, ..granted }));
                self.on_tab_update(tabs);
            },
            None => {
                assert(self@ =~= granted);
            },
        }
        let ghost tabs_released = self@;
        assert(tabs_released == granted.release_tabs());
        let mut cwds: Vec<(u32, Cwd)> = Vec::new();
        std::mem::swap(&mut cwds, &mut self.buffered_cwds);
        self.pending_cwds.append(&mut cwds);
        proof {
            assert(cwds_view(self.buffered_cwds@) =~= Seq::empty());
            assert(self@ =~= tabs_released.release_cwds());
        }
        let ghost cwds_released = self@;
        match self.buffered_panes.take() {
            Some(manifest) => {
                assert(self@ =~= (Model { buffered_panes: None, ..cwds_released }));
                self.on_pane_update(manifest);
            },
            None => {
                assert(self@ =~= cwds_released);
            },
        }
    }

    /// Keeps the latest snapshot of each kind and the latest directory of each terminal.
    fn buffer_event(&mut self, event: Event)
        ensures
            final(self)@ == old(self)@.buffer_event(event@),
    {
        match event {
            Event::TabUpdate(tabs) => {
                self.buffered_tabs = Some(tabs);
                assert(self@ =~= old(self)@.buffer_event(event@));
            },
            Event::PaneUpdate(manifest) => {
                self.buffered_panes = Some(manifest);
                assert(self@ =~= old(self)@.buffer_event(event@));
            },
            Event::CwdChanged(PaneId::Terminal(terminal_id), cwd) => {
                upsert_cwd(&mut self.buffered_cwds, terminal_id, cwd);
                assert(self@ =~= old(self)@.buffer_event(event@));
            },
            _ => {},
        }
    }

    /// Takes an event of the session and hands out what is to be done.
    pub fn handle(&mut self, event: Event) -> (effects: Vec<Effect>)
        ensures
            effects_view(effects@) == old(self)@.handle(event@).effects,
            final(self)@ == old(self)@.handle(event@).drained(),
            old(self)@.inv() ==> final(self)@.inv(),
    {
        proof {
            if self@.inv() {
                lemma_handle_keeps(self@, event@);
            }
        }
        if self.got_permissions {
            self.handle_event(event);
        } else {
            match event {
                Event::PermissionRequestResult(PermissionStatus::Granted) => {
                    self.grant();
                },
                _ => {
                    self.buffer_event(event);
                },
            }
        }
        self.take_effects()
    }

    /// Takes the answer to a query for a terminal's directory and hands out what is to be done. A
    /// query that failed changes nothing: the first report of a directory takes over.
    pub fn answer_query(&mut self, pane_id: u32, answer: Option<Cwd>) -> (effects: Vec<Effect>)
        ensures
            effects_view(effects@) == old(self)@.answer_query(pane_id, answer_view(answer)).effects,
            final(self)@ == old(self)@.answer_query(pane_id, answer_view(answer)).drained(),
            old(self)@.inv() ==> final(self)@.inv(),
    {
        match answer {
            Some(cwd) => self.handle(Event::CwdChanged(PaneId::Terminal(pane_id), cwd)),
            None => {
                proof {
                    if self@.inv() {
                        lemma_drained_keeps(self@);
                    }
                }
                self.take_effects()
            },
        }
    }

    /// Takes a pipe message and hands out what is to be done.
    pub fn handle_pipe(&mut self, message: PipeMessage) -> (effects: Vec<Effect>)
        ensures
            effects_view(effects@) == old(self)@.handle_pipe(message@).effects,
            final(self)@ == old(self)@.handle_pipe(message@).drained(),
            old(self)@.inv() ==> final(self)@.inv(),
    {
        proof {
            if self@.inv() {
                lemma_pipe_keeps(self@, message@);
            }
        }
        match &message.source {
            PipeSource::Cli(pipe_id) => {
                self.emit(Effect::UnblockCliPipe(pipe_id.clone()));
            },
            _ => {},
        }
        assert(self@ == old(self)@.unblock(message@.source));
        let name = message.name.as_str();
        if same_text(name, "set_prefix") {
            let value = value_of(&message.args);
            self.set_decoration(&message.args, Decoration::Prefix, value);
        } else if same_text(name, "set_suffix") {
            let value = value_of(&message.args);
            self.set_decoration(&message.args, Decoration::Suffix, value);
        } else if same_text(name, "clear_prefix") {
            self.set_decoration(&message.args, Decoration::Prefix, String::new());
        } else if same_text(name, "clear_suffix") {
            self.set_decoration(&message.args, Decoration::Suffix, String::new());
        } else if same_text(name, "clear_all") {
            self.clear_all(&message.args);
        }
        self.take_effects()
    }

    /// Reads the configuration, and asks for the permissions and events that it calls for.
    pub fn init(&mut self, config: TextMap<String>, home_dir: String) -> (effects: Vec<Effect>)
        ensures
            effects_view(effects@) == old(self)@.init(config@, home_dir@).effects,
            final(self)@ == old(self)@.init(config@, home_dir@).drained(),
            old(self)@.inv() && !old(self)@.got_permissions ==> final(self)@.inv(),
    {
        proof {
            if self@.inv() && !self@.got_permissions {
                lemma_init_keeps(self@, config@, home_dir@);
            }
        }
        self.git_detection = match config.get("git_detection") {
            Some(value) => !same_text(value.as_str(), "false"),
            None => true,
        };
        self.pane_count_format = match config.get("pane_count") {
            Some(format) => Some(format.clone()),
            None => None,
        };
        let ghost home = home_dir@;
        self.home_dir = home_dir;
        let ghost configured = old(self)@.configured(config@, home);
        assert(self@ =~= configured);

        let mut permissions: Vec<PermissionType> = Vec::new();
        permissions.push(PermissionType::ReadApplicationState);
        permissions.push(PermissionType::ChangeApplicationState);
        let mut events: Vec<EventType> = Vec::new();
        events.push(EventType::TabUpdate);
        events.push(EventType::PaneUpdate);
        events.push(EventType::CwdChanged);
        events.push(EventType::PermissionRequestResult);
        if self.git_detection {
            permissions.push(PermissionType::RunCommands);
            events.push(EventType::RunCommandResult);
        }
        assert(permissions@ =~= configured.permissions());
        assert(events@ =~= configured.subscriptions());
        self.emit(Effect::RequestPermissions(permissions));
        self.emit(Effect::Subscribe(events));
        self.take_effects()
    }
}

/// The directory that a terminal has answered with, if it has.
pub open spec fn answer_view(answer: Option<Cwd>) -> Option<CwdView> {
    match answer {
        Some(cwd) => Some(cwd@),
        None => None,
    }
}

} // verus!
