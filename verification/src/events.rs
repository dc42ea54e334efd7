//! What the terminal multiplexer reports: tabs, panes, working directories, command results and
//! pipe messages.

use crate::cwd::{Cwd, CwdView};
use crate::maps::TextMap;
use vstd::prelude::*;

verus! {

/// A tab of the session, as far as naming goes.
#[derive(Debug, Clone, Copy, PartialEq, Eq, Structural)]
pub struct TabInfo {
    /// The stable identifier of the tab.
    pub tab_id: usize,
    /// The tab's position in the tab bar, counted from zero.
    pub position: usize,
    /// Whether the tab is focused.
    pub active: bool,
    /// Whether the floating layer is shown.
    pub are_floating_panes_visible: bool,
}

impl Default for TabInfo {
    fn default() -> (tab: TabInfo)
        ensures
            tab == (TabInfo {
                tab_id: 0,
                position: 0,
                active: false,
                are_floating_panes_visible: false,
            }),
    {
        TabInfo { tab_id: 0, position: 0, active: false, are_floating_panes_visible: false }
    }
}

/// A pane of a tab, as far as naming goes.
#[derive(Debug, Clone, Copy, PartialEq, Eq, Structural)]
pub struct PaneInfo {
    /// Unique among the panes of its kind: terminals or plugins.
    pub id: u32,
    /// A plugin, or else a terminal.
    pub is_plugin: bool,
    /// Focused within its own layer, tiled or floating.
    pub is_focused: bool,
    /// In the floating layer, or else tiled.
    pub is_floating: bool,
    /// Running out of sight.
    pub is_suppressed: bool,
}

impl Default for PaneInfo {
    fn default() -> (pane: PaneInfo)
        ensures
            pane == (PaneInfo {
                id: 0,
                is_plugin: false,
                is_focused: false,
                is_floating: false,
                is_suppressed: false,
            }),
    {
        PaneInfo {
            id: 0,
            is_plugin: false,
            is_focused: false,
            is_floating: false,
            is_suppressed: false,
        }
    }
}

/// Tab positions with the panes of the tab at each.
pub type ManifestView = Seq<(usize, Seq<PaneInfo>)>;

/// A snapshot of all panes: one entry per tab position. The entries may come in any order; they
/// are gone through in the order they are in.
#[derive(Debug)]
pub struct PaneManifest {
    pub panes: Vec<(usize, Vec<PaneInfo>)>,
}

impl View for PaneManifest {
    type V = ManifestView;

    open spec fn view(&self) -> ManifestView {
        self.panes@.map_values(|entry: (usize, Vec<PaneInfo>)| (entry.0, entry.1@))
    }
}

/// Which pane an event is about.
#[derive(Debug, Clone, Copy, PartialEq, Eq, Structural)]
pub enum PaneId {
    Terminal(u32),
    Plugin(u32),
}

/// The user's answer to a permission request.
#[derive(Debug, Clone, Copy, PartialEq, Eq, Structural)]
pub enum PermissionStatus {
    Granted,
    Denied,
}

/// A permission to ask the user for.
#[derive(Debug, Clone, Copy, PartialEq, Eq, Structural)]
pub enum PermissionType {
    ReadApplicationState,
    ChangeApplicationState,
    RunCommands,
}

/// A kind of event to subscribe to.
#[derive(Debug, Clone, Copy, PartialEq, Eq, Structural)]
pub enum EventType {
    TabUpdate,
    PaneUpdate,
    CwdChanged,
    PermissionRequestResult,
    RunCommandResult,
}

/// What an event says.
pub enum EventView {
    TabUpdate(Seq<TabInfo>),
    PaneUpdate(ManifestView),
    CwdChanged(PaneId, CwdView),
    RunCommandResult(Option<i32>, Seq<u8>, Map<Seq<char>, Seq<char>>),
    PermissionRequestResult(PermissionStatus),
    Other,
}

/// An event of the session.
#[derive(Debug)]
pub enum Event {
    /// A snapshot of all tabs.
    TabUpdate(Vec<TabInfo>),
    /// A snapshot of all panes.
    PaneUpdate(PaneManifest),
    /// A pane is now in another working directory.
    CwdChanged(PaneId, Cwd),
    /// A command has ended: its exit code, its standard output and the context it was given.
    RunCommandResult(Option<i32>, Vec<u8>, TextMap<String>),
    /// The user has answered the permission request.
    PermissionRequestResult(PermissionStatus),
    /// Anything else.
    Other,
}

impl View for Event {
    type V = EventView;

    open spec fn view(&self) -> EventView {
        match *self {
            Event::TabUpdate(tabs) => EventView::TabUpdate(tabs@),
            Event::PaneUpdate(manifest) => EventView::PaneUpdate(manifest@),
            Event::CwdChanged(pane_id, cwd) => EventView::CwdChanged(pane_id, cwd@),
            Event::RunCommandResult(exit_code, stdout, context) => EventView::RunCommandResult(
                exit_code,
                stdout@,
                context@,
            ),
            Event::PermissionRequestResult(status) => EventView::PermissionRequestResult(status),
            Event::Other => EventView::Other,
        }
    }
}

/// Where a pipe message comes from.
pub enum PipeSourceView {
    Cli(Seq<char>),
    Plugin(u32),
    Keybind,
}

/// Where a pipe message comes from.
#[derive(Debug)]
pub enum PipeSource {
    /// A command line, blocked until its pipe, named here, is unblocked.
    Cli(String),
    Plugin(u32),
    Keybind,
}

impl View for PipeSource {
    type V = PipeSourceView;

    open spec fn view(&self) -> PipeSourceView {
        match *self {
            PipeSource::Cli(pipe_id) => PipeSourceView::Cli(pipe_id@),
            PipeSource::Plugin(plugin_id) => PipeSourceView::Plugin(plugin_id),
            PipeSource::Keybind => PipeSourceView::Keybind,
        }
    }
}

/// What a pipe message says.
pub struct PipeMessageView {
    pub source: PipeSourceView,
    pub name: Seq<char>,
    pub args: Map<Seq<char>, Seq<char>>,
}

/// A message of the pipe API.
#[derive(Debug)]
pub struct PipeMessage {
    pub source: PipeSource,
    pub name: String,
    pub args: TextMap<String>,
}

impl View for PipeMessage {
    type V = PipeMessageView;

    open spec fn view(&self) -> PipeMessageView {
        PipeMessageView { source: self.source@, name: self.name@, args: self.args@ }
    }
}

/// What an effect does.
#[verifier::ext_equal]
pub enum EffectView {
    RequestPermissions(Seq<PermissionType>),
    Subscribe(Seq<EventType>),
    RenameTab { tab_id: usize, name: Seq<char> },
    RunGit { cwd: CwdView, context: Map<Seq<char>, Seq<char>> },
    QueryPaneCwd { pane_id: u32 },
    UnblockCliPipe(Seq<char>),
}

/// Everything that can be done to the session. Effects are only ever emitted here; carrying them
/// out is up to the caller.
#[derive(Debug, PartialEq, Eq)]
pub enum Effect {
    RequestPermissions(Vec<PermissionType>),
    Subscribe(Vec<EventType>),
    RenameTab { tab_id: usize, name: String },
    /// Run `git rev-parse --show-toplevel` in `cwd` and hand the context back with the result.
    RunGit { cwd: Cwd, context: TextMap<String> },
    /// Ask for a terminal pane's working directory and report the answer as a
    /// [`Event::CwdChanged`].
    QueryPaneCwd { pane_id: u32 },
    UnblockCliPipe(String),
}

impl View for Effect {
    type V = EffectView;

    open spec fn view(&self) -> EffectView {
        match *self {
            Effect::RequestPermissions(permissions) => EffectView::RequestPermissions(permissions@),
            Effect::Subscribe(events) => EffectView::Subscribe(events@),
            Effect::RenameTab { tab_id, name } => EffectView::RenameTab { tab_id, name: name@ },
            Effect::RunGit { cwd, context } => EffectView::RunGit {
                cwd: cwd@,
                context: context@,
            },
            Effect::QueryPaneCwd { pane_id } => EffectView::QueryPaneCwd { pane_id },
            Effect::UnblockCliPipe(pipe_id) => EffectView::UnblockCliPipe(pipe_id@),
        }
    }
}

impl Clone for Effect {
    fn clone(&self) -> (effect: Effect)
        ensures
            effect@ == self@,
    {
        match self {
            Effect::RequestPermissions(permissions) => {
                let list = permissions.clone();
                assert(list@ =~= permissions@);
                Effect::RequestPermissions(list)
            },
            Effect::Subscribe(events) => {
                let list = events.clone();
                assert(list@ =~= events@);
                Effect::Subscribe(list)
            },
            Effect::RenameTab { tab_id, name } => {
                Effect::RenameTab { tab_id: *tab_id, name: name.clone() }
            },
            Effect::RunGit { cwd, context } => {
                Effect::RunGit { cwd: cwd.clone(), context: context.clone() }
            },
            Effect::QueryPaneCwd { pane_id } => Effect::QueryPaneCwd { pane_id: *pane_id },
            Effect::UnblockCliPipe(pipe_id) => Effect::UnblockCliPipe(pipe_id.clone()),
        }
    }
}

/// What each effect of a list does.
pub open spec fn effects_view(effects: Seq<Effect>) -> Seq<EffectView> {
    effects.map_values(|effect: Effect| effect@)
}

/// Panes and the working directories reported for them.
pub open spec fn cwds_view(list: Seq<(u32, Cwd)>) -> Seq<(u32, CwdView)> {
    list.map_values(|entry: (u32, Cwd)| (entry.0, entry.1@))
}

} // verus!
