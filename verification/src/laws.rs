//! What holds across calls: names and their display, git's answers, panes and tabs, events, paths.

pub mod components;
pub mod counts;
pub mod decorations;
pub mod directories;
pub mod events;
pub mod gate;
pub mod git;
pub mod messages;
pub mod names;
pub mod panes;
pub mod paths;
pub mod replays;
pub mod reports;
pub mod snapshots;
pub mod tabs;
pub mod texts;
