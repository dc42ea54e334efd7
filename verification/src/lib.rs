//! Names terminal tabs after the git repository, or the folder, their panes are in.

pub mod cwd;
pub mod events;
pub mod frames;
pub mod git;
pub mod laws;
pub mod lists;
pub mod maps;
pub mod model;
pub mod naming;
pub mod panes;
pub mod parts;
pub mod paths;
pub mod pending;
pub mod state;
pub mod tabs;
pub mod text;
pub mod validity;
