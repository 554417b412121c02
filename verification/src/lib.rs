//! Daily GTNH modpack updater for Prism Launcher: the rules behind it.
//!
//! `github` names a build, `pack` re-roots it, `plan` decides what happens to
//! every file, `merge` turns a three-way merge into editable conflicts, and
//! `apply` lists the writes that put the decisions into a brand-new instance.
//! Disk, network and windows live in the program around this library.
pub mod text;
pub mod textmap;
pub mod order;
pub mod merge;
pub mod mods;
pub mod util;
pub mod state;
pub mod ini;
pub mod prism;
pub mod pack;
pub mod plan;
pub mod renaming;
pub mod snapshot;
pub mod apply;
pub mod github;
pub mod httpzip;
pub mod worker;
pub mod cli;
pub mod editor;
pub mod wizard;
pub mod groups;
pub mod run;
