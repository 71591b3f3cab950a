//! Switchboard: a control panel for local services.
//!
//! The verified core: the app list and its edits, the dependency graph that
//! orders a "start everything" run, the per-app scrollback buffer, and the
//! bookkeeping that tracks which services run, are ready, or have exited;
//! the decisions of a start-everything run, of readiness probes and of a
//! stop; and the reading of process listings.
pub mod text;
pub mod config;
pub mod graph;
pub mod paths;
pub mod ring;
pub mod process;
pub mod launch;
pub mod newapp;
pub mod ids;
pub mod pidtree;
pub mod logs;
pub mod git;
pub mod pidlist;
pub mod stopping;
pub mod probe;
