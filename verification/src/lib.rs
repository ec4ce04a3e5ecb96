//! Workspace-state derivation engine for a window-manager event stream.
//!
//! The library models the window manager's layout tree, resolves which
//! workspace owns a given container, reduces a workspace's window set to a
//! single display label, and keeps a registry of subscribers that are told
//! only about genuine changes. All state transitions are pure functions of
//! plain values; the surrounding process performs the IPC and hands the
//! query results in.

pub mod label;
pub mod laws;
pub mod listener;
pub mod registry;
pub mod tree;
