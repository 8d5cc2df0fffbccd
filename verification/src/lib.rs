//! Core of a tiling window manager: the container tree (monitors,
//! workspaces, splits, windows), the tiling layout engine, the pending
//! sync scheduler, the event handlers and the command invoker.

pub mod commands;
pub mod geometry;
pub mod layout;
pub mod ops;
pub mod parse;
pub mod pending;
pub mod ratio;
pub mod rules;
pub mod state;
pub mod subscribe;
pub mod tree;

use vstd::prelude::*;

verus! {

/// Errors surfaced by tree operations, command invocation and event
/// handling.
#[derive(Clone, Copy, Debug, PartialEq, Eq, Structural)]
pub enum WmError {
    /// A subject identifier did not resolve to a container.
    ContainerNotFound,
    /// Mutually-exclusive or required argument groups were violated.
    InvalidCommandArguments,
    /// The operation would break a tree invariant; nothing was changed.
    InvalidOperation,
    /// A platform call failed; the operation was skipped.
    NativeCallFailed,
}

} // verus!
