//! The commands that a running optimization accepts.
use vstd::prelude::*;

verus! {

/// A command to a running optimization.
#[derive(Debug, Clone, Copy, PartialEq, Eq, Structural)]
pub enum Command {
    /// Stop once the running evaluations are collected.
    Terminate,
}

} // verus!
