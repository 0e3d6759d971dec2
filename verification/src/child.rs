//! The plain values a child's run is described by: which rung of a
//! binding's gate a completion belongs to, where an activation is in
//! its sequence, and which activation it is. Spawning, draining and
//! reaping children is the program's.

use vstd::prelude::*;

verus! {

/// Which rung of one binding's gate a child runs for: only these two
/// spawn a process.
#[derive(Copy, Clone, PartialEq, Eq, Debug)]
pub enum ActionRung {
    /// A `when` precondition: its exit status decides whether the rest
    /// of the binding happens; its output is diagnostic only.
    Guard,
    /// The binding's own command.
    Command,
}

/// Where an activation is in its sequence.
#[derive(Copy, Clone, PartialEq, Eq, Debug)]
pub enum Rung {
    Prepare,
    When,
    Confirm,
    /// The questions a binding asks, all inside one terminal handoff.
    Prompt,
    Command,
}

/// One activation, distinguishable from every other in this run: a
/// monotonic counter minted when the keypress is accepted.
#[derive(Copy, Clone, PartialEq, Eq, Debug)]
pub struct ActivationId(pub u64);

} // verus!
