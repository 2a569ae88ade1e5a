//! Plain component data shared with the host's simulation systems.
//!
//! The obstacle marker, the gravity switch and the collision classes are
//! plain values: the host's physics and collision systems attach them to
//! entities, and the outcome of a collision decides whether an agent's
//! genome is recorded in the ledger (a loss) or not.

use vstd::prelude::*;

verus! {

/// Marks an obstacle entity.
#[derive(Clone, Copy, PartialEq, Eq, Structural, Debug)]
pub struct Pipe;

/// Whether gravity currently pulls on an entity.
#[derive(Clone, Copy, PartialEq, Eq, Structural, Debug)]
pub struct AffectedByGravity {
    pub is_affected: bool,
}

/// What touching a collider means for an agent.
#[derive(Clone, Copy, PartialEq, Eq, Structural, Debug)]
pub enum Collider {
    /// Touching it kills the agent: its genome goes to the ledger.
    Loss,
    /// Passing it scores: the agent survives.
    Win,
}

} // verus!
