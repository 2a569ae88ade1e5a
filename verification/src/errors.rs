//! Error taxonomy of the evolution core.
//!
//! Construction-time contract violations are degenerate topologies; a
//! persisted genome that does not decode is malformed save data. Storage
//! write failures belong to the host's I/O layer and never reach this crate.

use vstd::prelude::*;

verus! {

/// A degenerate topology request: a zero-sized layer, or a layer-size list
/// too short to describe any level.
#[derive(Clone, Copy, PartialEq, Eq, Structural, Debug)]
pub struct TopologyError;

/// Failure to reconstruct a network from its durable representation.
#[derive(Clone, Copy, PartialEq, Eq, Structural, Debug)]
pub enum SaveError {
    /// The payload is not the encoding of any well-formed network: it is
    /// unparseable, ragged, or its field shapes are inconsistent.
    MalformedSaveData,
}

} // verus!
