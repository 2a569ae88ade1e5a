//! The population ledger.
//!
//! One process-wide ledger collects the genome of every agent that died in
//! the current round, in death order, and carries the monotonic generation
//! counter. When the round completes, the champion is the most recently
//! recorded death: lineage is decided by outliving the others, not by any
//! explicit score.

use vstd::prelude::*;

use crate::brain::NeuralNetwork;

verus! {

/// The ledger of one round's deaths and the generation counter.
pub struct Generation {
    /// The genomes recorded this round, in death order.
    pub neural_networks: Vec<NeuralNetwork>,
    /// How many rounds have completed; incremented once per round.
    pub generation_number: u32,
}

impl Generation {
    /// An empty ledger at generation zero.
    pub fn new() -> (g: Generation)
        ensures
            g.neural_networks@.len() == 0,
            g.generation_number == 0,
    {
        Generation { neural_networks: Vec::new(), generation_number: 0 }
    }

    /// Appends one dead agent's genome to the ledger; the counter is
    /// untouched. Death handling is the only writer of the ledger within a
    /// round.
    pub fn record_death(&mut self, network: NeuralNetwork)
        ensures
            final(self).neural_networks@ == old(self).neural_networks@.push(network),
            final(self).generation_number == old(self).generation_number,
    {
        self.neural_networks.push(network);
    }

    /// Completes a round: takes the champion (the last recorded death, if
    /// any death was recorded), clears the ledger, and increments the
    /// generation counter. The caller persists the champion and seeds the
    /// next population from it; with no champion the next population is
    /// spawned fresh.
    pub fn conclude_round(&mut self) -> (champion: Option<NeuralNetwork>)
        requires
            old(self).generation_number < u32::MAX,
        ensures
            final(self).neural_networks@.len() == 0,
            final(self).generation_number == old(self).generation_number + 1,
            match champion {
                Some(c) => old(self).neural_networks@.len() >= 1 && c@ == old(
                    self,
                ).neural_networks@.last()@,
                None => old(self).neural_networks@.len() == 0,
            },
    {
        let champion = self.neural_networks.pop();
        self.neural_networks = Vec::new();
        self.generation_number = self.generation_number + 1;
        champion
    }
}

} // verus!
