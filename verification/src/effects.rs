//! What an interpretation produces, and what the scheduler routes onward.

use vstd::prelude::*;

use crate::particle::{Particle, ParticleModel, PeerId};

verus! {

/// Output of one interpreter step over a particle.
#[derive(Debug)]
pub struct ParticleEffects {
    /// Data to persist and to carry to the next hops.
    pub new_data: Vec<u8>,
    /// Peers the particle wants to travel to next.
    pub next_peers: Vec<PeerId>,
}

/// Bookkeeping of one interpretation, fed to the metrics sink.
#[derive(Clone, Copy, PartialEq, Eq, Structural, Debug)]
pub struct InterpretationStats {
    pub interpretation_time_ms: u64,
    pub new_data_len: usize,
    pub success: bool,
}

/// A particle together with the peers outside this node it must reach:
/// what the scheduler emits to the network layer.
#[derive(Debug)]
pub struct RemoteRoutingEffects {
    pub particle: Particle,
    pub next_peers: Vec<PeerId>,
}

/// Mathematical image of remote routing effects.
pub struct RemoteRoutingEffectsModel {
    pub particle: ParticleModel,
    pub next_peers: Seq<PeerId>,
}

impl View for RemoteRoutingEffects {
    type V = RemoteRoutingEffectsModel;

    open spec fn view(&self) -> RemoteRoutingEffectsModel {
        RemoteRoutingEffectsModel { particle: self.particle@, next_peers: self.next_peers@ }
    }
}

/// What the data store needs to clear the state an actor left behind.
#[derive(Debug)]
pub struct CleanupKey {
    pub particle_id: String,
    pub peer_id: PeerId,
    pub signature: Vec<u8>,
    pub deal_id: Option<String>,
}

/// Mathematical image of a cleanup key.
pub struct CleanupKeyModel {
    pub particle_id: Seq<char>,
    pub peer_id: PeerId,
    pub signature: Seq<u8>,
    pub deal_id: Option<Seq<char>>,
}

impl View for CleanupKey {
    type V = CleanupKeyModel;

    open spec fn view(&self) -> CleanupKeyModel {
        CleanupKeyModel {
            particle_id: self.particle_id@,
            peer_id: self.peer_id,
            signature: self.signature@,
            deal_id: match self.deal_id {
                Some(d) => Some(d@),
                None => None,
            },
        }
    }
}

} // verus!
