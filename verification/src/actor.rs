//! Per-key mailbox and execution slot: particles that share a signature and
//! scope are serialized through one actor.

use vstd::prelude::*;

use crate::deadline::{expiry_ms, Deadline};
use crate::effects::{CleanupKey, CleanupKeyModel};
use crate::particle::{clone_bytes, ActorKey, ActorKeyModel, Particle, ParticleModel, PeerId, PeerScope};

verus! {

/// The view of an optional owned string.
pub open spec fn opt_str_view(o: Option<String>) -> Option<Seq<char>> {
    match o {
        Some(s) => Some(s@),
        None => None,
    }
}

/// Clones an optional owned string.
pub fn clone_opt_string(o: &Option<String>) -> (r: Option<String>)
    ensures
        opt_str_view(r) == opt_str_view(*o),
{
    match o {
        Some(s) => Some(s.clone()),
        None => None,
    }
}

/// The execution in flight on an actor: which VM it borrowed and which
/// particle it runs.
pub struct ExecutionSlot {
    pub vm_id: usize,
    pub particle: Particle,
}

/// Mathematical image of an execution slot.
pub struct ExecutionSlotModel {
    pub vm_id: usize,
    pub particle: ParticleModel,
}

impl View for ExecutionSlot {
    type V = ExecutionSlotModel;

    open spec fn view(&self) -> ExecutionSlotModel {
        ExecutionSlotModel { vm_id: self.vm_id, particle: self.particle@ }
    }
}

/// A per-(signature, scope) mailbox and executor state.
pub struct Actor {
    pub key: ActorKey,
    /// The identity this actor executes under: the worker's id, or the host's.
    pub current_peer_id: PeerId,
    /// Capability token derived from the particle signature (base 58).
    pub particle_token: String,
    /// Deal the worker scope belongs to; none under the host scope.
    pub deal_id: Option<String>,
    /// Id of the particle this actor was created for; names its persisted data.
    pub particle_id: String,
    /// FIFO of particles awaiting execution.
    pub mailbox: Vec<Particle>,
    /// The at-most-one execution in flight.
    pub executing: Option<ExecutionSlot>,
    /// Deadline of the most recently ingested particle; the actor is garbage
    /// once it passes and nothing is executing.
    pub deadline: Deadline,
    /// Per-actor service-function override, as an opaque handle.
    pub function: Option<u64>,
    /// Names of the builtin services this actor was created with: a snapshot
    /// of the shared set, so later mutations reach only newer actors.
    pub services: Vec<String>,
}

/// Mathematical image of an actor.
pub struct ActorModel {
    pub key: ActorKeyModel,
    pub current_peer_id: PeerId,
    pub particle_token: Seq<char>,
    pub deal_id: Option<Seq<char>>,
    pub particle_id: Seq<char>,
    pub mailbox: Seq<ParticleModel>,
    pub executing: Option<ExecutionSlotModel>,
    pub deadline: u64,
    pub function: Option<u64>,
    pub services: Seq<Seq<char>>,
}

impl View for Actor {
    type V = ActorModel;

    open spec fn view(&self) -> ActorModel {
        ActorModel {
            key: self.key@,
            current_peer_id: self.current_peer_id,
            particle_token: self.particle_token@,
            deal_id: opt_str_view(self.deal_id),
            particle_id: self.particle_id@,
            mailbox: self.mailbox@.map_values(|p: Particle| p@),
            executing: match self.executing {
                Some(s) => Some(s@),
                None => None,
            },
            deadline: self.deadline.expires_at_ms,
            function: self.function,
            services: self.services@.map_values(|s: String| s@),
        }
    }
}

impl Actor {
    /// A fresh actor for the key of `particle` under `peer_scope`, with an
    /// empty mailbox and nothing executing.
    pub fn new(
        particle: &Particle,
        peer_scope: PeerScope,
        current_peer_id: PeerId,
        particle_token: String,
        deal_id: Option<String>,
        services: Vec<String>,
    ) -> (r: Actor)
        ensures
            r@.key.signature == particle@.signature,
            r@.key.peer_scope == peer_scope,
            r@.current_peer_id == current_peer_id,
            r@.particle_token == particle_token@,
            r@.deal_id == opt_str_view(deal_id),
            r@.particle_id == particle@.id,
            r@.mailbox.len() == 0,
            r@.executing is None,
            r@.deadline == expiry_ms(particle.timestamp, particle.ttl),
            r@.function is None,
            r@.services == services@.map_values(|s: String| s@),
    {
        let r = Actor {
            key: ActorKey::of(particle, peer_scope),
            current_peer_id,
            particle_token,
            deal_id,
            particle_id: particle.id.clone(),
            mailbox: Vec::new(),
            executing: None,
            deadline: Deadline::from(particle),
            function: None,
            services,
        };
        proof {
            assert(r@.mailbox =~= Seq::<ParticleModel>::empty());
        }
        r
    }

    /// Appends a particle to the mailbox and refreshes the actor's deadline
    /// to that particle's.
    pub fn ingest(&mut self, particle: Particle)
        ensures
            final(self)@ == (ActorModel {
                mailbox: old(self)@.mailbox.push(particle@),
                deadline: expiry_ms(particle.timestamp, particle.ttl),
                ..old(self)@
            }),
    {
        self.deadline = Deadline::from(&particle);
        let ghost prev = self.mailbox@.map_values(|p: Particle| p@);
        let ghost pv = particle@;
        self.mailbox.push(particle);
        proof {
            assert(self.mailbox@.map_values(|p: Particle| p@) =~= prev.push(pv));
        }
    }

    /// Installs or replaces the per-actor service-function override.
    pub fn set_function(&mut self, function: u64)
        ensures
            final(self)@ == (ActorModel { function: Some(function), ..old(self)@ }),
    {
        self.function = Some(function);
    }

    /// If nothing is executing and mail is waiting, takes the head particle,
    /// marks the actor as executing on `vm_id`, and hands the particle out;
    /// otherwise leaves the actor as it is and hands nothing out, meaning the
    /// offered VM was not consumed.
    pub fn take_next(&mut self, vm_id: usize) -> (r: Option<Particle>)
        ensures
            match r {
                Some(p) => {
                    &&& old(self)@.executing is None
                    &&& old(self)@.mailbox.len() > 0
                    &&& p@ == old(self)@.mailbox[0]
                    &&& final(self)@ == (ActorModel {
                        mailbox: old(self)@.mailbox.drop_first(),
                        executing: Some(ExecutionSlotModel { vm_id, particle: p@ }),
                        ..old(self)@
                    })
                },
                None => {
                    &&& !(old(self)@.executing is None && old(self)@.mailbox.len() > 0)
                    &&& final(self)@ == old(self)@
                },
            },
    {
        if self.executing.is_none() && self.mailbox.len() > 0 {
            let ghost prev = self.mailbox@.map_values(|p: Particle| p@);
            let particle = self.mailbox.remove(0);
            proof {
                assert(self.mailbox@.map_values(|p: Particle| p@) =~= prev.drop_first());
            }
            let out = particle.clone();
            self.executing = Some(ExecutionSlot { vm_id, particle });
            Some(out)
        } else {
            None
        }
    }

    /// Ends the execution in flight, giving back which VM it had borrowed and
    /// the particle it ran. The caller decides what to do with the VM.
    pub fn finish_execution(&mut self) -> (r: (usize, Particle))
        requires
            old(self)@.executing is Some,
        ensures
            final(self)@ == (ActorModel { executing: None, ..old(self)@ }),
            old(self)@.executing == (Some(ExecutionSlotModel { vm_id: r.0, particle: r.1@ })),
    {
        let slot = self.executing.take();
        match slot {
            Some(s) => (s.vm_id, s.particle),
            None => {
                proof {
                    assert(false);
                }
                (0, Particle::default())
            },
        }
    }

    /// Whether an execution is in flight.
    pub fn is_executing(&self) -> (r: bool)
        ensures
            r == (self@.executing is Some),
    {
        self.executing.is_some()
    }

    /// How many particles wait in the mailbox.
    pub fn mailbox_size(&self) -> (r: usize)
        ensures
            r == self@.mailbox.len(),
    {
        self.mailbox.len()
    }

    /// Whether the actor's deadline — its last particle's — has passed.
    pub fn is_expired(&self, now_ms: u64) -> (r: bool)
        ensures
            r == (now_ms >= self@.deadline),
    {
        self.deadline.is_expired(now_ms)
    }

    /// What the data store needs to clear this actor's persisted state.
    pub fn cleanup_key(&self) -> (r: CleanupKey)
        ensures
            r@ == (CleanupKeyModel {
                particle_id: self@.particle_id,
                peer_id: self@.current_peer_id,
                signature: self@.key.signature,
                deal_id: self@.deal_id,
            }),
    {
        CleanupKey {
            particle_id: self.particle_id.clone(),
            peer_id: self.current_peer_id,
            signature: clone_bytes(&self.key.signature),
            deal_id: clone_opt_string(&self.deal_id),
        }
    }
}

} // verus!
