//! The particle data model and the identities it travels between.

use vstd::prelude::*;

verus! {

/// Identity of a peer, carried as a plain number.
#[derive(Clone, Copy, PartialEq, Eq, Structural, Hash, Debug)]
pub struct PeerId {
    pub id: u64,
}

impl PeerId {
    pub fn new(id: u64) -> (r: PeerId)
        ensures
            r.id == id,
    {
        PeerId { id }
    }
}

/// Identity of a worker; workers execute particles under their own scope.
#[derive(Clone, Copy, PartialEq, Eq, Structural, Hash, Debug)]
pub struct WorkerId {
    pub id: u64,
}

impl WorkerId {
    pub fn new(id: u64) -> (r: WorkerId)
        ensures
            r.id == id,
    {
        WorkerId { id }
    }
}

/// Selects the execution identity: the host itself, or one of its workers.
#[derive(Clone, Copy, PartialEq, Eq, Structural, Hash, Debug)]
pub enum PeerScope {
    Host,
    WorkerId(WorkerId),
}

/// A signed, time-bounded script together with its routing envelope.
#[derive(Debug)]
pub struct Particle {
    pub id: String,
    pub init_peer_id: PeerId,
    /// Unix time of issue, in milliseconds.
    pub timestamp: u64,
    /// Time to live from `timestamp`, in milliseconds.
    pub ttl: u32,
    pub signature: Vec<u8>,
    pub script: String,
    pub data: Vec<u8>,
}

/// Mathematical image of a particle: every field as a sequence or number.
pub struct ParticleModel {
    pub id: Seq<char>,
    pub init_peer_id: PeerId,
    pub timestamp: u64,
    pub ttl: u32,
    pub signature: Seq<u8>,
    pub script: Seq<char>,
    pub data: Seq<u8>,
}

impl View for Particle {
    type V = ParticleModel;

    open spec fn view(&self) -> ParticleModel {
        ParticleModel {
            id: self.id@,
            init_peer_id: self.init_peer_id,
            timestamp: self.timestamp,
            ttl: self.ttl,
            signature: self.signature@,
            script: self.script@,
            data: self.data@,
        }
    }
}

impl Clone for Particle {
    fn clone(&self) -> (r: Self)
        ensures
            r@ == self@,
    {
        Particle {
            id: self.id.clone(),
            init_peer_id: self.init_peer_id,
            timestamp: self.timestamp,
            ttl: self.ttl,
            signature: clone_bytes(&self.signature),
            script: self.script.clone(),
            data: clone_bytes(&self.data),
        }
    }
}

impl Default for Particle {
    fn default() -> (r: Self)
        ensures
            r@.id.len() == 0,
            r@.init_peer_id.id == 0,
            r@.timestamp == 0,
            r@.ttl == 0,
            r@.signature.len() == 0,
            r@.script.len() == 0,
            r@.data.len() == 0,
    {
        Particle {
            id: String::new(),
            init_peer_id: PeerId { id: 0 },
            timestamp: 0,
            ttl: 0,
            signature: Vec::new(),
            script: String::new(),
            data: Vec::new(),
        }
    }
}

/// Clones a byte vector; the copy holds the same bytes.
pub fn clone_bytes(v: &Vec<u8>) -> (r: Vec<u8>)
    ensures
        r@ == v@,
{
    let mut r: Vec<u8> = Vec::new();
    let mut i: usize = 0;
    while i < v.len()
        invariant
            i <= v@.len(),
            r@ == v@.subrange(0, i as int),
        decreases v@.len() - i,
    {
        r.push(v[i]);
        proof {
            assert(r@ =~= v@.subrange(0, i + 1 as int));
        }
        i = i + 1;
    }
    proof {
        assert(r@ =~= v@);
    }
    r
}

/// Compares two byte vectors for equality of contents.
pub fn bytes_eq(a: &Vec<u8>, b: &Vec<u8>) -> (r: bool)
    ensures
        r == (a@ == b@),
{
    if a.len() != b.len() {
        proof {
            assert(a@ != b@);
        }
        return false;
    }
    let mut i: usize = 0;
    while i < a.len()
        invariant
            i <= a@.len(),
            a@.len() == b@.len(),
            forall|j: int| 0 <= j < i ==> a@[j] == b@[j],
        decreases a@.len() - i,
    {
        if a[i] != b[i] {
            proof {
                assert(a@[i as int] != b@[i as int]);
            }
            return false;
        }
        i = i + 1;
    }
    proof {
        assert(a@ =~= b@);
    }
    true
}

/// Mailboxes are keyed by the particle's signature together with the scope it
/// runs under: two particles with the same signature and scope share an actor.
#[derive(Debug)]
pub struct ActorKey {
    pub signature: Vec<u8>,
    pub peer_scope: PeerScope,
}

/// Mathematical image of an actor key.
pub struct ActorKeyModel {
    pub signature: Seq<u8>,
    pub peer_scope: PeerScope,
}

impl View for ActorKey {
    type V = ActorKeyModel;

    open spec fn view(&self) -> ActorKeyModel {
        ActorKeyModel { signature: self.signature@, peer_scope: self.peer_scope }
    }
}

impl ActorKey {
    /// The key a particle falls under when ingested for a scope.
    pub fn of(particle: &Particle, peer_scope: PeerScope) -> (r: ActorKey)
        ensures
            r@.signature == particle@.signature,
            r@.peer_scope == peer_scope,
    {
        ActorKey { signature: clone_bytes(&particle.signature), peer_scope }
    }

    pub fn eq_key(&self, other: &ActorKey) -> (r: bool)
        ensures
            r == (self@ == other@),
    {
        let r = bytes_eq(&self.signature, &other.signature) && self.peer_scope
            == other.peer_scope;
        proof {
            if r {
                assert(self@ =~= other@);
            }
        }
        r
    }
}

} // verus!
