//! The scheduler: accepts particles, routes them into per-key actor mailboxes,
//! dispatches mailboxes onto pooled VMs, routes effects onward, and
//! garbage-collects expired state.
//!
//! The scheduler is a state machine over plain values. Its environment — the
//! clock, the signature verifier, the worker registry, the key storage and the
//! scope registry — is consumed as a [`NodeEnv`] snapshot and per-call
//! arguments; the asynchronous runtime drives it by feeding completions in and
//! carrying execution starts, cleanup batches and events out.

use vstd::prelude::*;

use crate::actor::{opt_str_view, Actor, ActorModel, ExecutionSlotModel};
use crate::deadline::{expiry_ms, Deadline};
use crate::effects::{CleanupKey, CleanupKeyModel, InterpretationStats, RemoteRoutingEffects, RemoteRoutingEffectsModel};
use crate::error::{ApiErrorModel, AquamarineApiError};
use crate::particle::{ActorKey, ActorKeyModel, Particle, ParticleModel, PeerId, PeerScope, WorkerId};
use crate::token::{base58_of, get_particle_token};
use crate::vm_pool::VmPool;
use crate::vm_pool::VmSlot;

verus! {

/// At most this many cleanup keys are collected per sweep; the unscanned
/// tail of the actor table waits for the next poll.
pub const MAX_CLEANUP_KEYS_SIZE: usize = 1024;

/// A snapshot of the capabilities the node consumes: the clock, the worker
/// registry, the scope registry and the key storage, all as plain values.
pub struct NodeEnv {
    /// The clock, in unix milliseconds.
    pub now_ms: u64,
    /// This node's own peer id.
    pub host_peer_id: PeerId,
    /// Peers allowed to manage the node.
    pub management_peers: Vec<PeerId>,
    /// Workers currently active.
    pub active_workers: Vec<WorkerId>,
    /// Whether the key storage holds the host's key pair.
    pub host_keypair: bool,
    /// Workers whose key pair the key storage holds.
    pub worker_keypairs: Vec<WorkerId>,
    /// Workers with a live runtime handle.
    pub worker_runtimes: Vec<WorkerId>,
    /// The deal each worker belongs to.
    pub worker_deals: Vec<(WorkerId, String)>,
    /// Peers local to this node, each with the scope that executes for it.
    pub local_scopes: Vec<(PeerId, PeerScope)>,
}

/// First deal registered for a worker, if any.
pub open spec fn deal_lookup(s: Seq<(WorkerId, String)>, w: WorkerId) -> Option<Seq<char>>
    decreases s.len(),
{
    if s.len() == 0 {
        None
    } else if s[0].0 == w {
        Some(s[0].1@)
    } else {
        deal_lookup(s.drop_first(), w)
    }
}

/// First scope registered for a peer, if any: the scope registry's answer to
/// "is this peer local, and who executes for it".
pub open spec fn scope_lookup(s: Seq<(PeerId, PeerScope)>, p: PeerId) -> Option<PeerScope>
    decreases s.len(),
{
    if s.len() == 0 {
        None
    } else if s[0].0 == p {
        Some(s[0].1)
    } else {
        scope_lookup(s.drop_first(), p)
    }
}

/// Whether a particle may run under a scope: a deactivated worker takes
/// particles only from the host or a management peer.
pub open spec fn worker_admissible(env: NodeEnv, p: ParticleModel, scope: PeerScope) -> bool {
    match scope {
        PeerScope::Host => true,
        PeerScope::WorkerId(w) => env.active_workers@.contains(w) || env.management_peers@.contains(
            p.init_peer_id,
        ) || p.init_peer_id == env.host_peer_id,
    }
}

/// Whether an actor can be created for a scope: its key pair must be stored,
/// and a worker must also have a deal and a live runtime.
pub open spec fn can_create(env: NodeEnv, scope: PeerScope) -> bool {
    match scope {
        PeerScope::Host => env.host_keypair,
        PeerScope::WorkerId(w) => env.worker_keypairs@.contains(w) && env.worker_runtimes@.contains(
            w,
        ) && deal_lookup(env.worker_deals@, w) is Some,
    }
}

/// The identity an actor executes under: the worker's own id, or the host's.
pub open spec fn scope_peer_id(env: NodeEnv, scope: PeerScope) -> PeerId {
    match scope {
        PeerScope::Host => env.host_peer_id,
        PeerScope::WorkerId(w) => PeerId { id: w.id },
    }
}

/// Whether a particle has passed its deadline at the given instant.
pub open spec fn particle_expired(p: ParticleModel, now_ms: u64) -> bool {
    now_ms >= expiry_ms(p.timestamp, p.ttl)
}

/// First actor index holding a key, or -1.
pub open spec fn find_key(s: Seq<ActorModel>, k: ActorKeyModel) -> int
    decreases s.len(),
{
    if s.len() == 0 {
        -1
    } else if s[0].key == k {
        0
    } else {
        let r = find_key(s.drop_first(), k);
        if r < 0 {
            -1
        } else {
            r + 1
        }
    }
}

/// `find_key` names the first index holding the key, and -1 means none does.
pub proof fn lemma_find_key_spec(s: Seq<ActorModel>, k: ActorKeyModel)
    ensures
        find_key(s, k) == -1 ==> forall|j: int| 0 <= j < s.len() ==> s[j].key != k,
        find_key(s, k) != -1 ==> {
            &&& 0 <= find_key(s, k) < s.len()
            &&& s[find_key(s, k)].key == k
            &&& forall|j: int| 0 <= j < find_key(s, k) ==> s[j].key != k
        },
    decreases s.len(),
{
    if s.len() > 0 && s[0].key != k {
        lemma_find_key_spec(s.drop_first(), k);
        assert forall|j: int| 0 <= j < s.len() && find_key(s, k) == -1 implies s[j].key != k by {
            if j > 0 {
                assert(s.drop_first()[j - 1] == s[j]);
            }
        }
        if find_key(s, k) != -1 {
            assert forall|j: int| 0 <= j < find_key(s, k) implies s[j].key != k by {
                if j > 0 {
                    assert(s.drop_first()[j - 1] == s[j]);
                }
            }
        }
    }
}

/// An existing actor after taking one more particle: the particle joins the
/// mailbox, the deadline follows it, and a per-call function override lands.
pub open spec fn updated_actor(a: ActorModel, p: ParticleModel, function: Option<u64>) -> ActorModel {
    ActorModel {
        mailbox: a.mailbox.push(p),
        deadline: expiry_ms(p.timestamp, p.ttl),
        function: if function is Some {
            function
        } else {
            a.function
        },
        ..a
    }
}

/// A fresh actor right after its first particle: keyed by the particle's
/// signature and the scope, holding the scope's identity and deal, the
/// capability token, and a snapshot of the builtin services.
pub open spec fn created_actor(
    p: ParticleModel,
    scope: PeerScope,
    env: NodeEnv,
    token: Seq<char>,
    services: Seq<Seq<char>>,
    function: Option<u64>,
) -> ActorModel {
    ActorModel {
        key: ActorKeyModel { signature: p.signature, peer_scope: scope },
        current_peer_id: scope_peer_id(env, scope),
        particle_token: token,
        deal_id: match scope {
            PeerScope::Host => None,
            PeerScope::WorkerId(w) => deal_lookup(env.worker_deals@, w),
        },
        particle_id: p.id,
        mailbox: seq![p],
        executing: None,
        deadline: expiry_ms(p.timestamp, p.ttl),
        function,
        services,
    }
}

/// The actor table after an accepted (unexpired, verified, scope-admissible)
/// particle: joined to its actor, or to a freshly created one, or dropped
/// when the scope's actor cannot be created.
pub open spec fn accepted_actors(
    actors: Seq<ActorModel>,
    p: ParticleModel,
    scope: PeerScope,
    env: NodeEnv,
    token: Seq<char>,
    services: Seq<Seq<char>>,
    function: Option<u64>,
) -> Seq<ActorModel> {
    let k = ActorKeyModel { signature: p.signature, peer_scope: scope };
    let i = find_key(actors, k);
    if i >= 0 {
        actors.update(i, updated_actor(actors[i], p, function))
    } else if can_create(env, scope) {
        actors.push(created_actor(p, scope, env, token, services, function))
    } else {
        actors
    }
}

/// Whether an actor's execution in flight borrowed slot `v`.
pub open spec fn is_executing_on(a: ActorModel, v: int) -> bool {
    match a.executing {
        Some(e) => e.vm_id as int == v,
        None => false,
    }
}

/// The VM an actor's execution in flight has borrowed, if any.
pub open spec fn executing_vm(a: ActorModel) -> Option<usize> {
    match a.executing {
        Some(e) => Some(e.vm_id),
        None => None,
    }
}

/// Each particle in an actor — queued or executing — bears the actor's key
/// signature.
pub open spec fn actor_keyed(a: ActorModel) -> bool {
    &&& forall|m: int| 0 <= m < a.mailbox.len() ==> (#[trigger] a.mailbox[m]).signature
        == a.key.signature
    &&& match a.executing {
        Some(e) => e.particle.signature == a.key.signature,
        None => true,
    }
}

/// One entry of the event queue, mathematically.
pub open spec fn event_view(e: Result<RemoteRoutingEffects, AquamarineApiError>) -> Result<
    RemoteRoutingEffectsModel,
    ApiErrorModel,
> {
    match e {
        Ok(eff) => Ok(eff@),
        Err(err) => Err(err@),
    }
}

/// The cooperative scheduler binding ingest, actors, the VM pool, effect
/// routing and cleanup.
pub struct Plumber<RT> {
    /// Events awaiting the caller, oldest first.
    pub events: Vec<Result<RemoteRoutingEffects, AquamarineApiError>>,
    /// The actor table; keys are unique.
    pub actors: Vec<Actor>,
    /// The interpreter pool.
    pub vm_pool: VmPool<RT>,
    /// Names of the shared builtin services; new actors snapshot this set.
    pub services: Vec<String>,
    /// Whether a batch cleanup is still running in the data store.
    pub cleanup_in_flight: bool,
}

impl<RT> Plumber<RT> {
    /// The actor table as a sequence of models.
    pub open spec fn actors_v(&self) -> Seq<ActorModel> {
        self.actors@.map_values(|a: Actor| a@)
    }

    /// The event queue as a sequence of models, oldest first.
    pub open spec fn events_v(&self) -> Seq<Result<RemoteRoutingEffectsModel, ApiErrorModel>> {
        self.events@.map_values(|e: Result<RemoteRoutingEffects, AquamarineApiError>| event_view(e))
    }

    /// The pool's slots.
    pub open spec fn slots_v(&self) -> Seq<VmSlot<RT>> {
        self.vm_pool.slots@
    }

    /// The shared builtin service names.
    pub open spec fn services_v(&self) -> Seq<Seq<char>> {
        self.services@.map_values(|s: String| s@)
    }

    /// No two actors share a key.
    pub open spec fn distinct_keys(&self) -> bool {
        forall|i: int, j: int|
            0 <= i < j < self.actors_v().len() ==> self.actors_v()[i].key != self.actors_v()[j].key
    }

    /// Every execution in flight borrows a valid, lent pool slot.
    pub open spec fn executing_lent(&self) -> bool {
        forall|i: int|
            0 <= i < self.actors_v().len() ==> match #[trigger] executing_vm(
                self.actors_v()[i],
            ) {
                Some(v) => v < self.slots_v().len() && self.slots_v()[v as int] is Lent,
                None => true,
            }
    }

    /// No two executions share a VM.
    pub open spec fn executing_distinct(&self) -> bool {
        forall|i: int, j: int|
            0 <= i < j < self.actors_v().len() && executing_vm(self.actors_v()[i]) is Some
                && executing_vm(self.actors_v()[j]) is Some ==> executing_vm(self.actors_v()[i])
                != executing_vm(self.actors_v()[j])
    }

    /// Every lent slot is borrowed by some execution in flight.
    pub open spec fn lent_covered(&self) -> bool {
        forall|v: int|
            0 <= v < self.slots_v().len() && (#[trigger] self.slots_v()[v]) is Lent
                ==> exists|i: int|
                0 <= i < self.actors_v().len() && is_executing_on(
                    #[trigger] self.actors_v()[i],
                    v,
                )
    }

    /// Each particle in an actor — queued or executing — bears the actor's
    /// key signature.
    pub open spec fn mailboxes_keyed(&self) -> bool {
        forall|i: int|
            0 <= i < self.actors_v().len() ==> actor_keyed(#[trigger] self.actors_v()[i])
    }

    /// The scheduler's invariant: together with the pool's slot states it
    /// yields `pool_free + active_executions + recreating = pool_size`.
    pub open spec fn wf(&self) -> bool {
        &&& self.distinct_keys()
        &&& self.executing_lent()
        &&& self.executing_distinct()
        &&& self.lent_covered()
        &&& self.mailboxes_keyed()
    }

    /// A scheduler with no actors, no events, nothing being cleaned up, and a
    /// pool of `pool_size` VMs still under construction.
    pub fn new(pool_size: usize) -> (r: Self)
        ensures
            r.wf(),
            r.actors_v().len() == 0,
            r.events_v().len() == 0,
            r.services_v().len() == 0,
            !r.cleanup_in_flight,
            r.slots_v().len() == pool_size,
            forall|i: int| 0 <= i < pool_size ==> r.slots_v()[i] is Creating,
    {
        let r = Plumber {
            events: Vec::new(),
            actors: Vec::new(),
            vm_pool: VmPool::new(pool_size),
            services: Vec::new(),
            cleanup_in_flight: false,
        };
        proof {
            assert(r.actors_v() =~= Seq::<ActorModel>::empty());
            assert(r.events_v() =~= Seq::<
                Result<RemoteRoutingEffectsModel, ApiErrorModel>,
            >::empty());
            assert(r.services_v() =~= Seq::<Seq<char>>::empty());
        }
        r
    }

    /// Registers a builtin service under a name; an already known name stays
    /// as it is. Visible to actors created from now on.
    pub fn add_service(&mut self, service: String)
        ensures
            final(self).services_v() == if old(self).services_v().contains(service@) {
                old(self).services_v()
            } else {
                old(self).services_v().push(service@)
            },
            final(self).events == old(self).events,
            final(self).actors == old(self).actors,
            final(self).vm_pool == old(self).vm_pool,
            final(self).cleanup_in_flight == old(self).cleanup_in_flight,
    {
        let mut i: usize = 0;
        while i < self.services.len()
            invariant
                i <= self.services@.len(),
                *self == *old(self),
                forall|j: int| 0 <= j < i ==> self.services_v()[j] != service@,
            decreases self.services@.len() - i,
        {
            if self.services[i].eq(&service) {
                proof {
                    assert(self.services_v()[i as int] == service@);
                }
                return ;
            }
            i = i + 1;
        }
        proof {
            assert(!old(self).services_v().contains(service@));
        }
        let ghost pre = self.services_v();
        self.services.push(service);
        proof {
            assert(self.services_v() =~= pre.push(self.services@.last()@));
        }
    }

    /// Unregisters every builtin service of a name. Visible to actors created
    /// from now on.
    pub fn remove_service(&mut self, service: &String)
        ensures
            final(self).services_v() == old(self).services_v().filter(
                |s: Seq<char>| s != service@,
            ),
            final(self).events == old(self).events,
            final(self).actors == old(self).actors,
            final(self).vm_pool == old(self).vm_pool,
            final(self).cleanup_in_flight == old(self).cleanup_in_flight,
    {
        let mut kept: Vec<String> = Vec::new();
        let mut i: usize = 0;
        proof {
            assert(self.services_v().take(0).filter(|s: Seq<char>| s != service@) =~= Seq::<
                Seq<char>,
            >::empty());
            assert(kept@.map_values(|s: String| s@) =~= Seq::<Seq<char>>::empty());
        }
        while i < self.services.len()
            invariant
                i <= self.services@.len(),
                self.events == old(self).events,
                self.actors == old(self).actors,
                self.vm_pool == old(self).vm_pool,
                self.cleanup_in_flight == old(self).cleanup_in_flight,
                self.services == old(self).services,
                kept@.map_values(|s: String| s@) == self.services_v().take(i as int).filter(
                    |s: Seq<char>| s != service@,
                ),
            decreases self.services@.len() - i,
        {
            let ghost pre = kept@.map_values(|s: String| s@);
            reveal(Seq::filter);
            if !self.services[i].eq(service) {
                kept.push(self.services[i].clone());
                proof {
                    assert(kept@.map_values(|s: String| s@) =~= pre.push(
                        self.services_v()[i as int],
                    ));
                }
            }
            proof {
                assert(self.services_v().take(i + 1).drop_last() =~= self.services_v().take(
                    i as int,
                ));
                assert(self.services_v().take(i + 1).last() == self.services_v()[i as int]);
            }
            i = i + 1;
        }
        proof {
            assert(self.services_v().take(self.services_v().len() as int) =~= self.services_v());
        }
        self.services = kept;
    }

    /// First actor holding a key, if any.
    fn find_actor(&self, key: &ActorKey) -> (r: Option<usize>)
        ensures
            r matches Some(i) ==> find_key(self.actors_v(), key@) == i,
            r is None ==> find_key(self.actors_v(), key@) == -1,
    {
        let mut i: usize = 0;
        while i < self.actors.len()
            invariant
                i <= self.actors@.len(),
                forall|j: int| 0 <= j < i ==> self.actors_v()[j].key != key@,
            decreases self.actors@.len() - i,
        {
            if self.actors[i].key.eq_key(key) {
                proof {
                    assert(self.actors_v()[i as int].key == key@);
                    lemma_find_key_spec(self.actors_v(), key@);
                    assert(find_key(self.actors_v(), key@) == i);
                }
                return Some(i);
            }
            i = i + 1;
        }
        proof {
            lemma_find_key_spec(self.actors_v(), key@);
        }
        None
    }
}

/// `deal_lookup` names the first matching entry, and none means no match.
pub proof fn lemma_deal_lookup_spec(s: Seq<(WorkerId, String)>, w: WorkerId)
    ensures
        (forall|j: int| 0 <= j < s.len() ==> (#[trigger] s[j]).0 != w) ==> deal_lookup(s, w)
            is None,
        forall|i: int|
            0 <= i < s.len() && (#[trigger] s[i]).0 == w && (forall|j: int|
                0 <= j < i ==> (#[trigger] s[j]).0 != w) ==> deal_lookup(s, w) == Some(s[i].1@),
    decreases s.len(),
{
    if s.len() > 0 {
        lemma_deal_lookup_spec(s.drop_first(), w);
        if s[0].0 != w {
            assert forall|j: int| 0 <= j < s.drop_first().len() implies s.drop_first()[j]
                == s[j + 1] by {}
            assert forall|i: int|
                0 <= i < s.len() && s[i].0 == w && (forall|j: int|
                    0 <= j < i ==> (#[trigger] s[j]).0 != w) implies deal_lookup(s, w) == Some(
                s[i].1@,
            ) by {
                assert(i > 0);
                assert(s.drop_first()[i - 1].0 == w);
                assert forall|j: int| 0 <= j < i - 1 implies (#[trigger] s.drop_first()[j]).0
                    != w by {
                    assert(s.drop_first()[j] == s[j + 1]);
                }
            }
        }
    }
}

/// Whether a worker is in a list of workers.
fn contains_worker(v: &Vec<WorkerId>, w: WorkerId) -> (r: bool)
    ensures
        r == v@.contains(w),
{
    let mut i: usize = 0;
    while i < v.len()
        invariant
            i <= v@.len(),
            forall|j: int| 0 <= j < i ==> v@[j] != w,
        decreases v@.len() - i,
    {
        if v[i] == w {
            return true;
        }
        i = i + 1;
    }
    proof {
        assert(!v@.contains(w));
    }
    false
}

/// Whether a peer is in a list of peers.
fn contains_peer(v: &Vec<PeerId>, p: PeerId) -> (r: bool)
    ensures
        r == v@.contains(p),
{
    let mut i: usize = 0;
    while i < v.len()
        invariant
            i <= v@.len(),
            forall|j: int| 0 <= j < i ==> v@[j] != p,
        decreases v@.len() - i,
    {
        if v[i] == p {
            return true;
        }
        i = i + 1;
    }
    proof {
        assert(!v@.contains(p));
    }
    false
}

/// The first deal registered for a worker, if any.
fn find_deal(v: &Vec<(WorkerId, String)>, w: WorkerId) -> (r: Option<String>)
    ensures
        opt_str_view(r) == deal_lookup(v@, w),
{
    let mut i: usize = 0;
    while i < v.len()
        invariant
            i <= v@.len(),
            forall|j: int| 0 <= j < i ==> (#[trigger] v@[j]).0 != w,
        decreases v@.len() - i,
    {
        if v[i].0 == w {
            let d = v[i].1.clone();
            proof {
                lemma_deal_lookup_spec(v@, w);
            }
            return Some(d);
        }
        i = i + 1;
    }
    proof {
        lemma_deal_lookup_spec(v@, w);
    }
    None
}

/// Clones a list of service names.
fn clone_services(v: &Vec<String>) -> (r: Vec<String>)
    ensures
        r@.map_values(|s: String| s@) == v@.map_values(|s: String| s@),
{
    let mut r: Vec<String> = Vec::new();
    let mut i: usize = 0;
    while i < v.len()
        invariant
            i <= v@.len(),
            r@.map_values(|s: String| s@) == v@.map_values(|s: String| s@).take(i as int),
        decreases v@.len() - i,
    {
        let ghost pre = r@.map_values(|s: String| s@);
        r.push(v[i].clone());
        proof {
            assert(r@.map_values(|s: String| s@) =~= pre.push(v@[i as int]@));
            assert(v@.map_values(|s: String| s@).take(i + 1).drop_last() =~= v@.map_values(
                |s: String| s@,
            ).take(i as int));
            assert(r@.map_values(|s: String| s@) =~= v@.map_values(|s: String| s@).take(i + 1));
        }
        i = i + 1;
    }
    proof {
        assert(v@.map_values(|s: String| s@).take(v@.len() as int) =~= v@.map_values(
            |s: String| s@,
        ));
    }
    r
}

/// Whether an actor can be created for a scope right now.
fn can_create_now(env: &NodeEnv, scope: PeerScope) -> (r: bool)
    ensures
        r == can_create(*env, scope),
{
    match scope {
        PeerScope::Host => env.host_keypair,
        PeerScope::WorkerId(w) => contains_worker(&env.worker_keypairs, w) && contains_worker(
            &env.worker_runtimes,
            w,
        ) && find_deal(&env.worker_deals, w).is_some(),
    }
}

impl<RT> Plumber<RT> {
    /// Admission of a particle whose signature has already been verified:
    /// the deadline check, the worker-activation check, and the routing into
    /// an existing or fresh actor. `token` is the particle token belonging to
    /// the particle's signature.
    fn accept(
        &mut self,
        particle: Particle,
        function: Option<u64>,
        peer_scope: PeerScope,
        token: String,
        env: &NodeEnv,
    )
        requires
            old(self).wf(),
        ensures
            final(self).wf(),
            final(self).vm_pool == old(self).vm_pool,
            final(self).services == old(self).services,
            final(self).cleanup_in_flight == old(self).cleanup_in_flight,
            ({
                let p = particle@;
                if particle_expired(p, env.now_ms) {
                    &&& final(self).events_v() == old(self).events_v().push(
                        Err(ApiErrorModel::ParticleExpired { particle_id: p.id }),
                    )
                    &&& final(self).actors_v() == old(self).actors_v()
                } else if !worker_admissible(*env, p, peer_scope) {
                    &&& final(self).events_v() == old(self).events_v()
                    &&& final(self).actors_v() == old(self).actors_v()
                } else {
                    &&& final(self).events_v() == old(self).events_v()
                    &&& final(self).actors_v() == accepted_actors(
                        old(self).actors_v(),
                        p,
                        peer_scope,
                        *env,
                        token@,
                        old(self).services_v(),
                        function,
                    )
                }
            }),
    {
        let deadline = Deadline::from(&particle);
        if deadline.is_expired(env.now_ms) {
            let ghost pre = self.events_v();
            let ghost idv = particle@.id;
            self.events.push(
                Err(AquamarineApiError::ParticleExpired { particle_id: particle.id }),
            );
            proof {
                assert(self.events_v() =~= pre.push(
                    Err(ApiErrorModel::ParticleExpired { particle_id: idv }),
                ));
            }
            return ;
        }
        if let PeerScope::WorkerId(w) = peer_scope {
            let active = contains_worker(&env.active_workers, w);
            let is_mgr = contains_peer(&env.management_peers, particle.init_peer_id);
            let is_host = particle.init_peer_id == env.host_peer_id;
            if !active && !is_mgr && !is_host {
                return ;
            }
        }
        let key = ActorKey::of(&particle, peer_scope);
        proof {
            lemma_find_key_spec(self.actors_v(), key@);
        }
        match self.find_actor(&key) {
            Some(i) => {
                let ghost pre = self.actors_v();
                let mut a = self.actors.remove(i);
                a.ingest(particle);
                if let Some(f) = function {
                    a.set_function(f);
                }
                let ghost av = a@;
                let ghost aval = a;
                self.actors.insert(i, a);
                proof {
                    assert(self.actors@ =~= old(self).actors@.update(i as int, aval));
                    assert(self.actors_v() =~= pre.update(i as int, av));
                    assert(av == updated_actor(pre[i as int], particle@, function));
                    assert(self.actors_v() == accepted_actors(
                        pre,
                        particle@,
                        peer_scope,
                        *env,
                        token@,
                        old(self).services_v(),
                        function,
                    ));
                    lemma_accept_wf_update(old(self), self, i as int, particle@, function);
                }
            },
            None => {
                if !can_create_now(env, peer_scope) {
                    return ;
                }
                let (current_peer_id, deal_id): (PeerId, Option<String>) = match peer_scope {
                    PeerScope::Host => (env.host_peer_id, None),
                    PeerScope::WorkerId(w) => (
                        PeerId { id: w.id },
                        find_deal(&env.worker_deals, w),
                    ),
                };
                let services = clone_services(&self.services);
                let ghost pre = self.actors_v();
                let mut a = Actor::new(&particle, peer_scope, current_peer_id, token, deal_id,
                    services);
                a.ingest(particle);
                if let Some(f) = function {
                    a.set_function(f);
                }
                let ghost av = a@;
                self.actors.push(a);
                proof {
                    assert(self.actors_v() =~= pre.push(av));
                    assert(av.mailbox =~= seq![particle@]);
                    assert(av == created_actor(
                        particle@,
                        peer_scope,
                        *env,
                        av.particle_token,
                        old(self).services_v(),
                        function,
                    ));
                    assert(self.actors_v() == accepted_actors(
                        pre,
                        particle@,
                        peer_scope,
                        *env,
                        token@,
                        old(self).services_v(),
                        function,
                    ));
                    lemma_accept_wf_push(old(self), self, av);
                }
            },
        }
    }
}

/// An in-place mailbox update of one actor preserves the scheduler invariant.
proof fn lemma_accept_wf_update<RT>(
    pre: &Plumber<RT>,
    post: &Plumber<RT>,
    i: int,
    p: ParticleModel,
    function: Option<u64>,
)
    requires
        pre.wf(),
        0 <= i < pre.actors_v().len(),
        pre.actors_v()[i].key.signature == p.signature,
        post.actors_v() == pre.actors_v().update(i, updated_actor(pre.actors_v()[i], p, function)),
        post.vm_pool == pre.vm_pool,
    ensures
        post.wf(),
{
    let a0 = pre.actors_v()[i];
    let a1 = updated_actor(a0, p, function);
    assert(a1.key == a0.key);
    assert(executing_vm(a1) == executing_vm(a0));
    assert(actor_keyed(a1)) by {
        assert(forall|m: int|
            0 <= m < a0.mailbox.len() ==> a1.mailbox[m] == (#[trigger] a0.mailbox[m]));
        assert(a1.mailbox[a0.mailbox.len() as int] == p);
    }
    assert forall|v: int|
        0 <= v < post.slots_v().len() && post.slots_v()[v] is Lent implies exists|x: int|
            0 <= x < post.actors_v().len() && is_executing_on(#[trigger] post.actors_v()[x], v) by {
        let w = choose|x: int|
            0 <= x < pre.actors_v().len() && is_executing_on(#[trigger] pre.actors_v()[x], v);
        assert(is_executing_on(post.actors_v()[w], v));
    }
}

/// Appending a fresh, non-executing actor with an unseen key preserves the
/// scheduler invariant.
proof fn lemma_accept_wf_push<RT>(pre: &Plumber<RT>, post: &Plumber<RT>, a: ActorModel)
    requires
        pre.wf(),
        post.actors_v() == pre.actors_v().push(a),
        post.vm_pool == pre.vm_pool,
        a.executing is None,
        actor_keyed(a),
        forall|j: int| 0 <= j < pre.actors_v().len() ==> (#[trigger] pre.actors_v()[j]).key
            != a.key,
    ensures
        post.wf(),
{
    assert forall|v: int|
        0 <= v < post.slots_v().len() && post.slots_v()[v] is Lent implies exists|x: int|
            0 <= x < post.actors_v().len() && executing_vm(#[trigger] post.actors_v()[x]) == Some(
        v as usize,
    ) by {
        let w = choose|x: int|
            0 <= x < pre.actors_v().len() && executing_vm(#[trigger] pre.actors_v()[x]) == Some(
                v as usize,
            );
        assert(executing_vm(post.actors_v()[w]) == Some(v as usize));
    }
}

/// The keys of the actor table, in table order.
pub open spec fn keys_seq(s: Seq<ActorModel>) -> Seq<ActorKeyModel> {
    s.map_values(|a: ActorModel| a.key)
}

/// Accepting a particle leaves the key sequence alone or appends exactly the
/// particle's own key.
pub proof fn lemma_keys_accepted(
    actors: Seq<ActorModel>,
    p: ParticleModel,
    scope: PeerScope,
    env: NodeEnv,
    token: Seq<char>,
    services: Seq<Seq<char>>,
    function: Option<u64>,
)
    ensures
        keys_seq(accepted_actors(actors, p, scope, env, token, services, function)) == keys_seq(
            actors,
        ) || keys_seq(accepted_actors(actors, p, scope, env, token, services, function))
            == keys_seq(actors).push(ActorKeyModel { signature: p.signature, peer_scope: scope }),
{
    let k = ActorKeyModel { signature: p.signature, peer_scope: scope };
    let post = accepted_actors(actors, p, scope, env, token, services, function);
    let i = find_key(actors, k);
    if i >= 0 {
        lemma_find_key_spec(actors, k);
        assert(keys_seq(post) =~= keys_seq(actors));
    } else if can_create(env, scope) {
        assert(keys_seq(post) =~= keys_seq(actors).push(k));
    } else {
        assert(keys_seq(post) =~= keys_seq(actors));
    }
}

impl<RT> Plumber<RT> {
    /// Receives an incoming particle: admission, then routing into a new or
    /// existing actor mailbox.
    ///
    /// `verdict` is the delegated signature verifier's answer for this
    /// particle; `token_signature` is the root key's signature over the
    /// particle's signature, from which the particle token is derived.
    ///
    /// An expired particle yields exactly one `ParticleExpired` event and
    /// touches no actor; a particle whose signature fails yields exactly one
    /// `SignatureVerificationFailed` event and touches no actor; a particle
    /// for a deactivated worker from an unprivileged sender is dropped
    /// silently. Anything else joins its actor's mailbox, creating the actor
    /// if its scope allows it.
    pub fn ingest(
        &mut self,
        particle: Particle,
        function: Option<u64>,
        peer_scope: PeerScope,
        verdict: Result<(), String>,
        token_signature: &Vec<u8>,
        env: &NodeEnv,
    )
        requires
            old(self).wf(),
        ensures
            final(self).wf(),
            final(self).vm_pool == old(self).vm_pool,
            final(self).services == old(self).services,
            final(self).cleanup_in_flight == old(self).cleanup_in_flight,
            ({
                let p = particle@;
                if particle_expired(p, env.now_ms) {
                    &&& final(self).events_v() == old(self).events_v().push(
                        Err(ApiErrorModel::ParticleExpired { particle_id: p.id }),
                    )
                    &&& final(self).actors_v() == old(self).actors_v()
                } else {
                    match verdict {
                        Err(e) => {
                            &&& final(self).events_v() == old(self).events_v().push(
                                Err(
                                    ApiErrorModel::SignatureVerificationFailed {
                                        particle_id: p.id,
                                        err: e@,
                                    },
                                ),
                            )
                            &&& final(self).actors_v() == old(self).actors_v()
                        },
                        Ok(_) => {
                            if !worker_admissible(*env, p, peer_scope) {
                                &&& final(self).events_v() == old(self).events_v()
                                &&& final(self).actors_v() == old(self).actors_v()
                            } else {
                                &&& final(self).events_v() == old(self).events_v()
                                &&& final(self).actors_v() == accepted_actors(
                                    old(self).actors_v(),
                                    p,
                                    peer_scope,
                                    *env,
                                    base58_of(token_signature@),
                                    old(self).services_v(),
                                    function,
                                )
                            }
                        },
                    }
                }
            }),
            keys_seq(final(self).actors_v()) == keys_seq(old(self).actors_v()) || keys_seq(
                final(self).actors_v(),
            ) == keys_seq(old(self).actors_v()).push(
                (ActorKeyModel { signature: particle@.signature, peer_scope }),
            ),
    {
        let deadline = Deadline::from(&particle);
        if deadline.is_expired(env.now_ms) {
            let ghost pre = self.events_v();
            let ghost idv = particle@.id;
            self.events.push(
                Err(AquamarineApiError::ParticleExpired { particle_id: particle.id }),
            );
            proof {
                assert(self.events_v() =~= pre.push(
                    Err(ApiErrorModel::ParticleExpired { particle_id: idv }),
                ));
            }
            return ;
        }
        match verdict {
            Err(err) => {
                let ghost pre = self.events_v();
                let ghost idv = particle@.id;
                let ghost ev = err@;
                self.events.push(
                    Err(
                        AquamarineApiError::SignatureVerificationFailed {
                            particle_id: particle.id,
                            err,
                        },
                    ),
                );
                proof {
                    assert(self.events_v() =~= pre.push(
                        Err(
                            ApiErrorModel::SignatureVerificationFailed {
                                particle_id: idv,
                                err: ev,
                            },
                        ),
                    ));
                }
            },
            Ok(_) => {
                let token = get_particle_token(token_signature);
                let ghost pre = self.actors_v();
                self.accept(particle, function, peer_scope, token, env);
                proof {
                    if worker_admissible(*env, particle@, peer_scope) {
                        lemma_keys_accepted(
                            pre,
                            particle@,
                            peer_scope,
                            *env,
                            base58_of(token_signature@),
                            old(self).services_v(),
                            function,
                        );
                    }
                }
            },
        }
    }
}

/// What one finished execution reports back: which VM it borrowed, the
/// interpreter's outputs, and the VM itself — or nothing, when the execution
/// panicked or was cancelled and the VM was lost.
pub struct Completion<RT> {
    pub vm_id: usize,
    pub stats: InterpretationStats,
    pub new_data: Vec<u8>,
    pub next_peers: Vec<PeerId>,
    pub vm: Option<RT>,
}

/// A particle together with the local scopes it must be re-ingested under.
pub struct LocalRoutingEffects {
    pub particle: Particle,
    pub next_peers: Vec<PeerScope>,
}

/// Mathematical image of local routing effects.
pub struct LocalRoutingEffectsModel {
    pub particle: ParticleModel,
    pub next_peers: Seq<PeerScope>,
}

impl View for LocalRoutingEffects {
    type V = LocalRoutingEffectsModel;

    open spec fn view(&self) -> LocalRoutingEffectsModel {
        LocalRoutingEffectsModel {
            particle: self.particle@,
            next_peers: self.next_peers@,
        }
    }
}

/// The peers of a hop list that no local scope serves: they are reached over
/// the network.
pub open spec fn remote_of(peers: Seq<PeerId>, scopes: Seq<(PeerId, PeerScope)>) -> Seq<PeerId>
    decreases peers.len(),
{
    if peers.len() == 0 {
        Seq::empty()
    } else {
        let rest = remote_of(peers.drop_last(), scopes);
        if scope_lookup(scopes, peers.last()) is None {
            rest.push(peers.last())
        } else {
            rest
        }
    }
}

/// The scopes serving the peers of a hop list that are local to this node.
pub open spec fn local_of(peers: Seq<PeerId>, scopes: Seq<(PeerId, PeerScope)>) -> Seq<PeerScope>
    decreases peers.len(),
{
    if peers.len() == 0 {
        Seq::empty()
    } else {
        let rest = local_of(peers.drop_last(), scopes);
        match scope_lookup(scopes, peers.last()) {
            Some(sc) => rest.push(sc),
            None => rest,
        }
    }
}

/// `scope_lookup` names the first matching entry, and none means no match.
pub proof fn lemma_scope_lookup_spec(s: Seq<(PeerId, PeerScope)>, p: PeerId)
    ensures
        (forall|j: int| 0 <= j < s.len() ==> (#[trigger] s[j]).0 != p) ==> scope_lookup(s, p)
            is None,
        forall|i: int|
            0 <= i < s.len() && (#[trigger] s[i]).0 == p && (forall|j: int|
                0 <= j < i ==> (#[trigger] s[j]).0 != p) ==> scope_lookup(s, p) == Some(s[i].1),
    decreases s.len(),
{
    if s.len() > 0 {
        lemma_scope_lookup_spec(s.drop_first(), p);
        if s[0].0 != p {
            assert forall|i: int|
                0 <= i < s.len() && s[i].0 == p && (forall|j: int|
                    0 <= j < i ==> (#[trigger] s[j]).0 != p) implies scope_lookup(s, p) == Some(
                s[i].1,
            ) by {
                assert(i > 0);
                assert(s.drop_first()[i - 1].0 == p);
                assert forall|j: int| 0 <= j < i - 1 implies (#[trigger] s.drop_first()[j]).0
                    != p by {
                    assert(s.drop_first()[j] == s[j + 1]);
                }
            }
        }
    }
}

/// The first scope registered for a peer, if any.
fn lookup_scope(scopes: &Vec<(PeerId, PeerScope)>, p: PeerId) -> (r: Option<PeerScope>)
    ensures
        r == scope_lookup(scopes@, p),
{
    let mut i: usize = 0;
    while i < scopes.len()
        invariant
            i <= scopes@.len(),
            forall|j: int| 0 <= j < i ==> (#[trigger] scopes@[j]).0 != p,
        decreases scopes@.len() - i,
    {
        if scopes[i].0 == p {
            proof {
                lemma_scope_lookup_spec(scopes@, p);
            }
            return Some(scopes[i].1);
        }
        i = i + 1;
    }
    proof {
        lemma_scope_lookup_spec(scopes@, p);
    }
    None
}

/// Splits a hop list into the peers reached over the network and the scopes
/// that serve the local ones.
fn partition_peers(peers: &Vec<PeerId>, scopes: &Vec<(PeerId, PeerScope)>) -> (r: (
    Vec<PeerId>,
    Vec<PeerScope>,
))
    ensures
        r.0@ == remote_of(peers@, scopes@),
        r.1@ == local_of(peers@, scopes@),
{
    let mut remote: Vec<PeerId> = Vec::new();
    let mut local: Vec<PeerScope> = Vec::new();
    let mut i: usize = 0;
    proof {
        assert(remote@ =~= remote_of(peers@.take(0), scopes@));
        assert(local@ =~= local_of(peers@.take(0), scopes@));
    }
    while i < peers.len()
        invariant
            i <= peers@.len(),
            remote@ == remote_of(peers@.take(i as int), scopes@),
            local@ == local_of(peers@.take(i as int), scopes@),
        decreases peers@.len() - i,
    {
        proof {
            assert(peers@.take(i + 1).drop_last() =~= peers@.take(i as int));
            assert(peers@.take(i + 1).last() == peers@[i as int]);
        }
        match lookup_scope(scopes, peers[i]) {
            Some(sc) => {
                local.push(sc);
            },
            None => {
                remote.push(peers[i]);
            },
        }
        i = i + 1;
    }
    proof {
        assert(peers@.take(peers@.len() as int) =~= peers@);
    }
    (remote, local)
}

/// The particle an actor's execution in flight runs.
pub open spec fn executing_particle(a: ActorModel) -> ParticleModel {
    match a.executing {
        Some(e) => e.particle,
        None => arbitrary(),
    }
}

/// First actor index whose execution in flight borrowed `vm_id`, or -1.
pub open spec fn find_exec(s: Seq<ActorModel>, vm_id: usize) -> int
    decreases s.len(),
{
    if s.len() == 0 {
        -1
    } else if is_executing_on(s[0], vm_id as int) {
        0
    } else {
        let r = find_exec(s.drop_first(), vm_id);
        if r < 0 {
            -1
        } else {
            r + 1
        }
    }
}

/// `find_exec` names the first executing index, and -1 means none is.
pub proof fn lemma_find_exec_spec(s: Seq<ActorModel>, vm_id: usize)
    ensures
        find_exec(s, vm_id) == -1 ==> forall|j: int|
            0 <= j < s.len() ==> !is_executing_on(#[trigger] s[j], vm_id as int),
        find_exec(s, vm_id) != -1 ==> {
            &&& 0 <= find_exec(s, vm_id) < s.len()
            &&& is_executing_on(s[find_exec(s, vm_id)], vm_id as int)
            &&& forall|j: int|
                0 <= j < find_exec(s, vm_id) ==> !is_executing_on(#[trigger] s[j], vm_id as int)
        },
    decreases s.len(),
{
    if s.len() > 0 && !is_executing_on(s[0], vm_id as int) {
        lemma_find_exec_spec(s.drop_first(), vm_id);
        assert forall|j: int|
            0 <= j < s.len() && find_exec(s, vm_id) == -1 implies !is_executing_on(
            #[trigger] s[j],
            vm_id as int,
        ) by {
            if j > 0 {
                assert(s.drop_first()[j - 1] == s[j]);
            }
        }
        if find_exec(s, vm_id) != -1 {
            assert forall|j: int| 0 <= j < find_exec(s, vm_id) implies !is_executing_on(
                #[trigger] s[j],
                vm_id as int,
            ) by {
                if j > 0 {
                    assert(s.drop_first()[j - 1] == s[j]);
                }
            }
        }
    }
}

/// A routed particle bound for local scopes, with the token its actors need.
pub struct FanoutModel {
    pub particle: ParticleModel,
    pub next_scopes: Seq<PeerScope>,
    pub token: Seq<char>,
}

/// The view of what `complete_execution` hands back for fanout.
pub open spec fn fanout_view(r: Option<(LocalRoutingEffects, String)>) -> Option<FanoutModel> {
    match r {
        Some(f) => Some(
            FanoutModel { particle: f.0@.particle, next_scopes: f.0@.next_peers, token: f.1@ },
        ),
        None => None,
    }
}

/// One finished execution applied to the scheduler state: the actor freed,
/// the slot returned or set to rebuild, a remote event appended when remote
/// hops exist, and the local hops handed out for fanout.
pub open spec fn complete_spec<RT>(
    actors: Seq<ActorModel>,
    slots: Seq<VmSlot<RT>>,
    events: Seq<Result<RemoteRoutingEffectsModel, ApiErrorModel>>,
    c: Completion<RT>,
    env: NodeEnv,
) -> (
    Seq<ActorModel>,
    Seq<VmSlot<RT>>,
    Seq<Result<RemoteRoutingEffectsModel, ApiErrorModel>>,
    Option<FanoutModel>,
) {
    let i = find_exec(actors, c.vm_id);
    let a = actors[i];
    let part = executing_particle(a);
    let remote = remote_of(c.next_peers@, env.local_scopes@);
    let locs = local_of(c.next_peers@, env.local_scopes@);
    (
        actors.update(i, (ActorModel { executing: None, ..a })),
        slots.update(
            c.vm_id as int,
            match c.vm {
                Some(vm) => VmSlot::Idle(vm),
                None => VmSlot::<RT>::Creating,
            },
        ),
        if remote.len() > 0 {
            events.push(Ok(RemoteRoutingEffectsModel { particle: part, next_peers: remote }))
        } else {
            events
        },
        if locs.len() > 0 {
            Some(FanoutModel { particle: part, next_scopes: locs, token: a.particle_token })
        } else {
            None
        },
    )
}

/// A batch of finished executions applied in order, collecting the fanouts.
pub open spec fn complete_all<RT>(
    actors: Seq<ActorModel>,
    slots: Seq<VmSlot<RT>>,
    events: Seq<Result<RemoteRoutingEffectsModel, ApiErrorModel>>,
    comps: Seq<Completion<RT>>,
    env: NodeEnv,
) -> (
    Seq<ActorModel>,
    Seq<VmSlot<RT>>,
    Seq<Result<RemoteRoutingEffectsModel, ApiErrorModel>>,
    Seq<FanoutModel>,
)
    decreases comps.len(),
{
    if comps.len() == 0 {
        (actors, slots, events, Seq::<FanoutModel>::empty())
    } else {
        let s1 = complete_spec(actors, slots, events, comps[0], env);
        let rest = complete_all(s1.0, s1.1, s1.2, comps.drop_first(), env);
        (
            rest.0,
            rest.1,
            rest.2,
            match s1.3 {
                Some(f) => seq![f] + rest.3,
                None => rest.3,
            },
        )
    }
}

impl<RT> Plumber<RT> {
    /// First actor whose execution in flight borrowed `vm_id`, if any.
    fn find_executing(&self, vm_id: usize) -> (r: Option<usize>)
        ensures
            r matches Some(i) ==> i < self.actors_v().len() && executing_vm(
                self.actors_v()[i as int],
            ) == Some(vm_id) && find_exec(self.actors_v(), vm_id) == i,
            r is None ==> forall|i: int|
                0 <= i < self.actors_v().len() ==> executing_vm(#[trigger] self.actors_v()[i])
                    != Some(vm_id),
    {
        let mut i: usize = 0;
        while i < self.actors.len()
            invariant
                i <= self.actors@.len(),
                forall|j: int|
                    0 <= j < i ==> executing_vm(#[trigger] self.actors_v()[j]) != Some(vm_id),
            decreases self.actors@.len() - i,
    {
            let hit = match &self.actors[i].executing {
                Some(slot) => slot.vm_id == vm_id,
                None => false,
            };
            if hit {
                proof {
                    assert(is_executing_on(self.actors_v()[i as int], vm_id as int));
                    lemma_find_exec_spec(self.actors_v(), vm_id);
                    assert forall|j: int| 0 <= j < i implies !is_executing_on(
                        #[trigger] self.actors_v()[j],
                        vm_id as int,
                    ) by {
                        assert(executing_vm(self.actors_v()[j]) != Some(vm_id));
                    }
                    assert(find_exec(self.actors_v(), vm_id) == i);
                }
                return Some(i);
            }
            i = i + 1;
        }
        None
    }

    /// Takes in one finished execution: records the actor as free, partitions
    /// the particle's next hops, emits a remote-routing event for the remote
    /// ones, returns the VM to the pool — or marks its slot for
    /// reconstruction when the VM was lost — and hands the local hops back
    /// for fanout, together with the actor's particle token.
    pub fn complete_execution(&mut self, completion: Completion<RT>, env: &NodeEnv) -> (r: Option<
        (LocalRoutingEffects, String),
    >)
        requires
            old(self).wf(),
            exists|i: int|
                0 <= i < old(self).actors_v().len() && executing_vm(
                    #[trigger] old(self).actors_v()[i],
                ) == Some(completion.vm_id),
        ensures
            final(self).wf(),
            final(self).services == old(self).services,
            final(self).cleanup_in_flight == old(self).cleanup_in_flight,
            ({
                let post = complete_spec(
                    old(self).actors_v(),
                    old(self).slots_v(),
                    old(self).events_v(),
                    completion,
                    *env,
                );
                &&& final(self).actors_v() == post.0
                &&& final(self).slots_v() == post.1
                &&& final(self).events_v() == post.2
                &&& fanout_view(r) == post.3
            }),
    {
        let idx = match self.find_executing(completion.vm_id) {
            Some(i) => i,
            None => {
                proof {
                    let w = choose|w: int|
                        0 <= w < old(self).actors_v().len() && executing_vm(
                            #[trigger] old(self).actors_v()[w],
                        ) == Some(completion.vm_id);
                    assert(false);
                }
                return None;
            },
        };
        let ghost i = idx as int;
        proof {
            assert(find_exec(old(self).actors_v(), completion.vm_id) == i);
        }
        let ghost a0 = self.actors_v()[i];
        let mut a = self.actors.remove(idx);
        let (got_vm_id, part) = a.finish_execution();
        let token = a.particle_token.clone();
        let ghost av = a@;
        let ghost aval = a;
        self.actors.insert(idx, a);
        proof {
            assert(self.actors@ =~= old(self).actors@.update(i, aval));
            assert(self.actors_v() =~= old(self).actors_v().update(
                i,
                (ActorModel { executing: None, ..a0 }),
            ));
        }
        let (remote, local) = partition_peers(&completion.next_peers, &env.local_scopes);
        if remote.len() > 0 {
            let ghost pre = self.events_v();
            let ghost rem = remote@;
            let ghost pm = part@;
            self.events.push(
                Ok(RemoteRoutingEffects { particle: part.clone(), next_peers: remote }),
            );
            proof {
                assert(self.events_v() =~= pre.push(
                    Ok(RemoteRoutingEffectsModel { particle: pm, next_peers: rem }),
                ));
            }
        }
        match completion.vm {
            Some(vm) => {
                self.vm_pool.put_vm(completion.vm_id, vm);
            },
            None => {
                self.vm_pool.recreate_avm(completion.vm_id);
            },
        }
        proof {
            lemma_complete_wf(old(self), self, i, completion.vm_id);
        }
        if local.len() > 0 {
            Some((LocalRoutingEffects { particle: part, next_peers: local }, token))
        } else {
            None
        }
    }
}

/// Ending an execution and freeing or recycling its slot preserves the
/// scheduler invariant.
proof fn lemma_complete_wf<RT>(pre: &Plumber<RT>, post: &Plumber<RT>, i: int, vm_id: usize)
    requires
        pre.wf(),
        0 <= i < pre.actors_v().len(),
        executing_vm(pre.actors_v()[i]) == Some(vm_id),
        post.actors_v() == pre.actors_v().update(
            i,
            (ActorModel { executing: None, ..pre.actors_v()[i] }),
        ),
        post.slots_v().len() == pre.slots_v().len(),
        forall|v: int|
            0 <= v < pre.slots_v().len() && v != vm_id ==> post.slots_v()[v] == pre.slots_v()[v],
        !(post.slots_v()[vm_id as int] is Lent),
    ensures
        post.wf(),
{
    assert forall|v: int|
        0 <= v < post.slots_v().len() && post.slots_v()[v] is Lent implies exists|x: int|
            0 <= x < post.actors_v().len() && is_executing_on(#[trigger] post.actors_v()[x], v) by {
        if v == vm_id as int {
            assert(!(post.slots_v()[v] is Lent));
        } else {
            assert(post.slots_v()[v] == pre.slots_v()[v]);
            assert(pre.slots_v()[v] is Lent);
            let w = choose|x: int|
                0 <= x < pre.actors_v().len() && is_executing_on(#[trigger] pre.actors_v()[x], v);
            assert(w != i);
            assert(post.actors_v()[w] == pre.actors_v()[w]);
            assert(is_executing_on(post.actors_v()[w], v));
        }
    }
}

/// Whether an actor is garbage at an instant: past its deadline with nothing
/// executing.
pub open spec fn removable(a: ActorModel, now_ms: u64) -> bool {
    now_ms >= a.deadline && a.executing is None
}

/// The cleanup key an evicted actor leaves for the data store.
pub open spec fn cleanup_key_of(a: ActorModel) -> CleanupKeyModel {
    CleanupKeyModel {
        particle_id: a.particle_id,
        peer_id: a.current_peer_id,
        signature: a.key.signature,
        deal_id: a.deal_id,
    }
}

/// One cleanup sweep over the actor table: the actors kept, in order, and
/// the cleanup keys of the evicted ones — at most `cap`; once the cap is
/// reached the rest of the table is kept for the next sweep.
pub open spec fn cleanup_scan(s: Seq<ActorModel>, now_ms: u64, cap: nat) -> (
    Seq<ActorModel>,
    Seq<CleanupKeyModel>,
)
    decreases s.len(),
{
    if s.len() == 0 {
        (Seq::empty(), Seq::empty())
    } else {
        let head = s[0];
        if cap > 0 && removable(head, now_ms) {
            let r = cleanup_scan(s.drop_first(), now_ms, (cap - 1) as nat);
            (r.0, seq![cleanup_key_of(head)] + r.1)
        } else {
            let r = cleanup_scan(s.drop_first(), now_ms, cap);
            (seq![head] + r.0, r.1)
        }
    }
}

/// Entry `x` of `kept` is some entry of `s`.
pub open spec fn from_table(kept: Seq<ActorModel>, s: Seq<ActorModel>, x: int) -> bool {
    exists|i: int| 0 <= i < s.len() && kept[x] == #[trigger] s[i]
}

/// Entries `x < y` of `kept` are entries of `s` in the same order.
pub open spec fn pair_from_table(kept: Seq<ActorModel>, s: Seq<ActorModel>, x: int, y: int) -> bool {
    exists|i: int, j: int| 0 <= i < j < s.len() && kept[x] == #[trigger] s[i] && kept[y]
        == #[trigger] s[j]
}

/// Entry `i` of `s` survives into `kept`.
pub open spec fn in_kept(kept: Seq<ActorModel>, s: Seq<ActorModel>, i: int) -> bool {
    exists|x: int| 0 <= x < kept.len() && #[trigger] kept[x] == s[i]
}

/// `kept` is an order-preserving selection of `s` that keeps every executing
/// actor.
pub open spec fn kept_from(kept: Seq<ActorModel>, s: Seq<ActorModel>) -> bool {
    &&& forall|x: int| 0 <= x < kept.len() ==> #[trigger] from_table(kept, s, x)
    &&& forall|x: int, y: int| 0 <= x < y < kept.len() ==> #[trigger] pair_from_table(
        kept,
        s,
        x,
        y,
    )
    &&& forall|i: int|
        0 <= i < s.len() && (#[trigger] s[i]).executing is Some ==> in_kept(kept, s, i)
}

/// Every kept actor comes from the table, kept actors keep their relative
/// order, and no executing actor is ever evicted.
pub proof fn lemma_cleanup_scan_wf(s: Seq<ActorModel>, now_ms: u64, cap: nat)
    ensures
        kept_from(cleanup_scan(s, now_ms, cap).0, s),
    decreases s.len(),
{
    let kept = cleanup_scan(s, now_ms, cap).0;
    if s.len() == 0 {
        assert(kept.len() == 0);
    } else {
        let head = s[0];
        let tail = s.drop_first();
        if cap > 0 && removable(head, now_ms) {
            lemma_cleanup_scan_wf(tail, now_ms, (cap - 1) as nat);
            let kt = cleanup_scan(tail, now_ms, (cap - 1) as nat).0;
            assert(kept == kt);
            assert forall|x: int| 0 <= x < kept.len() implies #[trigger] from_table(
                kept,
                s,
                x,
            ) by {
                assert(from_table(kt, tail, x));
                let i = choose|i: int| 0 <= i < tail.len() && kt[x] == #[trigger] tail[i];
                assert(kept[x] == s[i + 1]);
            }
            assert forall|x: int, y: int| 0 <= x < y < kept.len() implies #[trigger] pair_from_table(
                kept,
                s,
                x,
                y,
            ) by {
                assert(pair_from_table(kt, tail, x, y));
                let (i, j) = choose|i: int, j: int|
                    0 <= i < j < tail.len() && kt[x] == #[trigger] tail[i] && kt[y]
                        == #[trigger] tail[j];
                assert(kept[x] == s[i + 1] && kept[y] == s[j + 1]);
            }
            assert forall|i: int|
                0 <= i < s.len() && (#[trigger] s[i]).executing is Some implies in_kept(
                kept,
                s,
                i,
            ) by {
                assert(i > 0);
                assert(tail[i - 1] == s[i]);
                assert(in_kept(kt, tail, i - 1));
                let x = choose|x: int| 0 <= x < kt.len() && #[trigger] kt[x] == tail[i - 1];
                assert(kept[x] == s[i]);
            }
        } else {
            lemma_cleanup_scan_wf(tail, now_ms, cap);
            let kt = cleanup_scan(tail, now_ms, cap).0;
            assert(kept == seq![head] + kt);
            assert(kept[0] == head);
            assert forall|x: int| 0 <= x < kept.len() implies #[trigger] from_table(
                kept,
                s,
                x,
            ) by {
                if x == 0 {
                    assert(kept[0] == s[0]);
                } else {
                    assert(kept[x] == kt[x - 1]);
                    assert(from_table(kt, tail, x - 1));
                    let i = choose|i: int| 0 <= i < tail.len() && kt[x - 1] == #[trigger] tail[i];
                    assert(kept[x] == s[i + 1]);
                }
            }
            assert forall|x: int, y: int| 0 <= x < y < kept.len() implies #[trigger] pair_from_table(
                kept,
                s,
                x,
                y,
            ) by {
                if x == 0 {
                    assert(kept[y] == kt[y - 1]);
                    assert(from_table(kt, tail, y - 1));
                    let j = choose|j: int| 0 <= j < tail.len() && kt[y - 1] == #[trigger] tail[j];
                    assert(kept[0] == s[0] && kept[y] == s[j + 1]);
                } else {
                    assert(kept[x] == kt[x - 1] && kept[y] == kt[y - 1]);
                    assert(pair_from_table(kt, tail, x - 1, y - 1));
                    let (i, j) = choose|i: int, j: int|
                        0 <= i < j < tail.len() && kt[x - 1] == #[trigger] tail[i] && kt[y - 1]
                            == #[trigger] tail[j];
                    assert(kept[x] == s[i + 1] && kept[y] == s[j + 1]);
                }
            }
            assert forall|i: int|
                0 <= i < s.len() && (#[trigger] s[i]).executing is Some implies in_kept(
                kept,
                s,
                i,
            ) by {
                if i == 0 {
                    assert(kept[0] == s[0]);
                } else {
                    assert(tail[i - 1] == s[i]);
                    assert(in_kept(kt, tail, i - 1));
                    let x = choose|x: int| 0 <= x < kt.len() && #[trigger] kt[x] == tail[i - 1];
                    assert(kept[x + 1] == s[i]);
                }
            }
        }
    }
}

/// Executes one cleanup sweep on a table taken out of the scheduler.
fn scan_actors(actors: Vec<Actor>, now_ms: u64, cap: usize) -> (r: (Vec<Actor>, Vec<CleanupKey>))
    ensures
        r.0@.map_values(|a: Actor| a@) == cleanup_scan(
            actors@.map_values(|a: Actor| a@),
            now_ms,
            cap as nat,
        ).0,
        r.1@.map_values(|k: CleanupKey| k@) == cleanup_scan(
            actors@.map_values(|a: Actor| a@),
            now_ms,
            cap as nat,
        ).1,
    decreases actors@.len(),
{
    let ghost sv = actors@.map_values(|a: Actor| a@);
    let mut actors = actors;
    if actors.len() == 0 {
        let r = (actors, Vec::<CleanupKey>::new());
        proof {
            assert(r.0@.map_values(|a: Actor| a@) =~= cleanup_scan(sv, now_ms, cap as nat).0);
            assert(r.1@.map_values(|k: CleanupKey| k@) =~= cleanup_scan(sv, now_ms, cap as nat).1);
        }
        r
    } else {
        let head = actors.remove(0);
        proof {
            assert(actors@.map_values(|a: Actor| a@) =~= sv.drop_first());
        }
        if cap > 0 && head.is_expired(now_ms) && !head.is_executing() {
            let key = head.cleanup_key();
            let ghost kv = key@;
            let (kept, mut keys) = scan_actors(actors, now_ms, cap - 1);
            let ghost pre_keys = keys@.map_values(|k: CleanupKey| k@);
            keys.insert(0, key);
            proof {
                assert(keys@.map_values(|k: CleanupKey| k@) =~= seq![kv] + pre_keys);
            }
            (kept, keys)
        } else {
            let ghost hv = head@;
            let (mut kept, keys) = scan_actors(actors, now_ms, cap);
            let ghost pre_kept = kept@.map_values(|a: Actor| a@);
            kept.insert(0, head);
            proof {
                assert(kept@.map_values(|a: Actor| a@) =~= seq![hv] + pre_kept);
            }
            (kept, keys)
        }
    }
}

impl<RT> Plumber<RT> {
    /// Evicts actors that are past their deadline and not executing,
    /// collecting their cleanup keys for one batch towards the data store —
    /// at most `MAX_CLEANUP_KEYS_SIZE` per sweep, keeping the unscanned rest
    /// for the next poll. While a batch is still running nothing is scanned;
    /// a non-empty batch marks one as running until
    /// [`Plumber::cleanup_finished`] is called.
    pub fn cleanup_expired(&mut self, now_ms: u64) -> (r: Option<Vec<CleanupKey>>)
        requires
            old(self).wf(),
        ensures
            final(self).wf(),
            final(self).events == old(self).events,
            final(self).vm_pool == old(self).vm_pool,
            final(self).services == old(self).services,
            old(self).cleanup_in_flight ==> r is None && final(self).actors == old(self).actors
                && final(self).cleanup_in_flight,
            !old(self).cleanup_in_flight ==> ({
                let scan = cleanup_scan(
                    old(self).actors_v(),
                    now_ms,
                    MAX_CLEANUP_KEYS_SIZE as nat,
                );
                &&& final(self).actors_v() == scan.0
                &&& match r {
                    Some(keys) => keys@.map_values(|k: CleanupKey| k@) == scan.1 && scan.1.len()
                        > 0 && final(self).cleanup_in_flight,
                    None => scan.1.len() == 0 && !final(self).cleanup_in_flight,
                }
            }),
    {
        if self.cleanup_in_flight {
            return None;
        }
        let mut actors: Vec<Actor> = Vec::new();
        core::mem::swap(&mut actors, &mut self.actors);
        let (kept, keys) = scan_actors(actors, now_ms, MAX_CLEANUP_KEYS_SIZE);
        self.actors = kept;
        proof {
            lemma_cleanup_scan_wf(
                old(self).actors_v(),
                now_ms,
                MAX_CLEANUP_KEYS_SIZE as nat,
            );
            lemma_cleanup_wf(old(self), self);
        }
        if keys.len() > 0 {
            self.cleanup_in_flight = true;
            Some(keys)
        } else {
            None
        }
    }

    /// Reports the running batch cleanup as finished in the data store.
    pub fn cleanup_finished(&mut self)
        ensures
            final(self).actors == old(self).actors,
            final(self).events == old(self).events,
            final(self).vm_pool == old(self).vm_pool,
            final(self).services == old(self).services,
            !final(self).cleanup_in_flight,
    {
        self.cleanup_in_flight = false;
    }
}

/// A cleanup sweep preserves the scheduler invariant: kept actors come from
/// the old table in order, and every executing actor is kept.
proof fn lemma_cleanup_wf<RT>(pre: &Plumber<RT>, post: &Plumber<RT>)
    requires
        pre.wf(),
        post.vm_pool == pre.vm_pool,
        kept_from(post.actors_v(), pre.actors_v()),
    ensures
        post.wf(),
{
    let kept = post.actors_v();
    let s = pre.actors_v();
    assert forall|x: int, y: int| 0 <= x < y < kept.len() implies kept[x].key != kept[y].key by {
        assert(pair_from_table(kept, s, x, y));
        let (i, j) = choose|i: int, j: int|
            0 <= i < j < s.len() && kept[x] == #[trigger] s[i] && kept[y] == #[trigger] s[j];
        assert(s[i].key != s[j].key);
    }
    assert forall|x: int|
        0 <= x < kept.len() implies (match executing_vm(#[trigger] kept[x]) {
        Some(v) => v < post.slots_v().len() && post.slots_v()[v as int] is Lent,
        None => true,
    }) by {
        assert(from_table(kept, s, x));
        let i = choose|i: int| 0 <= i < s.len() && kept[x] == #[trigger] s[i];
        assert(executing_vm(s[i]) == executing_vm(kept[x]));
    }
    assert forall|x: int, y: int|
        0 <= x < y < kept.len() && executing_vm(kept[x]) is Some && executing_vm(kept[y])
            is Some implies executing_vm(kept[x]) != executing_vm(kept[y]) by {
        assert(pair_from_table(kept, s, x, y));
        let (i, j) = choose|i: int, j: int|
            0 <= i < j < s.len() && kept[x] == #[trigger] s[i] && kept[y] == #[trigger] s[j];
        assert(executing_vm(s[i]) != executing_vm(s[j]));
    }
    assert forall|v: int|
        0 <= v < post.slots_v().len() && post.slots_v()[v] is Lent implies exists|x: int|
            0 <= x < kept.len() && is_executing_on(#[trigger] kept[x], v) by {
        let i = choose|i: int| 0 <= i < s.len() && is_executing_on(#[trigger] s[i], v);
        assert(s[i].executing is Some);
        assert(in_kept(kept, s, i));
        let x = choose|x: int| 0 <= x < kept.len() && #[trigger] kept[x] == s[i];
        assert(is_executing_on(kept[x], v));
    }
    assert forall|x: int| 0 <= x < kept.len() implies actor_keyed(#[trigger] kept[x]) by {
        assert(from_table(kept, s, x));
        let i = choose|i: int| 0 <= i < s.len() && kept[x] == #[trigger] s[i];
        assert(actor_keyed(s[i]));
    }
}

/// Everything the runtime needs to run one particle on a borrowed VM.
pub struct ExecutionStart<RT> {
    pub vm_id: usize,
    pub vm: RT,
    pub particle: Particle,
    pub peer_scope: PeerScope,
    pub current_peer_id: PeerId,
    pub particle_token: String,
    pub function: Option<u64>,
}

/// An actor right after one particle of its mailbox went into execution.
pub open spec fn dispatched(a0: ActorModel, a1: ActorModel) -> bool {
    &&& a0.executing is None
    &&& a0.mailbox.len() > 0
    &&& a1.mailbox == a0.mailbox.drop_first()
    &&& match a1.executing {
        Some(e) => e.particle == a0.mailbox[0],
        None => false,
    }
    &&& a1.key == a0.key
    &&& a1.current_peer_id == a0.current_peer_id
    &&& a1.particle_token == a0.particle_token
    &&& a1.deal_id == a0.deal_id
    &&& a1.particle_id == a0.particle_id
    &&& a1.deadline == a0.deadline
    &&& a1.function == a0.function
    &&& a1.services == a0.services
}

/// What one dispatch pass may do to an actor: nothing, or start the head of
/// its mailbox executing.
pub open spec fn dispatch_rel(a0: ActorModel, a1: ActorModel) -> bool {
    a1 == a0 || dispatched(a0, a1)
}

/// Starting the head of a mailbox on a previously idle slot preserves the
/// scheduler invariant.
proof fn lemma_dispatch_step_wf<RT>(
    pre: &Plumber<RT>,
    post: &Plumber<RT>,
    i: int,
    a1: ActorModel,
    vm_id: usize,
)
    requires
        pre.wf(),
        0 <= i < pre.actors_v().len(),
        dispatched(pre.actors_v()[i], a1),
        executing_vm(a1) == Some(vm_id),
        post.actors_v() == pre.actors_v().update(i, a1),
        vm_id < pre.slots_v().len(),
        pre.slots_v()[vm_id as int] is Idle,
        post.slots_v() == pre.slots_v().update(vm_id as int, VmSlot::<RT>::Lent),
    ensures
        post.wf(),
{
    let a0 = pre.actors_v()[i];
    assert(actor_keyed(a1)) by {
        assert(actor_keyed(a0));
        assert(forall|m: int|
            0 <= m < a1.mailbox.len() ==> a1.mailbox[m] == (#[trigger] a0.mailbox[m + 1]));
    }
    assert forall|x: int|
        0 <= x < post.actors_v().len() implies (match executing_vm(
        #[trigger] post.actors_v()[x],
    ) {
        Some(v) => v < post.slots_v().len() && post.slots_v()[v as int] is Lent,
        None => true,
    }) by {
        if x != i {
            assert(post.actors_v()[x] == pre.actors_v()[x]);
            match executing_vm(pre.actors_v()[x]) {
                Some(v) => {
                    assert(pre.slots_v()[v as int] is Lent);
                    assert(v != vm_id);
                },
                None => {},
            }
        }
    }
    assert forall|x: int, y: int|
        0 <= x < y < post.actors_v().len() && executing_vm(post.actors_v()[x]) is Some
            && executing_vm(post.actors_v()[y]) is Some implies executing_vm(post.actors_v()[x])
        != executing_vm(post.actors_v()[y]) by {
        if x != i && y != i {
            assert(post.actors_v()[x] == pre.actors_v()[x]);
            assert(post.actors_v()[y] == pre.actors_v()[y]);
        } else {
            let other = if x == i {
                y
            } else {
                x
            };
            assert(post.actors_v()[other] == pre.actors_v()[other]);
            match executing_vm(pre.actors_v()[other]) {
                Some(v) => {
                    assert(pre.slots_v()[v as int] is Lent);
                    assert(v != vm_id);
                },
                None => {},
            }
        }
    }
    assert forall|v: int|
        0 <= v < post.slots_v().len() && post.slots_v()[v] is Lent implies exists|x: int|
            0 <= x < post.actors_v().len() && is_executing_on(#[trigger] post.actors_v()[x], v) by {
        if v == vm_id as int {
            assert(is_executing_on(post.actors_v()[i], v));
        } else {
            assert(pre.slots_v()[v] is Lent);
            let w = choose|x: int|
                0 <= x < pre.actors_v().len() && is_executing_on(#[trigger] pre.actors_v()[x], v);
            assert(w != i);
            assert(is_executing_on(post.actors_v()[w], v));
        }
    }
}

/// First idle slot id of the pool, or -1.
pub open spec fn first_idle<RT>(s: Seq<VmSlot<RT>>) -> int
    decreases s.len(),
{
    if s.len() == 0 {
        -1
    } else if s[0] is Idle {
        0
    } else {
        let r = first_idle(s.drop_first());
        if r < 0 {
            -1
        } else {
            r + 1
        }
    }
}

/// `first_idle` names the first idle slot, and -1 means none is idle.
pub proof fn lemma_first_idle_spec<RT>(s: Seq<VmSlot<RT>>)
    ensures
        first_idle(s) == -1 ==> forall|j: int| 0 <= j < s.len() ==> !((#[trigger] s[j]) is Idle),
        first_idle(s) != -1 ==> {
            &&& 0 <= first_idle(s) < s.len()
            &&& s[first_idle(s)] is Idle
            &&& forall|j: int| 0 <= j < first_idle(s) ==> !((#[trigger] s[j]) is Idle)
        },
    decreases s.len(),
{
    if s.len() > 0 && !(s[0] is Idle) {
        lemma_first_idle_spec(s.drop_first());
        assert forall|j: int|
            0 <= j < s.len() && first_idle(s) == -1 implies !((#[trigger] s[j]) is Idle) by {
            if j > 0 {
                assert(s.drop_first()[j - 1] == s[j]);
            }
        }
        if first_idle(s) != -1 {
            assert forall|j: int| 0 <= j < first_idle(s) implies !((#[trigger] s[j]) is Idle) by {
                if j > 0 {
                    assert(s.drop_first()[j - 1] == s[j]);
                }
            }
        }
    }
}

/// The VM an idle slot holds.
pub open spec fn slot_value<RT>(s: VmSlot<RT>) -> RT {
    match s {
        VmSlot::Idle(vm) => vm,
        _ => arbitrary(),
    }
}

/// Mathematical image of an execution start; the VM travels with it.
pub struct StartModel<RT> {
    pub vm_id: usize,
    pub vm: RT,
    pub particle: ParticleModel,
    pub peer_scope: PeerScope,
    pub current_peer_id: PeerId,
    pub particle_token: Seq<char>,
    pub function: Option<u64>,
}

/// The view of an execution start.
pub open spec fn start_view<RT>(st: ExecutionStart<RT>) -> StartModel<RT> {
    StartModel {
        vm_id: st.vm_id,
        vm: st.vm,
        particle: st.particle@,
        peer_scope: st.peer_scope,
        current_peer_id: st.current_peer_id,
        particle_token: st.particle_token@,
        function: st.function,
    }
}

/// One dispatch pass from actor `i` on: each actor in turn is offered the
/// first idle VM; an idle actor with mail consumes it and starts its head
/// particle; the pass stops when the pool runs dry.
pub open spec fn dispatch_spec<RT>(
    actors: Seq<ActorModel>,
    slots: Seq<VmSlot<RT>>,
    i: int,
) -> (Seq<ActorModel>, Seq<VmSlot<RT>>, Seq<StartModel<RT>>)
    decreases actors.len() - i,
{
    if !(0 <= i < actors.len()) {
        (actors, slots, Seq::<StartModel<RT>>::empty())
    } else {
        let v = first_idle(slots);
        if v < 0 {
            (actors, slots, Seq::<StartModel<RT>>::empty())
        } else {
            let a = actors[i];
            if a.executing is None && a.mailbox.len() > 0 {
                let st = StartModel {
                    vm_id: v as usize,
                    vm: slot_value(slots[v]),
                    particle: a.mailbox[0],
                    peer_scope: a.key.peer_scope,
                    current_peer_id: a.current_peer_id,
                    particle_token: a.particle_token,
                    function: a.function,
                };
                let a2 = ActorModel {
                    mailbox: a.mailbox.drop_first(),
                    executing: Some(
                        ExecutionSlotModel { vm_id: v as usize, particle: a.mailbox[0] },
                    ),
                    ..a
                };
                let rest = dispatch_spec(
                    actors.update(i, a2),
                    slots.update(v, VmSlot::<RT>::Lent),
                    i + 1,
                );
                (rest.0, rest.1, seq![st] + rest.2)
            } else {
                dispatch_spec(actors, slots, i + 1)
            }
        }
    }
}

impl<RT> Plumber<RT> {
    /// Walks the actor table handing idle VMs to actors with waiting mail;
    /// an actor that does not consume the offered VM gives it straight back.
    /// Stops as soon as the pool runs dry. Returns everything the runtime
    /// needs to run the started executions.
    pub fn dispatch(&mut self) -> (r: Vec<ExecutionStart<RT>>)
        requires
            old(self).wf(),
        ensures
            final(self).wf(),
            final(self).events == old(self).events,
            final(self).services == old(self).services,
            final(self).cleanup_in_flight == old(self).cleanup_in_flight,
            final(self).actors_v().len() == old(self).actors_v().len(),
            forall|j: int|
                0 <= j < old(self).actors_v().len() ==> dispatch_rel(
                    #[trigger] old(self).actors_v()[j],
                    final(self).actors_v()[j],
                ),
            forall|v: int|
                0 <= v < old(self).slots_v().len() ==> final(self).slots_v()[v] == old(self).slots_v()[v] || ((#[trigger] old(self).slots_v()[v]) is Idle && final(self).slots_v()[v] is Lent),
            final(self).slots_v().len() == old(self).slots_v().len(),
            forall|k: int|
                0 <= k < r@.len() ==> exists|x: int|
                    0 <= x < final(self).actors_v().len() && is_executing_on(
                        #[trigger] final(self).actors_v()[x],
                        (#[trigger] r@[k]).vm_id as int,
                    ) && executing_particle(final(self).actors_v()[x]) == r@[k].particle@ && final(self).actors_v()[x].key.peer_scope == r@[k].peer_scope && final(self).actors_v()[x].current_peer_id == r@[k].current_peer_id && final(self).actors_v()[x].particle_token == r@[k].particle_token@ && final(self).actors_v()[x].function == r@[k].function,
            crate::vm_pool::count_idle(final(self).slots_v()) > 0 ==> forall|j: int|
                0 <= j < final(self).actors_v().len() ==> (#[trigger] final(self).actors_v()[j])
                    .executing is Some || final(self).actors_v()[j].mailbox.len() == 0,
            ({
                let d = dispatch_spec(old(self).actors_v(), old(self).slots_v(), 0);
                &&& final(self).actors_v() == d.0
                &&& final(self).slots_v() == d.1
                &&& r@.map_values(|st: ExecutionStart<RT>| start_view(st)) == d.2
            }),
    {
        let ghost d = dispatch_spec(old(self).actors_v(), old(self).slots_v(), 0);
        let mut starts: Vec<ExecutionStart<RT>> = Vec::new();
        let mut i: usize = 0;
        proof {
            assert(starts@.map_values(|st: ExecutionStart<RT>| start_view(st)) =~= Seq::<
                StartModel<RT>,
            >::empty());
            assert(Seq::<StartModel<RT>>::empty() + d.2 =~= d.2);
        }
        while i < self.actors.len()
            invariant
                old(self).wf(),
                self.wf(),
                i <= self.actors@.len(),
                self.events == old(self).events,
                self.services == old(self).services,
                self.cleanup_in_flight == old(self).cleanup_in_flight,
                self.actors_v().len() == old(self).actors_v().len(),
                forall|j: int|
                    i <= j < old(self).actors_v().len() ==> #[trigger] self.actors_v()[j] == old(self).actors_v()[j],
                forall|j: int|
                    0 <= j < i ==> dispatch_rel(
                        #[trigger] old(self).actors_v()[j],
                        self.actors_v()[j],
                    ),
                forall|j: int|
                    0 <= j < i ==> (#[trigger] self.actors_v()[j]).executing is Some
                        || self.actors_v()[j].mailbox.len() == 0,
                forall|v: int|
                    0 <= v < old(self).slots_v().len() ==> self.slots_v()[v] == old(self).slots_v()[v] || ((#[trigger] old(self).slots_v()[v]) is Idle
                        && self.slots_v()[v] is Lent),
                self.slots_v().len() == old(self).slots_v().len(),
                forall|k: int|
                    0 <= k < starts@.len() ==> exists|x: int|
                        0 <= x < self.actors_v().len() && is_executing_on(
                            #[trigger] self.actors_v()[x],
                            (#[trigger] starts@[k]).vm_id as int,
                        ) && executing_particle(self.actors_v()[x]) == starts@[k].particle@
                            && self.actors_v()[x].key.peer_scope == starts@[k].peer_scope
                            && self.actors_v()[x].current_peer_id == starts@[k].current_peer_id
                            && self.actors_v()[x].particle_token == starts@[k].particle_token@
                            && self.actors_v()[x].function == starts@[k].function,
                d == dispatch_spec(old(self).actors_v(), old(self).slots_v(), 0),
                dispatch_spec(self.actors_v(), self.slots_v(), i as int).0 == d.0,
                dispatch_spec(self.actors_v(), self.slots_v(), i as int).1 == d.1,
                starts@.map_values(|st: ExecutionStart<RT>| start_view(st)) + dispatch_spec(
                    self.actors_v(),
                    self.slots_v(),
                    i as int,
                ).2 == d.2,
            decreases self.actors@.len() - i,
        {
            let ghost snap = *self;
            let ghost pre_vec = self.actors@;
            match self.vm_pool.get_vm() {
                None => {
                    proof {
                        crate::vm_pool::lemma_count_idle_zero(self.slots_v());
                        lemma_first_idle_spec(self.slots_v());
                        if first_idle(self.slots_v()) != -1 {
                            assert(false);
                        }
                        assert(dispatch_spec(self.actors_v(), self.slots_v(), i as int) == (
                            self.actors_v(),
                            self.slots_v(),
                            Seq::<StartModel<RT>>::empty(),
                        ));
                        assert(starts@.map_values(|st: ExecutionStart<RT>| start_view(st))
                            + Seq::<StartModel<RT>>::empty() =~= starts@.map_values(
                            |st: ExecutionStart<RT>| start_view(st),
                        ));
                    }
                    return starts;
                },
                Some((vm_id, vm)) => {
                    let ghost mid_slots = self.slots_v();
                    let mut a = self.actors.remove(i);
                    let got = a.take_next(vm_id);
                    match got {
                        Some(p) => {
                            let st = ExecutionStart {
                                vm_id,
                                vm,
                                particle: p,
                                peer_scope: a.key.peer_scope,
                                current_peer_id: a.current_peer_id,
                                particle_token: a.particle_token.clone(),
                                function: a.function,
                            };
                            let ghost av = a@;
                            let ghost aval = a;
                            let ghost pre_starts = starts@;
                            let ghost stv = st;
                            self.actors.insert(i, a);
                            starts.push(st);
                            proof {
                                assert(self.actors@ =~= pre_vec.update(i as int, aval));
                                assert(self.actors_v() =~= snap.actors_v().update(i as int, av));
                                lemma_dispatch_step_wf(&snap, self, i as int, av, vm_id);
                                lemma_first_idle_spec(snap.slots_v());
                                if first_idle(snap.slots_v()) == -1 {
                                    assert(false);
                                }
                                assert(first_idle(snap.slots_v()) == vm_id as int);
                                assert(slot_value(snap.slots_v()[vm_id as int]) == stv.vm);
                                assert(start_view(stv) == (StartModel {
                                    vm_id,
                                    vm: stv.vm,
                                    particle: snap.actors_v()[i as int].mailbox[0],
                                    peer_scope: snap.actors_v()[i as int].key.peer_scope,
                                    current_peer_id: snap.actors_v()[i as int].current_peer_id,
                                    particle_token: snap.actors_v()[i as int].particle_token,
                                    function: snap.actors_v()[i as int].function,
                                }));
                                assert(av == (ActorModel {
                                    mailbox: snap.actors_v()[i as int].mailbox.drop_first(),
                                    executing: Some(
                                        ExecutionSlotModel {
                                            vm_id,
                                            particle: snap.actors_v()[i as int].mailbox[0],
                                        },
                                    ),
                                    ..snap.actors_v()[i as int]
                                }));
                                let pre_starts_v = starts@.drop_last().map_values(
                                    |st: ExecutionStart<RT>| start_view(st),
                                );
                                assert(starts@.drop_last() =~= starts@.take(
                                    starts@.len() - 1,
                                ));
                                assert(starts@.map_values(|st: ExecutionStart<RT>| start_view(st))
                                    =~= pre_starts_v.push(start_view(stv)));
                                assert(dispatch_spec(snap.actors_v(), snap.slots_v(), i as int)
                                    == ({
                                    let rest = dispatch_spec(
                                        self.actors_v(),
                                        self.slots_v(),
                                        i + 1,
                                    );
                                    (rest.0, rest.1, seq![start_view(stv)] + rest.2)
                                }));
                                assert(pre_starts_v.push(start_view(stv)) + dispatch_spec(
                                    self.actors_v(),
                                    self.slots_v(),
                                    i + 1,
                                ).2 =~= pre_starts_v + (seq![start_view(stv)] + dispatch_spec(
                                    self.actors_v(),
                                    self.slots_v(),
                                    i + 1,
                                ).2));
                                assert forall|k: int| 0 <= k < starts@.len() implies exists|x: int|
                                    0 <= x < self.actors_v().len() && is_executing_on(
                                        #[trigger] self.actors_v()[x],
                                        (#[trigger] starts@[k]).vm_id as int,
                                    ) && executing_particle(self.actors_v()[x]) == starts@[k]
                                    .particle@ && self.actors_v()[x].key.peer_scope == starts@[k]
                                    .peer_scope && self.actors_v()[x].current_peer_id == starts@[k]
                                    .current_peer_id && self.actors_v()[x].particle_token
                                    == starts@[k].particle_token@ && self.actors_v()[x].function
                                    == starts@[k].function by {
                                    if k == starts@.len() - 1 {
                                        assert(starts@[k] == stv);
                                        assert(is_executing_on(
                                            self.actors_v()[i as int],
                                            vm_id as int,
                                        ));
                                    } else {
                                        assert(starts@[k] == pre_starts[k]);
                                        let x = choose|x: int|
                                            0 <= x < snap.actors_v().len() && is_executing_on(
                                                #[trigger] snap.actors_v()[x],
                                                pre_starts[k].vm_id as int,
                                            ) && executing_particle(snap.actors_v()[x])
                                                == pre_starts[k].particle@ && snap.actors_v()[x]
                                                .key.peer_scope == pre_starts[k].peer_scope
                                                && snap.actors_v()[x].current_peer_id
                                                == pre_starts[k].current_peer_id
                                                && snap.actors_v()[x].particle_token
                                                == pre_starts[k].particle_token@
                                                && snap.actors_v()[x].function == pre_starts[k]
                                                .function;
                                        assert(x != i);
                                        assert(self.actors_v()[x] == snap.actors_v()[x]);
                                    }
                                }
                            }
                        },
                        None => {
                            let ghost aval = a;
                            self.actors.insert(i, a);
                            self.vm_pool.put_vm(vm_id, vm);
                            proof {
                                assert(self.actors@ =~= pre_vec.update(i as int, aval));
                                assert(self.actors_v() =~= snap.actors_v());
                                assert(self.slots_v() =~= snap.slots_v());
                                lemma_first_idle_spec(snap.slots_v());
                                if first_idle(snap.slots_v()) == -1 {
                                    assert(false);
                                }
                                assert(dispatch_spec(snap.actors_v(), snap.slots_v(), i as int)
                                    == dispatch_spec(snap.actors_v(), snap.slots_v(), i + 1));
                            }
                        },
                    }
                },
            }
            i = i + 1;
        }
        starts
    }
}

/// One re-ingest of a routed particle under one local scope: the deadline is
/// checked anew, the worker-activation rule applies, and the particle joins
/// or creates the scope's actor. The signature needs no re-verification: it
/// was verified at admission and verification is deterministic.
pub open spec fn route_step(
    state: (Seq<ActorModel>, Seq<Result<RemoteRoutingEffectsModel, ApiErrorModel>>),
    p: ParticleModel,
    scope: PeerScope,
    env: NodeEnv,
    token: Seq<char>,
    services: Seq<Seq<char>>,
) -> (Seq<ActorModel>, Seq<Result<RemoteRoutingEffectsModel, ApiErrorModel>>) {
    if particle_expired(p, env.now_ms) {
        (state.0, state.1.push(Err(ApiErrorModel::ParticleExpired { particle_id: p.id })))
    } else if !worker_admissible(env, p, scope) {
        state
    } else {
        (accepted_actors(state.0, p, scope, env, token, services, None), state.1)
    }
}

/// A routed particle re-ingested under each of its local scopes in turn.
pub open spec fn route_all(
    state: (Seq<ActorModel>, Seq<Result<RemoteRoutingEffectsModel, ApiErrorModel>>),
    p: ParticleModel,
    scopes: Seq<PeerScope>,
    env: NodeEnv,
    token: Seq<char>,
    services: Seq<Seq<char>>,
) -> (Seq<ActorModel>, Seq<Result<RemoteRoutingEffectsModel, ApiErrorModel>>)
    decreases scopes.len(),
{
    if scopes.len() == 0 {
        state
    } else {
        route_all(
            route_step(state, p, scopes[0], env, token, services),
            p,
            scopes.drop_first(),
            env,
            token,
            services,
        )
    }
}

/// Routing never disturbs the head of the event queue: events are only
/// appended.
pub proof fn lemma_route_all_keeps_head(
    state: (Seq<ActorModel>, Seq<Result<RemoteRoutingEffectsModel, ApiErrorModel>>),
    p: ParticleModel,
    scopes: Seq<PeerScope>,
    env: NodeEnv,
    token: Seq<char>,
    services: Seq<Seq<char>>,
)
    ensures
        state.1.len() > 0 ==> route_all(state, p, scopes, env, token, services).1.len() > 0
            && route_all(state, p, scopes, env, token, services).1[0] == state.1[0],
    decreases scopes.len(),
{
    if scopes.len() > 0 {
        lemma_route_all_keeps_head(
            route_step(state, p, scopes[0], env, token, services),
            p,
            scopes.drop_first(),
            env,
            token,
            services,
        );
    }
}

/// A routed particle for a known local scope lands in that scope's actor
/// mailbox: the recursive fanout of local effects is observed as a
/// subsequent ingest on that scope.
pub proof fn lemma_route_step_appends(
    state: (Seq<ActorModel>, Seq<Result<RemoteRoutingEffectsModel, ApiErrorModel>>),
    p: ParticleModel,
    scope: PeerScope,
    env: NodeEnv,
    token: Seq<char>,
    services: Seq<Seq<char>>,
    i: int,
)
    requires
        !particle_expired(p, env.now_ms),
        worker_admissible(env, p, scope),
        0 <= i < state.0.len(),
        state.0[i].key == (ActorKeyModel { signature: p.signature, peer_scope: scope }),
        forall|j: int|
            0 <= j < i ==> (#[trigger] state.0[j]).key != (ActorKeyModel {
                signature: p.signature,
                peer_scope: scope,
            }),
    ensures
        route_step(state, p, scope, env, token, services).0[i].mailbox == state.0[i].mailbox.push(
            p,
        ),
        route_step(state, p, scope, env, token, services).0.len() == state.0.len(),
{
    let k = ActorKeyModel { signature: p.signature, peer_scope: scope };
    lemma_find_key_spec(state.0, k);
    if find_key(state.0, k) != i {
        assert(false);
    }
}

impl<RT> Plumber<RT> {
    /// Re-ingests a routed particle under every local scope it must reach:
    /// the recursive fanout of local effects back into this scheduler.
    pub fn route_local(&mut self, effects: LocalRoutingEffects, token: String, env: &NodeEnv)
        requires
            old(self).wf(),
        ensures
            final(self).wf(),
            final(self).vm_pool == old(self).vm_pool,
            final(self).services == old(self).services,
            final(self).cleanup_in_flight == old(self).cleanup_in_flight,
            final(self).actors_v() == route_all(
                (old(self).actors_v(), old(self).events_v()),
                effects.particle@,
                effects.next_peers@,
                *env,
                token@,
                old(self).services_v(),
            ).0,
            final(self).events_v() == route_all(
                (old(self).actors_v(), old(self).events_v()),
                effects.particle@,
                effects.next_peers@,
                *env,
                token@,
                old(self).services_v(),
            ).1,
    {
        let ghost orig = (old(self).actors_v(), old(self).events_v());
        let ghost pm = effects.particle@;
        let ghost tokv = token@;
        let ghost servv = old(self).services_v();
        let particle = effects.particle;
        let scopes = effects.next_peers;
        let mut i: usize = 0;
        proof {
            assert(scopes@.skip(0) =~= scopes@);
        }
        while i < scopes.len()
            invariant
                self.wf(),
                self.vm_pool == old(self).vm_pool,
                self.services == old(self).services,
                self.cleanup_in_flight == old(self).cleanup_in_flight,
                i <= scopes@.len(),
                particle@ == pm,
                token@ == tokv,
                old(self).services_v() == servv,
                route_all(
                    (self.actors_v(), self.events_v()),
                    pm,
                    scopes@.skip(i as int),
                    *env,
                    tokv,
                    servv,
                ) == route_all(orig, pm, scopes@, *env, tokv, servv),
            decreases scopes@.len() - i,
        {
            let ghost pre = (self.actors_v(), self.events_v());
            self.accept(particle.clone(), None, scopes[i], token.clone(), env);
            proof {
                assert(scopes@.skip(i as int)[0] == scopes@[i as int]);
                assert(scopes@.skip(i as int).drop_first() =~= scopes@.skip(i + 1));
                assert((self.actors_v(), self.events_v()) == route_step(
                    pre,
                    pm,
                    scopes@[i as int],
                    *env,
                    tokv,
                    servv,
                ));
            }
            i = i + 1;
        }
        proof {
            assert(scopes@.skip(scopes@.len() as int) =~= Seq::<PeerScope>::empty());
        }
    }
}

/// The views of collected fanouts, in collection order.
pub open spec fn fans_view(s: Seq<(LocalRoutingEffects, String)>) -> Seq<FanoutModel> {
    s.map_values(
        |f: (LocalRoutingEffects, String)| FanoutModel {
            particle: f.0@.particle,
            next_scopes: f.0@.next_peers,
            token: f.1@,
        },
    )
}

/// Every collected fanout routed back into the scheduler, in order.
pub open spec fn fanout_all(
    actors: Seq<ActorModel>,
    events: Seq<Result<RemoteRoutingEffectsModel, ApiErrorModel>>,
    fans: Seq<FanoutModel>,
    env: NodeEnv,
    services: Seq<Seq<char>>,
) -> (Seq<ActorModel>, Seq<Result<RemoteRoutingEffectsModel, ApiErrorModel>>)
    decreases fans.len(),
{
    if fans.len() == 0 {
        (actors, events)
    } else {
        let s = route_all(
            (actors, events),
            fans[0].particle,
            fans[0].next_scopes,
            env,
            fans[0].token,
            services,
        );
        fanout_all(s.0, s.1, fans.drop_first(), env, services)
    }
}

/// Everything one turn of the scheduler hands back to the runtime.
pub struct PollOutput<RT> {
    /// The oldest pending event, if any; without one the turn is pending.
    pub event: Option<Result<RemoteRoutingEffects, AquamarineApiError>>,
    /// Executions to run on borrowed VMs.
    pub starts: Vec<ExecutionStart<RT>>,
    /// A batch of cleanup keys for the data store, at most one in flight.
    pub cleanup: Option<Vec<CleanupKey>>,
    /// Completions handed back untouched because a queued event pre-empted
    /// the turn; the driver feeds them in again next turn.
    pub deferred: Vec<Completion<RT>>,
}

impl<RT> Plumber<RT> {
    /// One turn of the event pump. A queued event pre-empts the turn: it is
    /// popped and returned at once, nothing else is touched, and the
    /// handed-in completions come back untouched in `deferred` for the next
    /// turn. Only with an empty queue does the turn take in finished
    /// executions, evict expired actors, hand idle VMs to waiting
    /// mailboxes, re-ingest local routing effects, and return the oldest
    /// event the turn produced.
    ///
    /// `completions` must report executions this scheduler started, one per
    /// VM; `cleanup_done` reports the last cleanup batch as finished — it
    /// is consumed only by a full turn, so a pre-empted driver repeats it.
    pub fn poll(&mut self, completions: Vec<Completion<RT>>, cleanup_done: bool, env: &NodeEnv)
        -> (r: PollOutput<RT>)
        requires
            old(self).wf(),
            forall|k1: int, k2: int|
                0 <= k1 < k2 < completions@.len() ==> (#[trigger] completions@[k1]).vm_id
                    != (#[trigger] completions@[k2]).vm_id,
            forall|k: int|
                0 <= k < completions@.len() ==> exists|x: int|
                    0 <= x < old(self).actors_v().len() && is_executing_on(
                        #[trigger] old(self).actors_v()[x],
                        (#[trigger] completions@[k]).vm_id as int,
                    ),
        ensures
            final(self).wf(),
            final(self).services == old(self).services,
            r.event is None ==> final(self).events_v().len() == 0,
            old(self).events_v().len() > 0 ==> match r.event {
                Some(e) => event_view(e) == old(self).events_v()[0],
                None => false,
            },
            old(self).cleanup_in_flight && !cleanup_done ==> r.cleanup is None && final(self)
                .cleanup_in_flight,
            old(self).events_v().len() == 0 && completions@.len() == 0
                && crate::vm_pool::count_idle(final(self).slots_v()) > 0 ==> forall|j: int|
                0 <= j < final(self).actors_v().len() ==> (#[trigger] final(self).actors_v()[j])
                    .executing is Some || final(self).actors_v()[j].mailbox.len() == 0,
            old(self).events_v().len() > 0 ==> {
                &&& final(self).actors == old(self).actors
                &&& final(self).vm_pool == old(self).vm_pool
                &&& final(self).cleanup_in_flight == old(self).cleanup_in_flight
                &&& final(self).events_v() == old(self).events_v().drop_first()
                &&& r.starts@.len() == 0
                &&& r.cleanup is None
                &&& r.deferred == completions
            },
            old(self).events_v().len() == 0 ==> r.deferred@.len() == 0 && ({
                let total = complete_all(
                    old(self).actors_v(),
                    old(self).slots_v(),
                    old(self).events_v(),
                    completions@,
                    *env,
                );
                let in_flight = old(self).cleanup_in_flight && !cleanup_done;
                let scan = cleanup_scan(total.0, env.now_ms, MAX_CLEANUP_KEYS_SIZE as nat);
                let a2 = if in_flight {
                    total.0
                } else {
                    scan.0
                };
                let disp = dispatch_spec(a2, total.1, 0);
                let fan = fanout_all(disp.0, total.2, total.3, *env, old(self).services_v());
                &&& final(self).actors_v() == fan.0
                &&& final(self).slots_v() == disp.1
                &&& r.starts@.map_values(|st: ExecutionStart<RT>| start_view(st)) == disp.2
                &&& match r.cleanup {
                    Some(keys) => !in_flight && scan.1.len() > 0 && keys@.map_values(
                        |k: CleanupKey| k@,
                    ) == scan.1,
                    None => in_flight || scan.1.len() == 0,
                }
                &&& final(self).cleanup_in_flight == (in_flight || (!in_flight && scan.1.len()
                    > 0))
                &&& if fan.1.len() > 0 {
                    match r.event {
                        Some(e) => event_view(e) == fan.1[0] && final(self).events_v()
                            == fan.1.drop_first(),
                        None => false,
                    }
                } else {
                    r.event is None && final(self).events_v() == fan.1
                }
            }),
    {
        if self.events.len() > 0 {
            let ghost preq = self.events_v();
            let e = self.events.remove(0);
            proof {
                assert(event_view(e) == preq[0]);
                assert(self.events_v() =~= preq.drop_first());
            }
            return PollOutput {
                event: Some(e),
                starts: Vec::new(),
                cleanup: None,
                deferred: completions,
            };
        }
        if cleanup_done {
            self.cleanup_finished();
        }
        let ghost total = complete_all(
            old(self).actors_v(),
            old(self).slots_v(),
            old(self).events_v(),
            completions@,
            *env,
        );
        proof {
            assert(self.actors_v() == old(self).actors_v());
            assert(self.events_v() == old(self).events_v());
        }
        let ghost n_comp = completions@.len();
        let mut completions = completions;
        let mut fanouts: Vec<(LocalRoutingEffects, String)> = Vec::new();
        proof {
            assert(fans_view(fanouts@) =~= Seq::<FanoutModel>::empty());
            assert(fans_view(fanouts@) + total.3 =~= total.3);
        }
        while completions.len() > 0
            invariant
                self.wf(),
                self.services == old(self).services,
                cleanup_done ==> !self.cleanup_in_flight,
                !cleanup_done ==> self.cleanup_in_flight == old(self).cleanup_in_flight,
                forall|k1: int, k2: int|
                    0 <= k1 < k2 < completions@.len() ==> (#[trigger] completions@[k1]).vm_id
                        != (#[trigger] completions@[k2]).vm_id,
                forall|k: int|
                    0 <= k < completions@.len() ==> exists|x: int|
                        0 <= x < self.actors_v().len() && is_executing_on(
                            #[trigger] self.actors_v()[x],
                            (#[trigger] completions@[k]).vm_id as int,
                        ),
                old(self).events_v().len() > 0 ==> self.events_v().len() > 0
                    && self.events_v()[0] == old(self).events_v()[0],
                fanouts@.len() + completions@.len() <= n_comp,
                complete_all(
                    self.actors_v(),
                    self.slots_v(),
                    self.events_v(),
                    completions@,
                    *env,
                ).0 == total.0,
                complete_all(
                    self.actors_v(),
                    self.slots_v(),
                    self.events_v(),
                    completions@,
                    *env,
                ).1 == total.1,
                complete_all(
                    self.actors_v(),
                    self.slots_v(),
                    self.events_v(),
                    completions@,
                    *env,
                ).2 == total.2,
                fans_view(fanouts@) + complete_all(
                    self.actors_v(),
                    self.slots_v(),
                    self.events_v(),
                    completions@,
                    *env,
                ).3 == total.3,
            decreases completions@.len(),
        {
            let ghost snap = *self;
            let ghost pre_comps = completions@;
            let ghost pre_fans = fanouts@;
            let c = completions.remove(0);
            let ghost cval = c;
            let ghost cv = c.vm_id;
            let fr = self.complete_execution(c, env);
            let ghost frv = fanout_view(fr);
            match fr {
                Some(f) => {
                    fanouts.push(f);
                },
                None => {},
            }
            proof {
                assert(completions@ =~= pre_comps.drop_first());
                assert(pre_comps[0] == cval);
                let s1 = complete_spec(
                    snap.actors_v(),
                    snap.slots_v(),
                    snap.events_v(),
                    cval,
                    *env,
                );
                let rest3 = complete_all(
                    self.actors_v(),
                    self.slots_v(),
                    self.events_v(),
                    completions@,
                    *env,
                ).3;
                match frv {
                    Some(fm) => {
                        assert(fans_view(fanouts@) =~= fans_view(pre_fans).push(fm));
                        assert(fans_view(pre_fans).push(fm) + rest3 =~= fans_view(pre_fans) + (
                        seq![fm] + rest3));
                    },
                    None => {
                        assert(fanouts@ == pre_fans);
                    },
                }
                lemma_find_exec_spec(snap.actors_v(), cv);
                let i = find_exec(snap.actors_v(), cv);
                if i == -1 {
                    let w = choose|w: int|
                        0 <= w < snap.actors_v().len() && executing_vm(
                            #[trigger] snap.actors_v()[w],
                        ) == Some(cv);
                    assert(is_executing_on(snap.actors_v()[w], cv as int));
                    assert(false);
                }
                assert forall|k: int| 0 <= k < completions@.len() implies exists|x: int|
                    0 <= x < self.actors_v().len() && is_executing_on(
                        #[trigger] self.actors_v()[x],
                        (#[trigger] completions@[k]).vm_id as int,
                    ) by {
                    assert(completions@[k] == pre_comps[k + 1]);
                    let x = choose|x: int|
                        0 <= x < snap.actors_v().len() && is_executing_on(
                            #[trigger] snap.actors_v()[x],
                            pre_comps[k + 1].vm_id as int,
                        );
                    assert(pre_comps[k + 1].vm_id != cv);
                    assert(is_executing_on(snap.actors_v()[i], cv as int));
                    assert(x != i);
                    assert(self.actors_v()[x] == snap.actors_v()[x]);
                    assert(is_executing_on(self.actors_v()[x], completions@[k].vm_id as int));
                }
            }
        }
        proof {
            assert(complete_all(
                self.actors_v(),
                self.slots_v(),
                self.events_v(),
                completions@,
                *env,
            ) == (
                self.actors_v(),
                self.slots_v(),
                self.events_v(),
                Seq::<FanoutModel>::empty(),
            ));
            assert(fans_view(fanouts@) + Seq::<FanoutModel>::empty() =~= fans_view(fanouts@));
            assert(fans_view(fanouts@) == total.3);
        }
        let ghost in_flight = old(self).cleanup_in_flight && !cleanup_done;
        let ghost scan = cleanup_scan(total.0, env.now_ms, MAX_CLEANUP_KEYS_SIZE as nat);
        proof {
            assert(self.cleanup_in_flight == in_flight);
        }
        let cleanup = self.cleanup_expired(env.now_ms);
        let ghost a2 = if in_flight {
            total.0
        } else {
            scan.0
        };
        proof {
            assert(self.actors_v() == a2);
            assert(self.slots_v() == total.1);
            assert(self.events_v() == total.2);
        }
        let starts = self.dispatch();
        let ghost disp = dispatch_spec(a2, total.1, 0);
        let ghost servv = old(self).services_v();
        let ghost fan_total = fanout_all(disp.0, total.2, total.3, *env, servv);
        proof {
            assert(self.services_v() == servv);
            assert(self.actors_v() == disp.0);
            assert(self.slots_v() == disp.1);
            assert(starts@.map_values(|st: ExecutionStart<RT>| start_view(st)) == disp.2);
            assert(self.events_v() == total.2);
        }
        while fanouts.len() > 0
            invariant
                self.wf(),
                self.services == old(self).services,
                old(self).cleanup_in_flight && !cleanup_done ==> self.cleanup_in_flight,
                old(self).events_v().len() > 0 ==> self.events_v().len() > 0
                    && self.events_v()[0] == old(self).events_v()[0],
                n_comp == 0 ==> fanouts@.len() == 0,
                n_comp == 0 ==> (crate::vm_pool::count_idle(self.slots_v()) > 0 ==> forall|j: int|
                    0 <= j < self.actors_v().len() ==> (#[trigger] self.actors_v()[j]).executing
                        is Some || self.actors_v()[j].mailbox.len() == 0),
                self.cleanup_in_flight == (in_flight || (!in_flight && scan.1.len() > 0)),
                self.slots_v() == disp.1,
                servv == old(self).services_v(),
                fan_total == fanout_all(disp.0, total.2, total.3, *env, servv),
                fanout_all(
                    self.actors_v(),
                    self.events_v(),
                    fans_view(fanouts@),
                    *env,
                    servv,
                ) == fan_total,
            decreases fanouts@.len(),
        {
            let ghost pre_ev = self.events_v();
            let ghost pre_fans = fanouts@;
            let (f, token) = fanouts.remove(0);
            let ghost fp = f.particle@;
            let ghost fs = f.next_peers@;
            let ghost tokv = token@;
            let ghost servv2 = self.services_v();
            let ghost pre_actors = self.actors_v();
            proof {
                assert(servv2 == servv);
                assert(fans_view(pre_fans)[0] == (FanoutModel {
                    particle: fp,
                    next_scopes: fs,
                    token: tokv,
                }));
                assert(fans_view(fanouts@) =~= fans_view(pre_fans).drop_first());
            }
            self.route_local(f, token, env);
            proof {
                lemma_route_all_keeps_head((pre_actors, pre_ev), fp, fs, *env, tokv, servv2);
                assert((self.actors_v(), self.events_v()) == route_all(
                    (pre_actors, pre_ev),
                    fp,
                    fs,
                    *env,
                    tokv,
                    servv,
                ));
                assert(fanout_all(pre_actors, pre_ev, fans_view(pre_fans), *env, servv)
                    == fanout_all(
                    self.actors_v(),
                    self.events_v(),
                    fans_view(fanouts@),
                    *env,
                    servv,
                ));
            }
        }
        proof {
            assert(fanout_all(
                self.actors_v(),
                self.events_v(),
                fans_view(fanouts@),
                *env,
                servv,
            ) == (self.actors_v(), self.events_v()));
            assert(self.actors_v() == fan_total.0);
            assert(self.events_v() == fan_total.1);
        }
        let event = if self.events.len() > 0 {
            let ghost preq = self.events_v();
            let e = self.events.remove(0);
            proof {
                assert(event_view(e) == preq[0]);
                assert(self.events_v() =~= preq.drop_first());
            }
            Some(e)
        } else {
            None
        };
        PollOutput { event, starts, cleanup, deferred: Vec::new() }
    }
}

/// How many actors have an execution in flight.
pub open spec fn count_executing(s: Seq<ActorModel>) -> int
    decreases s.len(),
{
    if s.len() == 0 {
        0
    } else {
        count_executing(s.drop_last()) + if s.last().executing is Some {
            1int
        } else {
            0int
        }
    }
}

/// The indices of actors with an execution in flight.
pub open spec fn exec_indices(s: Seq<ActorModel>) -> Set<int> {
    Set::new(|i: int| 0 <= i < s.len() && s[i].executing is Some)
}

/// The executing count is the cardinality of the set of executing indices.
pub proof fn lemma_count_executing_is_card(s: Seq<ActorModel>)
    ensures
        exec_indices(s).finite(),
        count_executing(s) == exec_indices(s).len(),
    decreases s.len(),
{
    vstd::set_lib::lemma_int_range(0, s.len() as int);
    vstd::set_lib::lemma_len_subset(
        exec_indices(s),
        vstd::set_lib::set_int_range(0, s.len() as int),
    );
    if s.len() == 0 {
        assert(exec_indices(s) =~= Set::<int>::empty());
    } else {
        lemma_count_executing_is_card(s.drop_last());
        let l = s.len() - 1;
        if s.last().executing is Some {
            assert(exec_indices(s) =~= exec_indices(s.drop_last()).insert(l));
            assert(!exec_indices(s.drop_last()).contains(l));
        } else {
            assert(exec_indices(s) =~= exec_indices(s.drop_last()));
        }
    }
}

/// The actor table never holds a key twice, so the number of actors equals
/// the number of distinct keys present — and since an ingest touches no key
/// but the ingested particle's own, over any sequence of ingests the table
/// stays bounded by the number of distinct `(signature, scope)` pairs seen.
pub proof fn lemma_actor_count_is_distinct_keys<RT>(p: Plumber<RT>)
    requires
        p.wf(),
    ensures
        keys_seq(p.actors_v()).no_duplicates(),
        keys_seq(p.actors_v()).to_set().len() == p.actors_v().len(),
{
    let ks = keys_seq(p.actors_v());
    assert forall|i: int, j: int| 0 <= i < j < ks.len() implies ks[i] != ks[j] by {
        assert(p.actors_v()[i].key != p.actors_v()[j].key);
    }
    ks.unique_seq_to_set();
}

/// A VM is owned by exactly one of: the pool (idle), an executing actor, or
/// nowhere while being rebuilt. So at any instant
/// `pool_free + active_executions + recreating = pool_size`.
pub proof fn lemma_vm_conservation<RT>(p: Plumber<RT>)
    requires
        p.wf(),
    ensures
        crate::vm_pool::count_idle(p.slots_v()) + count_executing(p.actors_v())
            + crate::vm_pool::count_creating(p.slots_v()) == p.slots_v().len(),
{
    crate::vm_pool::lemma_slot_counts_sum(p.slots_v());
    lemma_count_executing_is_card(p.actors_v());
    crate::vm_pool::lemma_count_lent_is_card(p.slots_v());
    let actors = p.actors_v();
    let slots = p.slots_v();
    let f = |i: int|
        match actors[i].executing {
            Some(e) => e.vm_id as int,
            None => -1,
        };
    assert forall|x1: int, x2: int|
        exec_indices(actors).contains(x1) && exec_indices(actors).contains(x2) && #[trigger] f(x1)
            == #[trigger] f(x2) implies x1 == x2 by {
        if x1 != x2 {
            assert(executing_vm(actors[x1]) is Some);
            assert(executing_vm(actors[x2]) is Some);
            assert(executing_vm(actors[x1]) != executing_vm(actors[x2]));
        }
    }
    assert(exec_indices(actors).map(f) =~= crate::vm_pool::lent_indices(slots)) by {
        assert forall|v: int|
            crate::vm_pool::lent_indices(slots).contains(v) implies exec_indices(actors).map(
            f,
        ).contains(v) by {
            let x = choose|x: int|
                0 <= x < actors.len() && is_executing_on(#[trigger] actors[x], v);
            assert(exec_indices(actors).contains(x));
            assert(f(x) == v);
        }
        assert forall|v: int|
            exec_indices(actors).map(f).contains(v) implies crate::vm_pool::lent_indices(
            slots,
        ).contains(v) by {
            let x = choose|x: int| exec_indices(actors).contains(x) && #[trigger] f(x) == v;
            match executing_vm(actors[x]) {
                Some(u) => {
                    assert(slots[u as int] is Lent);
                },
                None => {
                    assert(false);
                },
            }
        }
    }
    vstd::set_lib::lemma_map_size(
        exec_indices(actors),
        crate::vm_pool::lent_indices(slots),
        f,
    );
}




} // verus!
