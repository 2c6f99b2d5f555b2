//! The discovery behaviour: a thin, timeout-enforcing coordinator over a
//! Kademlia DHT, with per-peer failure tracking and banning.
//!
//! The behaviour is a state machine over plain values. The DHT itself is a
//! capability: commands come in with a snapshot of what the DHT knows, and
//! the behaviour answers with actions — replies to waiters, queries to
//! start, addresses to insert. Waiters and queries are named by plain ids
//! that the driver maps to its channels and DHT query handles.

use vstd::prelude::*;
use vstd::pervasive::VecAdditionalExecFns;

use crate::particle::PeerId;

verus! {

/// Timing and thresholds of the discovery behaviour.
#[derive(Clone, Copy, PartialEq, Eq, Structural, Debug)]
pub struct KademliaConfig {
    /// This node's own peer id.
    pub peer_id: PeerId,
    /// How long a DHT query may run, in milliseconds.
    pub query_timeout_ms: u64,
    /// How long a ban lasts, in milliseconds.
    pub ban_cooldown_ms: u64,
    /// How many discovery failures ban a peer.
    pub peer_fail_threshold: usize,
}

/// An address of a peer, carried as opaque text.
#[derive(Clone, PartialEq, Eq, Debug)]
pub struct Multiaddr {
    pub repr: String,
}

impl View for Multiaddr {
    type V = Seq<char>;

    open spec fn view(&self) -> Seq<char> {
        self.repr@
    }
}

/// The view of a list of addresses.
pub open spec fn addrs_view(v: Seq<Multiaddr>) -> Seq<Seq<char>> {
    v.map_values(|a: Multiaddr| a@)
}

/// Clones a list of addresses.
pub fn clone_addrs(v: &Vec<Multiaddr>) -> (r: Vec<Multiaddr>)
    ensures
        addrs_view(r@) == addrs_view(v@),
{
    let mut r: Vec<Multiaddr> = Vec::new();
    let mut i: usize = 0;
    while i < v.len()
        invariant
            i <= v@.len(),
            addrs_view(r@) == addrs_view(v@).take(i as int),
        decreases v@.len() - i,
    {
        let ghost pre = addrs_view(r@);
        r.push(Multiaddr { repr: v[i].repr.clone() });
        proof {
            assert(addrs_view(r@) =~= pre.push(v@[i as int]@));
            assert(addrs_view(v@).take(i + 1).drop_last() =~= addrs_view(v@).take(i as int));
            assert(addrs_view(r@) =~= addrs_view(v@).take(i + 1));
        }
        i = i + 1;
    }
    proof {
        assert(addrs_view(v@).take(v@.len() as int) =~= addrs_view(v@));
    }
    r
}

/// A peer's id together with addresses it can be reached at.
#[derive(Clone, Debug)]
pub struct Contact {
    pub peer_id: PeerId,
    pub addresses: Vec<Multiaddr>,
}

/// What the discovery behaviour reports to its clients when it fails.
#[derive(Clone, Copy, PartialEq, Eq, Structural, Debug)]
pub enum KademliaError {
    /// Bootstrap is impossible: the routing table knows no peer.
    NoKnownPeers,
    /// The peer failed discovery too often and is banned for a while.
    PeerBanned,
    /// No addresses arrived within twice the query timeout.
    PeerTimedOut,
    /// The neighborhood query finished and found nobody.
    NoPeersFound,
    /// The neighborhood query timed out with nobody found.
    QueryTimedOut,
}

/// A client waiting for a peer's addresses: who to answer, and since when
/// it has been waiting.
#[derive(Clone, Copy, PartialEq, Eq, Structural, Debug)]
pub struct PendingPeer {
    /// The waiter to reply to, as an opaque id.
    pub out: u64,
    /// When the wait began, in milliseconds.
    pub created_ms: u64,
}

impl PendingPeer {
    pub fn new(out: u64, now_ms: u64) -> (r: Self)
        ensures
            r.out == out,
            r.created_ms == now_ms,
    {
        Self { out, created_ms: now_ms }
    }
}

/// The discovery record of a peer that keeps failing.
#[derive(Clone, Copy, PartialEq, Eq, Structural, Debug)]
pub struct FailedPeer {
    /// When the peer was banned, if it is.
    pub ban: Option<u64>,
    /// How many times discovery of the peer has failed.
    pub count: usize,
}

impl Default for FailedPeer {
    fn default() -> (r: Self)
        ensures
            r.ban is None,
            r.count == 0,
    {
        Self { ban: None, count: 0 }
    }
}

impl FailedPeer {
    /// One more discovery failure.
    pub fn increment(&mut self)
        requires
            old(self).count < usize::MAX,
        ensures
            final(self).count == old(self).count + 1,
            final(self).ban == old(self).ban,
    {
        self.count = self.count + 1;
    }
}

/// What a DHT query that is still running was started for.
#[derive(Clone, Copy, PartialEq, Eq, Structural, Debug)]
pub enum PendingQuery {
    /// A discovery of this peer's addresses.
    Peer(PeerId),
    /// A remote neighborhood lookup; the waiter to answer.
    Neighborhood(u64),
    /// A bootstrap; the waiter to answer.
    Unit(u64),
}

/// What the driver must do on the behaviour's behalf.
#[derive(Debug)]
#[allow(inconsistent_fields)]
pub enum KadAction {
    /// Answer an address waiter.
    ReplyAddresses { out: u64, result: Result<Vec<Multiaddr>, KademliaError> },
    /// Answer a peers waiter.
    ReplyPeers { out: u64, result: Result<Vec<PeerId>, KademliaError> },
    /// Answer a unit waiter.
    ReplyUnit { out: u64, result: Result<(), KademliaError> },
    /// Insert a peer's addresses into the DHT routing table.
    AddAddresses { peer: PeerId, addresses: Vec<Multiaddr> },
    /// Start a closest-peers query for a peer.
    QueryClosestPeers { query_id: u64, peer: PeerId },
    /// Start a closest-peers query for a raw key.
    QueryClosestKey { query_id: u64, key: Vec<u8> },
    /// Start a DHT bootstrap.
    StartBootstrap { query_id: u64 },
}

/// Mathematical image of an action.
#[allow(inconsistent_fields)]
pub enum KadActionModel {
    ReplyAddresses { out: u64, result: Result<Seq<Seq<char>>, KademliaError> },
    ReplyPeers { out: u64, result: Result<Seq<PeerId>, KademliaError> },
    ReplyUnit { out: u64, result: Result<(), KademliaError> },
    AddAddresses { peer: PeerId, addresses: Seq<Seq<char>> },
    QueryClosestPeers { query_id: u64, peer: PeerId },
    QueryClosestKey { query_id: u64, key: Seq<u8> },
    StartBootstrap { query_id: u64 },
}

impl View for KadAction {
    type V = KadActionModel;

    open spec fn view(&self) -> KadActionModel {
        match self {
            KadAction::ReplyAddresses { out, result } => KadActionModel::ReplyAddresses {
                out: *out,
                result: match result {
                    Ok(a) => Ok(addrs_view(a@)),
                    Err(e) => Err(*e),
                },
            },
            KadAction::ReplyPeers { out, result } => KadActionModel::ReplyPeers {
                out: *out,
                result: match result {
                    Ok(p) => Ok(p@),
                    Err(e) => Err(*e),
                },
            },
            KadAction::ReplyUnit { out, result } => KadActionModel::ReplyUnit {
                out: *out,
                result: *result,
            },
            KadAction::AddAddresses { peer, addresses } => KadActionModel::AddAddresses {
                peer: *peer,
                addresses: addrs_view(addresses@),
            },
            KadAction::QueryClosestPeers { query_id, peer } => KadActionModel::QueryClosestPeers {
                query_id: *query_id,
                peer: *peer,
            },
            KadAction::QueryClosestKey { query_id, key } => KadActionModel::QueryClosestKey {
                query_id: *query_id,
                key: key@,
            },
            KadAction::StartBootstrap { query_id } => KadActionModel::StartBootstrap {
                query_id: *query_id,
            },
        }
    }
}

/// What the DHT knows at the moment a command or event is handled: the
/// clock, the local addresses of the peer at hand, the closest local peers
/// of the key at hand, and whether the routing table knows anyone.
pub struct DhtEnv {
    /// The clock, in unix milliseconds.
    pub now_ms: u64,
    /// Locally known addresses of the peer the command or event names.
    pub local_addresses: Vec<Multiaddr>,
    /// The DHT's closest local peers for the key at hand.
    pub closest_local_peers: Vec<PeerId>,
    /// Whether the routing table knows at least one peer.
    pub has_known_peers: bool,
}

/// How much time has passed since an instant, saturating at zero.
pub open spec fn elapsed_ms(now_ms: u64, since_ms: u64) -> u64 {
    if now_ms >= since_ms {
        (now_ms - since_ms) as u64
    } else {
        0
    }
}

/// The smaller of two durations.
pub open spec fn min_u64(a: u64, b: u64) -> u64 {
    if a <= b {
        a
    } else {
        b
    }
}

/// Whether an entity that started waiting at `timestamp` has outlived
/// `timeout` at `now`; a still-waiting entity shrinks `wake` to the time
/// left, so the next sweep comes no later than its expiry.
pub fn has_timed_out(now: u64, timestamp: u64, timeout: u64, wake: &mut u64) -> (r: bool)
    ensures
        r == (elapsed_ms(now, timestamp) >= timeout),
        r ==> *final(wake) == *old(wake),
        !r ==> *final(wake) == min_u64((timeout - elapsed_ms(now, timestamp)) as u64, *old(wake)),
{
    let elapsed = if now >= timestamp {
        now - timestamp
    } else {
        0
    };
    if elapsed >= timeout {
        true
    } else {
        let wake_after = timeout - elapsed;
        if wake_after < *wake {
            *wake = wake_after;
        }
        false
    }
}

/// First index holding a peer in an association list, or -1.
pub open spec fn find_peer_idx<T>(s: Seq<(PeerId, T)>, p: PeerId) -> int
    decreases s.len(),
{
    if s.len() == 0 {
        -1
    } else if s[0].0 == p {
        0
    } else {
        let r = find_peer_idx(s.drop_first(), p);
        if r < 0 {
            -1
        } else {
            r + 1
        }
    }
}

/// `find_peer_idx` names the first matching index, and -1 means no match.
pub proof fn lemma_find_peer_idx_spec<T>(s: Seq<(PeerId, T)>, p: PeerId)
    ensures
        find_peer_idx(s, p) == -1 ==> forall|j: int| 0 <= j < s.len() ==> (#[trigger] s[j]).0 != p,
        find_peer_idx(s, p) != -1 ==> {
            &&& 0 <= find_peer_idx(s, p) < s.len()
            &&& s[find_peer_idx(s, p)].0 == p
            &&& forall|j: int| 0 <= j < find_peer_idx(s, p) ==> (#[trigger] s[j]).0 != p
        },
    decreases s.len(),
{
    if s.len() > 0 && s[0].0 != p {
        lemma_find_peer_idx_spec(s.drop_first(), p);
        assert forall|j: int|
            0 <= j < s.len() && find_peer_idx(s, p) == -1 implies (#[trigger] s[j]).0 != p by {
            if j > 0 {
                assert(s.drop_first()[j - 1] == s[j]);
            }
        }
        if find_peer_idx(s, p) != -1 {
            assert forall|j: int| 0 <= j < find_peer_idx(s, p) implies (#[trigger] s[j]).0
                != p by {
                if j > 0 {
                    assert(s.drop_first()[j - 1] == s[j]);
                }
            }
        }
    }
}

/// First index holding a query id, or -1.
pub open spec fn find_query_idx(s: Seq<(u64, PendingQuery)>, id: u64) -> int
    decreases s.len(),
{
    if s.len() == 0 {
        -1
    } else if s[0].0 == id {
        0
    } else {
        let r = find_query_idx(s.drop_first(), id);
        if r < 0 {
            -1
        } else {
            r + 1
        }
    }
}

/// `find_query_idx` names the first matching index, and -1 means no match.
pub proof fn lemma_find_query_idx_spec(s: Seq<(u64, PendingQuery)>, id: u64)
    ensures
        find_query_idx(s, id) == -1 ==> forall|j: int|
            0 <= j < s.len() ==> (#[trigger] s[j]).0 != id,
        find_query_idx(s, id) != -1 ==> {
            &&& 0 <= find_query_idx(s, id) < s.len()
            &&& s[find_query_idx(s, id)].0 == id
            &&& forall|j: int| 0 <= j < find_query_idx(s, id) ==> (#[trigger] s[j]).0 != id
        },
    decreases s.len(),
{
    if s.len() > 0 && s[0].0 != id {
        lemma_find_query_idx_spec(s.drop_first(), id);
        assert forall|j: int|
            0 <= j < s.len() && find_query_idx(s, id) == -1 implies (#[trigger] s[j]).0 != id by {
            if j > 0 {
                assert(s.drop_first()[j - 1] == s[j]);
            }
        }
        if find_query_idx(s, id) != -1 {
            assert forall|j: int| 0 <= j < find_query_idx(s, id) implies (#[trigger] s[j]).0
                != id by {
                if j > 0 {
                    assert(s.drop_first()[j - 1] == s[j]);
                }
            }
        }
    }
}

/// The pending table after a peer was discovered: its entry, if any, is gone.
pub open spec fn discovered_pending(
    pending: Seq<(PeerId, Seq<PendingPeer>)>,
    peer: PeerId,
) -> Seq<(PeerId, Seq<PendingPeer>)> {
    let i = find_peer_idx(pending, peer);
    if i >= 0 {
        pending.remove(i)
    } else {
        pending
    }
}

/// The failure table after a peer was discovered: its record, a ban
/// included, is cleared.
pub open spec fn discovered_failed(
    failed: Seq<(PeerId, FailedPeer)>,
    peer: PeerId,
) -> Seq<(PeerId, FailedPeer)> {
    let f = find_peer_idx(failed, peer);
    if f >= 0 {
        failed.remove(f)
    } else {
        failed
    }
}

/// The replies a discovery produces: every waiter queued behind the peer
/// receives the addresses, in queue order.
pub open spec fn discovered_actions(
    pending: Seq<(PeerId, Seq<PendingPeer>)>,
    peer: PeerId,
    addrs: Seq<Seq<char>>,
) -> Seq<KadActionModel> {
    let i = find_peer_idx(pending, peer);
    if i >= 0 {
        pending[i].1.map_values(
            |w: PendingPeer| KadActionModel::ReplyAddresses { out: w.out, result: Ok(addrs) },
        )
    } else {
        Seq::<KadActionModel>::empty()
    }
}

/// Appending a query under a fresh id keeps the id table duplicate-free.
proof fn lemma_queries_push_wf(qs: Seq<(u64, PendingQuery)>, id: u64, q: PendingQuery)
    requires
        forall|i: int, j: int|
            0 <= i < j < qs.len() ==> (#[trigger] qs[i]).0 != (#[trigger] qs[j]).0,
        forall|i: int| 0 <= i < qs.len() ==> (#[trigger] qs[i]).0 < id,
    ensures
        forall|i: int, j: int|
            0 <= i < j < qs.push((id, q)).len() ==> (#[trigger] qs.push((id, q))[i]).0
                != (#[trigger] qs.push((id, q))[j]).0,
{
    assert forall|i: int, j: int|
        0 <= i < j < qs.push((id, q)).len() implies (#[trigger] qs.push((id, q))[i]).0 != (
    #[trigger] qs.push((id, q))[j]).0 by {
        if j == qs.len() {
            assert(qs.push((id, q))[i] == qs[i]);
        } else {
            assert(qs.push((id, q))[i] == qs[i]);
            assert(qs.push((id, q))[j] == qs[j]);
        }
    }
}

/// Removing one entry of an association list keeps its keys duplicate-free.
proof fn lemma_remove_keeps_distinct<T>(s: Seq<(PeerId, T)>, i: int)
    requires
        0 <= i < s.len(),
        forall|x: int, y: int|
            0 <= x < y < s.len() ==> (#[trigger] s[x]).0 != (#[trigger] s[y]).0,
    ensures
        forall|x: int, y: int|
            0 <= x < y < s.remove(i).len() ==> (#[trigger] s.remove(i)[x]).0
                != (#[trigger] s.remove(i)[y]).0,
{
    assert forall|x: int, y: int|
        0 <= x < y < s.remove(i).len() implies (#[trigger] s.remove(i)[x]).0 != (
    #[trigger] s.remove(i)[y]).0 by {
        let x0 = if x < i { x } else { x + 1 };
        let y0 = if y < i { y } else { y + 1 };
        assert(s.remove(i)[x] == s[x0]);
        assert(s.remove(i)[y] == s[y0]);
    }
}

/// The discovery behaviour's state: queries in flight, peers being
/// discovered with their waiters, and peers that keep failing.
pub struct Kademlia {
    pub config: KademliaConfig,
    /// DHT queries in flight, by id.
    pub queries: Vec<(u64, PendingQuery)>,
    /// Peers under discovery, each with a non-empty list of waiters.
    pub pending_peers: Vec<(PeerId, Vec<PendingPeer>)>,
    /// Peers whose discovery keeps failing; some of them banned.
    pub failed_peers: Vec<(PeerId, FailedPeer)>,
    /// The next DHT query gets this id.
    pub next_query_id: u64,
}

impl Kademlia {
    /// The pending-peer table as a sequence of (peer, waiters).
    pub open spec fn pending_v(&self) -> Seq<(PeerId, Seq<PendingPeer>)> {
        self.pending_peers@.map_values(|e: (PeerId, Vec<PendingPeer>)| (e.0, e.1@))
    }

    /// Twice the query timeout: how long a waiter may wait.
    pub open spec fn wait_timeout(&self) -> u64 {
        (2 * self.config.query_timeout_ms) as u64
    }

    /// The behaviour's invariant: query ids unique and below the id counter,
    /// peers unique in both tables, every pending entry non-empty, and the
    /// query timeout small enough that doubling it cannot overflow.
    pub open spec fn wf(&self) -> bool {
        &&& forall|i: int, j: int|
            0 <= i < j < self.queries@.len() ==> (#[trigger] self.queries@[i]).0
                != (#[trigger] self.queries@[j]).0
        &&& forall|i: int|
            0 <= i < self.queries@.len() ==> (#[trigger] self.queries@[i]).0 < self.next_query_id
        &&& forall|i: int, j: int|
            0 <= i < j < self.pending_v().len() ==> (#[trigger] self.pending_v()[i]).0
                != (#[trigger] self.pending_v()[j]).0
        &&& forall|i: int|
            0 <= i < self.pending_v().len() ==> (#[trigger] self.pending_v()[i]).1.len() > 0
        &&& forall|i: int, j: int|
            0 <= i < j < self.failed_peers@.len() ==> (#[trigger] self.failed_peers@[i]).0
                != (#[trigger] self.failed_peers@[j]).0
        &&& self.config.query_timeout_ms <= u64::MAX / 2
    }

    /// A fresh behaviour with nothing pending.
    pub fn new(config: KademliaConfig) -> (r: Self)
        requires
            config.query_timeout_ms <= u64::MAX / 2,
        ensures
            r.wf(),
            r.config == config,
            r.queries@.len() == 0,
            r.pending_v().len() == 0,
            r.failed_peers@.len() == 0,
            r.next_query_id == 0,
    {
        let r = Kademlia {
            config,
            queries: Vec::new(),
            pending_peers: Vec::new(),
            failed_peers: Vec::new(),
            next_query_id: 0,
        };
        proof {
            assert(r.pending_v() =~= Seq::<(PeerId, Seq<PendingPeer>)>::empty());
        }
        r
    }

    /// Whether a peer is currently banned.
    pub fn is_banned(&self, peer: PeerId) -> (r: bool)
        ensures
            r == ({
                let i = find_peer_idx(self.failed_peers@, peer);
                i >= 0 && self.failed_peers@[i].1.ban is Some
            }),
    {
        let mut i: usize = 0;
        while i < self.failed_peers.len()
            invariant
                i <= self.failed_peers@.len(),
                forall|j: int| 0 <= j < i ==> (#[trigger] self.failed_peers@[j]).0 != peer,
            decreases self.failed_peers@.len() - i,
        {
            if self.failed_peers[i].0 == peer {
                proof {
                    lemma_find_peer_idx_spec(self.failed_peers@, peer);
                }
                return self.failed_peers[i].1.ban.is_some();
            }
            i = i + 1;
        }
        proof {
            lemma_find_peer_idx_spec(self.failed_peers@, peer);
        }
        false
    }

    /// Inserts a contact's addresses into the DHT routing table.
    pub fn add_contact(&mut self, contact: Contact) -> (r: KadAction)
        ensures
            *final(self) == *old(self),
            r@ == (KadActionModel::AddAddresses {
                peer: contact.peer_id,
                addresses: addrs_view(contact.addresses@),
            }),
    {
        KadAction::AddAddresses { peer: contact.peer_id, addresses: contact.addresses }
    }

    /// Inserts a peer's addresses into the DHT routing table.
    pub fn add_kad_node(&mut self, peer: PeerId, addresses: Vec<Multiaddr>) -> (r: KadAction)
        ensures
            *final(self) == *old(self),
            r@ == (KadActionModel::AddAddresses { peer, addresses: addrs_view(addresses@) }),
    {
        KadAction::AddAddresses { peer, addresses }
    }

    /// Answers a local lookup: the locally known addresses, never an error.
    pub fn local_lookup(&mut self, peer: PeerId, out: u64, env: &DhtEnv) -> (r: KadAction)
        ensures
            *final(self) == *old(self),
            r@ == (KadActionModel::ReplyAddresses {
                out,
                result: Ok(addrs_view(env.local_addresses@)),
            }),
    {
        KadAction::ReplyAddresses { out, result: Ok(clone_addrs(&env.local_addresses)) }
    }

    /// Answers a neighborhood query from the DHT's local knowledge alone:
    /// the closest local peers, truncated to `count`.
    pub fn neighborhood(&mut self, key: Vec<u8>, count: usize, out: u64, env: &DhtEnv) -> (r:
        KadAction)
        ensures
            *final(self) == *old(self),
            r@ == (KadActionModel::ReplyPeers {
                out,
                result: Ok(
                    env.closest_local_peers@.take(
                        min_u64(count as u64, env.closest_local_peers@.len() as u64) as int,
                    ),
                ),
            }),
    {
        let mut peers: Vec<PeerId> = Vec::new();
        let mut i: usize = 0;
        while i < env.closest_local_peers.len() && i < count
            invariant
                i <= env.closest_local_peers@.len(),
                i <= count,
                peers@ == env.closest_local_peers@.take(i as int),
            decreases env.closest_local_peers@.len() - i,
        {
            proof {
                assert(env.closest_local_peers@.take(i + 1).drop_last()
                    =~= env.closest_local_peers@.take(i as int));
            }
            peers.push(env.closest_local_peers[i]);
            proof {
                assert(peers@ =~= env.closest_local_peers@.take(i + 1));
            }
            i = i + 1;
        }
        KadAction::ReplyPeers { out, result: Ok(peers) }
    }

    /// Kicks off a DHT bootstrap, or reports at once that the routing table
    /// knows nobody to bootstrap from.
    pub fn bootstrap(&mut self, out: u64, env: &DhtEnv) -> (r: KadAction)
        requires
            old(self).wf(),
            old(self).next_query_id < u64::MAX,
        ensures
            final(self).wf(),
            final(self).config == old(self).config,
            final(self).pending_peers == old(self).pending_peers,
            final(self).failed_peers == old(self).failed_peers,
            env.has_known_peers ==> {
                &&& final(self).queries@ == old(self).queries@.push(
                    (old(self).next_query_id, PendingQuery::Unit(out)),
                )
                &&& final(self).next_query_id == old(self).next_query_id + 1
                &&& r@ == (KadActionModel::StartBootstrap { query_id: old(self).next_query_id })
            },
            !env.has_known_peers ==> {
                &&& *final(self) == *old(self)
                &&& r@ == (KadActionModel::ReplyUnit {
                    out,
                    result: Err(KademliaError::NoKnownPeers),
                })
            },
    {
        if env.has_known_peers {
            let qid = self.next_query_id;
            self.queries.push((qid, PendingQuery::Unit(out)));
            self.next_query_id = qid + 1;
            proof {
                lemma_queries_push_wf(old(self).queries@, qid, PendingQuery::Unit(out));
                assert(self.pending_v() == old(self).pending_v());
            }
            KadAction::StartBootstrap { query_id: qid }
        } else {
            KadAction::ReplyUnit { out, result: Err(KademliaError::NoKnownPeers) }
        }
    }

    /// Starts a remote neighborhood lookup: a closest-peers query for the
    /// key, answered when the DHT finishes.
    pub fn remote_neighborhood(&mut self, key: Vec<u8>, out: u64) -> (r: KadAction)
        requires
            old(self).wf(),
            old(self).next_query_id < u64::MAX,
        ensures
            final(self).wf(),
            final(self).config == old(self).config,
            final(self).pending_peers == old(self).pending_peers,
            final(self).failed_peers == old(self).failed_peers,
            final(self).queries@ == old(self).queries@.push(
                (old(self).next_query_id, PendingQuery::Neighborhood(out)),
            ),
            final(self).next_query_id == old(self).next_query_id + 1,
            r@ == (KadActionModel::QueryClosestKey {
                query_id: old(self).next_query_id,
                key: key@,
            }),
    {
        let qid = self.next_query_id;
        self.queries.push((qid, PendingQuery::Neighborhood(out)));
        self.next_query_id = qid + 1;
        proof {
            lemma_queries_push_wf(old(self).queries@, qid, PendingQuery::Neighborhood(out));
            assert(self.pending_v() == old(self).pending_v());
        }
        KadAction::QueryClosestKey { query_id: qid, key }
    }

    /// Asks for a peer's addresses. Locally known addresses answer at once;
    /// a banned peer is refused at once; otherwise the waiter queues behind
    /// the peer, and only the first waiter starts a DHT query — a discovery
    /// already running is never repeated.
    pub fn discover_peer(&mut self, peer: PeerId, out: u64, env: &DhtEnv) -> (r: Option<
        KadAction,
    >)
        requires
            old(self).wf(),
            old(self).next_query_id < u64::MAX,
        ensures
            final(self).wf(),
            final(self).config == old(self).config,
            final(self).failed_peers == old(self).failed_peers,
            ({
                let banned = {
                    let i = find_peer_idx(old(self).failed_peers@, peer);
                    i >= 0 && old(self).failed_peers@[i].1.ban is Some
                };
                let waiting = find_peer_idx(old(self).pending_v(), peer);
                if env.local_addresses@.len() > 0 {
                    &&& *final(self) == *old(self)
                    &&& match r {
                        Some(a) => a@ == (KadActionModel::ReplyAddresses {
                            out,
                            result: Ok(addrs_view(env.local_addresses@)),
                        }),
                        None => false,
                    }
                } else if banned {
                    &&& *final(self) == *old(self)
                    &&& match r {
                        Some(a) => a@ == (KadActionModel::ReplyAddresses {
                            out,
                            result: Err(KademliaError::PeerBanned),
                        }),
                        None => false,
                    }
                } else if waiting >= 0 {
                    &&& final(self).queries == old(self).queries
                    &&& final(self).next_query_id == old(self).next_query_id
                    &&& final(self).pending_v() == old(self).pending_v().update(
                        waiting,
                        (
                            peer,
                            old(self).pending_v()[waiting].1.push(
                                PendingPeer { out, created_ms: env.now_ms },
                            ),
                        ),
                    )
                    &&& r is None
                } else {
                    &&& final(self).queries@ == old(self).queries@.push(
                        (old(self).next_query_id, PendingQuery::Peer(peer)),
                    )
                    &&& final(self).next_query_id == old(self).next_query_id + 1
                    &&& final(self).pending_v() == old(self).pending_v().push(
                        (peer, seq![PendingPeer { out, created_ms: env.now_ms }]),
                    )
                    &&& match r {
                        Some(a) => a@ == (KadActionModel::QueryClosestPeers {
                            query_id: old(self).next_query_id,
                            peer,
                        }),
                        None => false,
                    }
                }
            }),
    {
        if env.local_addresses.len() > 0 {
            return Some(
                KadAction::ReplyAddresses { out, result: Ok(clone_addrs(&env.local_addresses)) },
            );
        }
        if self.is_banned(peer) {
            return Some(
                KadAction::ReplyAddresses { out, result: Err(KademliaError::PeerBanned) },
            );
        }
        let pending = PendingPeer::new(out, env.now_ms);
        let idx = self.find_pending(peer);
        proof {
            lemma_find_peer_idx_spec(self.pending_v(), peer);
        }
        match idx {
            Some(i) => {
                let ghost pre = self.pending_v();
                let mut entry = self.pending_peers.remove(i);
                entry.1.push(pending);
                let ghost ev = (entry.0, entry.1@);
                let ghost eval = entry;
                self.pending_peers.insert(i, entry);
                proof {
                    assert(self.pending_peers@ =~= old(self).pending_peers@.update(
                        i as int,
                        eval,
                    ));
                    assert(self.pending_v() =~= pre.update(i as int, ev));
                }
                None
            },
            None => {
                let ghost pre = self.pending_v();
                let mut waiters: Vec<PendingPeer> = Vec::new();
                waiters.push(pending);
                let entry = (peer, waiters);
                let ghost ev = (entry.0, entry.1@);
                let ghost eval = entry;
                self.pending_peers.push(entry);
                proof {
                    assert(ev.1 =~= seq![PendingPeer { out, created_ms: env.now_ms }]);
                    assert(self.pending_v() =~= pre.push(ev));
                }
                let qid = self.next_query_id;
                self.queries.push((qid, PendingQuery::Peer(peer)));
                self.next_query_id = qid + 1;
                proof {
                    lemma_queries_push_wf(old(self).queries@, qid, PendingQuery::Peer(peer));
                }
                Some(KadAction::QueryClosestPeers { query_id: qid, peer })
            },
        }
    }

    /// First pending entry of a peer, if any.
    fn find_pending(&self, peer: PeerId) -> (r: Option<usize>)
        ensures
            r matches Some(i) ==> find_peer_idx(self.pending_v(), peer) == i,
            r is None ==> find_peer_idx(self.pending_v(), peer) == -1,
    {
        let mut i: usize = 0;
        while i < self.pending_peers.len()
            invariant
                i <= self.pending_peers@.len(),
                forall|j: int| 0 <= j < i ==> (#[trigger] self.pending_v()[j]).0 != peer,
            decreases self.pending_peers@.len() - i,
        {
            if self.pending_peers[i].0 == peer {
                proof {
                    assert(self.pending_v()[i as int].0 == peer);
                    lemma_find_peer_idx_spec(self.pending_v(), peer);
                }
                return Some(i);
            }
            i = i + 1;
        }
        proof {
            lemma_find_peer_idx_spec(self.pending_v(), peer);
        }
        None
    }

    /// Takes in a discovered peer: every waiter queued behind it receives
    /// the addresses, the pending entry goes away, and any failure record —
    /// a ban included — is cleared.
    pub fn peer_discovered(&mut self, peer: PeerId, addresses: &Vec<Multiaddr>) -> (r: Vec<
        KadAction,
    >)
        requires
            old(self).wf(),
        ensures
            final(self).wf(),
            final(self).config == old(self).config,
            final(self).queries == old(self).queries,
            final(self).next_query_id == old(self).next_query_id,
            final(self).pending_v() == discovered_pending(old(self).pending_v(), peer),
            r@.map_values(|a: KadAction| a@) == discovered_actions(
                old(self).pending_v(),
                peer,
                addrs_view(addresses@),
            ),
            final(self).failed_peers@ == discovered_failed(old(self).failed_peers@, peer),
    {
        let mut actions: Vec<KadAction> = Vec::new();
        let idx = self.find_pending(peer);
        proof {
            lemma_find_peer_idx_spec(self.pending_v(), peer);
        }
        match idx {
            Some(i) => {
                let ghost pre = self.pending_v();
                let entry = self.pending_peers.remove(i);
                proof {
                    assert(self.pending_v() =~= pre.remove(i as int));
                    lemma_remove_keeps_distinct(pre, i as int);
                }
                let waiters = entry.1;
                let mut w: usize = 0;
                proof {
                    assert(actions@.map_values(|a: KadAction| a@) =~= Seq::<
                        KadActionModel,
                    >::empty());
                    assert(waiters@.take(0).map_values(
                        |x: PendingPeer| KadActionModel::ReplyAddresses {
                            out: x.out,
                            result: Ok(addrs_view(addresses@)),
                        },
                    ) =~= Seq::<KadActionModel>::empty());
                }
                let ghost frozen = *self;
                while w < waiters.len()
                    invariant
                        w <= waiters@.len(),
                        *self == frozen,
                        actions@.map_values(|a: KadAction| a@) == waiters@.take(
                            w as int,
                        ).map_values(
                            |x: PendingPeer| KadActionModel::ReplyAddresses {
                                out: x.out,
                                result: Ok(addrs_view(addresses@)),
                            },
                        ),
                    decreases waiters@.len() - w,
                {
                    let ghost preact = actions@.map_values(|a: KadAction| a@);
                    actions.push(
                        KadAction::ReplyAddresses {
                            out: waiters[w].out,
                            result: Ok(clone_addrs(addresses)),
                        },
                    );
                    proof {
                        let f = |x: PendingPeer| KadActionModel::ReplyAddresses {
                            out: x.out,
                            result: Ok(addrs_view(addresses@)),
                        };
                        assert(actions@.map_values(|a: KadAction| a@) =~= preact.push(
                            f(waiters@[w as int]),
                        ));
                        assert(waiters@.take(w + 1).map_values(f).drop_last() =~= waiters@.take(
                            w as int,
                        ).map_values(f));
                        assert(actions@.map_values(|a: KadAction| a@) =~= waiters@.take(
                            w + 1,
                        ).map_values(f));
                    }
                    w = w + 1;
                }
                proof {
                    assert(waiters@.take(waiters@.len() as int) =~= waiters@);
                    assert(waiters@ == pre[i as int].1);
                }
                self.remove_failed(peer);
                proof {
                    lemma_find_peer_idx_spec(old(self).failed_peers@, peer);
                    let f = find_peer_idx(old(self).failed_peers@, peer);
                    if f >= 0 {
                        lemma_remove_keeps_distinct(old(self).failed_peers@, f);
                    }
                    assert forall|x: int|
                        0 <= x < self.pending_v().len() implies (#[trigger] self.pending_v()[x])
                        .1.len() > 0 by {
                        let x0 = if x < i as int {
                            x
                        } else {
                            x + 1
                        };
                        assert(self.pending_v()[x] == pre[x0]);
                    }
                }
                actions
            },
            None => {
                self.remove_failed(peer);
                proof {
                    lemma_find_peer_idx_spec(old(self).failed_peers@, peer);
                    let f = find_peer_idx(old(self).failed_peers@, peer);
                    if f >= 0 {
                        lemma_remove_keeps_distinct(old(self).failed_peers@, f);
                    }
                    assert(self.pending_v() == old(self).pending_v());
                }
                actions
            },
        }
    }

    /// Removes a peer's failure record, if any.
    fn remove_failed(&mut self, peer: PeerId)
        ensures
            final(self).config == old(self).config,
            final(self).queries == old(self).queries,
            final(self).next_query_id == old(self).next_query_id,
            final(self).pending_peers == old(self).pending_peers,
            ({
                let f = find_peer_idx(old(self).failed_peers@, peer);
                final(self).failed_peers@ == if f >= 0 {
                    old(self).failed_peers@.remove(f)
                } else {
                    old(self).failed_peers@
                }
            }),
    {
        let mut i: usize = 0;
        while i < self.failed_peers.len()
            invariant
                i <= self.failed_peers@.len(),
                *self == *old(self),
                forall|j: int| 0 <= j < i ==> (#[trigger] self.failed_peers@[j]).0 != peer,
            decreases self.failed_peers@.len() - i,
        {
            if self.failed_peers[i].0 == peer {
                proof {
                    lemma_find_peer_idx_spec(self.failed_peers@, peer);
                }
                self.failed_peers.remove(i);
                return ;
            }

            i = i + 1;
        }
        proof {
            lemma_find_peer_idx_spec(self.failed_peers@, peer);
        }
    }
}

/// Removing one query entry keeps the id table duplicate-free and its ids
/// below the counter.
proof fn lemma_queries_remove_wf(s: Seq<(u64, PendingQuery)>, i: int, bound: u64)
    requires
        0 <= i < s.len(),
        forall|x: int, y: int|
            0 <= x < y < s.len() ==> (#[trigger] s[x]).0 != (#[trigger] s[y]).0,
        forall|x: int| 0 <= x < s.len() ==> (#[trigger] s[x]).0 < bound,
    ensures
        forall|x: int, y: int|
            0 <= x < y < s.remove(i).len() ==> (#[trigger] s.remove(i)[x]).0
                != (#[trigger] s.remove(i)[y]).0,
        forall|x: int| 0 <= x < s.remove(i).len() ==> (#[trigger] s.remove(i)[x]).0 < bound,
{
    assert forall|x: int, y: int|
        0 <= x < y < s.remove(i).len() implies (#[trigger] s.remove(i)[x]).0 != (
    #[trigger] s.remove(i)[y]).0 by {
        let x0 = if x < i {
            x
        } else {
            x + 1
        };
        let y0 = if y < i {
            y
        } else {
            y + 1
        };
        assert(s.remove(i)[x] == s[x0]);
        assert(s.remove(i)[y] == s[y0]);
    }
    assert forall|x: int| 0 <= x < s.remove(i).len() implies (#[trigger] s.remove(i)[x]).0
        < bound by {
        let x0 = if x < i {
            x
        } else {
            x + 1
        };
        assert(s.remove(i)[x] == s[x0]);
    }
}

/// What a finished closest-peers query reports: whether it timed out, and
/// the peers it reached.
pub struct ClosestResult {
    pub timed_out: bool,
    pub peers: Vec<PeerId>,
}

/// How a neighborhood waiter is answered: peers found go back even after a
/// timeout; an empty outcome reports why it is empty.
pub open spec fn neighborhood_reply(timed_out: bool, peers: Seq<PeerId>) -> Result<
    Seq<PeerId>,
    KademliaError,
> {
    if peers.len() > 0 {
        Ok(peers)
    } else if timed_out {
        Err(KademliaError::QueryTimedOut)
    } else {
        Err(KademliaError::NoPeersFound)
    }
}

impl Kademlia {
    /// First query entry of an id, if any.
    fn find_query(&self, id: u64) -> (r: Option<usize>)
        ensures
            r matches Some(i) ==> find_query_idx(self.queries@, id) == i,
            r is None ==> find_query_idx(self.queries@, id) == -1,
    {
        let mut i: usize = 0;
        while i < self.queries.len()
            invariant
                i <= self.queries@.len(),
                forall|j: int| 0 <= j < i ==> (#[trigger] self.queries@[j]).0 != id,
            decreases self.queries@.len() - i,
        {
            if self.queries[i].0 == id {
                proof {
                    lemma_find_query_idx_spec(self.queries@, id);
                }
                return Some(i);
            }
            i = i + 1;
        }
        proof {
            lemma_find_query_idx_spec(self.queries@, id);
        }
        None
    }

    /// Takes in a finished closest-peers query. A peer discovery resolves
    /// its waiters when the DHT now knows addresses, and otherwise leaves
    /// them to time out — more addresses may arrive through other events. A
    /// neighborhood lookup is answered with whatever peers were found.
    /// `local_addresses` are the DHT's locally known addresses of the peer
    /// the query was discovering, empty for other queries.
    pub fn closest_finished(
        &mut self,
        query_id: u64,
        result: ClosestResult,
        local_addresses: &Vec<Multiaddr>,
    ) -> (r: Vec<KadAction>)
        requires
            old(self).wf(),
        ensures
            final(self).wf(),
            final(self).config == old(self).config,
            final(self).next_query_id == old(self).next_query_id,
            ({
                let qi = find_query_idx(old(self).queries@, query_id);
                if qi < 0 {
                    &&& *final(self) == *old(self)
                    &&& r@.len() == 0
                } else {
                    &&& final(self).queries@ == old(self).queries@.remove(qi)
                    &&& match old(self).queries@[qi].1 {
                        PendingQuery::Peer(p) => {
                            if local_addresses@.len() > 0 {
                                &&& final(self).pending_v() == discovered_pending(
                                    old(self).pending_v(),
                                    p,
                                )
                                &&& r@.map_values(|a: KadAction| a@) == discovered_actions(
                                    old(self).pending_v(),
                                    p,
                                    addrs_view(local_addresses@),
                                )
                                &&& final(self).failed_peers@ == discovered_failed(
                                    old(self).failed_peers@,
                                    p,
                                )
                            } else {
                                &&& final(self).pending_peers == old(self).pending_peers
                                &&& final(self).failed_peers == old(self).failed_peers
                                &&& r@.len() == 0
                            }
                        },
                        PendingQuery::Neighborhood(out) => {
                            &&& final(self).pending_peers == old(self).pending_peers
                            &&& final(self).failed_peers == old(self).failed_peers
                            &&& r@.map_values(|a: KadAction| a@) == seq![
                                KadActionModel::ReplyPeers {
                                    out,
                                    result: neighborhood_reply(result.timed_out, result.peers@),
                                },
                            ]
                        },
                        PendingQuery::Unit(out) => {
                            &&& final(self).pending_peers == old(self).pending_peers
                            &&& final(self).failed_peers == old(self).failed_peers
                            &&& r@.map_values(|a: KadAction| a@) == seq![
                                KadActionModel::ReplyUnit { out, result: Ok(()) },
                            ]
                        },
                    }
                }
            }),
    {
        let qi = match self.find_query(query_id) {
            Some(i) => i,
            None => {
                return Vec::new();
            },
        };
        proof {
            lemma_find_query_idx_spec(self.queries@, query_id);
        }
        let entry = self.queries.remove(qi);
        proof {
            lemma_queries_remove_wf(
                old(self).queries@,
                qi as int,
                old(self).next_query_id,
            );
            assert(self.pending_v() == old(self).pending_v());
        }
        match entry.1 {
            PendingQuery::Peer(p) => {
                if local_addresses.len() > 0 {
                    self.peer_discovered(p, local_addresses)
                } else {
                    let r = Vec::new();
                    proof {
                        assert(r@.map_values(|a: KadAction| a@) =~= Seq::<
                            KadActionModel,
                        >::empty());
                    }
                    r
                }
            },
            PendingQuery::Neighborhood(out) => {
                let reply = if result.peers.len() > 0 {
                    Ok(result.peers)
                } else if result.timed_out {
                    Err(KademliaError::QueryTimedOut)
                } else {
                    Err(KademliaError::NoPeersFound)
                };
                let mut r: Vec<KadAction> = Vec::new();
                r.push(KadAction::ReplyPeers { out, result: reply });
                proof {
                    assert(r@.map_values(|a: KadAction| a@) =~= seq![
                        KadActionModel::ReplyPeers {
                            out,
                            result: neighborhood_reply(result.timed_out, result.peers@),
                        },
                    ]);
                }
                r
            },
            PendingQuery::Unit(out) => {
                let mut r: Vec<KadAction> = Vec::new();
                r.push(KadAction::ReplyUnit { out, result: Ok(()) });
                proof {
                    assert(r@.map_values(|a: KadAction| a@) =~= seq![
                        KadActionModel::ReplyUnit { out, result: Ok(()) },
                    ]);
                }
                r
            },
        }
    }

    /// Takes in a finished bootstrap pass. The reply fires — and the query
    /// is closed — exactly when the DHT reports no buckets remaining:
    /// bootstrap walks on through later buckets regardless of earlier
    /// failures, so only the end of the last one completes it.
    pub fn bootstrap_finished(&mut self, query_id: u64, num_remaining: Option<u64>) -> (r:
        Option<KadAction>)
        requires
            old(self).wf(),
        ensures
            final(self).wf(),
            final(self).config == old(self).config,
            final(self).next_query_id == old(self).next_query_id,
            final(self).pending_peers == old(self).pending_peers,
            final(self).failed_peers == old(self).failed_peers,
            ({
                let qi = find_query_idx(old(self).queries@, query_id);
                if num_remaining == Some(0u64) && qi >= 0 {
                    &&& final(self).queries@ == old(self).queries@.remove(qi)
                    &&& match old(self).queries@[qi].1 {
                        PendingQuery::Unit(out) => r matches Some(a) && a@
                            == (KadActionModel::ReplyUnit { out, result: Ok(()) }),
                        _ => r is None,
                    }
                } else {
                    &&& *final(self) == *old(self)
                    &&& r is None
                }
            }),
    {
        let complete = match num_remaining {
            Some(n) => n == 0,
            None => false,
        };
        if !complete {
            return None;
        }
        let qi = match self.find_query(query_id) {
            Some(i) => i,
            None => {
                return None;
            },
        };
        proof {
            lemma_find_query_idx_spec(self.queries@, query_id);
        }
        let entry = self.queries.remove(qi);
        proof {
            lemma_queries_remove_wf(
                old(self).queries@,
                qi as int,
                old(self).next_query_id,
            );
            assert(self.pending_v() == old(self).pending_v());
        }
        match entry.1 {
            PendingQuery::Unit(out) => Some(KadAction::ReplyUnit { out, result: Ok(()) }),
            _ => None,
        }
    }
}

/// What the DHT reports back to the behaviour.
#[derive(Debug)]
pub enum KademliaEvent {
    /// A closest-peers query finished, normally or by timeout.
    ClosestPeersFinished { id: u64, timed_out: bool, peers: Vec<PeerId> },
    /// One bootstrap pass finished; how many buckets are left to try.
    BootstrapFinished { id: u64, num_remaining: Option<u64> },
    /// The routing table learned addresses of a peer.
    RoutingUpdated { peer: PeerId, addresses: Vec<Multiaddr> },
    /// A peer turned out reachable at an address.
    RoutablePeer { peer: PeerId, address: Multiaddr },
    /// A peer may be reachable at an address.
    PendingRoutablePeer { peer: PeerId, address: Multiaddr },
    /// A peer has no known address; nothing to act on.
    UnroutablePeer { peer: PeerId },
    /// An inbound DHT request; nothing to act on.
    InboundRequest,
    /// The DHT changed between client and server mode; nothing to act on.
    ModeChanged,
}

impl Kademlia {
    /// Dispatches one DHT event: finished queries resolve their waiters,
    /// and any sign that a peer is routable counts as its discovery.
    /// `local_addresses` are the DHT's locally known addresses of the peer a
    /// finished closest-peers query was discovering, empty otherwise.
    pub fn inject_kad_event(
        &mut self,
        event: KademliaEvent,
        local_addresses: &Vec<Multiaddr>,
    ) -> (r: Vec<KadAction>)
        requires
            old(self).wf(),
        ensures
            final(self).wf(),
            final(self).config == old(self).config,
            final(self).next_query_id == old(self).next_query_id,
            match event {
                KademliaEvent::RoutingUpdated { peer, addresses } => {
                    &&& final(self).queries == old(self).queries
                    &&& final(self).pending_v() == discovered_pending(
                        old(self).pending_v(),
                        peer,
                    )
                    &&& r@.map_values(|a: KadAction| a@) == discovered_actions(
                        old(self).pending_v(),
                        peer,
                        addrs_view(addresses@),
                    )
                    &&& final(self).failed_peers@ == discovered_failed(
                        old(self).failed_peers@,
                        peer,
                    )
                },
                KademliaEvent::RoutablePeer { peer, address } => {
                    &&& final(self).queries == old(self).queries
                    &&& final(self).pending_v() == discovered_pending(
                        old(self).pending_v(),
                        peer,
                    )
                    &&& r@.map_values(|a: KadAction| a@) == discovered_actions(
                        old(self).pending_v(),
                        peer,
                        seq![address@],
                    )
                    &&& final(self).failed_peers@ == discovered_failed(
                        old(self).failed_peers@,
                        peer,
                    )
                },
                KademliaEvent::PendingRoutablePeer { peer, address } => {
                    &&& final(self).queries == old(self).queries
                    &&& final(self).pending_v() == discovered_pending(
                        old(self).pending_v(),
                        peer,
                    )
                    &&& r@.map_values(|a: KadAction| a@) == discovered_actions(
                        old(self).pending_v(),
                        peer,
                        seq![address@],
                    )
                    &&& final(self).failed_peers@ == discovered_failed(
                        old(self).failed_peers@,
                        peer,
                    )
                },
                KademliaEvent::UnroutablePeer { .. } => *final(self) == *old(self) && r@.len()
                    == 0,
                KademliaEvent::InboundRequest => *final(self) == *old(self) && r@.len() == 0,
                KademliaEvent::ModeChanged => *final(self) == *old(self) && r@.len() == 0,
                KademliaEvent::ClosestPeersFinished { id, timed_out, peers } => ({
                    let qi = find_query_idx(old(self).queries@, id);
                    if qi < 0 {
                        &&& *final(self) == *old(self)
                        &&& r@.len() == 0
                    } else {
                        &&& final(self).queries@ == old(self).queries@.remove(qi)
                        &&& match old(self).queries@[qi].1 {
                            PendingQuery::Peer(p) => {
                                if local_addresses@.len() > 0 {
                                    &&& final(self).pending_v() == discovered_pending(
                                        old(self).pending_v(),
                                        p,
                                    )
                                    &&& r@.map_values(|a: KadAction| a@) == discovered_actions(
                                        old(self).pending_v(),
                                        p,
                                        addrs_view(local_addresses@),
                                    )
                                    &&& final(self).failed_peers@ == discovered_failed(
                                        old(self).failed_peers@,
                                        p,
                                    )
                                } else {
                                    &&& final(self).pending_peers == old(self).pending_peers
                                    &&& final(self).failed_peers == old(self).failed_peers
                                    &&& r@.len() == 0
                                }
                            },
                            PendingQuery::Neighborhood(out) => {
                                &&& final(self).pending_peers == old(self).pending_peers
                                &&& final(self).failed_peers == old(self).failed_peers
                                &&& r@.map_values(|a: KadAction| a@) == seq![
                                    KadActionModel::ReplyPeers {
                                        out,
                                        result: neighborhood_reply(timed_out, peers@),
                                    },
                                ]
                            },
                            PendingQuery::Unit(out) => {
                                &&& final(self).pending_peers == old(self).pending_peers
                                &&& final(self).failed_peers == old(self).failed_peers
                                &&& r@.map_values(|a: KadAction| a@) == seq![
                                    KadActionModel::ReplyUnit { out, result: Ok(()) },
                                ]
                            },
                        }
                    }
                }),
                KademliaEvent::BootstrapFinished { id, num_remaining } => ({
                    let qi = find_query_idx(old(self).queries@, id);
                    &&& final(self).pending_peers == old(self).pending_peers
                    &&& final(self).failed_peers == old(self).failed_peers
                    &&& if num_remaining == Some(0u64) && qi >= 0 {
                        &&& final(self).queries@ == old(self).queries@.remove(qi)
                        &&& match old(self).queries@[qi].1 {
                            PendingQuery::Unit(out) => r@.map_values(|a: KadAction| a@) == seq![
                                KadActionModel::ReplyUnit { out, result: Ok(()) },
                            ],
                            _ => r@.len() == 0,
                        }
                    } else {
                        &&& *final(self) == *old(self)
                        &&& r@.len() == 0
                    }
                }),
            },
    {
        match event {
            KademliaEvent::ClosestPeersFinished { id, timed_out, peers } => self.closest_finished(
                id,
                ClosestResult { timed_out, peers },
                local_addresses,
            ),
            KademliaEvent::BootstrapFinished { id, num_remaining } => {
                let mut r: Vec<KadAction> = Vec::new();
                match self.bootstrap_finished(id, num_remaining) {
                    Some(a) => {
                        let ghost av = a@;
                        r.push(a);
                        proof {
                            assert(r@.map_values(|x: KadAction| x@) =~= seq![av]);
                        }
                    },
                    None => {
                        proof {
                            assert(r@.map_values(|x: KadAction| x@) =~= Seq::<
                                KadActionModel,
                            >::empty());
                        }
                    },
                }
                r
            },
            KademliaEvent::RoutingUpdated { peer, addresses } => self.peer_discovered(
                peer,
                &addresses,
            ),
            KademliaEvent::RoutablePeer { peer, address } => {
                let mut addrs: Vec<Multiaddr> = Vec::new();
                let ghost av = address@;
                addrs.push(address);
                proof {
                    assert(addrs_view(addrs@) =~= seq![av]);
                }
                self.peer_discovered(peer, &addrs)
            },
            KademliaEvent::PendingRoutablePeer { peer, address } => {
                let mut addrs: Vec<Multiaddr> = Vec::new();
                let ghost av = address@;
                addrs.push(address);
                proof {
                    assert(addrs_view(addrs@) =~= seq![av]);
                }
                self.peer_discovered(peer, &addrs)
            },
            KademliaEvent::UnroutablePeer { .. } => Vec::new(),
            KademliaEvent::InboundRequest => Vec::new(),
            KademliaEvent::ModeChanged => Vec::new(),
        }
    }
}

/// Whether a waiter has waited out its allotted time — twice the query
/// timeout.
pub open spec fn waiter_expired(w: PendingPeer, now_ms: u64, timeout2: u64) -> bool {
    elapsed_ms(now_ms, w.created_ms) >= timeout2
}

/// One pass over the pending table: the entries kept (expired waiters
/// removed, emptied entries dropped), the timeout replies in table order,
/// and the peers that had at least one waiter time out.
pub open spec fn sweep_pending(
    entries: Seq<(PeerId, Seq<PendingPeer>)>,
    now_ms: u64,
    timeout2: u64,
) -> (Seq<(PeerId, Seq<PendingPeer>)>, Seq<KadActionModel>, Seq<PeerId>)
    decreases entries.len(),
{
    if entries.len() == 0 {
        (
            Seq::<(PeerId, Seq<PendingPeer>)>::empty(),
            Seq::<KadActionModel>::empty(),
            Seq::<PeerId>::empty(),
        )
    } else {
        let r = sweep_pending(entries.drop_last(), now_ms, timeout2);
        let e = entries.last();
        let kept_ws = e.1.filter(|w: PendingPeer| !waiter_expired(w, now_ms, timeout2));
        let expired_ws = e.1.filter(|w: PendingPeer| waiter_expired(w, now_ms, timeout2));
        let acts = expired_ws.map_values(
            |w: PendingPeer| KadActionModel::ReplyAddresses {
                out: w.out,
                result: Err(KademliaError::PeerTimedOut),
            },
        );
        (
            if kept_ws.len() > 0 {
                r.0.push((e.0, kept_ws))
            } else {
                r.0
            },
            r.1 + acts,
            if expired_ws.len() > 0 {
                r.2.push(e.0)
            } else {
                r.2
            },
        )
    }
}

/// One failure more for a peer: its record's count grows by one, a missing
/// record starts at one, and a count already at the maximum stays put.
pub open spec fn bump_failed(failed: Seq<(PeerId, FailedPeer)>, peer: PeerId) -> Seq<
    (PeerId, FailedPeer),
> {
    let i = find_peer_idx(failed, peer);
    if i >= 0 {
        let f = failed[i].1;
        if f.count < usize::MAX {
            failed.update(i, (peer, FailedPeer { ban: f.ban, count: (f.count + 1) as usize }))
        } else {
            failed
        }
    } else {
        failed.push((peer, FailedPeer { ban: None, count: 1 }))
    }
}

/// One failure more for each peer of a list, in order.
pub open spec fn bump_all(failed: Seq<(PeerId, FailedPeer)>, hits: Seq<PeerId>) -> Seq<
    (PeerId, FailedPeer),
>
    decreases hits.len(),
{
    if hits.len() == 0 {
        failed
    } else {
        bump_all(bump_failed(failed, hits[0]), hits.drop_first())
    }
}

/// The failure table after the ban pass: a ban past its cooldown clears the
/// whole record; a count at or past the threshold sets — or refreshes — the
/// ban; everything else stays.
pub open spec fn sweep_failed(
    failed: Seq<(PeerId, FailedPeer)>,
    now_ms: u64,
    cooldown_ms: u64,
    threshold: usize,
) -> Seq<(PeerId, FailedPeer)>
    decreases failed.len(),
{
    if failed.len() == 0 {
        Seq::<(PeerId, FailedPeer)>::empty()
    } else {
        let r = sweep_failed(failed.drop_last(), now_ms, cooldown_ms, threshold);
        let e = failed.last();
        let unban = match e.1.ban {
            Some(b) => elapsed_ms(now_ms, b) >= cooldown_ms,
            None => false,
        };
        if unban {
            r
        } else {
            let f2 = if e.1.count >= threshold {
                FailedPeer { ban: Some(now_ms), count: e.1.count }
            } else {
                e.1
            };
            r.push((e.0, f2))
        }
    }
}

/// When the sweep must run again for one entry's waiters: no later than the
/// earliest moment a still-pending waiter can expire.
pub open spec fn wake_entry(ws: Seq<PendingPeer>, now_ms: u64, timeout2: u64, acc: u64) -> u64
    decreases ws.len(),
{
    if ws.len() == 0 {
        acc
    } else {
        let a = wake_entry(ws.drop_last(), now_ms, timeout2, acc);
        let w = ws.last();
        if !waiter_expired(w, now_ms, timeout2) {
            min_u64((timeout2 - elapsed_ms(now_ms, w.created_ms)) as u64, a)
        } else {
            a
        }
    }
}

/// When the sweep must run again for the whole pending table.
pub open spec fn wake_pending(
    entries: Seq<(PeerId, Seq<PendingPeer>)>,
    now_ms: u64,
    timeout2: u64,
    acc: u64,
) -> u64
    decreases entries.len(),
{
    if entries.len() == 0 {
        acc
    } else {
        wake_entry(
            entries.last().1,
            now_ms,
            timeout2,
            wake_pending(entries.drop_last(), now_ms, timeout2, acc),
        )
    }
}

/// When the sweep must run again for the bans: no later than the earliest
/// moment a standing ban can run out.
pub open spec fn wake_failed(
    failed: Seq<(PeerId, FailedPeer)>,
    now_ms: u64,
    cooldown_ms: u64,
    acc: u64,
) -> u64
    decreases failed.len(),
{
    if failed.len() == 0 {
        acc
    } else {
        let a = wake_failed(failed.drop_last(), now_ms, cooldown_ms, acc);
        match failed.last().1.ban {
            Some(b) => if elapsed_ms(now_ms, b) >= cooldown_ms {
                a
            } else {
                min_u64((cooldown_ms - elapsed_ms(now_ms, b)) as u64, a)
            },
            None => a,
        }
    }
}

/// Copies a waiter list.
fn clone_waiters(v: &Vec<PendingPeer>) -> (r: Vec<PendingPeer>)
    ensures
        r@ == v@,
{
    let mut r: Vec<PendingPeer> = Vec::new();
    let mut i: usize = 0;
    while i < v.len()
        invariant
            i <= v@.len(),
            r@ == v@.take(i as int),
        decreases v@.len() - i,
    {
        proof {
            assert(v@.take(i + 1).drop_last() =~= v@.take(i as int));
        }
        r.push(v[i]);
        proof {
            assert(r@ =~= v@.take(i + 1));
        }
        i = i + 1;
    }
    proof {
        assert(v@.take(v@.len() as int) =~= v@);
    }
    r
}

/// Splits one entry's waiters into those still waiting and those timed out,
/// shrinking `wake` to the earliest coming expiry.
fn sweep_entry(ws: Vec<PendingPeer>, now_ms: u64, timeout2: u64, wake: &mut u64) -> (r: (
    Vec<PendingPeer>,
    Vec<PendingPeer>,
))
    ensures
        r.0@ == ws@.filter(|w: PendingPeer| !waiter_expired(w, now_ms, timeout2)),
        r.1@ == ws@.filter(|w: PendingPeer| waiter_expired(w, now_ms, timeout2)),
        *final(wake) == wake_entry(ws@, now_ms, timeout2, *old(wake)),
{
    let mut kept: Vec<PendingPeer> = Vec::new();
    let mut expired: Vec<PendingPeer> = Vec::new();
    let mut i: usize = 0;
    proof {
        reveal(Seq::filter);
        assert(ws@.take(0) =~= Seq::<PendingPeer>::empty());
        assert(kept@ =~= ws@.take(0).filter(|w: PendingPeer| !waiter_expired(w, now_ms, timeout2)));
        assert(expired@ =~= ws@.take(0).filter(
            |w: PendingPeer| waiter_expired(w, now_ms, timeout2),
        ));
    }
    while i < ws.len()
        invariant
            i <= ws@.len(),
            kept@ == ws@.take(i as int).filter(
                |w: PendingPeer| !waiter_expired(w, now_ms, timeout2),
            ),
            expired@ == ws@.take(i as int).filter(
                |w: PendingPeer| waiter_expired(w, now_ms, timeout2),
            ),
            *wake == wake_entry(ws@.take(i as int), now_ms, timeout2, *old(wake)),
        decreases ws@.len() - i,
    {
        proof {
            reveal(Seq::filter);
            assert(ws@.take(i + 1).drop_last() =~= ws@.take(i as int));
            assert(ws@.take(i + 1).last() == ws@[i as int]);
        }
        let w = ws[i];
        if has_timed_out(now_ms, w.created_ms, timeout2, wake) {
            expired.push(w);
        } else {
            kept.push(w);
        }
        i = i + 1;
    }
    proof {
        assert(ws@.take(ws@.len() as int) =~= ws@);
    }
    (kept, expired)
}

impl Kademlia {
    /// One failure more for a peer's record, creating it if missing.
    fn bump(&mut self, peer: PeerId)
        ensures
            final(self).config == old(self).config,
            final(self).queries == old(self).queries,
            final(self).next_query_id == old(self).next_query_id,
            final(self).pending_peers == old(self).pending_peers,
            final(self).failed_peers@ == bump_failed(old(self).failed_peers@, peer),
    {
        let mut i: usize = 0;
        while i < self.failed_peers.len()
            invariant
                i <= self.failed_peers@.len(),
                *self == *old(self),
                forall|j: int| 0 <= j < i ==> (#[trigger] self.failed_peers@[j]).0 != peer,
            decreases self.failed_peers@.len() - i,
        {
            if self.failed_peers[i].0 == peer {
                proof {
                    lemma_find_peer_idx_spec(self.failed_peers@, peer);
                }
                let mut f = self.failed_peers[i].1;
                if f.count < usize::MAX {
                    f.increment();
                    self.failed_peers.set(i, (peer, f));
                }
                return ;
            }
            i = i + 1;
        }
        proof {
            lemma_find_peer_idx_spec(self.failed_peers@, peer);
        }
        self.failed_peers.push((peer, FailedPeer { ban: None, count: 1 }));
    }
}

impl Kademlia {
    /// The periodic sweep: times out waiters that have waited twice the
    /// query timeout, counts a failure against each peer that had one, bans
    /// peers at the failure threshold, lifts bans past their cooldown, and
    /// says when to sweep next — or that nothing is pending and no timer is
    /// needed. After a sweep no overdue waiter remains: each has been
    /// answered, with addresses earlier or with `PeerTimedOut` here.
    pub fn sweep(&mut self, now_ms: u64) -> (r: (Vec<KadAction>, Option<u64>))
        requires
            old(self).wf(),
        ensures
            final(self).wf(),
            final(self).config == old(self).config,
            final(self).queries == old(self).queries,
            final(self).next_query_id == old(self).next_query_id,
            old(self).pending_v().len() == 0 && old(self).failed_peers@.len() == 0 ==> {
                &&& *final(self) == *old(self)
                &&& r.0@.len() == 0
                &&& r.1 is None
            },
            old(self).pending_v().len() > 0 || old(self).failed_peers@.len() > 0 ==> ({
                let t2 = old(self).wait_timeout();
                let cooldown = old(self).config.ban_cooldown_ms;
                let threshold = old(self).config.peer_fail_threshold;
                let wake0 = min_u64(old(self).config.query_timeout_ms, cooldown);
                let sp = sweep_pending(old(self).pending_v(), now_ms, t2);
                let bumped = bump_all(old(self).failed_peers@, sp.2);
                &&& final(self).pending_v() == sp.0
                &&& r.0@.map_values(|a: KadAction| a@) == sp.1
                &&& final(self).failed_peers@ == sweep_failed(bumped, now_ms, cooldown, threshold)
                &&& r.1 == Some(
                    wake_failed(
                        bumped,
                        now_ms,
                        cooldown,
                        wake_pending(old(self).pending_v(), now_ms, t2, wake0),
                    ),
                )
            }),
            forall|x: int, j: int|
                0 <= x < final(self).pending_v().len() && 0 <= j < (#[trigger] final(self)
                    .pending_v()[x]).1.len() ==> !waiter_expired(
                    #[trigger] final(self).pending_v()[x].1[j],
                    now_ms,
                    old(self).wait_timeout(),
                ),
    {
        if self.pending_peers.len() == 0 && self.failed_peers.len() == 0 {
            return (Vec::new(), None);
        }
        let t2 = self.config.query_timeout_ms * 2;
        let cooldown = self.config.ban_cooldown_ms;
        let threshold = self.config.peer_fail_threshold;
        let mut wake: u64 = if self.config.query_timeout_ms <= cooldown {
            self.config.query_timeout_ms
        } else {
            cooldown
        };
        let ghost wake0 = wake;
        let mut actions: Vec<KadAction> = Vec::new();
        let mut hits: Vec<PeerId> = Vec::new();
        let mut kept: Vec<(PeerId, Vec<PendingPeer>)> = Vec::new();
        let mut entries: Vec<(PeerId, Vec<PendingPeer>)> = Vec::new();
        core::mem::swap(&mut entries, &mut self.pending_peers);
        let ghost pend0 = old(self).pending_v();
        let ghost n0 = pend0.len() as int;
        proof {
            assert(entries@.map_values(|e: (PeerId, Vec<PendingPeer>)| (e.0, e.1@)) == pend0);
            assert(pend0.take(0) =~= Seq::<(PeerId, Seq<PendingPeer>)>::empty());
            assert(kept@.map_values(|e: (PeerId, Vec<PendingPeer>)| (e.0, e.1@)) =~= Seq::<
                (PeerId, Seq<PendingPeer>),
            >::empty());
            assert(actions@.map_values(|a: KadAction| a@) =~= Seq::<KadActionModel>::empty());
            assert(hits@ =~= Seq::<PeerId>::empty());
        }
        let mut i: usize = 0;
        while i < entries.len()
            invariant
                i <= entries@.len(),
                entries@.map_values(|e: (PeerId, Vec<PendingPeer>)| (e.0, e.1@)) == pend0,
                t2 == (2 * self.config.query_timeout_ms) as u64,
                self.config == old(self).config,
                self.queries == old(self).queries,
                self.next_query_id == old(self).next_query_id,
                self.failed_peers == old(self).failed_peers,
                kept@.map_values(|e: (PeerId, Vec<PendingPeer>)| (e.0, e.1@)) == sweep_pending(
                    pend0.take(i as int),
                    now_ms,
                    t2,
                ).0,
                actions@.map_values(|a: KadAction| a@) == sweep_pending(
                    pend0.take(i as int),
                    now_ms,
                    t2,
                ).1,
                hits@ == sweep_pending(pend0.take(i as int), now_ms, t2).2,
                wake == wake_pending(pend0.take(i as int), now_ms, t2, wake0),
            decreases entries@.len() - i,
        {
            proof {
                assert(pend0.take(i + 1).drop_last() =~= pend0.take(i as int));
                assert(pend0.take(i + 1).last() == pend0[i as int]);
            }
            let e_peer = entries[i].0;
            let e_ws = clone_waiters(&entries[i].1);
            proof {
                assert(e_ws@ == pend0[i as int].1);
                assert(e_peer == pend0[i as int].0);
            }
            let (kept_ws, expired_ws) = sweep_entry(e_ws, now_ms, t2, &mut wake);
            let mut w: usize = 0;
            let ghost act_f = |x: PendingPeer| KadActionModel::ReplyAddresses {
                out: x.out,
                result: Err(KademliaError::PeerTimedOut),
            };
            let ghost pre_actions = actions@.map_values(|a: KadAction| a@);
            proof {
                assert(expired_ws@.take(0).map_values(act_f) =~= Seq::<KadActionModel>::empty());
                assert(pre_actions + expired_ws@.take(0).map_values(act_f) =~= pre_actions);
            }
            while w < expired_ws.len()
                invariant
                    w <= expired_ws@.len(),
                    actions@.map_values(|a: KadAction| a@) == pre_actions + expired_ws@.take(
                        w as int,
                    ).map_values(act_f),
                    act_f == (|x: PendingPeer| KadActionModel::ReplyAddresses {
                        out: x.out,
                        result: Err(KademliaError::PeerTimedOut),
                    }),
                decreases expired_ws@.len() - w,
            {
                let ghost pa = actions@.map_values(|a: KadAction| a@);
                actions.push(
                    KadAction::ReplyAddresses {
                        out: expired_ws[w].out,
                        result: Err(KademliaError::PeerTimedOut),
                    },
                );
                proof {
                    assert(actions@.map_values(|a: KadAction| a@) =~= pa.push(
                        act_f(expired_ws@[w as int]),
                    ));
                    assert(expired_ws@.take(w + 1).map_values(act_f).drop_last()
                        =~= expired_ws@.take(w as int).map_values(act_f));
                    assert(actions@.map_values(|a: KadAction| a@) =~= pre_actions
                        + expired_ws@.take(w + 1).map_values(act_f));
                }
                w = w + 1;
            }
            proof {
                assert(expired_ws@.take(expired_ws@.len() as int) =~= expired_ws@);
            }
            if expired_ws.len() > 0 {
                hits.push(e_peer);
            }
            if kept_ws.len() > 0 {
                let ghost pre_kept = kept@.map_values(
                    |e: (PeerId, Vec<PendingPeer>)| (e.0, e.1@),
                );
                let ghost kwsv = kept_ws@;
                kept.push((e_peer, kept_ws));
                proof {
                    assert(kept@.map_values(|e: (PeerId, Vec<PendingPeer>)| (e.0, e.1@))
                        =~= pre_kept.push((pend0[i as int].0, kwsv)));
                }
            }
            i = i + 1;
        }
        proof {
            assert(pend0.take(n0) =~= pend0);
        }
        self.pending_peers = kept;
        let ghost failed0 = old(self).failed_peers@;
        let ghost hits_all = hits@;
        let mut k: usize = 0;
        proof {
            assert(hits@.skip(0) =~= hits@);
        }
        while k < hits.len()
            invariant
                k <= hits@.len(),
                hits@ == hits_all,
                self.config == old(self).config,
                self.queries == old(self).queries,
                self.next_query_id == old(self).next_query_id,
                self.pending_peers == kept,
                bump_all(self.failed_peers@, hits_all.skip(k as int)) == bump_all(
                    failed0,
                    hits_all,
                ),
            decreases hits@.len() - k,
        {
            let ghost pre_failed = self.failed_peers@;
            self.bump(hits[k]);
            proof {
                assert(hits_all.skip(k as int)[0] == hits_all[k as int]);
                assert(hits_all.skip(k as int).drop_first() =~= hits_all.skip(k + 1));
            }
            k = k + 1;
        }
        let ghost bumped = self.failed_peers@;
        let mut old_failed: Vec<(PeerId, FailedPeer)> = Vec::new();
        core::mem::swap(&mut old_failed, &mut self.failed_peers);
        let mut new_failed: Vec<(PeerId, FailedPeer)> = Vec::new();
        let mut fi: usize = 0;
        proof {
            assert(bumped.take(0) =~= Seq::<(PeerId, FailedPeer)>::empty());
            assert(new_failed@ =~= sweep_failed(bumped.take(0), now_ms, cooldown, threshold));
        }
        while fi < old_failed.len()
            invariant
                fi <= old_failed@.len(),
                old_failed@ == bumped,
                self.config == old(self).config,
                self.queries == old(self).queries,
                self.next_query_id == old(self).next_query_id,
                self.pending_peers == kept,
                new_failed@ == sweep_failed(bumped.take(fi as int), now_ms, cooldown, threshold),
                wake == wake_failed(
                    bumped.take(fi as int),
                    now_ms,
                    cooldown,
                    wake_pending(pend0, now_ms, t2, wake0),
                ),
                t2 == (2 * self.config.query_timeout_ms) as u64,
                cooldown == self.config.ban_cooldown_ms,
                threshold == self.config.peer_fail_threshold,
            decreases old_failed@.len() - fi,
        {
            proof {
                assert(bumped.take(fi + 1).drop_last() =~= bumped.take(fi as int));
                assert(bumped.take(fi + 1).last() == bumped[fi as int]);
            }
            let (p, f) = old_failed[fi];
            let unban = match f.ban {
                Some(b) => {
                    has_timed_out(now_ms, b, cooldown, &mut wake)
                },
                None => false,
            };
            if !unban {
                let f2 = if f.count >= threshold {
                    FailedPeer { ban: Some(now_ms), count: f.count }
                } else {
                    f
                };
                new_failed.push((p, f2));
            }
            fi = fi + 1;
        }
        proof {
            assert(bumped.take(bumped.len() as int) =~= bumped);
        }
        self.failed_peers = new_failed;
        proof {
            lemma_sweep_wf(old(self), self, now_ms);
        }
        (actions, Some(wake))
    }
}

/// A sweep preserves the behaviour's invariant: kept pending entries are a
/// selection of the old ones under the same peers, no kept entry is empty,
/// and the failure table's peers stay unique through bumping and banning.
proof fn lemma_sweep_wf(pre: &Kademlia, post: &Kademlia, now_ms: u64)
    requires
        pre.wf(),
        post.config == pre.config,
        post.queries == pre.queries,
        post.next_query_id == pre.next_query_id,
        post.pending_v() == sweep_pending(pre.pending_v(), now_ms, pre.wait_timeout()).0,
        post.failed_peers@ == sweep_failed(
            bump_all(
                pre.failed_peers@,
                sweep_pending(pre.pending_v(), now_ms, pre.wait_timeout()).2,
            ),
            now_ms,
            pre.config.ban_cooldown_ms,
            pre.config.peer_fail_threshold,
        ),
    ensures
        post.wf(),
        forall|x: int, j: int|
            0 <= x < post.pending_v().len() && 0 <= j < (#[trigger] post.pending_v()[x]).1.len()
                ==> !waiter_expired(
                #[trigger] post.pending_v()[x].1[j],
                now_ms,
                pre.wait_timeout(),
            ),
{
    let t2 = pre.wait_timeout();
    lemma_sweep_pending_props(pre.pending_v(), now_ms, t2);
    let bumped = bump_all(
        pre.failed_peers@,
        sweep_pending(pre.pending_v(), now_ms, t2).2,
    );
    lemma_bump_all_distinct(pre.failed_peers@, sweep_pending(pre.pending_v(), now_ms, t2).2);
    lemma_sweep_failed_distinct(
        bumped,
        now_ms,
        pre.config.ban_cooldown_ms,
        pre.config.peer_fail_threshold,
    );
}

/// The entries a pending sweep keeps: peers drawn from the old table in
/// order, each with a non-empty list of still-unexpired waiters.
proof fn lemma_sweep_pending_props(
    entries: Seq<(PeerId, Seq<PendingPeer>)>,
    now_ms: u64,
    timeout2: u64,
)
    ensures
        ({
            let kept = sweep_pending(entries, now_ms, timeout2).0;
            &&& forall|x: int|
                0 <= x < kept.len() ==> exists|i: int|
                    0 <= i < entries.len() && (#[trigger] kept[x]).0 == entries[i].0
            &&& forall|x: int, y: int|
                0 <= x < y < kept.len() ==> exists|i: int, j: int|
                    0 <= i < j < entries.len() && (#[trigger] kept[x]).0 == entries[i].0 && (
                    #[trigger] kept[y]).0 == entries[j].0
            &&& forall|x: int| 0 <= x < kept.len() ==> (#[trigger] kept[x]).1.len() > 0
            &&& forall|x: int, j: int|
                0 <= x < kept.len() && 0 <= j < (#[trigger] kept[x]).1.len() ==> !waiter_expired(
                    #[trigger] kept[x].1[j],
                    now_ms,
                    timeout2,
                )
        }),
    decreases entries.len(),
{
    if entries.len() > 0 {
        lemma_sweep_pending_props(entries.drop_last(), now_ms, timeout2);
        let kept = sweep_pending(entries, now_ms, timeout2).0;
        let kt = sweep_pending(entries.drop_last(), now_ms, timeout2).0;
        let e = entries.last();
        let kept_ws = e.1.filter(|w: PendingPeer| !waiter_expired(w, now_ms, timeout2));
        broadcast use vstd::seq_lib::group_filter_ensures;

        assert forall|i: int|
            0 <= i < entries.drop_last().len() implies entries.drop_last()[i]
            == entries[i] by {}
        if kept_ws.len() > 0 {
            assert(kept == kt.push((e.0, kept_ws)));
            assert forall|x: int| 0 <= x < kept.len() implies exists|i: int|
                0 <= i < entries.len() && (#[trigger] kept[x]).0 == entries[i].0 by {
                if x < kt.len() {
                    assert(kept[x] == kt[x]);
                    let i = choose|i: int|
                        0 <= i < entries.drop_last().len() && (kt[x]).0 == entries.drop_last()[i].0;
                    assert(kept[x].0 == entries[i].0);
                } else {
                    assert(kept[x].0 == entries[entries.len() - 1].0);
                }
            }
            assert forall|x: int, y: int| 0 <= x < y < kept.len() implies exists|i: int, j: int|
                0 <= i < j < entries.len() && (#[trigger] kept[x]).0 == entries[i].0 && (
            #[trigger] kept[y]).0 == entries[j].0 by {
                if y < kt.len() {
                    assert(kept[x] == kt[x] && kept[y] == kt[y]);
                    let (i, j) = choose|i: int, j: int|
                        0 <= i < j < entries.drop_last().len() && (kt[x]).0
                            == entries.drop_last()[i].0 && (kt[y]).0 == entries.drop_last()[j].0;
                    assert(kept[x].0 == entries[i].0 && kept[y].0 == entries[j].0);
                } else {
                    assert(kept[x] == kt[x]);
                    let i = choose|i: int|
                        0 <= i < entries.drop_last().len() && (kt[x]).0 == entries.drop_last()[i].0;
                    assert(kept[x].0 == entries[i].0 && kept[y].0 == entries[entries.len()
                        - 1].0);
                }
            }
        } else {
            assert(kept == kt);
            assert forall|x: int| 0 <= x < kept.len() implies exists|i: int|
                0 <= i < entries.len() && (#[trigger] kept[x]).0 == entries[i].0 by {
                let i = choose|i: int|
                    0 <= i < entries.drop_last().len() && (kt[x]).0 == entries.drop_last()[i].0;
                assert(kept[x].0 == entries[i].0);
            }
            assert forall|x: int, y: int| 0 <= x < y < kept.len() implies exists|i: int, j: int|
                0 <= i < j < entries.len() && (#[trigger] kept[x]).0 == entries[i].0 && (
            #[trigger] kept[y]).0 == entries[j].0 by {
                let (i, j) = choose|i: int, j: int|
                    0 <= i < j < entries.drop_last().len() && (kt[x]).0 == entries.drop_last()[i].0 && (kt[y]).0 == entries.drop_last()[j].0;
                assert(kept[x].0 == entries[i].0 && kept[y].0 == entries[j].0);
            }
        }
    }
}

/// Bumping failure counts never duplicates a peer in the failure table.
proof fn lemma_bump_all_distinct(failed: Seq<(PeerId, FailedPeer)>, hits: Seq<PeerId>)
    requires
        forall|x: int, y: int|
            0 <= x < y < failed.len() ==> (#[trigger] failed[x]).0 != (#[trigger] failed[y]).0,
    ensures
        forall|x: int, y: int|
            0 <= x < y < bump_all(failed, hits).len() ==> (#[trigger] bump_all(failed, hits)[x]).0
                != (#[trigger] bump_all(failed, hits)[y]).0,
    decreases hits.len(),
{
    if hits.len() > 0 {
        let b = bump_failed(failed, hits[0]);
        let i = find_peer_idx(failed, hits[0]);
        lemma_find_peer_idx_spec(failed, hits[0]);
        assert forall|x: int, y: int|
            0 <= x < y < b.len() implies (#[trigger] b[x]).0 != (#[trigger] b[y]).0 by {
            if i >= 0 {
                assert(b[x].0 == failed[x].0 && b[y].0 == failed[y].0);
            } else {
                if y == failed.len() {
                    assert(b[x].0 == failed[x].0);
                    assert(b[y].0 == hits[0]);
                } else {
                    assert(b[x].0 == failed[x].0 && b[y].0 == failed[y].0);
                }
            }
        }
        lemma_bump_all_distinct(b, hits.drop_first());
        assert(bump_all(failed, hits) == bump_all(b, hits.drop_first()));
    }
}

/// The ban pass never duplicates a peer in the failure table.
proof fn lemma_sweep_failed_distinct(
    failed: Seq<(PeerId, FailedPeer)>,
    now_ms: u64,
    cooldown_ms: u64,
    threshold: usize,
)
    requires
        forall|x: int, y: int|
            0 <= x < y < failed.len() ==> (#[trigger] failed[x]).0 != (#[trigger] failed[y]).0,
    ensures
        ({
            let r = sweep_failed(failed, now_ms, cooldown_ms, threshold);
            &&& forall|x: int|
                0 <= x < r.len() ==> exists|i: int| 0 <= i < failed.len() && (#[trigger] r[x]).0
                    == failed[i].0
            &&& forall|x: int, y: int|
                0 <= x < y < r.len() ==> exists|i: int, j: int|
                    0 <= i < j < failed.len() && (#[trigger] r[x]).0 == failed[i].0 && (
                    #[trigger] r[y]).0 == failed[j].0
            &&& forall|x: int, y: int|
                0 <= x < y < r.len() ==> (#[trigger] r[x]).0 != (#[trigger] r[y]).0
        }),
    decreases failed.len(),
{
    if failed.len() > 0 {
        lemma_sweep_failed_distinct(failed.drop_last(), now_ms, cooldown_ms, threshold);
        let r = sweep_failed(failed, now_ms, cooldown_ms, threshold);
        let rt = sweep_failed(failed.drop_last(), now_ms, cooldown_ms, threshold);
        assert forall|i: int|
            0 <= i < failed.drop_last().len() implies failed.drop_last()[i] == failed[i] by {}
        let e = failed.last();
        let unban = match e.1.ban {
            Some(b) => elapsed_ms(now_ms, b) >= cooldown_ms,
            None => false,
        };
        if unban {
            assert(r == rt);
            assert forall|x: int| 0 <= x < r.len() implies exists|i: int|
                0 <= i < failed.len() && (#[trigger] r[x]).0 == failed[i].0 by {
                let i = choose|i: int|
                    0 <= i < failed.drop_last().len() && (rt[x]).0 == failed.drop_last()[i].0;
                assert(r[x].0 == failed[i].0);
            }
            assert forall|x: int, y: int| 0 <= x < y < r.len() implies exists|i: int, j: int|
                0 <= i < j < failed.len() && (#[trigger] r[x]).0 == failed[i].0 && (
            #[trigger] r[y]).0 == failed[j].0 by {
                let (i, j) = choose|i: int, j: int|
                    0 <= i < j < failed.drop_last().len() && (rt[x]).0 == failed.drop_last()[i].0 && (rt[y]).0 == failed.drop_last()[j].0;
                assert(r[x].0 == failed[i].0 && r[y].0 == failed[j].0);
            }
        } else {
            let f2 = if e.1.count >= threshold {
                FailedPeer { ban: Some(now_ms), count: e.1.count }
            } else {
                e.1
            };
            assert(r == rt.push((e.0, f2)));
            assert forall|x: int| 0 <= x < r.len() implies exists|i: int|
                0 <= i < failed.len() && (#[trigger] r[x]).0 == failed[i].0 by {
                if x < rt.len() {
                    assert(r[x] == rt[x]);
                    let i = choose|i: int|
                        0 <= i < failed.drop_last().len() && (rt[x]).0 == failed.drop_last()[i].0;
                    assert(r[x].0 == failed[i].0);
                } else {
                    assert(r[x].0 == failed[failed.len() - 1].0);
                }
            }
            assert forall|x: int, y: int| 0 <= x < y < r.len() implies exists|i: int, j: int|
                0 <= i < j < failed.len() && (#[trigger] r[x]).0 == failed[i].0 && (
            #[trigger] r[y]).0 == failed[j].0 by {
                if y < rt.len() {
                    assert(r[x] == rt[x] && r[y] == rt[y]);
                    let (i, j) = choose|i: int, j: int|
                        0 <= i < j < failed.drop_last().len() && (rt[x]).0 == failed.drop_last()[i].0 && (rt[y]).0 == failed.drop_last()[j].0;
                    assert(r[x].0 == failed[i].0 && r[y].0 == failed[j].0);
                } else {
                    assert(r[x] == rt[x]);
                    let i = choose|i: int|
                        0 <= i < failed.drop_last().len() && (rt[x]).0 == failed.drop_last()[i].0;
                    assert(r[x].0 == failed[i].0 && r[y].0 == failed[failed.len() - 1].0);
                }
            }
            assert forall|x: int, y: int| 0 <= x < y < r.len() implies (#[trigger] r[x]).0 != (
            #[trigger] r[y]).0 by {
                let (i, j) = choose|i: int, j: int|
                    0 <= i < j < failed.len() && (r[x]).0 == failed[i].0 && (r[y]).0 == failed[j].0;
            }
        }
    }
}

/// A command to the discovery behaviour, as the front-door channel carries
/// it; waiters are opaque ids the driver maps to reply channels.
#[derive(Debug)]
pub enum Command {
    AddContact { contact: Contact },
    Bootstrap { out: u64 },
    LocalLookup { peer: PeerId, out: u64 },
    DiscoverPeer { peer: PeerId, out: u64 },
    Neighborhood { key: Vec<u8>, count: usize, out: u64 },
}

impl Kademlia {
    /// Executes one command against the DHT snapshot, handing back at most
    /// one action; each command behaves exactly as its named handler.
    pub fn execute(&mut self, cmd: Command, env: &DhtEnv) -> (r: Option<KadAction>)
        requires
            old(self).wf(),
            old(self).next_query_id < u64::MAX,
        ensures
            final(self).wf(),
            final(self).config == old(self).config,
            match cmd {
                Command::AddContact { contact } => *final(self) == *old(self) && (r matches Some(
                    a,
                ) && a@ == (KadActionModel::AddAddresses {
                    peer: contact.peer_id,
                    addresses: addrs_view(contact.addresses@),
                })),
                Command::LocalLookup { peer, out } => *final(self) == *old(self) && (r matches Some(
                    a,
                ) && a@ == (KadActionModel::ReplyAddresses {
                    out,
                    result: Ok(addrs_view(env.local_addresses@)),
                })),
                Command::Neighborhood { key, count, out } => *final(self) == *old(self) && (
                r matches Some(a) && a@ == (KadActionModel::ReplyPeers {
                    out,
                    result: Ok(
                        env.closest_local_peers@.take(
                            min_u64(count as u64, env.closest_local_peers@.len() as u64) as int,
                        ),
                    ),
                })),
                Command::Bootstrap { out } => {
                    if env.has_known_peers {
                        &&& final(self).queries@ == old(self).queries@.push(
                            (old(self).next_query_id, PendingQuery::Unit(out)),
                        )
                        &&& final(self).pending_peers == old(self).pending_peers
                        &&& final(self).failed_peers == old(self).failed_peers
                        &&& r matches Some(a) && a@ == (KadActionModel::StartBootstrap {
                            query_id: old(self).next_query_id,
                        })
                    } else {
                        &&& *final(self) == *old(self)
                        &&& r matches Some(a) && a@ == (KadActionModel::ReplyUnit {
                            out,
                            result: Err(KademliaError::NoKnownPeers),
                        })
                    }
                },
                Command::DiscoverPeer { peer, out } => {
                    let banned = {
                        let i = find_peer_idx(old(self).failed_peers@, peer);
                        i >= 0 && old(self).failed_peers@[i].1.ban is Some
                    };
                    let waiting = find_peer_idx(old(self).pending_v(), peer);
                    &&& final(self).failed_peers == old(self).failed_peers
                    &&& if env.local_addresses@.len() > 0 {
                        *final(self) == *old(self) && (r matches Some(a) && a@
                            == (KadActionModel::ReplyAddresses {
                            out,
                            result: Ok(addrs_view(env.local_addresses@)),
                        }))
                    } else if banned {
                        *final(self) == *old(self) && (r matches Some(a) && a@
                            == (KadActionModel::ReplyAddresses {
                            out,
                            result: Err(KademliaError::PeerBanned),
                        }))
                    } else if waiting >= 0 {
                        &&& final(self).queries == old(self).queries
                        &&& final(self).pending_v() == old(self).pending_v().update(
                            waiting,
                            (
                                peer,
                                old(self).pending_v()[waiting].1.push(
                                    PendingPeer { out, created_ms: env.now_ms },
                                ),
                            ),
                        )
                        &&& r is None
                    } else {
                        &&& final(self).queries@ == old(self).queries@.push(
                            (old(self).next_query_id, PendingQuery::Peer(peer)),
                        )
                        &&& final(self).pending_v() == old(self).pending_v().push(
                            (peer, seq![PendingPeer { out, created_ms: env.now_ms }]),
                        )
                        &&& r matches Some(a) && a@ == (KadActionModel::QueryClosestPeers {
                            query_id: old(self).next_query_id,
                            peer,
                        })
                    }
                },
            },
    {
        match cmd {
            Command::AddContact { contact } => Some(self.add_contact(contact)),
            Command::Bootstrap { out } => Some(self.bootstrap(out, env)),
            Command::LocalLookup { peer, out } => Some(self.local_lookup(peer, out, env)),
            Command::DiscoverPeer { peer, out } => self.discover_peer(peer, out, env),
            Command::Neighborhood { key, count, out } => Some(
                self.neighborhood(key, count, out, env),
            ),
        }
    }
}

/// Whether a record's ban has outlived the cooldown.
pub open spec fn ban_expired(f: FailedPeer, now_ms: u64, cooldown_ms: u64) -> bool {
    match f.ban {
        Some(b) => elapsed_ms(now_ms, b) >= cooldown_ms,
        None => false,
    }
}

/// The per-peer failure state machine: counting, banned once the count
/// reaches the threshold, removed once the ban outlives the cooldown. After
/// the ban pass, every kept record at or past the threshold carries a ban
/// stamped now, every kept record comes from a record whose ban had not run
/// out, and no peer whose ban ran out keeps a record.
pub proof fn lemma_sweep_failed_bans(
    failed: Seq<(PeerId, FailedPeer)>,
    now_ms: u64,
    cooldown_ms: u64,
    threshold: usize,
)
    requires
        forall|x: int, y: int|
            0 <= x < y < failed.len() ==> (#[trigger] failed[x]).0 != (#[trigger] failed[y]).0,
    ensures
        ({
            let r = sweep_failed(failed, now_ms, cooldown_ms, threshold);
            &&& forall|x: int|
                0 <= x < r.len() && (#[trigger] r[x]).1.count >= threshold ==> r[x].1.ban == Some(
                    now_ms,
                )
            &&& forall|x: int|
                0 <= x < r.len() ==> exists|i: int|
                    0 <= i < failed.len() && (#[trigger] r[x]).0 == failed[i].0 && !ban_expired(
                        failed[i].1,
                        now_ms,
                        cooldown_ms,
                    )
            &&& forall|i: int, x: int|
                0 <= i < failed.len() && ban_expired((#[trigger] failed[i]).1, now_ms, cooldown_ms)
                    && 0 <= x < r.len() ==> (#[trigger] r[x]).0 != failed[i].0
        }),
    decreases failed.len(),
{
    let r = sweep_failed(failed, now_ms, cooldown_ms, threshold);
    if failed.len() > 0 {
        lemma_sweep_failed_bans(failed.drop_last(), now_ms, cooldown_ms, threshold);
        let rt = sweep_failed(failed.drop_last(), now_ms, cooldown_ms, threshold);
        let e = failed.last();
        assert forall|i: int|
            0 <= i < failed.drop_last().len() implies failed.drop_last()[i] == failed[i] by {}
        if ban_expired(e.1, now_ms, cooldown_ms) {
            assert(r == rt);
            assert forall|x: int| 0 <= x < r.len() implies exists|i: int|
                0 <= i < failed.len() && (#[trigger] r[x]).0 == failed[i].0 && !ban_expired(
                    failed[i].1,
                    now_ms,
                    cooldown_ms,
                ) by {
                let i = choose|i: int|
                    0 <= i < failed.drop_last().len() && (rt[x]).0 == failed.drop_last()[i].0
                        && !ban_expired(failed.drop_last()[i].1, now_ms, cooldown_ms);
                assert(r[x].0 == failed[i].0 && !ban_expired(failed[i].1, now_ms, cooldown_ms));
            }
        } else {
            let f2 = if e.1.count >= threshold {
                FailedPeer { ban: Some(now_ms), count: e.1.count }
            } else {
                e.1
            };
            assert(r == rt.push((e.0, f2)));
            assert forall|x: int| 0 <= x < r.len() implies exists|i: int|
                0 <= i < failed.len() && (#[trigger] r[x]).0 == failed[i].0 && !ban_expired(
                    failed[i].1,
                    now_ms,
                    cooldown_ms,
                ) by {
                if x < rt.len() {
                    assert(r[x] == rt[x]);
                    let i = choose|i: int|
                        0 <= i < failed.drop_last().len() && (rt[x]).0 == failed.drop_last()[i].0
                            && !ban_expired(failed.drop_last()[i].1, now_ms, cooldown_ms);
                    assert(r[x].0 == failed[i].0 && !ban_expired(
                        failed[i].1,
                        now_ms,
                        cooldown_ms,
                    ));
                } else {
                    assert(r[x].0 == failed[failed.len() - 1].0 && !ban_expired(
                        failed[failed.len() - 1].1,
                        now_ms,
                        cooldown_ms,
                    ));
                }
            }
        }
        assert forall|i: int, x: int|
            0 <= i < failed.len() && ban_expired((#[trigger] failed[i]).1, now_ms, cooldown_ms)
                && 0 <= x < r.len() implies (#[trigger] r[x]).0 != failed[i].0 by {
            let i2 = choose|i2: int|
                0 <= i2 < failed.len() && (r[x]).0 == failed[i2].0 && !ban_expired(
                    failed[i2].1,
                    now_ms,
                    cooldown_ms,
                );
            if r[x].0 == failed[i].0 {
                assert(i2 != i);
                assert(failed[i2].0 == failed[i].0);
                assert(false);
            }
        }
    }
}

/// A waiter list that is overdue throughout keeps nothing.
proof fn lemma_all_expired_filter_empty(ws: Seq<PendingPeer>, now_ms: u64, timeout2: u64)
    requires
        forall|j: int| 0 <= j < ws.len() ==> waiter_expired(#[trigger] ws[j], now_ms, timeout2),
    ensures
        ws.filter(|w: PendingPeer| !waiter_expired(w, now_ms, timeout2)).len() == 0,
    decreases ws.len(),
{
    reveal(Seq::filter);
    if ws.len() > 0 {
        assert forall|j: int|
            0 <= j < ws.drop_last().len() implies waiter_expired(
            #[trigger] ws.drop_last()[j],
            now_ms,
            timeout2,
        ) by {
            assert(ws.drop_last()[j] == ws[j]);
        }
        lemma_all_expired_filter_empty(ws.drop_last(), now_ms, timeout2);
    }
}

/// A peer whose every waiter has waited out twice the query timeout is
/// swept wholly: its pending entry goes away, each of its waiters is
/// answered with `PeerTimedOut`, and the peer is listed for one discovery
/// failure, which `bump_all` then charges against its record.
pub proof fn lemma_sweep_times_out_peer(
    entries: Seq<(PeerId, Seq<PendingPeer>)>,
    now_ms: u64,
    timeout2: u64,
    i: int,
)
    requires
        0 <= i < entries.len(),
        forall|x: int, y: int|
            0 <= x < y < entries.len() ==> (#[trigger] entries[x]).0 != (#[trigger] entries[y]).0,
        forall|j: int|
            0 <= j < entries[i].1.len() ==> waiter_expired(
                #[trigger] entries[i].1[j],
                now_ms,
                timeout2,
            ),
        entries[i].1.len() > 0,
    ensures
        ({
            let sp = sweep_pending(entries, now_ms, timeout2);
            &&& forall|x: int| 0 <= x < sp.0.len() ==> (#[trigger] sp.0[x]).0 != entries[i].0
            &&& sp.2.contains(entries[i].0)
            &&& forall|j: int|
                0 <= j < entries[i].1.len() ==> sp.1.contains(
                    (KadActionModel::ReplyAddresses {
                        out: (#[trigger] entries[i].1[j]).out,
                        result: Err(KademliaError::PeerTimedOut),
                    }),
                )
        }),
    decreases entries.len(),
{
    broadcast use vstd::seq_lib::group_filter_ensures;

    let sp = sweep_pending(entries, now_ms, timeout2);
    let spt = sweep_pending(entries.drop_last(), now_ms, timeout2);
    let e = entries.last();
    let kept_ws = e.1.filter(|w: PendingPeer| !waiter_expired(w, now_ms, timeout2));
    let expired_ws = e.1.filter(|w: PendingPeer| waiter_expired(w, now_ms, timeout2));
    let act_f = |w: PendingPeer| KadActionModel::ReplyAddresses {
        out: w.out,
        result: Err(KademliaError::PeerTimedOut),
    };
    assert forall|x: int|
        0 <= x < entries.drop_last().len() implies entries.drop_last()[x] == entries[x] by {}
    if i == entries.len() - 1 {
        lemma_all_expired_filter_empty(e.1, now_ms, timeout2);
        assert(kept_ws.len() == 0);
        assert(sp.0 == spt.0);
        assert(waiter_expired(e.1[0], now_ms, timeout2));
        assert(expired_ws.contains(e.1[0]));
        assert(expired_ws.len() > 0);
        assert(sp.2 == spt.2.push(e.0));
        assert(sp.2[sp.2.len() - 1] == entries[i].0);
        assert(sp.2.contains(entries[i].0));
        lemma_sweep_pending_props(entries.drop_last(), now_ms, timeout2);
        assert forall|x: int| 0 <= x < sp.0.len() implies (#[trigger] sp.0[x]).0 != entries[i].0 by {
            let w = choose|w: int|
                0 <= w < entries.drop_last().len() && (spt.0[x]).0 == entries.drop_last()[w].0;
            assert(sp.0[x].0 == entries[w].0);
            assert(w < entries.len() - 1);
            assert(entries[w].0 != entries[i].0);
        }
        assert forall|j: int| 0 <= j < entries[i].1.len() implies sp.1.contains(
            (KadActionModel::ReplyAddresses {
                out: (#[trigger] entries[i].1[j]).out,
                result: Err(KademliaError::PeerTimedOut),
            }),
        ) by {
            assert(waiter_expired(e.1[j], now_ms, timeout2));
            assert(expired_ws.contains(e.1[j]));
            let k = choose|k: int| 0 <= k < expired_ws.len() && expired_ws[k] == e.1[j];
            let acts = expired_ws.map_values(act_f);
            assert(acts[k] == act_f(e.1[j]));
            assert(sp.1 == spt.1 + acts);
            assert(sp.1[spt.1.len() + k] == acts[k]);
        }
    } else {
        assert forall|j: int|
            0 <= j < entries.drop_last()[i].1.len() implies waiter_expired(
            #[trigger] entries.drop_last()[i].1[j],
            now_ms,
            timeout2,
        ) by {
            assert(entries.drop_last()[i] == entries[i]);
        }
        lemma_sweep_times_out_peer(entries.drop_last(), now_ms, timeout2, i);
        assert(entries.drop_last()[i] == entries[i]);
        assert forall|x: int| 0 <= x < sp.0.len() implies (#[trigger] sp.0[x]).0 != entries[i].0 by {
            if kept_ws.len() > 0 {
                assert(sp.0 == spt.0.push((e.0, kept_ws)));
                if x < spt.0.len() {
                    assert(sp.0[x] == spt.0[x]);
                } else {
                    assert(sp.0[x].0 == e.0);
                    assert(e.0 == entries[entries.len() - 1].0);
                    assert(e.0 != entries[i].0);
                }
            } else {
                assert(sp.0 == spt.0);
                assert(sp.0[x] == spt.0[x]);
            }
        }
        assert(spt.2.contains(entries[i].0));
        let k2 = choose|k2: int| 0 <= k2 < spt.2.len() && spt.2[k2] == entries[i].0;
        if expired_ws.len() > 0 {
            assert(sp.2 == spt.2.push(e.0));
            assert(sp.2[k2] == entries[i].0);
        } else {
            assert(sp.2 == spt.2);
        }
        assert(sp.2.contains(entries[i].0));
        assert forall|j: int| 0 <= j < entries[i].1.len() implies sp.1.contains(
            (KadActionModel::ReplyAddresses {
                out: (#[trigger] entries[i].1[j]).out,
                result: Err(KademliaError::PeerTimedOut),
            }),
        ) by {
            let a = KadActionModel::ReplyAddresses {
                out: entries[i].1[j].out,
                result: Err(KademliaError::PeerTimedOut),
            };
            assert(spt.1.contains(a));
            let k = choose|k: int| 0 <= k < spt.1.len() && spt.1[k] == a;
            assert(sp.1 == spt.1 + expired_ws.map_values(act_f));
            assert(sp.1[k] == a);
        }
    }
}

/// Repeat discovery deduplicates: a discovery in flight leaves its pending
/// entry in the table, so the entry is found again — and `discover_peer`'s
/// waiting branch then appends the new waiter without starting a second DHT
/// query.
pub proof fn lemma_discovery_deduplicates(
    pending: Seq<(PeerId, Seq<PendingPeer>)>,
    peer: PeerId,
    ws: Seq<PendingPeer>,
)
    ensures
        find_peer_idx(pending.push((peer, ws)), peer) >= 0,
    decreases pending.len(),
{
    let p2 = pending.push((peer, ws));
    if pending.len() == 0 {
        assert(p2[0].0 == peer);
    } else if p2[0].0 != peer {
        lemma_discovery_deduplicates(pending.drop_first(), peer, ws);
        assert(p2.drop_first() =~= pending.drop_first().push((peer, ws)));
    }
}

} // verus!
