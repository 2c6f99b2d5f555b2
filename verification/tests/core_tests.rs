use aquamarine::config::{DataStoreConfig, VmConfig, VmPoolConfig};
use aquamarine::deadline::Deadline;
use aquamarine::error::AquamarineApiError;
use aquamarine::kademlia::{has_timed_out, FailedPeer, PendingPeer};
use aquamarine::particle::{ActorKey, Particle, PeerId, PeerScope};
use aquamarine::token::get_particle_token;

#[test]
fn deadline_from_timestamp_and_ttl() {
    let mut p = Particle::default();
    p.timestamp = 1000;
    p.ttl = 10;
    let deadline = Deadline::from(&p);
    assert_eq!(deadline.expires_at_ms, 1010);
    assert!(!deadline.is_expired(1009));
    assert!(deadline.is_expired(1010));
    assert!(deadline.is_expired(2000));
}

#[test]
fn deadline_saturates_at_the_end_of_time() {
    let deadline = Deadline::new(u64::MAX - 5, 10);
    assert_eq!(deadline.expires_at_ms, u64::MAX);
}

/// Base-58 of the documented sample bytes; fails if the encoder handed its
/// input back unchanged.
#[test]
fn particle_token_is_base58() {
    let signed = vec![0x04, 0x30, 0x5e, 0x2b, 0x24, 0x73, 0xf0, 0x58];
    assert_eq!(get_particle_token(&signed), "he11owor1d".to_string());
    assert_eq!(get_particle_token(&vec![]), "".to_string());
    assert_eq!(get_particle_token(&vec![0, 1, 2]), "15T".to_string());
}

#[test]
fn error_particle_ids() {
    let e = AquamarineApiError::ParticleExpired { particle_id: "a".to_string() };
    assert_eq!(e.into_particle_id(), Some("a".to_string()));
    let e = AquamarineApiError::OneshotCancelled { particle_id: "b".to_string() };
    assert_eq!(e.into_particle_id(), Some("b".to_string()));
    let e = AquamarineApiError::ExecutionTimedOut { particle_id: "c".to_string(), timeout_ms: 5 };
    assert_eq!(e.into_particle_id(), Some("c".to_string()));
    let e = AquamarineApiError::WorkerIsNotActive { worker_id: 7, particle_id: "d".to_string() };
    assert_eq!(e.into_particle_id(), Some("d".to_string()));
    // a signature failure withholds the unverified id
    let e = AquamarineApiError::SignatureVerificationFailed {
        particle_id: "e".to_string(),
        err: "bad".to_string(),
    };
    assert_eq!(e.into_particle_id(), None);
    let e = AquamarineApiError::AquamarineDied { particle_id: Some("f".to_string()) };
    assert_eq!(e.into_particle_id(), Some("f".to_string()));
    let e = AquamarineApiError::AquamarineQueueFull { particle_id: None };
    assert_eq!(e.into_particle_id(), None);
}

#[test]
fn vm_pool_config_holds_its_fields() {
    let c = VmPoolConfig::new(4, 30_000);
    assert_eq!(c.pool_size, 4);
    assert_eq!(c.execution_timeout_ms, 30_000);
}

#[test]
fn vm_config_holds_its_fields() {
    let c = VmConfig::new(
        PeerId::new(5),
        "/opt/air/interpreter.wasm".to_string(),
        Some(1 << 30),
        None,
        Some(1 << 20),
        None,
        true,
    );
    assert_eq!(c.current_peer_id, PeerId::new(5));
    assert_eq!(c.air_interpreter, "/opt/air/interpreter.wasm".to_string());
    assert_eq!(c.max_heap_size, Some(1 << 30));
    assert_eq!(c.air_size_limit, None);
    assert_eq!(c.particle_size_limit, Some(1 << 20));
    assert_eq!(c.call_result_size_limit, None);
    assert!(c.hard_limit_enabled);
}

#[test]
fn data_store_config_derives_directories() {
    let c = DataStoreConfig::new("/var/lib/node".to_string());
    assert_eq!(c.particles_dir, "/var/lib/node/particles".to_string());
    assert_eq!(c.particles_vault_dir, "/var/lib/node/vault".to_string());
    assert_eq!(c.particles_anomaly_dir, "/var/lib/node/anomaly".to_string());
}

#[test]
fn actor_key_equality_is_by_signature_and_scope() {
    let mut p = Particle::default();
    p.signature = vec![1, 2];
    let host_key = ActorKey::of(&p, PeerScope::Host);
    let host_key_again = ActorKey::of(&p, PeerScope::Host);
    assert!(host_key.eq_key(&host_key_again));
    let worker_key = ActorKey::of(
        &p,
        PeerScope::WorkerId(aquamarine::particle::WorkerId::new(1)),
    );
    assert!(!host_key.eq_key(&worker_key));
}

#[test]
fn failed_peer_counts_up() {
    let mut f = FailedPeer::default();
    assert_eq!(f.count, 0);
    assert!(f.ban.is_none());
    f.increment();
    f.increment();
    assert_eq!(f.count, 2);
    assert!(f.ban.is_none());
}

#[test]
fn pending_peer_remembers_its_birth() {
    let w = PendingPeer::new(12, 500);
    assert_eq!(w.out, 12);
    assert_eq!(w.created_ms, 500);
}

#[test]
fn has_timed_out_shrinks_the_wake() {
    let mut wake: u64 = 1000;
    // 30ms of a 100ms timeout have passed: not timed out, wake in 70ms
    assert!(!has_timed_out(130, 100, 100, &mut wake));
    assert_eq!(wake, 70);
    // a later expiry does not grow the wake back
    assert!(!has_timed_out(130, 120, 100, &mut wake));
    assert_eq!(wake, 70);
    // timed out: the wake stays as it was
    assert!(has_timed_out(250, 100, 100, &mut wake));
    assert_eq!(wake, 70);
    // a timestamp in the future counts as no time elapsed
    let mut wake2: u64 = 1000;
    assert!(!has_timed_out(50, 100, 100, &mut wake2));
    assert_eq!(wake2, 100);
}

#[test]
fn particle_clone_is_exact() {
    let mut p = Particle::default();
    p.id.push_str("x");
    p.timestamp = 7;
    p.ttl = 8;
    p.signature = vec![9];
    p.data = vec![10];
    let q = p.clone();
    assert_eq!(q.id, p.id);
    assert_eq!(q.timestamp, 7);
    assert_eq!(q.ttl, 8);
    assert_eq!(q.signature, vec![9]);
    assert_eq!(q.data, vec![10]);
}
