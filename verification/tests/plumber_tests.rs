use aquamarine::actor::ExecutionSlot;
use aquamarine::deadline::Deadline;
use aquamarine::effects::InterpretationStats;
use aquamarine::error::AquamarineApiError;
use aquamarine::particle::{Particle, PeerId, PeerScope, WorkerId};
use aquamarine::plumber::{Completion, NodeEnv, Plumber};

fn particle(ts: u64, ttl: u32) -> Particle {
    let mut particle = Particle::default();
    particle.timestamp = ts;
    particle.ttl = ttl;
    particle
}

fn host_env(now_ms: u64) -> NodeEnv {
    NodeEnv {
        now_ms,
        host_peer_id: PeerId::new(1),
        management_peers: vec![],
        active_workers: vec![],
        host_keypair: true,
        worker_keypairs: vec![],
        worker_runtimes: vec![],
        worker_deals: vec![],
        local_scopes: vec![],
    }
}

fn stats() -> InterpretationStats {
    InterpretationStats { interpretation_time_ms: 1, new_data_len: 0, success: true }
}

/// Checks that an expired actor will be removed.
#[test]
fn remove_expired() {
    let mut now: u64 = 1_700_000_000_000;
    let mut plumber: Plumber<u8> = Plumber::new(1);

    let particle = particle(now, 1);
    let deadline = Deadline::from(&particle);
    assert!(!deadline.is_expired(now));

    plumber.ingest(particle, None, PeerScope::Host, Ok(()), &vec![1, 2, 3], &host_env(now));

    assert_eq!(plumber.actors.len(), 1);
    let out = plumber.poll(vec![], false, &host_env(now));
    assert!(out.event.is_none());
    assert_eq!(plumber.actors.len(), 1);

    assert_eq!(plumber.vm_pool.free_vms(), 0);
    // pool is a single VM; report it built, let the particle run, and
    // return the VM, until the VM is free again
    plumber.vm_pool.vm_created(0, 7u8);
    let out = plumber.poll(vec![], false, &host_env(now));
    assert_eq!(out.starts.len(), 1);
    let done = Completion {
        vm_id: 0,
        stats: stats(),
        new_data: vec![],
        next_peers: vec![],
        vm: Some(7u8),
    };
    plumber.poll(vec![done], false, &host_env(now));
    assert_eq!(plumber.vm_pool.free_vms(), 1);

    now += 2;
    let out = plumber.poll(vec![], false, &host_env(now));
    assert!(out.event.is_none());
    assert_eq!(plumber.actors.len(), 0);
}

/// Checks that an expired particle won't create an actor.
#[test]
fn ignore_expired() {
    let mut now: u64 = 1_700_000_000_000;
    let mut plumber: Plumber<u8> = Plumber::new(1);
    let particle = particle(now - 100, 99);
    let deadline = Deadline::from(&particle);
    assert!(deadline.is_expired(now));

    let expected_id = particle.id.clone();
    plumber.ingest(particle, None, PeerScope::Host, Ok(()), &vec![1, 2, 3], &host_env(now));

    assert_eq!(plumber.actors.len(), 0);

    // Check actor doesn't appear after poll somehow
    now += 1000;
    let out = plumber.poll(vec![], false, &host_env(now));
    assert!(out.event.is_some());
    match out.event {
        Some(Err(AquamarineApiError::ParticleExpired { particle_id })) => {
            assert_eq!(particle_id, expected_id)
        },
        unexpected => panic!(
            "Expected Poll::Ready(Err(AquamarineApiError::ParticleExpired)), got {:?}",
            unexpected
        ),
    }
    assert_eq!(plumber.actors.len(), 0);
}

/// A particle whose signature fails yields exactly one event and no actor.
#[test]
fn signature_bad() {
    let now: u64 = 5_000;
    let mut plumber: Plumber<u8> = Plumber::new(1);
    let mut p = particle(now, 60_000);
    p.id.push_str("p-bad");
    plumber.ingest(
        p,
        None,
        PeerScope::Host,
        Err("invalid signature".to_string()),
        &vec![9],
        &host_env(now),
    );
    assert_eq!(plumber.actors.len(), 0);
    let out = plumber.poll(vec![], false, &host_env(now));
    match out.event {
        Some(Err(AquamarineApiError::SignatureVerificationFailed { particle_id, err })) => {
            assert_eq!(particle_id, "p-bad".to_string());
            assert_eq!(err, "invalid signature".to_string());
        },
        unexpected => panic!("expected SignatureVerificationFailed, got {:?}", unexpected),
    }
    let out = plumber.poll(vec![], false, &host_env(now));
    assert!(out.event.is_none());
}

/// A particle for a deactivated worker from an unprivileged sender is
/// dropped silently: no event, no actor.
#[test]
fn worker_inactive_silent_drop() {
    let now: u64 = 5_000;
    let mut plumber: Plumber<u8> = Plumber::new(1);
    let mut p = particle(now, 60_000);
    p.init_peer_id = PeerId::new(77); // neither host nor management
    let mut env = host_env(now);
    env.worker_keypairs = vec![WorkerId::new(4)];
    env.worker_runtimes = vec![WorkerId::new(4)];
    env.worker_deals = vec![(WorkerId::new(4), "deal-4".to_string())];
    // worker 4 not in active_workers
    plumber.ingest(
        p,
        None,
        PeerScope::WorkerId(WorkerId::new(4)),
        Ok(()),
        &vec![9],
        &env,
    );
    assert_eq!(plumber.actors.len(), 0);
    let out = plumber.poll(vec![], false, &env);
    assert!(out.event.is_none());
}

/// Two particles with the same signature and scope share one actor; a
/// different scope gets its own.
#[test]
fn actor_per_key() {
    let now: u64 = 5_000;
    let mut plumber: Plumber<u8> = Plumber::new(1);
    let mut env = host_env(now);
    env.active_workers = vec![WorkerId::new(4)];
    env.worker_keypairs = vec![WorkerId::new(4)];
    env.worker_runtimes = vec![WorkerId::new(4)];
    env.worker_deals = vec![(WorkerId::new(4), "deal-4".to_string())];

    let mut p = particle(now, 60_000);
    p.signature = vec![1, 2, 3];
    plumber.ingest(p.clone(), None, PeerScope::Host, Ok(()), &vec![9], &env);
    assert_eq!(plumber.actors.len(), 1);
    plumber.ingest(p.clone(), None, PeerScope::Host, Ok(()), &vec![9], &env);
    assert_eq!(plumber.actors.len(), 1);
    assert_eq!(plumber.actors[0].mailbox.len(), 2);
    plumber.ingest(
        p.clone(),
        None,
        PeerScope::WorkerId(WorkerId::new(4)),
        Ok(()),
        &vec![9],
        &env,
    );
    assert_eq!(plumber.actors.len(), 2);
    assert_eq!(plumber.actors[1].deal_id, Some("deal-4".to_string()));
}

/// The VM conservation law on concrete states:
/// pool_free + active_executions + recreating = pool_size.
#[test]
fn vm_conservation_concrete() {
    let now: u64 = 5_000;
    let mut plumber: Plumber<u8> = Plumber::new(2);
    assert_eq!(plumber.vm_pool.pool_size(), 2);
    // both still under construction: 0 free + 0 executing + 2 creating
    assert_eq!(plumber.vm_pool.free_vms(), 0);
    plumber.vm_pool.vm_created(0, 10);
    plumber.vm_pool.vm_created(1, 11);
    assert_eq!(plumber.vm_pool.free_vms(), 2);

    let p = particle(now, 60_000);
    plumber.ingest(p, None, PeerScope::Host, Ok(()), &vec![9], &host_env(now));
    let out = plumber.poll(vec![], false, &host_env(now));
    assert_eq!(out.starts.len(), 1);
    // 1 free + 1 executing + 0 creating = 2
    assert_eq!(plumber.vm_pool.free_vms(), 1);

    // the execution loses its VM: the slot goes into reconstruction
    let lost = Completion {
        vm_id: out.starts[0].vm_id,
        stats: stats(),
        new_data: vec![],
        next_peers: vec![],
        vm: None,
    };
    plumber.poll(vec![lost], false, &host_env(now));
    // 1 free + 0 executing + 1 creating = 2
    assert_eq!(plumber.vm_pool.free_vms(), 1);
}

/// Local routing effects are re-ingested under their scope; remote ones are
/// emitted as events.
#[test]
fn fanout_local_and_remote() {
    let now: u64 = 5_000;
    let worker = WorkerId::new(9);
    let local_peer = PeerId::new(90);
    let remote_peer = PeerId::new(91);
    let mut env = host_env(now);
    env.active_workers = vec![worker];
    env.worker_keypairs = vec![worker];
    env.worker_runtimes = vec![worker];
    env.worker_deals = vec![(worker, "deal-9".to_string())];
    env.local_scopes = vec![(local_peer, PeerScope::WorkerId(worker))];

    let mut plumber: Plumber<u8> = Plumber::new(1);
    plumber.vm_pool.vm_created(0, 3);
    let mut p = particle(now, 60_000);
    p.id.push_str("p-fan");
    p.signature = vec![8, 8, 8];
    plumber.ingest(p, None, PeerScope::Host, Ok(()), &vec![9], &env);
    let out = plumber.poll(vec![], false, &env);
    assert_eq!(out.starts.len(), 1);

    let done = Completion {
        vm_id: 0,
        stats: stats(),
        new_data: vec![],
        next_peers: vec![local_peer, remote_peer],
        vm: Some(3),
    };
    let out = plumber.poll(vec![done], false, &env);
    // the remote hop comes out as an event
    match out.event {
        Some(Ok(effects)) => {
            assert_eq!(effects.particle.id, "p-fan".to_string());
            assert_eq!(effects.next_peers, vec![remote_peer]);
        },
        unexpected => panic!("expected remote routing effects, got {:?}", unexpected),
    }
    // the local hop became an ingest under the worker scope
    assert_eq!(plumber.actors.len(), 2);
    assert!(matches!(plumber.actors[1].key.peer_scope, PeerScope::WorkerId(w) if w == worker));
    assert_eq!(plumber.actors[1].mailbox.len(), 1);
    assert_eq!(plumber.actors[1].mailbox[0].id, "p-fan".to_string());
}

/// put_vm(get_vm()?) is a no-op on pool contents.
#[test]
fn put_get_roundtrip() {
    let mut plumber: Plumber<u8> = Plumber::new(3);
    plumber.vm_pool.vm_created(0, 20);
    plumber.vm_pool.vm_created(1, 21);
    plumber.vm_pool.vm_created(2, 22);
    assert_eq!(plumber.vm_pool.free_vms(), 3);
    let (vm_id, vm) = plumber.vm_pool.get_vm().unwrap();
    assert_eq!(vm_id, 0);
    assert_eq!(vm, 20);
    assert_eq!(plumber.vm_pool.free_vms(), 2);
    plumber.vm_pool.put_vm(vm_id, vm);
    assert_eq!(plumber.vm_pool.free_vms(), 3);
    let (again_id, again_vm) = plumber.vm_pool.get_vm().unwrap();
    assert_eq!(again_id, 0);
    assert_eq!(again_vm, 20);
}

/// Builtin mutations reach only actors created afterwards.
#[test]
fn services_snapshot_per_actor() {
    let now: u64 = 5_000;
    let mut plumber: Plumber<u8> = Plumber::new(1);
    plumber.add_service("srv-a".to_string());
    let mut p1 = particle(now, 60_000);
    p1.signature = vec![1];
    plumber.ingest(p1, None, PeerScope::Host, Ok(()), &vec![9], &host_env(now));
    assert_eq!(plumber.actors[0].services, vec!["srv-a".to_string()]);

    plumber.add_service("srv-b".to_string());
    let mut p2 = particle(now, 60_000);
    p2.signature = vec![2];
    plumber.ingest(p2, None, PeerScope::Host, Ok(()), &vec![9], &host_env(now));
    // the earlier actor keeps its snapshot; the new one sees both services
    assert_eq!(plumber.actors[0].services, vec!["srv-a".to_string()]);
    assert_eq!(
        plumber.actors[1].services,
        vec!["srv-a".to_string(), "srv-b".to_string()]
    );

    plumber.remove_service(&"srv-a".to_string());
    let mut p3 = particle(now, 60_000);
    p3.signature = vec![3];
    plumber.ingest(p3, None, PeerScope::Host, Ok(()), &vec![9], &host_env(now));
    assert_eq!(plumber.actors[2].services, vec!["srv-b".to_string()]);
}

/// An actor executes at most one particle at a time, in mailbox order.
#[test]
fn actor_serializes_executions() {
    let now: u64 = 5_000;
    let mut plumber: Plumber<u8> = Plumber::new(2);
    plumber.vm_pool.vm_created(0, 1);
    plumber.vm_pool.vm_created(1, 2);
    let mut first = particle(now, 60_000);
    first.id.push_str("first");
    first.signature = vec![5];
    let mut second = particle(now, 60_000);
    second.id.push_str("second");
    second.signature = vec![5];
    plumber.ingest(first, None, PeerScope::Host, Ok(()), &vec![9], &host_env(now));
    plumber.ingest(second, None, PeerScope::Host, Ok(()), &vec![9], &host_env(now));
    assert_eq!(plumber.actors.len(), 1);

    let out = plumber.poll(vec![], false, &host_env(now));
    // one actor: only one execution starts though two VMs are free
    assert_eq!(out.starts.len(), 1);
    assert_eq!(out.starts[0].particle.id, "first".to_string());

    let done = Completion {
        vm_id: out.starts[0].vm_id,
        stats: stats(),
        new_data: vec![],
        next_peers: vec![],
        vm: Some(1),
    };
    let out = plumber.poll(vec![done], false, &host_env(now));
    assert_eq!(out.starts.len(), 1);
    assert_eq!(out.starts[0].particle.id, "second".to_string());
}

/// The cleanup sweep hands one batch of keys and holds the next until the
/// batch is reported finished.
#[test]
fn cleanup_single_batch_in_flight() {
    let mut now: u64 = 5_000;
    let mut plumber: Plumber<u8> = Plumber::new(1);
    let mut p = particle(now, 10);
    p.id.push_str("p-cleanup");
    p.signature = vec![6];
    plumber.ingest(p, None, PeerScope::Host, Ok(()), &vec![4, 5], &host_env(now));
    assert_eq!(plumber.actors.len(), 1);

    now += 100;
    let out = plumber.poll(vec![], false, &host_env(now));
    let keys = out.cleanup.expect("expired actor should yield a cleanup batch");
    assert_eq!(keys.len(), 1);
    assert_eq!(keys[0].particle_id, "p-cleanup".to_string());
    assert_eq!(keys[0].signature, vec![6]);
    assert_eq!(plumber.actors.len(), 0);

    // while the batch runs, nothing more is collected
    let mut q = particle(now - 100, 10);
    q.signature = vec![7];
    plumber.ingest(q, None, PeerScope::Host, Ok(()), &vec![4, 5], &host_env(now - 100));
    let out = plumber.poll(vec![], false, &host_env(now));
    assert!(out.cleanup.is_none());
    // once finished, the next expired actor is collected
    let out = plumber.poll(vec![], true, &host_env(now));
    let keys = out.cleanup.expect("second batch after the first finished");
    assert_eq!(keys.len(), 1);
}

/// The execution slot records which VM and which particle are in flight.
#[test]
fn execution_slot_contents() {
    let now: u64 = 5_000;
    let mut plumber: Plumber<u8> = Plumber::new(1);
    plumber.vm_pool.vm_created(0, 1);
    let mut p = particle(now, 60_000);
    p.id.push_str("slotted");
    plumber.ingest(p, None, PeerScope::Host, Ok(()), &vec![9], &host_env(now));
    plumber.poll(vec![], false, &host_env(now));
    let slot: &ExecutionSlot = plumber.actors[0].executing.as_ref().unwrap();
    assert_eq!(slot.vm_id, 0);
    assert_eq!(slot.particle.id, "slotted".to_string());
}

/// A particle already expired at ingest yields exactly one event and never
/// creates an actor.
#[test]
fn expired_at_ingest() {
    let mut plumber: Plumber<u8> = Plumber::new(1);
    let p = particle(1000, 10);
    let expected_id = p.id.clone();
    let env = host_env(2000);
    plumber.ingest(p, None, PeerScope::Host, Ok(()), &vec![1], &env);
    let out = plumber.poll(vec![], false, &env);
    match out.event {
        Some(Err(AquamarineApiError::ParticleExpired { particle_id })) => {
            assert_eq!(particle_id, expected_id)
        },
        unexpected => panic!("expected ParticleExpired, got {:?}", unexpected),
    }
    assert_eq!(plumber.actors.len(), 0);
}
