//! Configuration of the VM pool, a single VM, and the particle data store.

use vstd::prelude::*;
use vstd::string::StringExecFns;

use crate::particle::PeerId;

verus! {

/// Sizing and timing of the interpreter pool.
#[derive(Clone, Copy, PartialEq, Eq, Structural, Debug)]
pub struct VmPoolConfig {
    /// Number of VMs to create.
    pub pool_size: usize,
    /// Timeout of a particle execution, in milliseconds.
    pub execution_timeout_ms: u64,
}

impl VmPoolConfig {
    pub fn new(pool_size: usize, execution_timeout_ms: u64) -> (r: Self)
        ensures
            r.pool_size == pool_size,
            r.execution_timeout_ms == execution_timeout_ms,
    {
        Self { pool_size, execution_timeout_ms }
    }
}

/// Limits and identity a single interpreter VM is built with.
#[derive(Debug)]
pub struct VmConfig {
    pub current_peer_id: PeerId,
    /// Path to the interpreter module.
    pub air_interpreter: String,
    /// Maximum heap size in bytes available for the interpreter.
    pub max_heap_size: Option<u64>,
    /// Maximum script size in bytes.
    pub air_size_limit: Option<u64>,
    /// Maximum particle size in bytes.
    pub particle_size_limit: Option<u64>,
    /// Maximum call result size in bytes.
    pub call_result_size_limit: Option<u64>,
    /// Whether the limits above are enforced rather than only reported.
    pub hard_limit_enabled: bool,
}

impl VmConfig {
    pub fn new(
        current_peer_id: PeerId,
        air_interpreter: String,
        max_heap_size: Option<u64>,
        air_size_limit: Option<u64>,
        particle_size_limit: Option<u64>,
        call_result_size_limit: Option<u64>,
        hard_limit_enabled: bool,
    ) -> (r: Self)
        ensures
            r.current_peer_id == current_peer_id,
            r.air_interpreter@ == air_interpreter@,
            r.max_heap_size == max_heap_size,
            r.air_size_limit == air_size_limit,
            r.particle_size_limit == particle_size_limit,
            r.call_result_size_limit == call_result_size_limit,
            r.hard_limit_enabled == hard_limit_enabled,
    {
        Self {
            current_peer_id,
            air_interpreter,
            max_heap_size,
            air_size_limit,
            particle_size_limit,
            call_result_size_limit,
            hard_limit_enabled,
        }
    }
}

/// The three sibling directories the data store persists into.
#[derive(Debug)]
pub struct DataStoreConfig {
    /// Dir for the interpreter to persist particle data
    /// to merge it between particles of the same particle id.
    pub particles_dir: String,
    /// Dir for directories shared between services
    /// in the span of a single particle execution.
    pub particles_vault_dir: String,
    /// Dir for particle data of interpreter performance anomalies.
    pub particles_anomaly_dir: String,
}

impl DataStoreConfig {
    /// Derives the three sibling directories under a base directory.
    /// The base is taken as given; making it absolute is the caller's concern.
    pub fn new(base_dir: String) -> (r: Self)
        ensures
            r.particles_dir@ == base_dir@ + "/particles"@,
            r.particles_vault_dir@ == base_dir@ + "/vault"@,
            r.particles_anomaly_dir@ == base_dir@ + "/anomaly"@,
    {
        let mut particles_dir = base_dir.clone();
        particles_dir.append("/particles");
        let mut vault_dir = base_dir.clone();
        vault_dir.append("/vault");
        let mut anomaly_dir = base_dir.clone();
        anomaly_dir.append("/anomaly");
        Self {
            particles_dir,
            particles_vault_dir: vault_dir,
            particles_anomaly_dir: anomaly_dir,
        }
    }
}

} // verus!
