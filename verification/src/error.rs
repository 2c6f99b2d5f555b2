//! Errors surfaced through the scheduler's event queue.

use vstd::prelude::*;

verus! {

/// What went wrong with a particle, as seen by the node's clients.
#[derive(Debug)]
#[allow(inconsistent_fields)]
pub enum AquamarineApiError {
    /// The particle's deadline had passed at ingest or at cleanup.
    ParticleExpired { particle_id: String },
    /// The scheduler dropped particle processing before sending effects back.
    OneshotCancelled { particle_id: String },
    /// The scheduler could not be reached.
    AquamarineDied { particle_id: Option<String> },
    /// A single execution overran its allotted time, in milliseconds.
    ExecutionTimedOut { particle_id: String, timeout_ms: u64 },
    /// Backpressure: the ingest channel would not take the particle.
    AquamarineQueueFull { particle_id: Option<String> },
    /// The particle's signature did not verify.
    SignatureVerificationFailed { particle_id: String, err: String },
    /// The scope's worker is deactivated and the sender is not privileged.
    WorkerIsNotActive { worker_id: u64, particle_id: String },
}

/// Mathematical image of an error: every text as a sequence of characters.
pub enum ApiErrorModel {
    ParticleExpired { particle_id: Seq<char> },
    OneshotCancelled { particle_id: Seq<char> },
    AquamarineDied { particle_id: Option<Seq<char>> },
    ExecutionTimedOut { particle_id: Seq<char>, timeout_ms: u64 },
    AquamarineQueueFull { particle_id: Option<Seq<char>> },
    SignatureVerificationFailed { particle_id: Seq<char>, err: Seq<char> },
    WorkerIsNotActive { worker_id: u64, particle_id: Seq<char> },
}

/// The view of an optional particle id.
pub open spec fn opt_id_view(o: Option<String>) -> Option<Seq<char>> {
    match o {
        Some(s) => Some(s@),
        None => None,
    }
}

impl View for AquamarineApiError {
    type V = ApiErrorModel;

    open spec fn view(&self) -> ApiErrorModel {
        match self {
            AquamarineApiError::ParticleExpired { particle_id } => ApiErrorModel::ParticleExpired {
                particle_id: particle_id@,
            },
            AquamarineApiError::OneshotCancelled { particle_id } => ApiErrorModel::OneshotCancelled {
                particle_id: particle_id@,
            },
            AquamarineApiError::AquamarineDied { particle_id } => ApiErrorModel::AquamarineDied {
                particle_id: opt_id_view(*particle_id),
            },
            AquamarineApiError::ExecutionTimedOut { particle_id, timeout_ms } => ApiErrorModel::ExecutionTimedOut {
                particle_id: particle_id@,
                timeout_ms: *timeout_ms,
            },
            AquamarineApiError::AquamarineQueueFull { particle_id } => ApiErrorModel::AquamarineQueueFull {
                particle_id: opt_id_view(*particle_id),
            },
            AquamarineApiError::SignatureVerificationFailed { particle_id, err } => ApiErrorModel::SignatureVerificationFailed {
                particle_id: particle_id@,
                err: err@,
            },
            AquamarineApiError::WorkerIsNotActive { worker_id, particle_id } => ApiErrorModel::WorkerIsNotActive {
                worker_id: *worker_id,
                particle_id: particle_id@,
            },
        }
    }
}

impl AquamarineApiError {
    /// The particle this error speaks of, where one is known.
    /// A signature failure names none: the signature doubles as the particle's
    /// identity, so an unverified id is withheld rather than propagated.
    pub fn into_particle_id(self) -> (r: Option<String>)
        ensures
            match self {
                AquamarineApiError::ParticleExpired { particle_id } => r == Some(particle_id),
                AquamarineApiError::OneshotCancelled { particle_id } => r == Some(particle_id),
                AquamarineApiError::ExecutionTimedOut { particle_id, .. } => r == Some(
                    particle_id,
                ),
                AquamarineApiError::WorkerIsNotActive { particle_id, .. } => r == Some(
                    particle_id,
                ),
                AquamarineApiError::SignatureVerificationFailed { .. } => r is None,
                AquamarineApiError::AquamarineDied { particle_id } => r == particle_id,
                AquamarineApiError::AquamarineQueueFull { particle_id } => r == particle_id,
            },
    {
        match self {
            AquamarineApiError::ParticleExpired { particle_id } => Some(particle_id),
            AquamarineApiError::OneshotCancelled { particle_id } => Some(particle_id),
            AquamarineApiError::ExecutionTimedOut { particle_id, .. } => Some(particle_id),
            AquamarineApiError::WorkerIsNotActive { particle_id, .. } => Some(particle_id),
            AquamarineApiError::SignatureVerificationFailed { .. } => None,
            AquamarineApiError::AquamarineDied { particle_id } => particle_id,
            AquamarineApiError::AquamarineQueueFull { particle_id } => particle_id,
        }
    }
}

} // verus!
