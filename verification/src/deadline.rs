//! Absolute expiry time of a particle, derived from its timestamp and ttl.

use vstd::prelude::*;

use crate::particle::Particle;

verus! {

/// When a particle with the given issue time and time to live expires,
/// in unix milliseconds, capped at the largest representable instant.
pub open spec fn expiry_ms(timestamp: u64, ttl: u32) -> u64 {
    if timestamp + ttl <= u64::MAX {
        (timestamp + ttl) as u64
    } else {
        u64::MAX
    }
}

/// Absolute expiry instant of a particle.
#[derive(Clone, Copy, PartialEq, Eq, Structural, Debug)]
pub struct Deadline {
    pub expires_at_ms: u64,
}

impl Deadline {
    /// Builds the deadline `timestamp + ttl` of a particle.
    pub fn from(particle: &Particle) -> (r: Deadline)
        ensures
            r.expires_at_ms == expiry_ms(particle.timestamp, particle.ttl),
    {
        Deadline::new(particle.timestamp, particle.ttl)
    }

    pub fn new(timestamp: u64, ttl: u32) -> (r: Deadline)
        ensures
            r.expires_at_ms == expiry_ms(timestamp, ttl),
    {
        Deadline { expires_at_ms: timestamp.saturating_add(ttl as u64) }
    }

    /// A deadline has passed once the clock reaches it.
    pub fn is_expired(&self, now_ms: u64) -> (r: bool)
        ensures
            r == (now_ms >= self.expires_at_ms),
    {
        now_ms >= self.expires_at_ms
    }
}

} // verus!
