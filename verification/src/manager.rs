use vstd::prelude::*;

verus! {

/// Seconds between two compactions of the background collector.
pub const GC_INTERVAL_SECS: u64 = 600;

/// Versions per key that the background collector keeps.
pub const GC_RETENTION: usize = 10;

/// Widest vector instructions that the processor offers.
#[derive(Debug, Clone, Copy, PartialEq, Eq, Structural)]
pub enum SimdLevel {
    /// No vector instructions at all.
    NoSimd,
    Sse2,
    Avx2,
    Avx512,
    Neon,
}

impl SimdLevel {
    /// The level's name, as it is shown.
    pub fn name(&self) -> (s: &'static str)
        ensures
            s@ == (match *self {
                SimdLevel::NoSimd => "None"@,
                SimdLevel::Sse2 => "Sse2"@,
                SimdLevel::Avx2 => "Avx2"@,
                SimdLevel::Avx512 => "Avx512"@,
                SimdLevel::Neon => "Neon"@,
            }),
    {
        match self {
            SimdLevel::NoSimd => "None",
            SimdLevel::Sse2 => "Sse2",
            SimdLevel::Avx2 => "Avx2",
            SimdLevel::Avx512 => "Avx512",
            SimdLevel::Neon => "Neon",
        }
    }
}

/// How the node uses the machine it runs on.
#[derive(Debug, Clone, Copy, PartialEq, Eq, Structural)]
pub struct SystemProfile {
    pub logical_cores: usize,
    pub worker_threads: usize,
    /// Whether appends are flushed to disk before they are acknowledged.
    pub strict_durability: bool,
    /// Milliseconds between two heartbeats of the consensus leader.
    pub raft_heartbeat: u64,
    pub simd_level: SimdLevel,
}

/// The profile for a machine with the given core count and vector level.
///
/// A single core, or a processor without vector instructions, gets two
/// workers, no flushing and a slow heartbeat. Up to five cores get one
/// worker per core and flushing; so do six and more, with a faster
/// heartbeat the wider the vector instructions are.
pub open spec fn profile_for(cores: usize, simd_level: SimdLevel) -> SystemProfile {
    if cores <= 1 || simd_level == SimdLevel::NoSimd {
        SystemProfile {
            logical_cores: cores,
            worker_threads: 2,
            strict_durability: false,
            raft_heartbeat: 1000,
            simd_level,
        }
    } else if cores < 6 {
        SystemProfile {
            logical_cores: cores,
            worker_threads: cores,
            strict_durability: true,
            raft_heartbeat: if simd_level == SimdLevel::Avx512 {
                300
            } else {
                500
            },
            simd_level,
        }
    } else {
        SystemProfile {
            logical_cores: cores,
            worker_threads: cores,
            strict_durability: true,
            raft_heartbeat: match simd_level {
                SimdLevel::Avx512 => 100,
                SimdLevel::Avx2 => 250,
                SimdLevel::Neon => 250,
                _ => 500,
            },
            simd_level,
        }
    }
}

impl SystemProfile {
    /// Chooses the profile for what was detected of the machine.
    pub fn plan(cores: usize, simd_level: SimdLevel) -> (p: SystemProfile)
        ensures
            p == profile_for(cores, simd_level),
    {
        if cores <= 1 || simd_level == SimdLevel::NoSimd {
            SystemProfile {
                logical_cores: cores,
                worker_threads: 2,
                strict_durability: false,
                raft_heartbeat: 1000,
                simd_level,
            }
        } else if cores < 6 {
            let heartbeat: u64 = if simd_level == SimdLevel::Avx512 {
                300
            } else {
                500
            };
            SystemProfile {
                logical_cores: cores,
                worker_threads: cores,
                strict_durability: true,
                raft_heartbeat: heartbeat,
                simd_level,
            }
        } else {
            let heartbeat: u64 = match simd_level {
                SimdLevel::Avx512 => 100,
                SimdLevel::Avx2 => 250,
                SimdLevel::Neon => 250,
                _ => 500,
            };
            SystemProfile {
                logical_cores: cores,
                worker_threads: cores,
                strict_durability: true,
                raft_heartbeat: heartbeat,
                simd_level,
            }
        }
    }

    /// Shortest and longest election timeout for this profile: three and
    /// six heartbeats. `None` if they do not fit 64 bits.
    pub fn election_timeouts(&self) -> (r: Option<(u64, u64)>)
        ensures
            r is Some <==> self.raft_heartbeat * 6 <= u64::MAX,
            r is Some ==> r == Some(((self.raft_heartbeat * 3) as u64, (self.raft_heartbeat * 6) as u64)),
    {
        if self.raft_heartbeat > u64::MAX / 6 {
            None
        } else {
            Some((self.raft_heartbeat * 3, self.raft_heartbeat * 6))
        }
    }
}

/// Every profile has at least one worker per core it plans to use, and a
/// heartbeat between a tenth of a second and a second.
pub proof fn law_profile_bounds(cores: usize, simd_level: SimdLevel)
    ensures
        profile_for(cores, simd_level).worker_threads >= 2 || profile_for(
            cores,
            simd_level,
        ).worker_threads == cores,
        100 <= profile_for(cores, simd_level).raft_heartbeat <= 1000,
        profile_for(cores, simd_level).logical_cores == cores,
        profile_for(cores, simd_level).simd_level == simd_level,
{
}

} // verus!
