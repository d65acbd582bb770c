use vstd::prelude::*;

verus! {

/// The failure taxonomy of this library.
///
/// `InvalidParameters` is construction-time: a parameter set violates the
/// primitive's minimums. `HashingFailure` is a runtime refusal of the key
/// derivation itself (for example a password beyond the primitive's hard
/// length limit, or the random source declining). `MalformedHash` means a
/// stored hash string does not parse as a valid encoded hash; it is kept
/// distinct from a failed verification on purpose.
#[derive(Clone, Copy, Debug, PartialEq, Eq, Structural)]
pub enum Error {
    InvalidParameters,
    HashingFailure,
    MalformedHash,
}

/// Which Argon2 variant a hasher uses for key derivation.
#[derive(Clone, Copy, Debug, PartialEq, Eq, Structural)]
pub enum Algorithm {
    Argon2id,
    Argon2d,
    Argon2i,
}

/// Default iteration count.
pub const DEFAULT_T_COST: u32 = 2;

/// Default working memory in KiB.
pub const DEFAULT_M_COST: u32 = 19456;

/// Default lane count.
pub const DEFAULT_P_COST: u32 = 1;

/// Digest length in bytes used when no output length override is given.
pub const DEFAULT_OUTPUT_LEN: u32 = 32;

/// Largest lane count the primitive accepts.
pub const MAX_P_COST: u32 = 0xFFFFFF;

/// Smallest digest length in bytes the primitive accepts.
pub const MIN_OUTPUT_LEN: u32 = 4;

/// Smallest salt length in bytes the primitive accepts.
pub const MIN_SALT_LEN: u32 = 8;

impl Default for Algorithm {
    /// The default variant: the hybrid form, resistant to both
    /// side-channel and GPU-oriented attacks.
    fn default() -> (r: Algorithm)
        ensures
            r == Algorithm::Argon2id,
    {
        Algorithm::Argon2id
    }
}

/// One immutable hashing policy: the three cost knobs plus an optional
/// digest length override.
#[derive(Clone, Copy, Debug, PartialEq, Eq)]
pub struct ParameterSet {
    pub time_cost: u32,
    pub memory_cost: u32,
    pub parallelism: u32,
    pub output_length: Option<u32>,
}

/// The primitive's acceptance range for the three cost knobs: at least one
/// iteration, between 1 and 2^24 - 1 lanes, and at least eight KiB of memory
/// per lane.
pub open spec fn valid_costs(m: u32, t: u32, p: u32) -> bool {
    &&& t >= 1
    &&& 1 <= p <= MAX_P_COST
    &&& m as int >= 8 * (p as int)
}

impl ParameterSet {
    /// A parameter set the primitive accepts: valid cost knobs, and an
    /// output length override of at least the primitive's minimum.
    pub open spec fn valid(self) -> bool {
        &&& valid_costs(self.memory_cost, self.time_cost, self.parallelism)
        &&& match self.output_length {
            Some(l) => l >= MIN_OUTPUT_LEN,
            None => true,
        }
    }

    /// The digest length this parameter set produces: the override if one
    /// was given, the library default otherwise.
    pub open spec fn spec_effective_output_len(self) -> u32 {
        match self.output_length {
            Some(l) => l,
            None => DEFAULT_OUTPUT_LEN,
        }
    }

    pub fn effective_output_len(&self) -> (r: u32)
        ensures
            r == self.spec_effective_output_len(),
    {
        match self.output_length {
            Some(l) => l,
            None => DEFAULT_OUTPUT_LEN,
        }
    }

    /// Merge caller overrides with the library defaults and validate the
    /// result. Out-of-range values fail construction; nothing is clamped.
    pub fn new(
        time_cost: Option<u32>,
        memory_cost: Option<u32>,
        parallelism: Option<u32>,
        output_length: Option<u32>,
    ) -> (r: Result<ParameterSet, Error>)
        ensures
            ({
                let merged = ParameterSet {
                    time_cost: time_cost.unwrap_or(DEFAULT_T_COST),
                    memory_cost: memory_cost.unwrap_or(DEFAULT_M_COST),
                    parallelism: parallelism.unwrap_or(DEFAULT_P_COST),
                    output_length,
                };
                if merged.valid() {
                    r == Ok::<ParameterSet, Error>(merged)
                } else {
                    r == Err::<ParameterSet, Error>(Error::InvalidParameters)
                }
            }),
    {
        let t = match time_cost {
            Some(v) => v,
            None => DEFAULT_T_COST,
        };
        let m = match memory_cost {
            Some(v) => v,
            None => DEFAULT_M_COST,
        };
        let p = match parallelism {
            Some(v) => v,
            None => DEFAULT_P_COST,
        };
        if t < 1 || p < 1 || p > MAX_P_COST || (m as u64) < 8u64 * (p as u64) {
            return Err(Error::InvalidParameters);
        }
        if let Some(l) = output_length {
            if l < MIN_OUTPUT_LEN {
                return Err(Error::InvalidParameters);
            }
        }
        Ok(ParameterSet { time_cost: t, memory_cost: m, parallelism: p, output_length })
    }
}

} // verus!
