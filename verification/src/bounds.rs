//! Argument validation for the two public operations.
//!
//! Both operations reject bad arguments outright before any computation
//! starts; nothing is clamped or padded. The matvec path allows truncation
//! sizes up to 50,000 and prime cutoffs up to 1,000,000; the probe path,
//! which multiplies the work by the trial count, allows sizes up to 20,000
//! and between 1 and 200 trials.

use vstd::prelude::*;

verus! {

/// Failure conditions of the engine. `InvalidArgument` covers every size,
/// range and length-mismatch violation. `ArithmeticDegenerate` is reserved
/// for division by a degenerate weight; it is never raised today, since every
/// prime weight 1/p has p >= 2.
#[derive(Clone, Copy, Debug, PartialEq, Eq, Structural)]
pub enum EngineError {
    InvalidArgument,
    ArithmeticDegenerate,
}

/// Largest truncation size the matvec operation accepts.
pub const MATVEC_N_MAX: u32 = 50_000;

/// Largest prime cutoff the matvec operation accepts.
pub const PRIME_CUTOFF_MAX: u32 = 1_000_000;

/// Largest truncation size the symmetry probe accepts.
pub const PROBE_N_MAX: u32 = 20_000;

/// Largest trial count the symmetry probe accepts.
pub const TRIALS_MAX: u32 = 200;

/// Whether (n, p_max, x_len) is an acceptable matvec argument triple:
/// 1 <= n <= 50,000, cutoff at most 1,000,000, and the vector length equal
/// to n exactly.
pub open spec fn matvec_args_ok(n: u32, p_max: u32, x_len: usize) -> bool {
    &&& 1 <= n <= MATVEC_N_MAX
    &&& p_max <= PRIME_CUTOFF_MAX
    &&& x_len == n as usize
}

/// Whether (n, trials) is an acceptable probe argument pair:
/// 1 <= n <= 20,000 and 1 <= trials <= 200.
pub open spec fn probe_args_ok(n: u32, trials: u32) -> bool {
    &&& 1 <= n <= PROBE_N_MAX
    &&& 1 <= trials <= TRIALS_MAX
}

/// Accept or reject the arguments of a matvec call, before any work is done.
pub fn validate_matvec_args(n: u32, p_max: u32, x_len: usize) -> (r: Result<(), EngineError>)
    ensures
        r == (if matvec_args_ok(n, p_max, x_len) {
            Ok::<(), EngineError>(())
        } else {
            Err::<(), EngineError>(EngineError::InvalidArgument)
        }),
{
    if n == 0 || n > MATVEC_N_MAX {
        return Err(EngineError::InvalidArgument);
    }
    if p_max > PRIME_CUTOFF_MAX {
        return Err(EngineError::InvalidArgument);
    }
    if x_len != n as usize {
        return Err(EngineError::InvalidArgument);
    }
    Ok(())
}

/// Accept or reject the arguments of a symmetry-probe call, before any work
/// is done. The prime cutoff is not restricted here beyond what matvec will
/// check per trial; the trial count is what this operation adds.
pub fn validate_probe_args(n: u32, trials: u32) -> (r: Result<(), EngineError>)
    ensures
        r == (if probe_args_ok(n, trials) {
            Ok::<(), EngineError>(())
        } else {
            Err::<(), EngineError>(EngineError::InvalidArgument)
        }),
{
    if n == 0 || n > PROBE_N_MAX {
        return Err(EngineError::InvalidArgument);
    }
    if trials == 0 || trials > TRIALS_MAX {
        return Err(EngineError::InvalidArgument);
    }
    Ok(())
}

} // verus!
