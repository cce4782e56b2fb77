//! The difficulty retarget rule: at every 2016-block boundary the new
//! target must be a compact rounding of the target the previous period's
//! duration calls for.

use vstd::prelude::*;
use vstd::arithmetic::div_mod::{lemma_div_is_ordered, lemma_fundamental_div_mod};
use crate::bytes::{lemma_le_val_bound, lemma_le_val_to_le, nat_to_le, pow256};
use crate::errors::RelayError;
use crate::u256::{subsumed_by, U256};
use crate::{DIFFICULTY_ADJUSTMENT_INTERVAL, RETARGET_PERIOD};

verus! {

pub open spec fn spec_is_period_start(height: u32) -> bool {
    height % DIFFICULTY_ADJUSTMENT_INTERVAL == 0
}

pub open spec fn spec_is_period_end(height: u32) -> bool {
    height % DIFFICULTY_ADJUSTMENT_INTERVAL == 2015
}

/// Whether a block at this height opens a difficulty period.
pub fn is_period_start(height: u32) -> (r: bool)
    ensures
        r == spec_is_period_start(height),
{
    height % DIFFICULTY_ADJUSTMENT_INTERVAL == 0
}

/// Whether a block at this height closes a difficulty period.
pub fn is_period_end(height: u32) -> (r: bool)
    ensures
        r == spec_is_period_end(height),
{
    height % DIFFICULTY_ADJUSTMENT_INTERVAL == 2015
}

/// Elapsed seconds clamped to one quarter through four times the intended
/// period, bounding the adjustment factor to [0.25, 4].
pub open spec fn clamp_elapsed(e: nat) -> nat {
    if e < (RETARGET_PERIOD / 4) as nat {
        (RETARGET_PERIOD / 4) as nat
    } else if e > 4 * (RETARGET_PERIOD as nat) {
        4 * (RETARGET_PERIOD as nat)
    } else {
        e
    }
}

/// The retargeted value for a previous target and a (not yet clamped)
/// elapsed time: `((prev / 65536) * clamped) / period * 65536`, dividing by
/// 65536 first so the intermediate product stays within 256 bits, and
/// failing rather than overflowing when it does not.
pub open spec fn retarget_calc(prev: nat, elapsed: nat) -> Result<nat, RelayError> {
    let c = clamp_elapsed(elapsed);
    let adjusted = (prev / 65536) * c;
    if adjusted >= pow256(32) {
        Err(RelayError::ArithmeticError)
    } else {
        Ok((adjusted / (RETARGET_PERIOD as nat)) * 65536)
    }
}

/// The retarget rule over the two timestamps bracketing the previous
/// period; an end time before the start time is an arithmetic failure.
pub open spec fn retarget_spec(prev: nat, t0: u32, t1: u32) -> Result<nat, RelayError> {
    if t1 < t0 {
        Err(RelayError::ArithmeticError)
    } else {
        retarget_calc(prev, (t1 - t0) as nat)
    }
}

/// Compute the expected target for a new difficulty period from the
/// previous period's start target and its bracketing timestamps.
pub fn retarget_algorithm(
    previous_target: &U256,
    first_timestamp: u32,
    second_timestamp: u32,
) -> (r: Result<U256, RelayError>)
    requires
        previous_target.wf(),
    ensures
        match r {
            Ok(v) => v.wf() && retarget_spec(previous_target.val(), first_timestamp,
                second_timestamp) == Ok::<nat, RelayError>(v.val()),
            Err(e) => retarget_spec(previous_target.val(), first_timestamp, second_timestamp)
                == Err::<nat, RelayError>(e),
        },
{
    if second_timestamp < first_timestamp {
        return Err(RelayError::ArithmeticError);
    }
    let mut elapsed: u32 = second_timestamp - first_timestamp;
    if elapsed < RETARGET_PERIOD / 4 {
        elapsed = RETARGET_PERIOD / 4;
    }
    if elapsed > RETARGET_PERIOD * 4 {
        elapsed = RETARGET_PERIOD * 4;
    }
    proof {
        assert(elapsed as nat == clamp_elapsed((second_timestamp - first_timestamp) as nat));
    }
    let quotient = previous_target.div65536();
    let adjusted = match quotient.checked_mul_u64(elapsed as u64) {
        Some(v) => v,
        None => {
            return Err(RelayError::ArithmeticError);
        },
    };
    let divided = adjusted.div_u64(RETARGET_PERIOD as u64);
    proof {
        // The final multiplication cannot overflow: the quotient by the
        // period shrank the value below what multiplying by 65536 restores.
        lemma_le_val_bound(adjusted@);
        lemma_fundamental_div_mod(adjusted.val() as int, RETARGET_PERIOD as int);
        let a = adjusted.val();
        let q = divided.val();
        assert(q * 65536 <= a) by (nonlinear_arith)
            requires
                a >= (RETARGET_PERIOD as int) * q,
                q >= 0,
                RETARGET_PERIOD >= 65536,
        ;
    }
    let result = match divided.checked_mul65536() {
        Some(v) => v,
        None => {
            proof {
                assert(false);
            }
            return Err(RelayError::ArithmeticError);
        },
    };
    Ok(result)
}

/// Decides whether `next_target` may open a new period: the previous
/// period's start and end targets must differ, the retarget rule must
/// succeed on its timestamps, and every bit of the new target must also be
/// set in the expected one (the compact encoding only rounds down).
pub open spec fn correct_target_spec(
    prev_start: nat,
    prev_start_time: u32,
    prev_end: nat,
    prev_end_time: u32,
    next: nat,
) -> Result<bool, RelayError> {
    if prev_start == prev_end {
        Err(RelayError::InvalidDifficultyPeriod)
    } else {
        match retarget_spec(prev_start, prev_start_time, prev_end_time) {
            Err(e) => Err(e),
            Ok(expected) => Ok(subsumed_by(nat_to_le(next, 32), nat_to_le(expected, 32))),
        }
    }
}

/// Check a declared period-start target against the retarget rule.
pub fn is_correct_difficulty_target(
    prev_start_target: &U256,
    prev_start_time: u32,
    prev_end_target: &U256,
    prev_end_time: u32,
    next_target: &U256,
) -> (r: Result<bool, RelayError>)
    requires
        prev_start_target.wf(),
        prev_end_target.wf(),
        next_target.wf(),
    ensures
        r == correct_target_spec(prev_start_target.val(), prev_start_time, prev_end_target.val(),
            prev_end_time, next_target.val()),
{
    if prev_start_target.eq_val(prev_end_target) {
        return Err(RelayError::InvalidDifficultyPeriod);
    }
    let expected = match retarget_algorithm(prev_start_target, prev_start_time, prev_end_time) {
        Ok(v) => v,
        Err(e) => {
            return Err(e);
        },
    };
    let r = next_target.and_subsumes(&expected);
    proof {
        lemma_le_val_to_le(next_target@);
        lemma_le_val_to_le(expected@);
    }
    Ok(r)
}

} // verus!
