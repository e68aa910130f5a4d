//! The experience reward of one submission.

use vstd::prelude::*;

verus! {

/// The reward for a score at a skill level: a tenth of their product,
/// rounded down.
pub open spec fn reward_of(score: u32, skill_level: u32) -> int {
    (score as int * skill_level as int) / 10
}

/// The product of two 32-bit values and the reward derived from it both fit
/// into 64 bits.
pub proof fn lemma_reward_fits(score: u32, skill_level: u32)
    ensures
        0 <= score as int * skill_level as int <= 0xFFFF_FFFE_0000_0001,
        0 <= reward_of(score, skill_level) <= 0x1999_9999_6666_6666,
{
    assert(0 <= score as int * skill_level as int <= 0xFFFF_FFFF * 0xFFFF_FFFF) by (nonlinear_arith)
        requires
            0 <= score as int <= 0xFFFF_FFFF,
            0 <= skill_level as int <= 0xFFFF_FFFF,
    ;
}

/// Computes the reward in 64-bit width, so that no product of two 32-bit
/// inputs is cut off.
pub fn compute_reward(score: u32, skill_level: u32) -> (xp_delta: u64)
    ensures
        xp_delta as int == reward_of(score, skill_level),
        xp_delta * 10 <= score * skill_level,
        (score * skill_level) < xp_delta * 10 + 10,
{
    proof {
        lemma_reward_fits(score, skill_level);
    }
    let wide_score: u64 = score as u64;
    let wide_level: u64 = skill_level as u64;
    wide_score * wide_level / 10
}

} // verus!
