//! Puzzle submissions and the log that keeps the latest one of each account
//! for each puzzle.

use std::collections::HashMap;
use vstd::prelude::*;

verus! {

broadcast use vstd::std_specs::hash::group_hash_axioms;

/// One submission of a puzzle solution.
#[derive(Clone, Debug)]
pub struct PuzzleSubmission {
    /// The account that submitted.
    pub player: u64,
    /// The puzzle that was solved.
    pub puzzle_id: u64,
    /// The label of the puzzle's category.
    pub category: String,
    /// The score reached.
    pub score: u32,
    /// The ledger time of the submission.
    pub timestamp: u64,
}

/// The single number under which the pair of an account and a puzzle is
/// stored: the account in the upper 64 bits, the puzzle in the lower.
pub open spec fn slot(account: u64, puzzle_id: u64) -> u128 {
    (account as int * 0x1_0000_0000_0000_0000 + puzzle_id as int) as u128
}

/// Two pairs share a slot only if they are the same pair.
pub proof fn lemma_slot_injective(account: u64, puzzle: u64, other_account: u64, other_puzzle: u64)
    requires
        slot(account, puzzle) == slot(other_account, other_puzzle),
    ensures
        account == other_account,
        puzzle == other_puzzle,
{
}

/// Every submission is stored under the account and the puzzle it names.
pub open spec fn keyed_by_pair(m: Map<(u64, u64), PuzzleSubmission>) -> bool {
    forall|k: (u64, u64)| m.contains_key(k) ==> (#[trigger] m[k]).player == k.0 && m[k].puzzle_id == k.1
}

impl PuzzleSubmission {
    /// A copy of the submission.
    pub fn duplicate(&self) -> (copy: PuzzleSubmission)
        ensures
            copy == *self,
    {
        PuzzleSubmission {
            player: self.player,
            puzzle_id: self.puzzle_id,
            category: self.category.clone(),
            score: self.score,
            timestamp: self.timestamp,
        }
    }
}

/// The submissions, at most one per account and puzzle.
pub struct SubmissionLog {
    records: HashMap<u128, PuzzleSubmission>,
}

impl View for SubmissionLog {
    type V = Map<(u64, u64), PuzzleSubmission>;

    closed spec fn view(&self) -> Map<(u64, u64), PuzzleSubmission> {
        Map::new(
            |k: (u64, u64)| self.records@.contains_key(slot(k.0, k.1)),
            |k: (u64, u64)| self.records@[slot(k.0, k.1)],
        )
    }
}

/// Computes the slot of a pair.
fn slot_for(account: u64, puzzle_id: u64) -> (key: u128)
    ensures
        key == slot(account, puzzle_id),
{
    let upper: u128 = account as u128;
    let lower: u128 = puzzle_id as u128;
    upper * 0x1_0000_0000_0000_0000u128 + lower
}

impl SubmissionLog {
    /// Every submission is stored under its own account and puzzle.
    pub open spec fn wf(&self) -> bool {
        keyed_by_pair(self@)
    }

    /// A log without submissions.
    pub fn new() -> (log: Self)
        ensures
            log.wf(),
            log@ == Map::<(u64, u64), PuzzleSubmission>::empty(),
    {
        let log = SubmissionLog { records: HashMap::new() };
        assert(log@ =~= Map::<(u64, u64), PuzzleSubmission>::empty());
        log
    }

    /// Stores a submission, replacing the one the account made for the same
    /// puzzle before.
    pub fn record(
        &mut self,
        account: u64,
        puzzle_id: u64,
        category: String,
        score: u32,
        timestamp: u64,
    )
        requires
            old(self).wf(),
        ensures
            final(self).wf(),
            final(self)@ == old(self)@.insert(
                (account, puzzle_id),
                PuzzleSubmission { player: account, puzzle_id, category, score, timestamp },
            ),
    {
        let key = slot_for(account, puzzle_id);
        let submission = PuzzleSubmission { player: account, puzzle_id, category, score, timestamp };
        self.records.insert(key, submission);
        proof {
            assert forall|k: (u64, u64)| slot(k.0, k.1) == key implies k == (account, puzzle_id) by {
                lemma_slot_injective(k.0, k.1, account, puzzle_id);
            }
            assert(final(self)@ =~= old(self)@.insert((account, puzzle_id), submission));
        }
    }

    /// The submission of `account` for `puzzle_id`, if there is one.
    pub fn get(&self, account: u64, puzzle_id: u64) -> (submission: Option<PuzzleSubmission>)
        ensures
            submission == (if self@.contains_key((account, puzzle_id)) {
                Some(self@[(account, puzzle_id)])
            } else {
                None
            }),
    {
        let key = slot_for(account, puzzle_id);
        match self.records.get(&key) {
            Some(s) => Some(s.duplicate()),
            None => None,
        }
    }
}

} // verus!
