//! Player records and the store that owns them, one record per account.

use std::collections::HashMap;
use vstd::prelude::*;
use crate::error::ContractError;

verus! {

broadcast use vstd::std_specs::hash::group_hash_axioms;

/// The progress of one player.
#[derive(Clone, Debug)]
pub struct Player {
    /// The account the record belongs to.
    pub address: u64,
    /// The display name given at registration.
    pub username: String,
    /// The experience points earned so far.
    pub xp: u64,
    /// The skill level, the multiplier of every reward.
    pub iq_level: u32,
    /// The number of submissions made.
    pub puzzles_solved: u64,
    /// The number of submissions since the streak was last reset.
    pub current_streak: u32,
}

/// The record of a player who has just registered.
pub open spec fn fresh_player(account: u64, username: String, skill_level: u32) -> Player {
    Player { address: account, username, xp: 0, iq_level: skill_level, puzzles_solved: 0, current_streak: 0 }
}

/// The counters of `p` have room for one more submission worth `xp_delta`.
pub open spec fn can_award(p: Player, xp_delta: u64) -> bool {
    &&& p.xp + xp_delta <= u64::MAX
    &&& p.puzzles_solved < u64::MAX
    &&& p.current_streak < u32::MAX
}

/// The record of `p` after one submission worth `xp_delta`.
pub open spec fn awarded(p: Player, xp_delta: u64) -> Player {
    Player {
        xp: (p.xp + xp_delta) as u64,
        puzzles_solved: (p.puzzles_solved + 1) as u64,
        current_streak: (p.current_streak + 1) as u32,
        ..p
    }
}

/// A submission never takes experience points away: where the counters have
/// room, the points grow by the reward and both counters by one.
pub proof fn lemma_award_grows(p: Player, xp_delta: u64)
    requires
        can_award(p, xp_delta),
    ensures
        awarded(p, xp_delta).xp == p.xp + xp_delta,
        awarded(p, xp_delta).xp >= p.xp,
        awarded(p, xp_delta).puzzles_solved == p.puzzles_solved + 1,
        awarded(p, xp_delta).current_streak == p.current_streak + 1,
        awarded(p, xp_delta).address == p.address,
        awarded(p, xp_delta).username == p.username,
        awarded(p, xp_delta).iq_level == p.iq_level,
{
}

/// The record of `p` with another skill level.
pub open spec fn with_skill_level(p: Player, skill_level: u32) -> Player {
    Player { iq_level: skill_level, ..p }
}

/// The record of `p` with its streak set back to zero.
pub open spec fn with_streak_reset(p: Player) -> Player {
    Player { current_streak: 0, ..p }
}

/// Every record is stored under the account it names.
pub open spec fn keyed_by_address(m: Map<u64, Player>) -> bool {
    forall|a: u64| m.contains_key(a) ==> (#[trigger] m[a]).address == a
}

impl Player {
    /// A copy of the record.
    pub fn duplicate(&self) -> (copy: Player)
        ensures
            copy == *self,
    {
        Player {
            address: self.address,
            username: self.username.clone(),
            xp: self.xp,
            iq_level: self.iq_level,
            puzzles_solved: self.puzzles_solved,
            current_streak: self.current_streak,
        }
    }
}

/// The player records, keyed by account.
pub struct PlayerStore {
    records: HashMap<u64, Player>,
}

impl View for PlayerStore {
    type V = Map<u64, Player>;

    closed spec fn view(&self) -> Map<u64, Player> {
        self.records@
    }
}

impl PlayerStore {
    /// Every record is stored under its own account.
    pub open spec fn wf(&self) -> bool {
        keyed_by_address(self@)
    }

    /// A store without records.
    pub fn new() -> (store: Self)
        ensures
            store.wf(),
            store@ == Map::<u64, Player>::empty(),
    {
        PlayerStore { records: HashMap::new() }
    }

    /// Stores `player` under its account, replacing any record the account
    /// had.
    pub fn put(&mut self, player: Player)
        requires
            old(self).wf(),
        ensures
            final(self).wf(),
            final(self)@ == old(self)@.insert(player.address, player),
    {
        self.records.insert(player.address, player);
    }

    /// Creates the record of `account`, replacing any record it had.
    pub fn register(&mut self, account: u64, username: String, skill_level: u32) -> (player: Player)
        requires
            old(self).wf(),
        ensures
            final(self).wf(),
            player == fresh_player(account, username, skill_level),
            final(self)@ == old(self)@.insert(account, player),
    {
        let player = Player {
            address: account,
            username,
            xp: 0,
            iq_level: skill_level,
            puzzles_solved: 0,
            current_streak: 0,
        };
        self.put(player.duplicate());
        player
    }

    /// Whether `account` has a record.
    pub fn contains(&self, account: u64) -> (found: bool)
        ensures
            found == self@.contains_key(account),
    {
        self.records.contains_key(&account)
    }

    /// The record of `account`, if it has one.
    pub fn get(&self, account: u64) -> (player: Option<Player>)
        ensures
            player == (if self@.contains_key(account) {
                Some(self@[account])
            } else {
                None
            }),
    {
        match self.records.get(&account) {
            Some(p) => Some(p.duplicate()),
            None => None,
        }
    }

    /// Counts one submission worth `xp_delta` for `account` and returns its
    /// new experience points.
    pub fn award(&mut self, account: u64, xp_delta: u64) -> (total: Result<u64, ContractError>)
        requires
            old(self).wf(),
        ensures
            final(self).wf(),
            total is Err ==> *final(self) == *old(self),
            !old(self)@.contains_key(account) ==> total == Err::<u64, ContractError>(
                ContractError::NotRegistered,
            ) && final(self)@ == old(self)@,
            old(self)@.contains_key(account) && !can_award(old(self)@[account], xp_delta) ==> total
                == Err::<u64, ContractError>(ContractError::Overflow) && final(self)@ == old(self)@,
            old(self)@.contains_key(account) && can_award(old(self)@[account], xp_delta) ==> total
                == Ok::<u64, ContractError>((old(self)@[account].xp + xp_delta) as u64) && final(self)@
                == old(self)@.insert(account, awarded(old(self)@[account], xp_delta)),
    {
        let current = match self.records.get(&account) {
            Some(p) => p.duplicate(),
            None => {
                return Err(ContractError::NotRegistered);
            },
        };
        if current.xp > u64::MAX - xp_delta || current.puzzles_solved == u64::MAX
            || current.current_streak == u32::MAX {
            return Err(ContractError::Overflow);
        }
        let total: u64 = current.xp + xp_delta;
        let next = Player {
            address: current.address,
            username: current.username,
            xp: total,
            iq_level: current.iq_level,
            puzzles_solved: current.puzzles_solved + 1,
            current_streak: current.current_streak + 1,
        };
        self.records.insert(account, next);
        Ok(total)
    }

    /// Gives `account` another skill level; nothing else changes.
    pub fn set_skill_level(&mut self, account: u64, new_level: u32) -> (done: Result<
        (),
        ContractError,
    >)
        requires
            old(self).wf(),
        ensures
            final(self).wf(),
            done is Err ==> *final(self) == *old(self),
            !old(self)@.contains_key(account) ==> done == Err::<(), ContractError>(
                ContractError::NotRegistered,
            ) && final(self)@ == old(self)@,
            old(self)@.contains_key(account) ==> done == Ok::<(), ContractError>(()) && final(self)@
                == old(self)@.insert(account, with_skill_level(old(self)@[account], new_level)),
    {
        let current = match self.records.get(&account) {
            Some(p) => p.duplicate(),
            None => {
                return Err(ContractError::NotRegistered);
            },
        };
        let next = Player {
            address: current.address,
            username: current.username,
            xp: current.xp,
            iq_level: new_level,
            puzzles_solved: current.puzzles_solved,
            current_streak: current.current_streak,
        };
        self.records.insert(account, next);
        Ok(())
    }

    /// Sets the streak of `account` back to zero; nothing else changes.
    pub fn reset_streak(&mut self, account: u64) -> (done: Result<(), ContractError>)
        requires
            old(self).wf(),
        ensures
            final(self).wf(),
            done is Err ==> *final(self) == *old(self),
            !old(self)@.contains_key(account) ==> done == Err::<(), ContractError>(
                ContractError::NotRegistered,
            ) && final(self)@ == old(self)@,
            old(self)@.contains_key(account) ==> done == Ok::<(), ContractError>(()) && final(self)@
                == old(self)@.insert(account, with_streak_reset(old(self)@[account])),
    {
        let current = match self.records.get(&account) {
            Some(p) => p.duplicate(),
            None => {
                return Err(ContractError::NotRegistered);
            },
        };
        let next = Player {
            address: current.address,
            username: current.username,
            xp: current.xp,
            iq_level: current.iq_level,
            puzzles_solved: current.puzzles_solved,
            current_streak: 0,
        };
        self.records.insert(account, next);
        Ok(())
    }
}

} // verus!
