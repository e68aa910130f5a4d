//! The game state and its public operations.
//!
//! Every operation either applies its whole effect to the player records, the
//! submission log and the ranking, or reports an error and changes nothing.
//! The caller establishes authorization and reads the ledger clock; both
//! arrive here as plain values.

use vstd::prelude::*;
use crate::error::ContractError;
use crate::leaderboard::{
    distinct_accounts, holds, lemma_last_is_least, lemma_slot, next_len, next_standings, ordered,
    outranks, standings, Entry, LeaderboardIndex,
};
use crate::player::{
    awarded, can_award, fresh_player, keyed_by_address, with_skill_level, with_streak_reset, Player,
    PlayerStore,
};
use crate::reward::{compute_reward, reward_of};
use crate::submission::{keyed_by_pair, PuzzleSubmission, SubmissionLog};

verus! {

/// Every ranked account is registered and ranked by its current experience
/// points.
pub open spec fn ranking_current(players: Map<u64, Player>, ranked: Map<u64, u64>) -> bool {
    forall|a: u64| #[trigger]
        ranked.contains_key(a) ==> players.contains_key(a) && players[a].xp == ranked[a]
}

/// The ranking holds the players with the most experience points: a
/// registered account is left out only when the ranking is full, and then it
/// has no more points than any ranked account.
pub open spec fn ranks_the_best(
    players: Map<u64, Player>,
    ranked: Map<u64, u64>,
    len: nat,
    bound: nat,
) -> bool {
    &&& forall|a: u64| #[trigger] players.contains_key(a) && !ranked.contains_key(a) ==> len == bound
    &&& forall|a: u64, b: u64|
        #[trigger] players.contains_key(a) && !ranked.contains_key(a) && #[trigger] ranked.contains_key(b)
            ==> players[a].xp <= ranked[b]
}

/// Player `p` stands before player `q` on the leaderboard: more experience
/// points, or the same and a smaller account identifier.
pub open spec fn stands_before(p: Player, q: Player) -> bool {
    p.xp > q.xp || (p.xp == q.xp && p.address < q.address)
}

/// The list `out` shows the first `out.len()` ranked accounts, each with its
/// stored record, in rank order.
pub open spec fn shows_top(out: Seq<Player>, players: Map<u64, Player>, ranking: Seq<Entry>) -> bool {
    &&& out.len() <= ranking.len()
    &&& forall|i: int|
        #![trigger out[i]]
        0 <= i < out.len() ==> players.contains_key(ranking[i].account) && out[i]
            == players[ranking[i].account]
}

/// A ranking that holds the players with the most experience points still
/// does so after `record` became the record of `account` and the ranking took
/// note of its points, provided a ranked account did not lose points.
pub proof fn lemma_best_stay_ranked(
    players: Map<u64, Player>,
    s: Seq<Entry>,
    bound: nat,
    account: u64,
    record: Player,
)
    requires
        ordered(s),
        distinct_accounts(s),
        s.len() <= bound,
        ranking_current(players, standings(s)),
        ranks_the_best(players, standings(s), s.len(), bound),
        holds(s, account) ==> standings(s)[account] <= record.xp,
    ensures
        ranks_the_best(
            players.insert(account, record),
            next_standings(s, bound, account, record.xp),
            next_len(s, bound, account),
            bound,
        ),
{
    let before = standings(s);
    let after = next_standings(s, bound, account, record.xp);
    let players_after = players.insert(account, record);
    assert forall|b: u64| #[trigger] before.contains_key(b) implies s.len() > 0 && before[b]
        >= s.last().xp by {
        lemma_last_is_least(s, b);
    }
    if s.len() > 0 {
        lemma_slot(s, s.last().account, s.len() - 1);
    }
    assert forall|a: u64| #[trigger]
        players_after.contains_key(a) && !after.contains_key(a) implies next_len(s, bound, account)
        == bound by {
        if a != account && a != s.last().account {
            assert(players.contains_key(a) && !before.contains_key(a));
        }
    }
    assert forall|a: u64, b: u64|
        #[trigger] players_after.contains_key(a) && !after.contains_key(a) && #[trigger] after.contains_key(
            b,
        ) implies players_after[a].xp <= after[b] by {
        if a != account {
            assert(players.contains_key(a));
            if before.contains_key(a) {
                assert(before.contains_key(s.last().account));
            } else if b != account {
                assert(before.contains_key(b));
            } else if !before.contains_key(account) {
                assert(before.contains_key(s.last().account));
            }
        } else if b != account {
            assert(before.contains_key(b));
        }
    }
}

/// A list that shows the first ranked accounts shows one more after the
/// record of the next ranked account is appended.
pub proof fn lemma_shows_one_more(
    shown: Seq<Player>,
    players: Map<u64, Player>,
    ranking: Seq<Entry>,
    next: Player,
)
    requires
        shows_top(shown, players, ranking),
        shown.len() < ranking.len(),
        players.contains_key(ranking[shown.len() as int].account),
        next == players[ranking[shown.len() as int].account],
    ensures
        shows_top(shown.push(next), players, ranking),
{
    let out = shown.push(next);
    assert forall|i: int| 0 <= i < out.len() implies players.contains_key(
        (#[trigger] ranking[i]).account,
    ) by {
        if i < shown.len() {
            assert(out[i] == shown[i]);
        }
    }
    assert forall|i: int| 0 <= i < out.len() implies #[trigger] out[i] == players[ranking[i].account] by {
        if i < shown.len() {
            assert(out[i] == shown[i]);
        }
    }
}

/// Lookups depend on the stored records alone: two states with the same
/// player records and submissions answer every lookup alike, so a lookup that
/// is repeated while nothing is changed returns what it returned before.
pub proof fn lemma_lookups_repeat(
    first: &MindBlockContract,
    second: &MindBlockContract,
    account: u64,
    puzzle_id: u64,
)
    requires
        first.players() == second.players(),
        first.submissions() == second.submissions(),
    ensures
        first.player_of(account) == second.player_of(account),
        first.xp_of(account) == second.xp_of(account),
        first.submission_of(account, puzzle_id) == second.submission_of(account, puzzle_id),
{
}

/// The game state: player records, submission log and ranking.
pub struct MindBlockContract {
    players: PlayerStore,
    submissions: SubmissionLog,
    leaderboard: LeaderboardIndex,
}

impl MindBlockContract {
    /// The player records by account.
    pub closed spec fn players(&self) -> Map<u64, Player> {
        self.players@
    }

    /// The latest submission of each account for each puzzle.
    pub closed spec fn submissions(&self) -> Map<(u64, u64), PuzzleSubmission> {
        self.submissions@
    }

    /// The ranked entries, best first.
    pub closed spec fn ranking(&self) -> Seq<Entry> {
        self.leaderboard.ranking()
    }

    /// The ranked accounts with the experience points they are ranked by.
    pub closed spec fn ranked(&self) -> Map<u64, u64> {
        self.leaderboard@
    }

    /// The largest number of accounts the ranking keeps.
    pub closed spec fn bound(&self) -> nat {
        self.leaderboard.bound()
    }

    /// The state is consistent: records and submissions are stored under their
    /// own keys, the ranking is ordered, within its bound and without repeated
    /// accounts, and it ranks only registered accounts by their current
    /// experience points.
    pub open spec fn wf(&self) -> bool {
        &&& keyed_by_address(self.players())
        &&& keyed_by_pair(self.submissions())
        &&& ordered(self.ranking())
        &&& distinct_accounts(self.ranking())
        &&& self.ranking().len() <= self.bound()
        &&& self.ranked() == standings(self.ranking())
        &&& ranking_current(self.players(), self.ranked())
    }

    /// The ranking holds the players with the most experience points.
    pub open spec fn complete(&self) -> bool {
        ranks_the_best(self.players(), self.ranked(), self.ranking().len(), self.bound())
    }

    /// The record `player` does not take experience points away from a
    /// ranked account.
    pub open spec fn keeps_points(&self, player: Player) -> bool {
        self.ranked().contains_key(player.address) ==> self.ranked()[player.address] <= player.xp
    }

    /// What a lookup of `account` returns.
    pub open spec fn player_of(&self, account: u64) -> Option<Player> {
        if self.players().contains_key(account) {
            Some(self.players()[account])
        } else {
            None
        }
    }

    /// What a lookup of the submission of `account` for `puzzle_id` returns.
    pub open spec fn submission_of(&self, account: u64, puzzle_id: u64) -> Option<PuzzleSubmission> {
        if self.submissions().contains_key((account, puzzle_id)) {
            Some(self.submissions()[(account, puzzle_id)])
        } else {
            None
        }
    }

    /// What a query of the experience points of `account` returns.
    pub open spec fn xp_of(&self, account: u64) -> Result<u64, ContractError> {
        if self.players().contains_key(account) {
            Ok(self.players()[account].xp)
        } else {
            Err(ContractError::NotRegistered)
        }
    }

    /// An empty game whose ranking keeps at most `bound` accounts.
    pub fn new(bound: usize) -> (game: Self)
        ensures
            game.wf(),
            game.complete(),
            game.bound() == bound,
            game.players() == Map::<u64, Player>::empty(),
            game.submissions() == Map::<(u64, u64), PuzzleSubmission>::empty(),
            game.ranking() == Seq::<Entry>::empty(),
    {
        MindBlockContract {
            players: PlayerStore::new(),
            submissions: SubmissionLog::new(),
            leaderboard: LeaderboardIndex::new(bound),
        }
    }

    /// Takes in a record that was saved earlier, with its progress, and ranks
    /// the account by the experience points of the record. Any record the
    /// account had is replaced.
    pub fn restore_player(&mut self, player: Player)
        requires
            old(self).wf(),
        ensures
            final(self).wf(),
            final(self).bound() == old(self).bound(),
            final(self).submissions() == old(self).submissions(),
            final(self).players() == old(self).players().insert(player.address, player),
            final(self).ranked() == next_standings(
                old(self).ranking(),
                old(self).bound(),
                player.address,
                player.xp,
            ),
            final(self).ranking().len() == next_len(
                old(self).ranking(),
                old(self).bound(),
                player.address,
            ),
            old(self).complete() && old(self).keeps_points(player) ==> final(self).complete(),
    {
        let account = player.address;
        let xp = player.xp;
        proof {
            if old(self).complete() && old(self).keeps_points(player) {
                lemma_best_stay_ranked(
                    old(self).players(),
                    old(self).ranking(),
                    old(self).bound(),
                    account,
                    player,
                );
            }
        }
        self.players.put(player);
        self.leaderboard.on_xp_change(account, xp);
    }

    /// Registers `player` with no progress. An account that is registered
    /// already starts over: its record is replaced and it is ranked with zero
    /// experience points. Starting over is the one change that can take
    /// points away from a ranked account; after it the ranking may miss a
    /// player that it left out earlier.
    pub fn register_player(
        &mut self,
        player: u64,
        username: String,
        iq_level: u32,
        authorized: bool,
    ) -> (created: Result<Player, ContractError>)
        requires
            old(self).wf(),
        ensures
            final(self).wf(),
            final(self).bound() == old(self).bound(),
            final(self).submissions() == old(self).submissions(),
            !authorized ==> created == Err::<Player, ContractError>(ContractError::Unauthorized)
                && *final(self) == *old(self),
            authorized ==> {
                &&& created == Ok::<Player, ContractError>(fresh_player(player, username, iq_level))
                &&& final(self).players() == old(self).players().insert(
                    player,
                    fresh_player(player, username, iq_level),
                )
                &&& final(self).ranked() == next_standings(
                    old(self).ranking(),
                    old(self).bound(),
                    player,
                    0,
                )
                &&& final(self).ranking().len() == next_len(
                    old(self).ranking(),
                    old(self).bound(),
                    player,
                )
            },
            old(self).complete() && old(self).keeps_points(fresh_player(player, username, iq_level))
                ==> final(self).complete(),
    {
        if !authorized {
            return Err(ContractError::Unauthorized);
        }
        let created = Player {
            address: player,
            username,
            xp: 0,
            iq_level,
            puzzles_solved: 0,
            current_streak: 0,
        };
        self.restore_player(created.duplicate());
        Ok(created)
    }

    /// The record of `player`, if it is registered.
    pub fn get_player(&self, player: u64) -> (found: Option<Player>)
        ensures
            found == self.player_of(player),
    {
        self.players.get(player)
    }

    /// Records a solved puzzle: rewards the player, counts the submission,
    /// extends the streak, updates the ranking and stores the submission in
    /// place of an earlier one for the same puzzle. Returns the player's new
    /// experience points.
    pub fn submit_puzzle(
        &mut self,
        player: u64,
        puzzle_id: u64,
        category: String,
        score: u32,
        timestamp: u64,
        authorized: bool,
    ) -> (total: Result<u64, ContractError>)
        requires
            old(self).wf(),
        ensures
            final(self).wf(),
            final(self).bound() == old(self).bound(),
            old(self).complete() ==> final(self).complete(),
            total == old(self).submit_outcome(player, score, authorized),
            total is Err ==> *final(self) == *old(self),
            total is Ok ==> {
                let before = old(self).players()[player];
                let after = awarded(before, reward_of(score, before.iq_level) as u64);
                &&& final(self).players() == old(self).players().insert(player, after)
                &&& final(self).submissions() == old(self).submissions().insert(
                    (player, puzzle_id),
                    PuzzleSubmission { player, puzzle_id, category, score, timestamp },
                )
                &&& final(self).ranked() == next_standings(
                    old(self).ranking(),
                    old(self).bound(),
                    player,
                    after.xp,
                )
                &&& final(self).ranking().len() == next_len(
                    old(self).ranking(),
                    old(self).bound(),
                    player,
                )
            },
    {
        if !authorized {
            return Err(ContractError::Unauthorized);
        }
        let skill_level = match self.players.get(player) {
            Some(p) => p.iq_level,
            None => {
                return Err(ContractError::NotRegistered);
            },
        };
        let xp_reward = compute_reward(score, skill_level);
        let total = match self.players.award(player, xp_reward) {
            Ok(total) => total,
            Err(e) => {
                return Err(e);
            },
        };
        self.leaderboard.on_xp_change(player, total);
        self.submissions.record(player, puzzle_id, category, score, timestamp);
        proof {
            if old(self).complete() {
                lemma_best_stay_ranked(
                    old(self).players(),
                    old(self).ranking(),
                    old(self).bound(),
                    player,
                    awarded(old(self).players()[player], xp_reward),
                );
            }
        }
        Ok(total)
    }

    /// What a submission returns: the error that stops it, or the player's new
    /// experience points.
    pub open spec fn submit_outcome(&self, player: u64, score: u32, authorized: bool) -> Result<
        u64,
        ContractError,
    > {
        if !authorized {
            Err(ContractError::Unauthorized)
        } else if !self.players().contains_key(player) {
            Err(ContractError::NotRegistered)
        } else {
            let p = self.players()[player];
            let reward = reward_of(score, p.iq_level) as u64;
            if can_award(p, reward) {
                Ok((p.xp + reward) as u64)
            } else {
                Err(ContractError::Overflow)
            }
        }
    }

    /// The first `limit` ranked players, best first, each with its current
    /// record; all of them if fewer are ranked.
    pub fn get_leaderboard(&self, limit: u32) -> (top: Vec<Player>)
        requires
            self.wf(),
        ensures
            top@.len() == if limit <= self.ranking().len() {
                limit as nat
            } else {
                self.ranking().len()
            },
            top@.len() <= limit,
            shows_top(top@, self.players(), self.ranking()),
            forall|i: int, j: int|
                0 <= i < j < top@.len() ==> stands_before(#[trigger] top@[i], #[trigger] top@[j]),
            forall|i: int|
                0 <= i < top@.len() ==> self.xp_of((#[trigger] top@[i]).address) == Ok::<
                    u64,
                    ContractError,
                >(top@[i].xp),
    {
        let best = self.leaderboard.top(limit);
        let mut top: Vec<Player> = Vec::new();
        let mut i: usize = 0;
        while i < best.len()
            invariant
                self.wf(),
                best@.len() <= self.ranking().len(),
                forall|k: int| 0 <= k < best@.len() ==> best@[k] == self.ranking()[k],
                i <= best@.len(),
                top@.len() == i,
                shows_top(top@, self.players(), self.ranking()),
            decreases best.len() - i,
        {
            let entry = best[i];
            let ghost shown = top@;
            proof {
                lemma_slot(self.ranking(), entry.account, i as int);
            }
            match self.players.get(entry.account) {
                Some(p) => {
                    top.push(p);
                },
                None => {
                    proof {
                        assert(false);
                    }
                },
            }
            proof {
                lemma_shows_one_more(shown, self.players(), self.ranking(), top@[i as int]);
                assert(top@ == shown.push(top@[i as int]));
            }
            i += 1;
        }
        proof {
            let s = self.ranking();
            assert forall|a: int, b: int| 0 <= a < b < top@.len() implies stands_before(
                #[trigger] top@[a],
                #[trigger] top@[b],
            ) by {
                lemma_slot(s, s[a].account, a);
                lemma_slot(s, s[b].account, b);
                assert(outranks(s[a], s[b]));
            }
            assert forall|k: int| 0 <= k < top@.len() implies self.xp_of((#[trigger] top@[k]).address)
                == Ok::<u64, ContractError>(top@[k].xp) by {
                lemma_slot(s, s[k].account, k);
            }
        }
        top
    }

    /// Gives `player` another skill level. Experience points, counters and
    /// the ranking stay as they are.
    pub fn update_iq_level(&mut self, player: u64, new_iq_level: u32, authorized: bool) -> (done:
        Result<(), ContractError>)
        requires
            old(self).wf(),
        ensures
            final(self).wf(),
            final(self).bound() == old(self).bound(),
            final(self).submissions() == old(self).submissions(),
            final(self).ranking() == old(self).ranking(),
            final(self).ranked() == old(self).ranked(),
            old(self).complete() ==> final(self).complete(),
            !authorized ==> done == Err::<(), ContractError>(ContractError::Unauthorized),
            authorized && !old(self).players().contains_key(player) ==> done == Err::<
                (),
                ContractError,
            >(ContractError::NotRegistered),
            done is Err ==> *final(self) == *old(self),
            authorized && old(self).players().contains_key(player) ==> done == Ok::<
                (),
                ContractError,
            >(()) && final(self).players() == old(self).players().insert(
                player,
                with_skill_level(old(self).players()[player], new_iq_level),
            ),
    {
        if !authorized {
            return Err(ContractError::Unauthorized);
        }
        self.players.set_skill_level(player, new_iq_level)
    }

    /// Sets the streak of `player` back to zero. Experience points, the
    /// number of solved puzzles and the ranking stay as they are.
    pub fn reset_streak(&mut self, player: u64, authorized: bool) -> (done: Result<
        (),
        ContractError,
    >)
        requires
            old(self).wf(),
        ensures
            final(self).wf(),
            final(self).bound() == old(self).bound(),
            final(self).submissions() == old(self).submissions(),
            final(self).ranking() == old(self).ranking(),
            final(self).ranked() == old(self).ranked(),
            old(self).complete() ==> final(self).complete(),
            !authorized ==> done == Err::<(), ContractError>(ContractError::Unauthorized),
            authorized && !old(self).players().contains_key(player) ==> done == Err::<
                (),
                ContractError,
            >(ContractError::NotRegistered),
            done is Err ==> *final(self) == *old(self),
            authorized && old(self).players().contains_key(player) ==> done == Ok::<
                (),
                ContractError,
            >(()) && final(self).players() == old(self).players().insert(
                player,
                with_streak_reset(old(self).players()[player]),
            ),
    {
        if !authorized {
            return Err(ContractError::Unauthorized);
        }
        self.players.reset_streak(player)
    }

    /// The experience points of `player`.
    pub fn get_xp(&self, player: u64) -> (xp: Result<u64, ContractError>)
        ensures
            xp == self.xp_of(player),
    {
        match self.players.get(player) {
            Some(p) => Ok(p.xp),
            None => Err(ContractError::NotRegistered),
        }
    }

    /// The latest submission of `player` for `puzzle_id`, if there is one.
    pub fn get_submission(&self, player: u64, puzzle_id: u64) -> (found: Option<PuzzleSubmission>)
        ensures
            found == self.submission_of(player, puzzle_id),
    {
        self.submissions.get(player, puzzle_id)
    }
}

} // verus!
