use mind_block::leaderboard::{Entry, LeaderboardIndex};
use mind_block::player::PlayerStore;
use mind_block::submission::SubmissionLog;
use mind_block::{compute_reward, ContractError, MindBlockContract};

const A: u64 = 11;
const B: u64 = 22;
const C: u64 = 33;
const D: u64 = 44;

fn game_with(bound: usize, accounts: &[u64]) -> MindBlockContract {
    let mut game = MindBlockContract::new(bound);
    for &account in accounts {
        let name = format!("player-{}", account);
        game.register_player(account, name, 100, true).unwrap();
    }
    game
}

fn ranked_accounts(game: &MindBlockContract, limit: u32) -> Vec<u64> {
    game.get_leaderboard(limit).iter().map(|p| p.address).collect()
}

#[test]
fn test_register_player() {
    let mut game = MindBlockContract::new(10);
    let username = String::from("TestPlayer");

    let result = game.register_player(A, username, 100, true).unwrap();

    assert_eq!(result.xp, 0);
    assert_eq!(result.iq_level, 100);
}

#[test]
fn test_submit_puzzle() {
    let mut game = MindBlockContract::new(10);
    let username = String::from("TestPlayer");
    let category = String::from("coding");

    game.register_player(A, username, 100, true).unwrap();
    let xp = game.submit_puzzle(A, 1, category, 95, 0, true).unwrap();

    assert!(xp > 0);
}

#[test]
fn reward_is_a_tenth_of_the_product_rounded_down() {
    assert_eq!(compute_reward(95, 100), 950);
    assert_eq!(compute_reward(50, 100), 500);
    assert_eq!(compute_reward(9, 1), 0);
    assert_eq!(compute_reward(19, 1), 1);
    assert_eq!(compute_reward(0, 4_000_000_000), 0);
    assert_eq!(compute_reward(7, 0), 0);
}

#[test]
fn reward_of_the_largest_inputs_is_not_cut_off() {
    assert_eq!(compute_reward(u32::MAX, u32::MAX), 1_844_674_406_511_961_702);
    assert_eq!(compute_reward(4_000_000_000, 4_000_000_000), 1_600_000_000_000_000_000);
}

#[test]
fn registration_starts_without_progress() {
    let mut game = MindBlockContract::new(10);
    let created = game.register_player(A, String::from("TestPlayer"), 100, true).unwrap();
    assert_eq!(created.address, A);
    assert_eq!(created.username, "TestPlayer");
    assert_eq!(created.xp, 0);
    assert_eq!(created.iq_level, 100);
    assert_eq!(created.puzzles_solved, 0);
    assert_eq!(created.current_streak, 0);
    let stored = game.get_player(A).unwrap();
    assert_eq!(stored.address, A);
    assert_eq!(stored.username, "TestPlayer");
    assert_eq!(stored.xp, 0);
    assert_eq!(stored.puzzles_solved, 0);
    assert_eq!(stored.current_streak, 0);
    assert!(game.get_player(B).is_none());
}

#[test]
fn first_submission_rewards_and_counts() {
    let mut game = MindBlockContract::new(10);
    game.register_player(A, String::from("TestPlayer"), 100, true).unwrap();
    let total = game.submit_puzzle(A, 1, String::from("coding"), 95, 1_700, true);
    assert_eq!(total, Ok(950));
    let p = game.get_player(A).unwrap();
    assert_eq!(p.xp, 950);
    assert_eq!(p.puzzles_solved, 1);
    assert_eq!(p.current_streak, 1);
    assert_eq!(game.get_xp(A), Ok(950));
    let s = game.get_submission(A, 1).unwrap();
    assert_eq!(s.player, A);
    assert_eq!(s.puzzle_id, 1);
    assert_eq!(s.category, "coding");
    assert_eq!(s.score, 95);
    assert_eq!(s.timestamp, 1_700);
}

#[test]
fn second_submission_adds_to_the_first() {
    let mut game = MindBlockContract::new(10);
    game.register_player(A, String::from("TestPlayer"), 100, true).unwrap();
    game.submit_puzzle(A, 1, String::from("coding"), 95, 1, true).unwrap();
    let total = game.submit_puzzle(A, 2, String::from("logic"), 50, 2, true);
    assert_eq!(total, Ok(1450));
    let p = game.get_player(A).unwrap();
    assert_eq!(p.xp, 1450);
    assert_eq!(p.puzzles_solved, 2);
    assert_eq!(p.current_streak, 2);
}

#[test]
fn streak_reset_keeps_points_and_count() {
    let mut game = MindBlockContract::new(10);
    game.register_player(A, String::from("TestPlayer"), 100, true).unwrap();
    game.submit_puzzle(A, 1, String::from("coding"), 95, 1, true).unwrap();
    game.submit_puzzle(A, 2, String::from("coding"), 50, 2, true).unwrap();
    assert_eq!(game.reset_streak(A, true), Ok(()));
    let p = game.get_player(A).unwrap();
    assert_eq!(p.current_streak, 0);
    assert_eq!(p.xp, 1450);
    assert_eq!(p.puzzles_solved, 2);
    assert_eq!(p.iq_level, 100);
    game.submit_puzzle(A, 3, String::from("coding"), 10, 3, true).unwrap();
    assert_eq!(game.get_player(A).unwrap().current_streak, 1);
}

#[test]
fn skill_level_changes_later_rewards_only() {
    let mut game = MindBlockContract::new(10);
    game.register_player(A, String::from("TestPlayer"), 100, true).unwrap();
    game.submit_puzzle(A, 1, String::from("coding"), 95, 1, true).unwrap();
    assert_eq!(game.update_iq_level(A, 20, true), Ok(()));
    let p = game.get_player(A).unwrap();
    assert_eq!(p.iq_level, 20);
    assert_eq!(p.xp, 950);
    assert_eq!(p.puzzles_solved, 1);
    assert_eq!(p.current_streak, 1);
    assert_eq!(game.submit_puzzle(A, 2, String::from("coding"), 95, 2, true), Ok(950 + 190));
}

#[test]
fn resubmission_overwrites_and_still_rewards() {
    let mut game = MindBlockContract::new(10);
    game.register_player(A, String::from("TestPlayer"), 100, true).unwrap();
    game.submit_puzzle(A, 1, String::from("coding"), 95, 10, true).unwrap();
    let total = game.submit_puzzle(A, 1, String::from("maths"), 30, 20, true);
    assert_eq!(total, Ok(950 + 300));
    let s = game.get_submission(A, 1).unwrap();
    assert_eq!(s.category, "maths");
    assert_eq!(s.score, 30);
    assert_eq!(s.timestamp, 20);
    let p = game.get_player(A).unwrap();
    assert_eq!(p.xp, 1250);
    assert_eq!(p.puzzles_solved, 2);
    assert_eq!(p.current_streak, 2);
}

#[test]
fn submissions_are_kept_per_account_and_puzzle() {
    let mut game = game_with(10, &[A, B]);
    game.submit_puzzle(A, 1, String::from("coding"), 10, 1, true).unwrap();
    game.submit_puzzle(B, 1, String::from("logic"), 20, 2, true).unwrap();
    game.submit_puzzle(A, 2, String::from("maths"), 30, 3, true).unwrap();
    assert_eq!(game.get_submission(A, 1).unwrap().score, 10);
    assert_eq!(game.get_submission(B, 1).unwrap().score, 20);
    assert_eq!(game.get_submission(A, 2).unwrap().score, 30);
    assert!(game.get_submission(B, 2).is_none());
    assert!(game.get_submission(1, A).is_none());
}

#[test]
fn submission_slots_do_not_collide() {
    let mut log = SubmissionLog::new();
    log.record(0, u64::MAX, String::from("x"), 1, 1);
    log.record(1, 0, String::from("y"), 2, 2);
    log.record(u64::MAX, u64::MAX, String::from("z"), 3, 3);
    assert_eq!(log.get(0, u64::MAX).unwrap().score, 1);
    assert_eq!(log.get(1, 0).unwrap().score, 2);
    assert_eq!(log.get(u64::MAX, u64::MAX).unwrap().score, 3);
    assert!(log.get(u64::MAX, 0).is_none());
    assert!(log.get(0, 0).is_none());
}

#[test]
fn lookups_repeat_between_changes() {
    let mut game = MindBlockContract::new(10);
    game.register_player(A, String::from("TestPlayer"), 100, true).unwrap();
    game.submit_puzzle(A, 1, String::from("coding"), 95, 7, true).unwrap();
    let player = game.get_player(A).unwrap();
    let player_again = game.get_player(A).unwrap();
    assert_eq!(format!("{:?}", player), format!("{:?}", player_again));
    assert_eq!(game.get_xp(A), game.get_xp(A));
    let submission = game.get_submission(A, 1).unwrap();
    let submission_again = game.get_submission(A, 1).unwrap();
    assert_eq!(format!("{:?}", submission), format!("{:?}", submission_again));
    assert_eq!(ranked_accounts(&game, 5), ranked_accounts(&game, 5));
}

#[test]
fn unregistered_account_is_refused_and_nothing_changes() {
    let mut game = game_with(10, &[A]);
    game.submit_puzzle(A, 1, String::from("coding"), 95, 1, true).unwrap();
    assert_eq!(
        game.submit_puzzle(B, 1, String::from("coding"), 95, 1, true),
        Err(ContractError::NotRegistered)
    );
    assert_eq!(game.update_iq_level(B, 5, true), Err(ContractError::NotRegistered));
    assert_eq!(game.reset_streak(B, true), Err(ContractError::NotRegistered));
    assert_eq!(game.get_xp(B), Err(ContractError::NotRegistered));
    assert!(game.get_player(B).is_none());
    assert!(game.get_submission(B, 1).is_none());
    assert_eq!(ranked_accounts(&game, 5), vec![A]);
    let p = game.get_player(A).unwrap();
    assert_eq!((p.xp, p.puzzles_solved, p.current_streak), (950, 1, 1));
}

#[test]
fn store_refuses_unregistered_account() {
    let mut store = PlayerStore::new();
    assert_eq!(store.award(A, 5), Err(ContractError::NotRegistered));
    assert_eq!(store.set_skill_level(A, 5), Err(ContractError::NotRegistered));
    assert_eq!(store.reset_streak(A), Err(ContractError::NotRegistered));
    assert!(!store.contains(A));
    assert!(store.get(A).is_none());
}

#[test]
fn unauthorized_caller_is_refused_and_nothing_changes() {
    let mut game = game_with(10, &[A]);
    assert_eq!(
        game.register_player(B, String::from("x"), 1, false).unwrap_err(),
        ContractError::Unauthorized
    );
    assert!(game.get_player(B).is_none());
    assert_eq!(
        game.submit_puzzle(A, 1, String::from("coding"), 95, 1, false),
        Err(ContractError::Unauthorized)
    );
    assert_eq!(game.update_iq_level(A, 5, false), Err(ContractError::Unauthorized));
    assert_eq!(game.reset_streak(A, false), Err(ContractError::Unauthorized));
    let p = game.get_player(A).unwrap();
    assert_eq!((p.xp, p.iq_level, p.puzzles_solved, p.current_streak), (0, 100, 0, 0));
    assert!(game.get_submission(A, 1).is_none());
    assert_eq!(
        game.submit_puzzle(B, 1, String::from("coding"), 95, 1, false),
        Err(ContractError::Unauthorized)
    );
}

#[test]
fn overflowing_points_are_refused_and_nothing_changes() {
    let mut game = MindBlockContract::new(10);
    game.register_player(A, String::from("big"), u32::MAX, true).unwrap();
    for puzzle in 0..10u64 {
        assert!(game.submit_puzzle(A, puzzle, String::from("c"), u32::MAX, 1, true).is_ok());
    }
    let before = game.get_xp(A).unwrap();
    assert_eq!(before, 18_446_744_065_119_617_020);
    assert_eq!(
        game.submit_puzzle(A, 99, String::from("c"), u32::MAX, 1, true),
        Err(ContractError::Overflow)
    );
    assert_eq!(game.get_xp(A), Ok(before));
    let p = game.get_player(A).unwrap();
    assert_eq!((p.puzzles_solved, p.current_streak), (10, 10));
    assert!(game.get_submission(A, 99).is_none());
}

#[test]
fn registering_again_starts_over() {
    let mut game = game_with(10, &[A, B]);
    game.submit_puzzle(A, 1, String::from("coding"), 95, 1, true).unwrap();
    game.submit_puzzle(B, 1, String::from("coding"), 10, 1, true).unwrap();
    assert_eq!(ranked_accounts(&game, 5), vec![A, B]);
    let again = game.register_player(A, String::from("renamed"), 7, true).unwrap();
    assert_eq!((again.xp, again.iq_level, again.puzzles_solved, again.current_streak), (0, 7, 0, 0));
    assert_eq!(game.get_player(A).unwrap().username, "renamed");
    assert_eq!(game.get_xp(A), Ok(0));
    assert_eq!(ranked_accounts(&game, 5), vec![B, A]);
    assert_eq!(game.get_submission(A, 1).unwrap().score, 95);
}

#[test]
fn leaderboard_is_sorted_limited_and_current() {
    let mut game = game_with(10, &[A, B, C]);
    game.submit_puzzle(A, 1, String::from("c"), 30, 1, true).unwrap();
    game.submit_puzzle(B, 1, String::from("c"), 90, 1, true).unwrap();
    game.submit_puzzle(C, 1, String::from("c"), 60, 1, true).unwrap();
    assert_eq!(ranked_accounts(&game, 10), vec![B, C, A]);
    assert_eq!(ranked_accounts(&game, 2), vec![B, C]);
    assert_eq!(ranked_accounts(&game, 0), Vec::<u64>::new());
    game.submit_puzzle(A, 2, String::from("c"), 70, 2, true).unwrap();
    let top = game.get_leaderboard(3);
    assert_eq!(top.len(), 3);
    assert_eq!(top.iter().map(|p| p.address).collect::<Vec<u64>>(), vec![A, B, C]);
    assert_eq!(top.iter().map(|p| p.xp).collect::<Vec<u64>>(), vec![1000, 900, 600]);
    for p in top.iter() {
        assert_eq!(game.get_xp(p.address), Ok(p.xp));
        assert!(game.get_player(p.address).is_some());
    }
    for w in top.windows(2) {
        assert!(w[0].xp >= w[1].xp);
    }
}

#[test]
fn leaderboard_breaks_ties_by_account() {
    let mut game = game_with(10, &[C, A, B]);
    assert_eq!(ranked_accounts(&game, 10), vec![A, B, C]);
    game.submit_puzzle(C, 1, String::from("c"), 50, 1, true).unwrap();
    game.submit_puzzle(A, 1, String::from("c"), 50, 1, true).unwrap();
    assert_eq!(ranked_accounts(&game, 10), vec![A, C, B]);
}

#[test]
fn full_leaderboard_admits_only_more_points_than_its_last() {
    let mut game = game_with(2, &[A, B, C, D]);
    assert_eq!(ranked_accounts(&game, 10), vec![A, B]);
    game.submit_puzzle(A, 1, String::from("c"), 50, 1, true).unwrap();
    game.submit_puzzle(B, 1, String::from("c"), 30, 1, true).unwrap();
    game.submit_puzzle(C, 1, String::from("c"), 30, 1, true).unwrap();
    assert_eq!(ranked_accounts(&game, 10), vec![A, B]);
    game.submit_puzzle(D, 1, String::from("c"), 20, 1, true).unwrap();
    assert_eq!(ranked_accounts(&game, 10), vec![A, B]);
    game.submit_puzzle(C, 2, String::from("c"), 1, 2, true).unwrap();
    assert_eq!(ranked_accounts(&game, 10), vec![A, C]);
    assert_eq!(game.get_xp(B), Ok(300));
    game.submit_puzzle(D, 2, String::from("c"), 90, 2, true).unwrap();
    assert_eq!(ranked_accounts(&game, 10), vec![D, A]);
    assert_eq!(ranked_accounts(&game, 1), vec![D]);
}

#[test]
fn leaderboard_without_room_stays_empty() {
    let mut game = game_with(0, &[A]);
    game.submit_puzzle(A, 1, String::from("c"), 50, 1, true).unwrap();
    assert!(game.get_leaderboard(5).is_empty());
    assert_eq!(game.get_xp(A), Ok(500));
}

#[test]
fn index_moves_evicts_and_ignores() {
    let mut index = LeaderboardIndex::new(3);
    index.on_xp_change(A, 10);
    index.on_xp_change(B, 30);
    index.on_xp_change(C, 20);
    assert_eq!(index.tracked_count(), 3);
    assert_eq!(index.entry_at(0), Entry { xp: 30, account: B });
    assert_eq!(index.entry_at(1), Entry { xp: 20, account: C });
    assert_eq!(index.entry_at(2), Entry { xp: 10, account: A });
    assert_eq!(index.rank_of(C), Some(1));
    assert_eq!(index.rank_of(D), None);
    index.on_xp_change(A, 25);
    assert_eq!(index.rank_of(A), Some(1));
    assert_eq!(index.rank_of(C), Some(2));
    index.on_xp_change(D, 20);
    assert_eq!(index.rank_of(D), None);
    assert_eq!(index.tracked_count(), 3);
    index.on_xp_change(D, 21);
    assert_eq!(index.rank_of(D), Some(2));
    assert_eq!(index.rank_of(C), None);
    assert_eq!(index.tracked_count(), 3);
}

#[test]
fn index_top_is_a_prefix_of_the_ranking() {
    let mut index = LeaderboardIndex::new(5);
    index.on_xp_change(A, 10);
    index.on_xp_change(B, 30);
    index.on_xp_change(C, 20);
    assert_eq!(
        index.top(2),
        vec![Entry { xp: 30, account: B }, Entry { xp: 20, account: C }]
    );
    assert_eq!(index.top(3).len(), 3);
    assert_eq!(index.top(u32::MAX).len(), 3);
    assert_eq!(index.top(u32::MAX)[2], Entry { xp: 10, account: A });
    assert!(index.top(0).is_empty());
    assert!(LeaderboardIndex::new(0).top(4).is_empty());
}

#[test]
fn store_put_replaces_the_record_of_its_account() {
    let mut store = PlayerStore::new();
    let first = store.register(A, String::from("one"), 3);
    assert_eq!((first.address, first.xp, first.iq_level), (A, 0, 3));
    assert_eq!(store.award(A, 40), Ok(40));
    assert_eq!(store.award(A, 2), Ok(42));
    let mut saved = store.get(A).unwrap();
    assert_eq!((saved.xp, saved.puzzles_solved, saved.current_streak), (42, 2, 2));
    saved.xp = 100;
    store.put(saved.duplicate());
    assert_eq!(store.get(A).unwrap().xp, 100);
    assert_eq!(store.set_skill_level(A, 9), Ok(()));
    assert_eq!(store.reset_streak(A), Ok(()));
    let p = store.get(A).unwrap();
    assert_eq!((p.xp, p.iq_level, p.puzzles_solved, p.current_streak), (100, 9, 2, 0));
    assert_eq!(p.username, "one");
    assert_eq!(store.award(A, u64::MAX), Err(ContractError::Overflow));
    assert_eq!(store.get(A).unwrap().xp, 100);
}

#[test]
fn restored_players_keep_their_progress_and_rank() {
    let mut first = game_with(3, &[A, B, C]);
    first.submit_puzzle(B, 1, String::from("c"), 40, 1, true).unwrap();
    first.submit_puzzle(C, 1, String::from("c"), 70, 1, true).unwrap();
    let saved = first.get_leaderboard(u32::MAX);
    let mut second = MindBlockContract::new(3);
    for p in saved.iter() {
        second.restore_player(p.duplicate());
    }
    assert_eq!(ranked_accounts(&second, 10), vec![C, B, A]);
    assert_eq!(second.get_xp(C), Ok(700));
    assert_eq!(second.get_xp(B), Ok(400));
    let b = second.get_player(B).unwrap();
    assert_eq!((b.puzzles_solved, b.current_streak, b.iq_level), (1, 1, 100));
    assert_eq!(second.submit_puzzle(A, 1, String::from("c"), 50, 2, true), Ok(500));
    assert_eq!(ranked_accounts(&second, 10), vec![C, A, B]);
}
