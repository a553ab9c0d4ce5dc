use bingo_on_chain_backend::card::PlayerId;
use bingo_on_chain_backend::error::GameError;
use bingo_on_chain_backend::game::{GameState, RoundState, Tick, REQUIRED_PLAYERS};

fn player(b: u8) -> PlayerId {
    PlayerId::new(vec![0xab, b])
}

fn entropy(seed: u8) -> Vec<u8> {
    (0..32u8).map(|i| i.wrapping_mul(31).wrapping_add(seed)).collect()
}

fn active_game() -> GameState {
    let mut g = GameState::new();
    g.register_card(player(1), &entropy(1)).unwrap();
    g.register_card(player(2), &entropy(2)).unwrap();
    assert_eq!(g.round(), RoundState::Active);
    g
}

#[test]
fn quorum_of_two_scenario() {
    let mut g = GameState::new();
    assert_eq!(REQUIRED_PLAYERS, 2);
    assert_eq!(g.round(), RoundState::Forming);
    assert_eq!(g.remaining_slots(), 2);
    g.register_card(player(1), &entropy(1)).unwrap();
    assert_eq!(g.round(), RoundState::Forming);
    assert_eq!(g.remaining_slots(), 1);
    assert_eq!(g.player_count(), 1);
    g.register_card(player(2), &entropy(2)).unwrap();
    assert_eq!(g.round(), RoundState::Active);
    assert_eq!(g.remaining_slots(), 0);
    assert_eq!(g.player_count(), 2);
}

#[test]
fn registration_after_quorum_is_refused() {
    let mut g = GameState::with_quorum(3);
    for p in 1..=3u8 {
        assert_eq!(g.round(), RoundState::Forming);
        assert!(g.register_card(player(p), &entropy(p)).is_ok());
    }
    assert_eq!(g.round(), RoundState::Active);
    let r = g.register_card(player(4), &entropy(4));
    assert!(matches!(r, Err(GameError::AlreadyActive)));
    assert_eq!(g.player_count(), 3);
}

#[test]
fn second_registration_of_a_player_is_refused() {
    let mut g = GameState::new();
    let first = g.register_card(player(1), &entropy(1)).unwrap();
    let r = g.register_card(player(1), &entropy(9));
    assert!(matches!(r, Err(GameError::AlreadyRegistered)));
    assert_eq!(g.player_count(), 1);
    assert_eq!(g.get_card(&player(1)).unwrap().numbers, first.numbers);
}

#[test]
fn registration_without_entropy_changes_nothing() {
    let mut g = GameState::new();
    let r = g.register_card(player(1), &vec![]);
    assert!(matches!(r, Err(GameError::EntropyUnavailable)));
    assert_eq!(g.player_count(), 0);
}

#[test]
fn stored_card_matches_returned_card() {
    let mut g = GameState::new();
    let card = g.register_card(player(7), &entropy(7)).unwrap();
    let stored = g.get_card(&player(7)).unwrap();
    assert_eq!(stored.numbers, card.numbers);
    assert!(stored.owner.same_as(&player(7)));
    assert!(g.get_card(&player(8)).is_none());
}

#[test]
fn reset_while_forming_replaces_the_card() {
    let mut g = GameState::new();
    g.register_card(player(1), &entropy(1)).unwrap();
    let fresh = g.reset_card(player(1), &vec![0u8; 32]).unwrap();
    assert_eq!(g.player_count(), 1);
    assert_eq!(g.get_card(&player(1)).unwrap().numbers, fresh.numbers);
    assert_eq!(fresh.numbers[0], vec![2, 3, 4, 5, 6]);
}

#[test]
fn reset_for_a_new_player_issues_a_card() {
    let mut g = GameState::with_quorum(3);
    g.reset_card(player(5), &entropy(5)).unwrap();
    assert_eq!(g.player_count(), 1);
    assert!(g.get_card(&player(5)).is_some());
    assert_eq!(g.round(), RoundState::Forming);
}

#[test]
fn reset_on_active_round_is_refused_and_keeps_card() {
    let mut g = active_game();
    let before = g.get_card(&player(1)).unwrap().numbers;
    let r = g.reset_card(player(1), &entropy(42));
    assert!(matches!(r, Err(GameError::AlreadyActive)));
    assert_eq!(g.get_card(&player(1)).unwrap().numbers, before);
}

#[test]
fn manual_start_needs_quorum() {
    let mut g = GameState::with_quorum(2);
    g.register_card(player(1), &entropy(1)).unwrap();
    assert_eq!(g.start_round(), Err(GameError::QuorumNotMet));
    assert_eq!(g.round(), RoundState::Forming);
}

#[test]
fn manual_start_after_start_is_refused() {
    let mut g = active_game();
    assert_eq!(g.start_round(), Err(GameError::AlreadyActive));
}

#[test]
fn manual_start_with_quorum_from_resets() {
    let mut g = GameState::with_quorum(2);
    g.reset_card(player(1), &entropy(1)).unwrap();
    g.reset_card(player(2), &entropy(2)).unwrap();
    assert_eq!(g.round(), RoundState::Forming);
    assert_eq!(g.start_round(), Ok(()));
    assert_eq!(g.round(), RoundState::Active);
}

#[test]
fn claim_on_first_row_wins_and_finishes() {
    let mut g = active_game();
    let row = g.get_card(&player(1)).unwrap().numbers[0].clone();
    for &n in &row {
        assert!(g.call_number(n));
    }
    assert_eq!(g.called_numbers().len(), 5);
    assert_eq!(g.claim_win(&player(1)), Ok(true));
    assert_eq!(g.round(), RoundState::Finished);
    assert_eq!(g.winners().len(), 1);
    assert!(g.winners()[0].same_as(&player(1)));
}

#[test]
fn claim_without_bingo_is_false() {
    let mut g = active_game();
    assert_eq!(g.claim_win(&player(2)), Ok(false));
    assert_eq!(g.round(), RoundState::Active);
    assert!(g.winners().is_empty());
}

#[test]
fn claim_by_unknown_player_is_an_error() {
    let mut g = active_game();
    assert_eq!(g.claim_win(&player(9)), Err(GameError::PlayerNotFound));
}

#[test]
fn call_number_rejects_repeats_and_out_of_domain() {
    let mut g = active_game();
    assert!(g.call_number(17));
    assert!(!g.call_number(17));
    assert!(!g.call_number(0));
    assert!(!g.call_number(100));
    assert_eq!(g.called_numbers().len(), 1);
}

#[test]
fn call_number_outside_active_round_is_ignored() {
    let mut g = GameState::new();
    assert!(!g.call_number(17));
    assert!(g.called_numbers().is_empty());
}

#[test]
fn advance_outside_active_round_is_idle() {
    let mut g = GameState::new();
    assert_eq!(g.advance_round(&entropy(1)), Ok(Tick::Idle));
    assert!(g.called_numbers().is_empty());
}

#[test]
fn advance_draws_first_of_shuffled_remaining() {
    let mut g = active_game();
    assert_eq!(g.advance_round(&vec![7u8; 32]), Ok(Tick::Drawn(7)));
    assert!(g.called_numbers().contains(&7));
    assert_eq!(g.remaining_numbers().len(), 98);
    assert!(!g.remaining_numbers().contains(&7));
}

#[test]
fn advance_without_entropy_changes_nothing() {
    let mut g = active_game();
    assert_eq!(g.advance_round(&vec![]), Err(GameError::EntropyUnavailable));
    assert!(g.called_numbers().is_empty());
    assert_eq!(g.round(), RoundState::Active);
}

#[test]
fn exhausting_the_domain_finishes_without_winner() {
    let mut g = active_game();
    let mut drawn = std::collections::HashSet::new();
    for t in 0..99u8 {
        match g.advance_round(&entropy(t)) {
            Ok(Tick::Drawn(n)) => {
                assert!((1..=99).contains(&n));
                assert!(drawn.insert(n));
            }
            other => panic!("unexpected tick {:?}", other),
        }
        assert!(g.called_numbers().len() <= 99);
    }
    assert_eq!(g.called_numbers().len(), 99);
    assert!(g.remaining_numbers().is_empty());
    assert_eq!(g.round(), RoundState::Active);
    assert_eq!(g.advance_round(&entropy(0)), Ok(Tick::Exhausted));
    assert_eq!(g.round(), RoundState::Finished);
    assert!(g.winners().is_empty());
    assert_eq!(g.advance_round(&entropy(0)), Ok(Tick::Idle));
}

#[test]
fn claims_after_finish_are_not_wins() {
    let mut g = active_game();
    let row = g.get_card(&player(2)).unwrap().numbers[4].clone();
    for &n in &row {
        g.call_number(n);
    }
    assert_eq!(g.claim_win(&player(2)), Ok(true));
    assert_eq!(g.claim_win(&player(2)), Ok(false));
    assert_eq!(g.winners().len(), 1);
}
