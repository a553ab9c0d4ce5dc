use bingo_on_chain_backend::game::RoundState;
use bingo_on_chain_backend::timer::{timer_action, RoundTimer, TimerAction, ROUND_INTERVAL_SECS};

#[test]
fn disarming_twice_is_harmless() {
    let mut t: RoundTimer<u64> = RoundTimer::new();
    assert_eq!(t.arm(7), None);
    assert!(t.is_armed());
    assert_eq!(t.disarm(), Some(7));
    assert_eq!(t.disarm(), None);
    assert!(!t.is_armed());
}

#[test]
fn disarming_an_empty_slot_is_a_no_op() {
    let mut t: RoundTimer<u64> = RoundTimer::new();
    assert_eq!(t.disarm(), None);
    assert!(!t.is_armed());
}

#[test]
fn arming_again_hands_back_the_previous_timer() {
    let mut t: RoundTimer<u64> = RoundTimer::new();
    assert_eq!(t.arm(1), None);
    assert_eq!(t.arm(2), Some(1));
    assert_eq!(t.disarm(), Some(2));
}

#[test]
fn timer_follows_the_round() {
    assert_eq!(timer_action(RoundState::Forming, RoundState::Active), TimerAction::Arm);
    assert_eq!(timer_action(RoundState::Active, RoundState::Finished), TimerAction::Disarm);
    assert_eq!(timer_action(RoundState::Active, RoundState::Active), TimerAction::Leave);
    assert_eq!(timer_action(RoundState::Forming, RoundState::Forming), TimerAction::Leave);
    assert_eq!(timer_action(RoundState::Finished, RoundState::Finished), TimerAction::Leave);
    assert_eq!(ROUND_INTERVAL_SECS, 15);
}
