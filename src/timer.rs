use vstd::prelude::*;

use crate::game::RoundState;

verus! {

/// Seconds between two calls of the next number.
pub const ROUND_INTERVAL_SECS: u64 = 15;

/// What the host scheduler must do after a state transition so that its
/// periodic timer runs exactly while the round is active.
#[derive(Clone, Copy, Debug, PartialEq, Eq, Structural)]
pub enum TimerAction {
    Leave,
    Arm,
    Disarm,
}

/// The timer follows the round: it is armed on entering `Active` and
/// disarmed on leaving it.
pub fn timer_action(before: RoundState, after: RoundState) -> (a: TimerAction)
    ensures
        a == (if before != RoundState::Active && after == RoundState::Active {
            TimerAction::Arm
        } else if before == RoundState::Active && after != RoundState::Active {
            TimerAction::Disarm
        } else {
            TimerAction::Leave
        }),
{
    match (before, after) {
        (RoundState::Active, RoundState::Active) => TimerAction::Leave,
        (_, RoundState::Active) => TimerAction::Arm,
        (RoundState::Active, _) => TimerAction::Disarm,
        _ => TimerAction::Leave,
    }
}

/// The slot that holds the handle of the live periodic timer, if any. `H` is the
/// host scheduler's handle type. At most one handle is held at a time.
pub struct RoundTimer<H> {
    handle: Option<H>,
}

impl<H> View for RoundTimer<H> {
    type V = Option<H>;

    closed spec fn view(&self) -> Option<H> {
        self.handle
    }
}

/// The slot after a disarm, and the handle that the disarm hands back for cancelling.
pub open spec fn after_disarm<H>(slot: Option<H>) -> (Option<H>, Option<H>) {
    (None, slot)
}

impl<H> RoundTimer<H> {
    pub fn new() -> (t: RoundTimer<H>)
        ensures
            t@ is None,
    {
        RoundTimer { handle: None }
    }

    pub fn is_armed(&self) -> (b: bool)
        ensures
            b == (self@ is Some),
    {
        self.handle.is_some()
    }

    /// Holds `h` as the live timer. The handle held before, if any, is handed back:
    /// the caller cancels it, so that no two timers run at once.
    pub fn arm(&mut self, h: H) -> (previous: Option<H>)
        ensures
            final(self)@ == Some(h),
            previous == old(self)@,
    {
        let previous = self.handle.take();
        self.handle = Some(h);
        previous
    }

    /// Empties the slot and hands back the handle to cancel, if one was held.
    pub fn disarm(&mut self) -> (previous: Option<H>)
        ensures
            (final(self)@, previous) == after_disarm(old(self)@),
    {
        self.handle.take()
    }
}

/// Disarming twice in a row is harmless: the second disarm finds the slot
/// empty, hands back nothing to cancel, and leaves the slot empty.
pub proof fn lemma_disarm_idempotent<H>(slot: Option<H>)
    ensures
        after_disarm(after_disarm(slot).0).1 is None,
        after_disarm(after_disarm(slot).0).0 == after_disarm(slot).0,
{
}

} // verus!
