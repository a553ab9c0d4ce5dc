use vstd::prelude::*;

verus! {

/// Why an operation on the game was refused. A refused operation changes nothing.
#[derive(Clone, Copy, Debug, PartialEq, Eq, Structural)]
pub enum GameError {
    /// The round is no longer forming, so cards can no longer be issued or replaced.
    AlreadyActive,
    /// The player already holds a card.
    AlreadyRegistered,
    /// The player holds no card.
    PlayerNotFound,
    /// Fewer players than the quorum hold a card.
    QuorumNotMet,
    /// No entropy was supplied for an operation that needs it.
    EntropyUnavailable,
}

} // verus!
