//! Game logic for a multiplayer bingo round: card issuance from entropy, the
//! Fisher–Yates shuffle behind it, the number-calling loop, win detection, and
//! the slot of the periodic timer that drives the round.

pub mod card;
pub mod error;
pub mod game;
pub mod shuffle;
pub mod timer;
pub mod win;
