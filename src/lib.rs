//! Rules engine for Liar's Dice: turn order, call escalation, challenge
//! resolution, elimination and win detection.
use vstd::prelude::*;

pub mod dice;
pub mod game;
pub mod players;
pub mod random;
pub mod state;
pub mod ui;

pub use dice::{Dice, DiceCall};
pub use game::{CallOutcome, LiarsDiceGame, LiarsDicePlayer, PlayerId, RollerOrNext, SetupError};
pub use state::{
    CallError, ConfirmChoice, GameCompleteState, GameStartState, LiarsDiceState, PlayerTurnState,
};
pub use ui::{Id, Msg};

verus! {

} // verus!
