//! Reasons for rejecting an event or an action.

use vstd::prelude::*;

use crate::player::Role;
use crate::game::Stage;

verus! {

/// Why an event or an action was rejected.
#[derive(Debug, Clone, Copy, PartialEq, Eq, Structural)]
pub enum Error {
    NoTrump,
    TrumpNotRevealed,
    NoPlayerFoundByRole(Role),
    PlayerIsNotAttacker,
    PlayerIsNotCoAttacker,
    PlayerIsNotDefender,
    CantAttack,
    InvalidCardIndex(usize),
    InvalidNumOfPlayers,
    NotValidAttackCard,
    InvalidAttackStatus,
    InvalidStage(Stage),
    InvalidAttackIndex(u8),
    InvalidDefendCard,
    UnexpectedUnrevealedCard(u8),
    EmptyPlayers,
    UnconfirmedCard,
    CantDefend,
    CantForward,
    InvalidForwardCard,
    NoAttackSpace(usize, usize),
}

} // verus!
