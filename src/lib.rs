//! Rules engine for multiplayer Durak: card rules, the attack ledger, roles,
//! dealing under a commit-reveal deck, round and game lifecycle.
use vstd::prelude::*;

pub mod attack;
pub mod card;
pub mod deck;
pub mod error;
pub mod game;
pub mod laws;
pub mod player;
pub mod rules;

verus! {

/// Number of cards in the deck.
pub const DECK_LEN: usize = 36;

/// The last slot of the deck holds the trump card.
pub const TRUMP_IDX: usize = 35;

/// Capacity of the attack ledger.
pub const MAX_ATTACK_COUNT: usize = 6;

/// Hands are refilled up to this size while the deck lasts.
pub const MIN_HAND_CARD_COUNT: usize = 6;

/// Seat modulus used when walking the table.
pub const MAX_NUM_OF_PLAYERS: usize = 4;

/// Standard window for a player to act, in milliseconds.
pub const ACT_TIMEOUT_MS: u64 = 20_000;

/// Delay before a finished game resets, in milliseconds.
pub const RESET_TIMEOUT_MS: u64 = 30_000;

/// Window between a concession and the cards moving, in milliseconds.
pub const END_OF_ROUND_TIMEOUT_MS: u64 = 10_000;

} // verus!
