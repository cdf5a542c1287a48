//! Round-lifecycle orchestrator for a multiplayer card game.
//!
//! The crate sequences a commitment-based shuffle/reveal protocol and a
//! betting protocol: every mutating call is validated against the current
//! phase, forwarded to the deck protocol where applicable, and followed by a
//! reconciliation step that re-derives the aggregate phase from the deck
//! protocol's reported status.

mod codec;
mod deck;
mod game;
mod poker;
mod types;

pub use codec::error_from_bytes;
pub use codec::error_to_bytes;
pub use codec::game_from_bytes;
pub use codec::game_to_bytes;
pub use codec::status_from_bytes;
pub use codec::status_to_bytes;
pub use deck::Deck;
pub use deck::DeckError;
pub use deck::DeckModel;
pub use deck::DeckStatus;
pub use game::Game;
pub use game::GameError;
pub use game::GameModel;
pub use game::GameStatus;
pub use game::DECK_SIZE;
pub use game::STARTING_STAKE;
pub use poker::Poker;
pub use poker::PokerModel;
pub use poker::PokerStatus;
pub use types::CryptoHash;
pub use types::RoomId;
