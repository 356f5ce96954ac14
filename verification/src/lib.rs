//! A single-deck card game: a deck of fixed size with a draw cursor, the
//! cards of a standard deck, and a game that deals them into stacks and
//! carries out the commands of a player.

pub mod card;
pub mod deck;
pub mod decode;
pub mod game;
