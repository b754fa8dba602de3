//! The Solitaire (Pontifex) cipher and the playing-card stack engine it runs
//! on: cutting, merging, shuffling and measuring the order of a card stack,
//! and a keystream generator that encrypts and decrypts text by modular
//! letter addition.

pub mod card;
pub mod cypher;
pub mod laws;
pub mod stack;
pub mod text;

pub use card::{Card, DefCardValue, IllegalStringError, JokerId, JokersPerDeck, NoiseLevel, Suit};
pub use cypher::{decrypt, encrypt, get_key_stream, key_deck_from_passphrase, next_deck_state};
pub use stack::{Cards, MergeType, TwoStacks};
pub use text::{CypherText, KeyStream, Passphrase, PlainText};
