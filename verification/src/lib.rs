//! An authoritative Texas hold'em table: the 52-card deck, the five- and
//! seven-card hand evaluator, and the betting state machine that seats
//! players, posts blinds, enforces turn order, advances the streets and
//! settles every hand, each step verified against its contract. The
//! transport around it only delivers the notices each step returns.

pub mod card;
pub mod engine;
pub mod game;
pub mod hand;
pub mod protocol;
