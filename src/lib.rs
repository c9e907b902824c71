//! Monte Carlo equity of a Texas hold'em hand against one or more opponents.
//!
//! Cards are indices `0..52` in rank-suit order (deuces to aces, clubs to
//! spades). Hands are parsed, ranked and dealt through `aya_poker`; the
//! sampling loop and its bookkeeping are verified here.
pub mod cards;
pub mod deck;
pub mod engine;
pub mod laws;
