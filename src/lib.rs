//! Betting-round model for a five-arena, four-pirate food club: bit-packed
//! bets, the short textual codecs for bets and amounts, the round table of
//! every non-empty bet, the winnings aggregation of a portfolio, and the
//! portfolio builders.

pub mod math;
pub mod hash;
pub mod table;
pub mod aggregate;
pub mod builders;
pub mod model;
pub mod modifier;
pub mod text;
pub mod round;
pub mod bets;
pub mod portfolio;
