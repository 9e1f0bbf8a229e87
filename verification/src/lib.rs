//! A turn-based bartering game, played out by pluggable strategies.
//!
//! Players hold goods of a few categories and value them by private
//! preferences. On each turn the lead draws a good from the deck and then
//! trades with the others in alternating rounds of offers and answers. The
//! engine keeps every good accounted for: what the players hold plus what is
//! left in the deck never changes.

pub mod types;
pub mod ledger;
pub mod game;
pub mod player;
pub mod no_trades;
pub mod engine;
pub mod random;
pub mod setup;
pub mod stats;
pub mod sim;
pub mod human;
pub mod determinism;
