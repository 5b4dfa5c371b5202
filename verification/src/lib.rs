//! A continuous double-auction matching engine for a single instrument.
//!
//! Orders are matched one at a time against a book of resting limit orders
//! under price-time priority.  Every public function carries a contract over
//! the mathematical model in [`model`], and the properties that relate
//! several functions are proved in [`laws`].

pub mod amount;
pub mod order;
pub mod model;
pub mod level;
pub mod book;
pub mod engine;
pub mod laws;
pub mod decimal;
pub mod service;
pub mod wire;
