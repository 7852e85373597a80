//! An automated market-making quoter for a bin-based decentralized exchange.
//!
//! The crate reconciles a centralized-exchange reference quote with the state
//! of an on-chain bin ladder and decides which liquidity action, if any, to
//! submit next.  All price and amount arithmetic is exact fixed-point integer
//! arithmetic, verified down to the 256-bit primitives.
//!
//! - [`wide`]: 256- and 384-bit unsigned arithmetic with exact contracts.
//! - [`price`]: Q128.128 bin prices and their strict monotonicity.
//! - [`cex`]: the reference-feed states — trade-VWAP windows and
//!   change-triggered book feeds.
//! - [`portfolio`]: portfolio state, configuration, and the proportional
//!   fit and unit-conversion helpers.
//! - [`engine`]: the wanted-positions diff.
//! - [`decide`]: the decision engine proper.
//! - [`executor`]: the execution sequencer — rate limiting, call encoding
//!   and receipt accounting.

pub mod wide;
pub mod price;
pub mod portfolio;
pub mod executor;
pub mod engine;
pub mod decide;
pub mod cex;
