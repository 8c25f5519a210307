//! A trust-minimized task-auction escrow engine.
//!
//! An owner posts a paid task backed by a bounty and a deposit; bidders
//! compete by driving the price downward (a reverse Dutch auction over a
//! linked stack of contingent bids); the engine settles the contract,
//! including optional arbitration, while conserving funds across every
//! command and every advance of the block height.
//!
//! The engine is purely reactive: the host authenticates callers, serializes
//! commands and advances the clock; the engine keeps the auction registry,
//! the bid stacks and the balance ledger, and every command either completes
//! atomically or fails with an error and leaves all state unchanged.

pub mod auction;
pub mod engine;
pub mod laws;
pub mod ledger;
pub mod stack;

pub use auction::Auction;
pub use engine::{Config, Error, Event, Pallet};
pub use ledger::Ledger;
pub use stack::{Bid, BidStack};
