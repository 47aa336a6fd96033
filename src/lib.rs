//! A matching engine that allocates incoming supply to open bids by price
//! priority, then arrival order, and keeps each requester's cumulative
//! allocation and the supply that found no bid.

mod book;
mod engine;
mod ledger;

pub use book::{Bid, BidBook, BidView};
pub use engine::{BidError, MatchingEngine};
pub use ledger::AllocationLedger;
