//! A non-collateralized stablecoin that keeps its peg by expanding and
//! contracting the coin supply.
//!
//! When the coin is worth too little, coins are taken out of circulation:
//! bonds are auctioned to the highest bidders, and the coins they pay are
//! burned. When it is worth too much, coins are created: they pay out the
//! bonds, oldest first, and what is left goes to the shareholders.
//!
//! [`Module`] holds the stablecoin and offers its operations. What each
//! operation does is said by a function on the mathematical [`model::State`];
//! [`laws`] states what follows for every state.

pub mod bid;
pub mod bond;
pub mod config;
pub mod error;
pub mod event;
pub mod fixed;
pub mod laws;
pub mod ledger;
pub mod lemmas;
pub mod model;
pub mod module;
pub mod perbill;
pub mod ringbuffer;

pub use bid::{AccountId, Bid, BidError};
pub use bond::{BlockNumber, Bond};
pub use config::{Config, FetchPrice, Trait};
pub use error::Error;
pub use event::Event;
pub use module::Module;
pub use perbill::{Coins, Perbill};
pub use ringbuffer::{BondIndex, RingBuffer};
