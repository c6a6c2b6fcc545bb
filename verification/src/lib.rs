//! Accounting and settlement for basket tokens: fungible claims on a
//! fixed-ratio bundle of component assets.
//!
//! A basket token names its components and, for each, the unit that backs
//! one basket. Baskets are minted against components that are locked in the
//! token's reserve and redeemed for them; a manager may trade one component
//! away for another through an exchange; a router acquires the components
//! for a caller who brings a single input asset. Throughout, the reserve
//! holds of each component at least its unit for every basket that exists.
//!
//! The modules, from the ground up:
//!
//! - [`address`]: who holds and who acts;
//! - [`error`]: why an operation is refused;
//! - [`assoc`]: vectors of pairs read as mappings, the representation of
//!   every book;
//! - [`ledger`]: the books of one token;
//! - [`assets`]: the books of all component assets;
//! - [`token`]: the basket token, with mint and redemption;
//! - [`moment`], [`registry`], [`trade`]: rebalancing through an exchange;
//! - [`router`]: assembling and minting in one step;
//! - [`factory`]: bringing basket tokens into being.
//!
//! Every operation that changes state either succeeds as a whole or fails
//! with an [`error::Error`] and changes nothing. Authorization is by
//! identity: an operation that is reserved to someone takes the caller's
//! address, and whoever calls it vouches that the caller is who acts.

pub mod address;
pub mod assets;
pub mod assoc;
pub mod error;
pub mod factory;
pub mod ledger;
pub mod moment;
pub mod registry;
pub mod router;
pub mod token;
pub mod trade;
