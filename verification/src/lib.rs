//! A verified subscription and block-pinning manager for a blockchain node.
//!
//! Clients "follow" chain progress through subscriptions: each subscription
//! receives an ordered stream of notifications (new blocks, best-block
//! changes, finality) and may issue read operations pinned against blocks
//! that are guaranteed to stay available until explicitly released.

pub mod types;
pub mod pin_table;
pub mod session;
pub mod chain_head;
pub mod finality;
