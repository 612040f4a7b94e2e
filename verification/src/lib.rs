//! A deterministic smart-contract application platform: typed messages are
//! dispatched against a versioned key-value store, contract state lives under
//! per-contract prefixes, and every value transfer is routed through a
//! designated bank contract.

pub mod bytes_util;
pub mod record;
pub mod store;
pub mod hashing;
pub mod commit;
pub mod node_key;
pub mod coins;
pub mod types;
pub mod codec;
pub mod bank;
pub mod execute;
