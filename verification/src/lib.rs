//! Mirrors external chain and lightning node state into local, queryable
//! structures: a mempool relevance scanner that detects swap-relevant
//! unconfirmed transactions, and a lightning gossip cache with a per-currency
//! node index and fuzzy alias search.

pub mod chain;
pub mod fuzzy;
pub mod hex;
pub mod kv;
pub mod lightning;
pub mod scan;
