//! Fee-rate histograms of Bitcoin transactions: fee resolution against a closed
//! set of transactions, exponentially spaced buckets, a histogram over a sliding
//! window of blocks and a live histogram of the mempool.

pub mod blocks;
pub mod buckets;
pub mod config;
pub mod digits;
pub mod mempool;
pub mod transactions;
