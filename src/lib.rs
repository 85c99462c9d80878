//! Joins a snapshot of unspent outputs with a block-position dump and emits
//! enriched records that carry a packed short-channel-id locator.
pub mod utxo;
pub mod index;
pub mod pipeline;
pub mod codec;
