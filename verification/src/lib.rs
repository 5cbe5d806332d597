//! Derivation of exchange state from blocks: trading pairs, their reserves and
//! spot prices, and token metadata, each folded into a versioned key-value store.
//!
//! The extractors (`pairs::map_pairs`, `reserves::map_reserves`,
//! `tokens::block_to_tokens`) turn one block into records; the state builders
//! (`pairs::build_pairs_state`, `reserves::build_reserves_state`,
//! `tokens::build_tokens_state`) turn records into store entries. `laws` states
//! what holds of them for every block and every store.

pub mod text;
pub mod abi;
pub mod block;
pub mod records;
pub mod codec;
pub mod store;
pub mod decimal;
pub mod amount;
pub mod pairs;
pub mod reserves;
pub mod tokens;
pub mod laws;
