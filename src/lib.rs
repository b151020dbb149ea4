//! Status cache, round overlay and transaction generation for a UTXO
//! transaction fuzzer.
pub mod status;
pub mod hash;
pub mod stats;
pub mod keyed;
pub mod store;
pub mod tx;
pub mod policy;
pub mod overlay;
pub mod strategy;
