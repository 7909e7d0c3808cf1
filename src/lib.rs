//! Search for the salt whose derived contract-address field element is the
//! smallest, with the derivation, the per-worker probing, the shared minimum
//! and the throughput bookkeeping stated and proved.

pub mod felt;
pub mod hex;
pub mod address;
pub mod probe;
pub mod tracker;
pub mod estimate;
