//! The parts of the contract: what it stores, the images of its tokens, and what it asks
//! of the ledger.

pub mod equippable_minter;
pub mod equippable_uris;
pub mod storage;
