//! Equipment state of a composable non-fungible token.
//!
//! A base token carries a set of named slots, each holding an item or nothing.
//! The crate provides the canonical text form of that set, the operations that
//! change it, and the tables that a deployment keeps beside it.

pub mod codec;
pub mod constants;
pub mod equip;
pub mod error;
pub mod libs;
pub mod structs;
pub mod utils;

pub use equip::Equip;
pub use libs::equippable_minter::MintEquippableModule;
pub use libs::equippable_uris::EquippableUrisModule;
pub use libs::storage::StorageModule;
