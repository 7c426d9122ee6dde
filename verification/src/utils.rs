//! Operations on byte strings that the rest of the crate is built from.

pub mod bytes;
pub mod case;
pub mod hex;
pub mod order;
pub mod search;
pub mod split;
