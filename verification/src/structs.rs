//! The values that the contract works on.

pub mod equippable_attributes;
pub mod equippable_attributes_to_render;
pub mod item;
pub mod roles;
pub mod slot;
pub mod token;
