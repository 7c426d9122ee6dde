//! Fixed values of the wire format and of the render queue.

use vstd::prelude::*;

verus! {

/// Price, in the smallest unit of the native currency, of one render request.
pub const ENQUEUE_PRICE: u64 = 1_000_000_000_000_000;

/// Largest number of bytes that an encoded value may take.
pub const MAX_ENCODED_LEN: usize = 512;

/// `;`, which separates the entries of an encoded attribute set.
pub const ENTRY_SEPARATOR: u8 = 59;

/// `:`, which separates a slot from its value.
pub const SLOT_SEPARATOR: u8 = 58;

/// ` `, which separates an item's name from its identity.
pub const SPACE: u8 = 32;

/// `(`, which opens an item's identity.
pub const OPEN_PAREN: u8 = 40;

/// `)`, which closes an item's identity.
pub const CLOSE_PAREN: u8 = 41;

/// `-`, which separates a token identifier from its nonce.
pub const DASH: u8 = 45;

/// `@`, which separates the attributes from the name in a render key.
pub const AT_SIGN: u8 = 64;

/// The value written for a slot that holds nothing: `unequipped`.
pub const UNEQUIPPED_ITEM_NAME: [u8; 10] = [117, 110, 101, 113, 117, 105, 112, 112, 101, 100];

/// The bytes of [`UNEQUIPPED_ITEM_NAME`] as a sequence.
pub open spec fn unequipped() -> Seq<u8> {
    seq![117u8, 110u8, 101u8, 113u8, 117u8, 105u8, 112u8, 112u8, 101u8, 100u8]
}

} // verus!
