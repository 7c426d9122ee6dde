//! Why an operation was refused.

use vstd::prelude::*;

verus! {

/// The broad kind of an [`Error`].
#[derive(Clone, Copy, Debug, PartialEq, Eq, Structural)]
pub enum ErrorKind {
    /// The caller's input is at fault.
    Validation,
    /// Bytes could not be read as attributes, or attributes do not fit the wire format.
    Codec,
    /// The caller or the contract lacks a right.
    Permission,
    /// The request collides with what is stored.
    StateConflict,
}

/// Every refusal that the crate knows.
#[derive(Clone, Copy, Debug, PartialEq, Eq, Structural)]
pub enum Error {
    /// Neither a slot to unequip nor an item to equip was given.
    NoOperationRequested,
    /// The slot to unequip holds nothing.
    EmptySlotUnequip,
    /// The slot is none of the registered ones.
    UnknownSlot,
    /// The token is not registered as an item.
    UnregisteredItem,
    /// The token to equip is the equippable token itself.
    SelfEquip,
    /// A name or a token identifier holds a byte that the wire format reserves.
    InvalidCharacter,
    /// A slot holds a byte that the wire format reserves.
    InvalidSlotCharacter,
    /// The name is the word that marks an empty slot.
    ReservedName,
    /// No payment was sent, so no equippable token either.
    NeedEquippable,
    /// The first payment is not the equippable token.
    FirstPaymentIsNotEquippable,
    /// The equippable token was not sent in quantity one.
    MoreThanOneEquippableReceived,
    /// An item was not sent in quantity one.
    MoreThanOneItemReceived,
    /// An entry of encoded attributes does not follow the grammar.
    MalformedAttributeEntry,
    /// Encoded attributes name a slot twice.
    DuplicateSlot,
    /// The encoded form is longer than the wire format allows.
    BufferTooLarge,
    /// The contract may not create tokens of the equippable collection.
    MissingCreateRole,
    /// The contract may not add quantity to an item's collection.
    MissingMintRole,
    /// The contract may not burn tokens of the collection.
    MissingBurnRole,
    /// The caller is not the owner.
    NotOwner,
    /// The caller is neither the owner nor authorized.
    NotAuthorized,
    /// The token is already registered, to another slot.
    DuplicateRegistration,
    /// The equippable token cannot be registered as an item.
    CannotRegisterEquippable,
    /// The payment is not the price of a render request.
    WrongEnqueuePrice,
    /// The image has been rendered already.
    AlreadyRendered,
    /// The image has an address already, which cannot be replaced.
    UriAlreadySet,
    /// The image is waiting in the render queue already.
    AlreadyInQueue,
    /// The image is not in the render queue.
    NotInQueue,
    /// The queue holds other attributes under that name.
    AttributesMismatch,
    /// No URI is stored for the attributes.
    NoUri,
    /// The contract holds no unit of a token that it is to hand back, so that it cannot add
    /// one.
    NoUnitHeld,
}

impl Error {
    /// The kind that `self` belongs to.
    pub open spec fn kind_of(self) -> ErrorKind {
        match self {
            Error::NoOperationRequested
            | Error::EmptySlotUnequip
            | Error::UnknownSlot
            | Error::UnregisteredItem
            | Error::SelfEquip
            | Error::InvalidCharacter
            | Error::InvalidSlotCharacter
            | Error::ReservedName
            | Error::NeedEquippable
            | Error::FirstPaymentIsNotEquippable
            | Error::MoreThanOneEquippableReceived
            | Error::MoreThanOneItemReceived
            | Error::WrongEnqueuePrice => ErrorKind::Validation,
            Error::MalformedAttributeEntry | Error::DuplicateSlot | Error::BufferTooLarge =>
                ErrorKind::Codec,
            Error::MissingCreateRole
            | Error::MissingMintRole
            | Error::MissingBurnRole
            | Error::NotOwner
            | Error::NotAuthorized => ErrorKind::Permission,
            Error::DuplicateRegistration
            | Error::CannotRegisterEquippable
            | Error::AlreadyRendered
            | Error::UriAlreadySet
            | Error::AlreadyInQueue
            | Error::NotInQueue
            | Error::AttributesMismatch
            | Error::NoUri
            | Error::NoUnitHeld => ErrorKind::StateConflict,
        }
    }

    /// The kind that `self` belongs to.
    pub fn kind(&self) -> (r: ErrorKind)
        ensures
            r == self.kind_of(),
    {
        match self {
            Error::NoOperationRequested
            | Error::EmptySlotUnequip
            | Error::UnknownSlot
            | Error::UnregisteredItem
            | Error::SelfEquip
            | Error::InvalidCharacter
            | Error::InvalidSlotCharacter
            | Error::ReservedName
            | Error::NeedEquippable
            | Error::FirstPaymentIsNotEquippable
            | Error::MoreThanOneEquippableReceived
            | Error::MoreThanOneItemReceived
            | Error::WrongEnqueuePrice => ErrorKind::Validation,
            Error::MalformedAttributeEntry | Error::DuplicateSlot | Error::BufferTooLarge =>
                ErrorKind::Codec,
            Error::MissingCreateRole
            | Error::MissingMintRole
            | Error::MissingBurnRole
            | Error::NotOwner
            | Error::NotAuthorized => ErrorKind::Permission,
            Error::DuplicateRegistration
            | Error::CannotRegisterEquippable
            | Error::AlreadyRendered
            | Error::UriAlreadySet
            | Error::AlreadyInQueue
            | Error::NotInQueue
            | Error::AttributesMismatch
            | Error::NoUri
            | Error::NoUnitHeld => ErrorKind::StateConflict,
        }
    }
}

} // verus!
