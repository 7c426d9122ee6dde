//! Equipping and unequipping: what each operation does to a token's attributes, and what it
//! asks of the ledger.
//!
//! Nothing here touches the ledger. An operation is given the attributes and the rights
//! as they were read, and either fails, leaving everything as it was, or returns the new
//! attributes together with the tokens to hand back and to burn.

use vstd::prelude::*;
use crate::codec::{decode_spec, encode_spec, resolved, valid_attributes, Attributes};
use crate::constants::{unequipped, ENTRY_SEPARATOR, MAX_ENCODED_LEN, SLOT_SEPARATOR};
use crate::error::Error;
use crate::libs::storage::{
    find_token, knows_collection, knows_slot, lemma_found_token_is_of_item_collection, lemma_register_refuses_name, lemma_registered_slot_is_known, lookup,
    register_fault, registered,
    token_flags, valid_registration, valid_storage, RegistrationView, Storage, StorageModule,
    StorageView,
};
use crate::utils::search::lemma_first_true;
use crate::structs::equippable_attributes::{entry_fault, EquippableAttributes};
use crate::structs::item::{refusal, Item, ItemView};
use crate::structs::roles::{equippable_roles_fault, item_roles_fault, RoleTable};
use crate::structs::slot::{slots_view, Slot};
use crate::structs::token::{Token, TokenView};
use crate::utils::bytes::bytes_eq;
use vstd::slice::slice_subrange;

verus! {

/// What a [`Payment`] stands for.
pub ghost struct PaymentView {
    pub token: TokenView,
    pub amount: u64,
}

/// A token sent along with a call, and how many units of it.
#[derive(Debug)]
pub struct Payment {
    pub token: Token,
    /// The quantity; a quantity too large for the type is given as the largest value.
    pub amount: u64,
}

impl View for Payment {
    type V = PaymentView;

    open spec fn view(&self) -> PaymentView {
        PaymentView { token: self.token@, amount: self.amount }
    }
}

/// What a [`Customization`] stands for.
pub ghost struct CustomizationView {
    pub attributes: Attributes,
    pub encoded: Seq<u8>,
    pub returned: Seq<TokenView>,
    pub burned: Seq<TokenView>,
}

/// What a successful customization comes to.
#[derive(Debug)]
pub struct Customization {
    /// The attributes after every operation.
    pub attributes: EquippableAttributes,
    /// Their canonical text, which the new equippable token carries.
    pub encoded: Vec<u8>,
    /// The tokens taken out of slots, to be minted and sent to the caller, in the order in
    /// which they left.
    pub returned: Vec<Token>,
    /// The tokens put into slots, to be burnt, in the order in which they were equipped.
    pub burned: Vec<Token>,
}

/// The tokens as mathematical values.
pub open spec fn tokens_view(s: Seq<Token>) -> Seq<TokenView> {
    Seq::new(s.len(), |i: int| s[i]@)
}

/// The payments as mathematical values.
pub open spec fn payments_view(s: Seq<Payment>) -> Seq<PaymentView> {
    Seq::new(s.len(), |i: int| s[i]@)
}

impl View for Customization {
    type V = CustomizationView;

    open spec fn view(&self) -> CustomizationView {
        CustomizationView {
            attributes: self.attributes@,
            encoded: self.encoded@,
            returned: tokens_view(self.returned@),
            burned: tokens_view(self.burned@),
        }
    }
}

/// The token that an item held in `slot` is, where it is the token of an item: the one that
/// it carries, if some token of its collection is registered, or, for an item known by its
/// name alone, the one registered for the slot under that name.
pub open spec fn held_token(
    registrations: Seq<RegistrationView>,
    slot: Seq<u8>,
    item: ItemView,
) -> Option<TokenView> {
    match item.token {
        Some(t) => if knows_collection(registrations, t.token_id) {
            Some(t)
        } else {
            None
        },
        None => find_token(registrations, slot, item.name),
    }
}

/// A token that is handed back is of a collection of which some token is registered.
pub proof fn lemma_held_token_is_of_item_collection(
    registrations: Seq<RegistrationView>,
    slot: Seq<u8>,
    item: ItemView,
)
    requires
        held_token(registrations, slot, item).is_some(),
    ensures
        knows_collection(registrations, held_token(registrations, slot, item).unwrap().token_id),
{
    if item.token.is_none() {
        lemma_found_token_is_of_item_collection(registrations, slot, item.name);
    }
}

/// Taking out what `slot` holds: the attributes with the slot emptied, and the token to
/// hand back. An empty slot is refused first, then a slot that no token is registered for,
/// then an item whose token is not that of an item (no token of its collection is
/// registered, or none is registered under its name), then missing rights on the token's
/// collection.
pub open spec fn unequip_spec(
    state: StorageView,
    roles: RoleTable,
    attributes: Attributes,
    slot: Seq<u8>,
) -> Result<(Attributes, TokenView), Error> {
    match resolved(attributes, slot) {
        None => Err(Error::EmptySlotUnequip),
        Some(item) => if !knows_slot(state.registrations, slot) {
            Err(Error::UnknownSlot)
        } else {
            match held_token(state.registrations, slot, item) {
                None => Err(Error::UnregisteredItem),
                Some(token) => match item_roles_fault(roles.of(token.token_id)) {
                    Some(e) => Err(e),
                    None => Ok((attributes.insert(slot, None), token)),
                },
            }
        },
    }
}

/// Putting `token` into the slot that it is registered for: the attributes with the slot
/// holding the token under its registered name, and the token that had to leave the slot, if
/// there was one. A token that is not registered is refused first, then the equippable
/// token itself, then missing rights on the token's collection; then comes what taking out
/// the slot's item fails on, and last what cannot be set.
pub open spec fn equip_spec(
    state: StorageView,
    roles: RoleTable,
    attributes: Attributes,
    token: TokenView,
) -> Result<(Attributes, Option<TokenView>), Error> {
    match lookup(state.registrations, token) {
        None => Err(Error::UnregisteredItem),
        Some(registration) => if token.token_id == state.equippable_token_id {
            Err(Error::SelfEquip)
        } else {
            match item_roles_fault(roles.of(token.token_id)) {
                Some(e) => Err(e),
                None => {
                    let item = ItemView { name: registration.name, token: Some(token) };
                    let slot = registration.slot;
                    let emptied: Result<(Attributes, Option<TokenView>), Error> = match resolved(
                        attributes,
                        slot,
                    ) {
                        None => Ok((attributes, None)),
                        Some(_) => match unequip_spec(state, roles, attributes, slot) {
                            Err(e) => Err(e),
                            Ok((a, displaced)) => Ok((a, Some(displaced))),
                        },
                    };
                    match emptied {
                        Err(e) => Err(e),
                        Ok((a, displaced)) => match entry_fault(slot, Some(item)) {
                            Some(e) => Err(e),
                            None => Ok((a.insert(slot, Some(item)), displaced)),
                        },
                    }
                },
            }
        },
    }
}

/// Taking out the slots of `slots` one after the other: the attributes after the last, and
/// the tokens to hand back. The first failure decides the error.
pub open spec fn unequip_all(
    state: StorageView,
    roles: RoleTable,
    attributes: Attributes,
    slots: Seq<Seq<u8>>,
) -> Result<(Attributes, Seq<TokenView>), Error>
    decreases slots.len(),
{
    if slots.len() == 0 {
        Ok((attributes, Seq::empty()))
    } else {
        match unequip_all(state, roles, attributes, slots.drop_last()) {
            Err(e) => Err(e),
            Ok((a, returned)) => match unequip_spec(state, roles, a, slots.last()) {
                Err(e) => Err(e),
                Ok((next, token)) => Ok((next, returned.push(token))),
            },
        }
    }
}

/// Putting in the tokens of `payments` one after the other, each sent in quantity one: the
/// attributes after the last, and the tokens that had to leave. The first failure decides
/// the error.
pub open spec fn equip_all(
    state: StorageView,
    roles: RoleTable,
    attributes: Attributes,
    payments: Seq<PaymentView>,
) -> Result<(Attributes, Seq<TokenView>), Error>
    decreases payments.len(),
{
    if payments.len() == 0 {
        Ok((attributes, Seq::empty()))
    } else {
        match equip_all(state, roles, attributes, payments.drop_last()) {
            Err(e) => Err(e),
            Ok((a, returned)) => if payments.last().amount != 1 {
                Err(Error::MoreThanOneItemReceived)
            } else {
                match equip_spec(state, roles, a, payments.last().token) {
                    Err(e) => Err(e),
                    Ok((next, displaced)) => Ok(
                        (
                            next,
                            match displaced {
                                Some(t) => returned.push(t),
                                None => returned,
                            },
                        ),
                    ),
                }
            },
        }
    }
}

/// The tokens of the payments.
pub open spec fn payment_tokens(payments: Seq<PaymentView>) -> Seq<TokenView> {
    Seq::new(payments.len(), |i: int| payments[i].token)
}

/// A whole customization of loaded attributes: every unequip in the order given, then every
/// equip in the order given, then the canonical text of what results. Asking for nothing is
/// refused; any failure fails the whole.
pub open spec fn customize_attributes_spec(
    state: StorageView,
    roles: RoleTable,
    attributes: Attributes,
    slots: Seq<Seq<u8>>,
    payments: Seq<PaymentView>,
) -> Result<CustomizationView, Error> {
    if slots.len() == 0 && payments.len() == 0 {
        Err(Error::NoOperationRequested)
    } else {
        match unequip_all(state, roles, attributes, slots) {
            Err(e) => Err(e),
            Ok((emptied, returned)) => match equip_all(state, roles, emptied, payments) {
                Err(e) => Err(e),
                Ok((last, displaced)) => if encode_spec(last).len() > MAX_ENCODED_LEN {
                    Err(Error::BufferTooLarge)
                } else {
                    Ok(
                        CustomizationView {
                            attributes: last,
                            encoded: encode_spec(last),
                            returned: returned + displaced,
                            burned: payment_tokens(payments),
                        },
                    )
                },
            },
        }
    }
}

/// A customization as it is called: the first payment is the equippable token, in quantity
/// one, whose stored attributes are `stored`; the other payments are the items to equip.
/// The rights on the equippable collection are looked at first, then the payments, then
/// the stored attributes are read, and then the customization itself is made.
pub open spec fn customize_spec(
    state: StorageView,
    roles: RoleTable,
    payments: Seq<PaymentView>,
    stored: Seq<u8>,
    slots: Seq<Seq<u8>>,
) -> Result<CustomizationView, Error> {
    match equippable_roles_fault(roles.of(state.equippable_token_id)) {
        Some(e) => Err(e),
        None => if payments.len() == 0 {
            Err(Error::NeedEquippable)
        } else if payments.len() < 2 && slots.len() == 0 {
            Err(Error::NoOperationRequested)
        } else if payments[0].token.token_id != state.equippable_token_id {
            Err(Error::FirstPaymentIsNotEquippable)
        } else if payments[0].amount != 1 {
            Err(Error::MoreThanOneEquippableReceived)
        } else {
            match decode_spec(stored) {
                Err(e) => Err(e),
                Ok(attributes) => customize_attributes_spec(
                    state,
                    roles,
                    attributes,
                    slots,
                    payments.skip(1),
                ),
            }
        },
    }
}

/// What is wrong with the call that registers `token` for `slot` under `name`, if anything.
/// Only the owner may register; the equippable token is no item; then come the faults of
/// the registration itself. The rights that the contract holds are not looked at.
pub open spec fn register_item_fault(
    state: StorageView,
    caller: Seq<u8>,
    slot: Seq<u8>,
    name: Seq<u8>,
    token: TokenView,
) -> Option<Error> {
    if caller != state.owner {
        Some(Error::NotOwner)
    } else if token.token_id == state.equippable_token_id {
        Some(Error::CannotRegisterEquippable)
    } else {
        register_fault(state.registrations, slot, name, token)
    }
}

/// Registering under the word that marks an empty slot, or under a name that holds `:` or
/// `;`, always fails, whatever rights are held and whatever is registered. For the owner,
/// and a token other than the equippable one, the error is that of the name.
pub proof fn lemma_register_item_refuses_name(
    state: StorageView,
    caller: Seq<u8>,
    slot: Seq<u8>,
    name: Seq<u8>,
    token: TokenView,
)
    requires
        name == unequipped() || name.contains(SLOT_SEPARATOR) || name.contains(ENTRY_SEPARATOR),
    ensures
        register_item_fault(state, caller, slot, name, token).is_some(),
        caller == state.owner && token.token_id != state.equippable_token_id ==> {
            &&& name == unequipped() ==> register_item_fault(state, caller, slot, name, token)
                == Some(Error::ReservedName)
            &&& name != unequipped() ==> register_item_fault(state, caller, slot, name, token)
                == Some(Error::InvalidCharacter)
        },
{
    lemma_register_refuses_name(state.registrations, slot, name, token);
}

/// Once an unequip has failed, further slots do not change the error.
pub proof fn lemma_unequip_all_error_stays(
    state: StorageView,
    roles: RoleTable,
    attributes: Attributes,
    slots: Seq<Seq<u8>>,
    k: int,
)
    requires
        0 <= k <= slots.len(),
        unequip_all(state, roles, attributes, slots.take(k)).is_err(),
    ensures
        unequip_all(state, roles, attributes, slots) == unequip_all(
            state,
            roles,
            attributes,
            slots.take(k),
        ),
    decreases slots.len() - k,
{
    if k == slots.len() {
        assert(slots.take(k) =~= slots);
    } else {
        assert(slots.drop_last().take(k) =~= slots.take(k));
        lemma_unequip_all_error_stays(state, roles, attributes, slots.drop_last(), k);
    }
}

/// Once an equip has failed, further payments do not change the error.
pub proof fn lemma_equip_all_error_stays(
    state: StorageView,
    roles: RoleTable,
    attributes: Attributes,
    payments: Seq<PaymentView>,
    k: int,
)
    requires
        0 <= k <= payments.len(),
        equip_all(state, roles, attributes, payments.take(k)).is_err(),
    ensures
        equip_all(state, roles, attributes, payments) == equip_all(
            state,
            roles,
            attributes,
            payments.take(k),
        ),
    decreases payments.len() - k,
{
    if k == payments.len() {
        assert(payments.take(k) =~= payments);
    } else {
        assert(payments.drop_last().take(k) =~= payments.take(k));
        lemma_equip_all_error_stays(state, roles, attributes, payments.drop_last(), k);
    }
}

/// A slot that has just been emptied cannot be emptied again.
pub proof fn lemma_unequip_twice(
    state: StorageView,
    roles: RoleTable,
    attributes: Attributes,
    slot: Seq<u8>,
)
    requires
        unequip_spec(state, roles, attributes, slot).is_ok(),
    ensures
        unequip_spec(state, roles, unequip_spec(state, roles, attributes, slot).unwrap().0, slot)
            == Err::<(Attributes, TokenView), Error>(Error::EmptySlotUnequip),
{
}

/// After the slots of a list have been emptied, each of them holds nothing.
pub proof fn lemma_unequip_all_empties(
    state: StorageView,
    roles: RoleTable,
    attributes: Attributes,
    slots: Seq<Seq<u8>>,
    i: int,
)
    requires
        0 <= i < slots.len(),
        unequip_all(state, roles, attributes, slots).is_ok(),
    ensures
        resolved(unequip_all(state, roles, attributes, slots).unwrap().0, slots[i]).is_none(),
    decreases slots.len(),
{
    if i < slots.len() - 1 {
        lemma_unequip_all_empties(state, roles, attributes, slots.drop_last(), i);
    }
}

/// A customization that names the same slot twice among those to unequip fails as a whole,
/// so that nothing is handed back for either naming. Where every unequip before the second
/// naming succeeds, the error is that the slot is empty.
pub proof fn lemma_customize_unequip_twice(
    state: StorageView,
    roles: RoleTable,
    attributes: Attributes,
    slots: Seq<Seq<u8>>,
    payments: Seq<PaymentView>,
    i: int,
    j: int,
)
    requires
        0 <= i < j < slots.len(),
        slots[i] == slots[j],
    ensures
        customize_attributes_spec(state, roles, attributes, slots, payments).is_err(),
        unequip_all(state, roles, attributes, slots.take(j)).is_ok() ==> customize_attributes_spec(
            state,
            roles,
            attributes,
            slots,
            payments,
        ) == Err::<CustomizationView, Error>(Error::EmptySlotUnequip),
{
    let before = slots.take(j);
    let upto = slots.take(j + 1);
    assert(upto.drop_last() =~= before);
    if unequip_all(state, roles, attributes, before).is_ok() {
        lemma_unequip_all_empties(state, roles, attributes, before, i);
        assert(unequip_all(state, roles, attributes, upto) == Err::<
            (Attributes, Seq<TokenView>),
            Error,
        >(Error::EmptySlotUnequip));
        lemma_unequip_all_error_stays(state, roles, attributes, slots, j + 1);
    } else {
        lemma_unequip_all_error_stays(state, roles, attributes, slots, j);
    }
}

/// What a successful equip has done: the token of the item that was in the slot is handed
/// back, the slot then holds the new item alone, and every other slot holds what it held.
pub proof fn lemma_equip_outcome(
    state: StorageView,
    roles: RoleTable,
    attributes: Attributes,
    token: TokenView,
)
    requires
        equip_spec(state, roles, attributes, token).is_ok(),
    ensures
        ({
            let (next, displaced) = equip_spec(state, roles, attributes, token).unwrap();
            let registration = lookup(state.registrations, token).unwrap();
            &&& lookup(state.registrations, token).is_some()
            &&& resolved(next, registration.slot) == Some(
                ItemView { name: registration.name, token: Some(token) },
            )
            &&& match resolved(attributes, registration.slot) {
                Some(held) => displaced.is_some() && displaced == held_token(
                    state.registrations,
                    registration.slot,
                    held,
                ),
                None => displaced.is_none(),
            }
            &&& forall|other: Seq<u8>|
                other != registration.slot ==> resolved(next, other) == resolved(attributes, other)
        }),
{
}

/// Whether the item `held` in `slot` can be handed back: its token is that of an item, and
/// the contract holds the rights on that token's collection.
pub open spec fn can_hand_back(
    state: StorageView,
    roles: RoleTable,
    slot: Seq<u8>,
    held: ItemView,
) -> bool {
    match held_token(state.registrations, slot, held) {
        Some(token) => item_roles_fault(roles.of(token.token_id)).is_none(),
        None => false,
    }
}

/// Equipping displaces and does not fail because the slot is occupied. A registered token
/// that is not the equippable one, on whose collection the contract holds the rights, is
/// equipped whether its slot holds something or not, as long as what the slot holds can be
/// handed back. The token of the item that was in the slot is handed back, the slot then
/// holds the new item alone, and every other slot holds what it held.
pub proof fn lemma_equip_displaces(
    state: StorageView,
    roles: RoleTable,
    attributes: Attributes,
    token: TokenView,
)
    requires
        valid_storage(state),
        lookup(state.registrations, token).is_some(),
        token.token_id != state.equippable_token_id,
        item_roles_fault(roles.of(token.token_id)).is_none(),
        resolved(attributes, lookup(state.registrations, token).unwrap().slot) matches Some(held)
            ==> can_hand_back(
            state,
            roles,
            lookup(state.registrations, token).unwrap().slot,
            held,
        ),
    ensures
        equip_spec(state, roles, attributes, token).is_ok(),
        ({
            let (next, displaced) = equip_spec(state, roles, attributes, token).unwrap();
            let registration = lookup(state.registrations, token).unwrap();
            &&& resolved(next, registration.slot) == Some(
                ItemView { name: registration.name, token: Some(token) },
            )
            &&& match resolved(attributes, registration.slot) {
                Some(held) => displaced.is_some() && displaced == held_token(
                    state.registrations,
                    registration.slot,
                    held,
                ),
                None => displaced.is_none(),
            }
            &&& forall|other: Seq<u8>|
                other != registration.slot ==> resolved(next, other) == resolved(attributes, other)
        }),
{
    let flags = token_flags(state.registrations, token);
    lemma_first_true(flags);
    let registration = lookup(state.registrations, token).unwrap();
    assert(valid_registration(registration));
    lemma_registered_slot_is_known(state.registrations, token);
    lemma_equip_outcome(state, roles, attributes, token);
}

/// The operations of the contract that change what a token has equipped.
pub trait Equip: StorageModule {
    /// Sets the collection of the equippable tokens and the gateway of the images; the rest
    /// of what is stored stays.
    fn init(&mut self, equippable_token_id: Vec<u8>, ipfs_gateway: Vec<u8>)
        ensures
            valid_storage(old(self).state()) ==> valid_storage(final(self).state()),
            final(self).state() == (StorageView {
                equippable_token_id: equippable_token_id@,
                ipfs_gateway: ipfs_gateway@,
                ..old(self).state()
            }),
    ;

    /// Registers `token` as an item for `slot`, displayed as `name`, on behalf of `caller`.
    /// Where the call is refused nothing changes.
    fn register_item(&mut self, caller: &[u8], slot: &Slot, name: &[u8], token: &Token) -> (r:
        Result<(), Error>)
        ensures
            valid_storage(old(self).state()) ==> valid_storage(final(self).state()),
            match register_item_fault(old(self).state(), caller@, slot@, name@, token@) {
                Some(e) => r == Err::<(), Error>(e) && final(self).state() == old(self).state(),
                None => r.is_ok() && final(self).state() == (StorageView {
                    registrations: registered(
                        old(self).state().registrations,
                        RegistrationView { token: token@, slot: slot@, name: name@ },
                    ),
                    ..old(self).state()
                }),
            },
    ;

    /// The slot that `token` is registered for, if it is registered.
    fn get_item_slot(&self, token: &Token) -> (r: Option<Slot>)
        ensures
            match lookup(self.state().registrations, token@) {
                Some(registration) => r.is_some() && r.unwrap()@ == registration.slot,
                None => r.is_none(),
            },
    ;

    /// Tells whether the contract holds, on the collection `token_id`, the rights that
    /// equipping and handing back an item take.
    fn require_item_roles_set(&self, roles: &RoleTable, token_id: &[u8]) -> (r: Result<(), Error>)
        ensures
            r == refusal(item_roles_fault(roles.of(token_id@))),
    ;

    /// Tells whether the contract holds, on the equippable collection, the rights that
    /// replacing a token takes.
    fn require_penguin_roles_set(&self, roles: &RoleTable) -> (r: Result<(), Error>)
        ensures
            r == refusal(equippable_roles_fault(roles.of(self.state().equippable_token_id))),
    ;

    /// Accepts tokens that the owner sends to stock the contract. Only the caller is looked
    /// at: neither that the token is registered nor what the contract will then hold is
    /// required.
    fn fill(&self, caller: &[u8], payment: &Payment) -> (r: Result<(), Error>)
        ensures
            r == if caller@ == self.state().owner {
                Ok::<(), Error>(())
            } else {
                Err::<(), Error>(Error::NotOwner)
            },
    ;

    /// Takes out what `slot` holds and returns the token to hand back to the caller. Where
    /// it fails the attributes stay as they were.
    fn desequip_slot(
        &self,
        roles: &RoleTable,
        attributes: &mut EquippableAttributes,
        slot: &Slot,
    ) -> (r: Result<Token, Error>)
        ensures
            match unequip_spec(self.state(), *roles, old(attributes)@, slot@) {
                Ok((next, token)) => r.is_ok() && r.unwrap()@ == token && final(attributes)@
                    == next,
                Err(e) => r.is_err() && r.unwrap_err() == e
                    && final(attributes)@ == old(attributes)@,
            },
            valid_attributes(final(attributes)@),
    ;

    /// Puts `item` into the slot that it is registered for, and returns the token that had
    /// to leave the slot, if one did. The slot then holds `item` alone. Where it fails the
    /// attributes stay as they were.
    fn equip_slot(
        &self,
        roles: &RoleTable,
        attributes: &mut EquippableAttributes,
        item: &Token,
    ) -> (r: Result<Option<Token>, Error>)
        ensures
            match equip_spec(self.state(), *roles, old(attributes)@, item@) {
                Ok((next, displaced)) => r.is_ok() && crate::structs::item::token_view(r.unwrap())
                    == displaced && final(attributes)@ == next,
                Err(e) => r.is_err() && r.unwrap_err() == e
                    && final(attributes)@ == old(attributes)@,
            },
            valid_attributes(final(attributes)@),
    ;

    /// Customizes loaded attributes: every unequip, then every equip, then the canonical
    /// text. The attributes given are not changed; the outcome holds the new ones.
    fn customize_attributes(
        &self,
        roles: &RoleTable,
        attributes: &EquippableAttributes,
        to_unequip: &[Slot],
        to_equip: &[Payment],
    ) -> (r: Result<Customization, Error>)
        ensures
            match customize_attributes_spec(
                self.state(),
                *roles,
                attributes@,
                slots_view(to_unequip@),
                payments_view(to_equip@),
            ) {
                Ok(outcome) => r.is_ok() && r.unwrap()@ == outcome,
                Err(e) => r.is_err() && r.unwrap_err() == e,
            },
    ;

    /// Customizes the equippable token sent as the first payment, whose stored attributes
    /// are `stored`, with the other payments as the items to equip.
    fn customize(
        &self,
        roles: &RoleTable,
        payments: &[Payment],
        stored: &[u8],
        to_unequip: &[Slot],
    ) -> (r: Result<Customization, Error>)
        ensures
            match customize_spec(
                self.state(),
                *roles,
                payments_view(payments@),
                stored@,
                slots_view(to_unequip@),
            ) {
                Ok(outcome) => r.is_ok() && r.unwrap()@ == outcome,
                Err(e) => r.is_err() && r.unwrap_err() == e,
            },
    ;
}

impl Storage {
    /// The token to hand back when what `slot` holds is taken out, or why it cannot be
    /// taken out. The attributes are only read.
    pub fn token_to_return(
        &self,
        roles: &RoleTable,
        attributes: &EquippableAttributes,
        slot: &Slot,
    ) -> (r: Result<Token, Error>)
        ensures
            match unequip_spec(self@, *roles, attributes@, slot@) {
                Ok((_, token)) => r.is_ok() && r.unwrap()@ == token,
                Err(e) => r.is_err() && r.unwrap_err() == e,
            },
            valid_attributes(attributes@),
    {
        let item = match attributes.get_item(slot) {
            None => {
                return Err(Error::EmptySlotUnequip);
            },
            Some(item) => item,
        };
        if !self.is_known_slot(slot) {
            return Err(Error::UnknownSlot);
        }
        let token = match item.token {
            Some(t) => {
                if !self.is_item_collection(t.token_id.as_slice()) {
                    return Err(Error::UnregisteredItem);
                }
                t
            },
            None => match self.token_of(slot, item.name.as_slice()) {
                None => {
                    return Err(Error::UnregisteredItem);
                },
                Some(t) => t,
            },
        };
        match self.require_item_roles_set(roles, token.token_id.as_slice()) {
            Err(e) => {
                return Err(e);
            },
            Ok(()) => {},
        }
        Ok(token)
    }
}

impl Equip for Storage {
    fn init(&mut self, equippable_token_id: Vec<u8>, ipfs_gateway: Vec<u8>) {
        self.equippable_token_id = equippable_token_id;
        self.ipfs_gateway = ipfs_gateway;
    }

    fn register_item(&mut self, caller: &[u8], slot: &Slot, name: &[u8], token: &Token) -> (r:
        Result<(), Error>) {
        if !bytes_eq(caller, self.owner.as_slice()) {
            return Err(Error::NotOwner);
        }
        if bytes_eq(token.token_id.as_slice(), self.equippable_token_id.as_slice()) {
            return Err(Error::CannotRegisterEquippable);
        }
        self.register(slot, name, token)
    }

    fn get_item_slot(&self, token: &Token) -> (r: Option<Slot>) {
        self.slot_of(token)
    }

    fn require_item_roles_set(&self, roles: &RoleTable, token_id: &[u8]) -> (r: Result<(), Error>) {
        let held = roles.roles_of(token_id);
        if !held.add_quantity {
            return Err(Error::MissingMintRole);
        }
        if !held.burn {
            return Err(Error::MissingBurnRole);
        }
        Ok(())
    }

    fn require_penguin_roles_set(&self, roles: &RoleTable) -> (r: Result<(), Error>) {
        let held = roles.roles_of(self.equippable_token_id.as_slice());
        if !held.create {
            return Err(Error::MissingCreateRole);
        }
        if !held.burn {
            return Err(Error::MissingBurnRole);
        }
        Ok(())
    }

    fn fill(&self, caller: &[u8], payment: &Payment) -> (r: Result<(), Error>) {
        if bytes_eq(caller, self.owner.as_slice()) {
            Ok(())
        } else {
            Err(Error::NotOwner)
        }
    }

    fn desequip_slot(
        &self,
        roles: &RoleTable,
        attributes: &mut EquippableAttributes,
        slot: &Slot,
    ) -> (r: Result<Token, Error>) {
        let token = match self.token_to_return(roles, attributes, slot) {
            Err(e) => {
                return Err(e);
            },
            Ok(token) => token,
        };
        match attributes.empty_slot(slot) {
            Err(e) => {
                return Err(e);
            },
            Ok(()) => {},
        }
        Ok(token)
    }

    fn equip_slot(
        &self,
        roles: &RoleTable,
        attributes: &mut EquippableAttributes,
        item: &Token,
    ) -> (r: Result<Option<Token>, Error>) {
        proof {
            use_type_invariant(&*attributes);
            attributes.lemma_well_formed();
        }
        let registration = match self.get_item(item) {
            None => {
                return Err(Error::UnregisteredItem);
            },
            Some(registration) => registration,
        };
        if bytes_eq(item.token_id.as_slice(), self.equippable_token_id.as_slice()) {
            return Err(Error::SelfEquip);
        }
        match self.require_item_roles_set(roles, item.token_id.as_slice()) {
            Err(e) => {
                return Err(e);
            },
            Ok(()) => {},
        }
        let displaced = if attributes.is_slot_empty(&registration.slot) {
            None
        } else {
            match self.token_to_return(roles, attributes, &registration.slot) {
                Err(e) => {
                    return Err(e);
                },
                Ok(token) => Some(token),
            }
        };
        let equipped = Item::with_token(registration.name, item.clone());
        match attributes.set_item(&registration.slot, Some(equipped)) {
            Err(e) => {
                return Err(e);
            },
            Ok(()) => {},
        }
        proof {
            let slot = registration.slot@;
            let held = ItemView { name: registration.name@, token: Some(item@) };
            assert(old(attributes)@.insert(slot, None).insert(slot, Some(held)) =~= old(
                attributes,
            )@.insert(slot, Some(held)));
        }
        Ok(displaced)
    }

    fn customize_attributes(
        &self,
        roles: &RoleTable,
        attributes: &EquippableAttributes,
        to_unequip: &[Slot],
        to_equip: &[Payment],
    ) -> (r: Result<Customization, Error>) {
        if to_unequip.len() == 0 && to_equip.len() == 0 {
            return Err(Error::NoOperationRequested);
        }
        let ghost slots = slots_view(to_unequip@);
        let ghost payments = payments_view(to_equip@);
        let mut work = attributes.clone();
        let mut returned: Vec<Token> = Vec::new();
        let mut i: usize = 0;
        assert(tokens_view(returned@) =~= Seq::<TokenView>::empty());
        while i < to_unequip.len()
            invariant
                i <= to_unequip@.len(),
                slots == slots_view(to_unequip@),
                unequip_all(self.state(), *roles, attributes@, slots.take(i as int)) == Ok::<
                    (Attributes, Seq<TokenView>),
                    Error,
                >((work@, tokens_view(returned@))),
            decreases to_unequip@.len() - i,
        {
            let ghost next = slots.take(i + 1);
            assert(next.drop_last() =~= slots.take(i as int));
            let ghost before = tokens_view(returned@);
            match self.desequip_slot(roles, &mut work, &to_unequip[i]) {
                Err(e) => {
                    proof {
                        lemma_unequip_all_error_stays(
                            self.state(),
                            *roles,
                            attributes@,
                            slots,
                            i + 1,
                        );
                    }
                    return Err(e);
                },
                Ok(token) => {
                    returned.push(token);
                    assert(tokens_view(returned@) =~= before.push(token@));
                },
            }
            i += 1;
        }
        assert(slots.take(to_unequip@.len() as int) =~= slots);
        let ghost emptied = work@;
        let ghost handed_back = tokens_view(returned@);
        let mut burned: Vec<Token> = Vec::new();
        let mut j: usize = 0;
        assert(handed_back + Seq::<TokenView>::empty() =~= handed_back);
        while j < to_equip.len()
            invariant
                j <= to_equip@.len(),
                payments == payments_view(to_equip@),
                slots == slots_view(to_unequip@),
                unequip_all(self.state(), *roles, attributes@, slots) == Ok::<
                    (Attributes, Seq<TokenView>),
                    Error,
                >((emptied, handed_back)),
                exists|displaced: Seq<TokenView>|
                    equip_all(self.state(), *roles, emptied, payments.take(j as int)) == Ok::<
                        (Attributes, Seq<TokenView>),
                        Error,
                    >((work@, displaced)) && tokens_view(returned@) == handed_back + displaced,
                tokens_view(burned@) == payment_tokens(payments.take(j as int)),
            decreases to_equip@.len() - j,
        {
            let ghost next = payments.take(j + 1);
            assert(next.drop_last() =~= payments.take(j as int));
            let ghost displaced_before = choose|displaced: Seq<TokenView>|
                equip_all(self.state(), *roles, emptied, payments.take(j as int)) == Ok::<
                    (Attributes, Seq<TokenView>),
                    Error,
                >((work@, displaced)) && tokens_view(returned@) == handed_back + displaced;
            let ghost returned_before = tokens_view(returned@);
            if to_equip[j].amount != 1 {
                proof {
                    lemma_equip_all_error_stays(self.state(), *roles, emptied, payments, j + 1);
                }
                return Err(Error::MoreThanOneItemReceived);
            }
            match self.equip_slot(roles, &mut work, &to_equip[j].token) {
                Err(e) => {
                    proof {
                        lemma_equip_all_error_stays(self.state(), *roles, emptied, payments, j + 1);
                    }
                    return Err(e);
                },
                Ok(displaced) => {
                    match displaced {
                        Some(token) => {
                            returned.push(token);
                            assert(tokens_view(returned@) =~= returned_before.push(token@));
                            assert(tokens_view(returned@) =~= handed_back + displaced_before.push(
                                token@,
                            ));
                        },
                        None => {},
                    }
                },
            }
            burned.push(to_equip[j].token.clone());
            assert(payment_tokens(next) =~= payment_tokens(payments.take(j as int)).push(
                to_equip@[j as int].token@,
            ));
            j += 1;
        }
        assert(payments.take(to_equip@.len() as int) =~= payments);
        match work.top_encode() {
            Err(e) => Err(e),
            Ok(encoded) => Ok(Customization { attributes: work, encoded, returned, burned }),
        }
    }

    fn customize(
        &self,
        roles: &RoleTable,
        payments: &[Payment],
        stored: &[u8],
        to_unequip: &[Slot],
    ) -> (r: Result<Customization, Error>) {
        match self.require_penguin_roles_set(roles) {
            Err(e) => {
                return Err(e);
            },
            Ok(()) => {},
        }
        if payments.len() == 0 {
            return Err(Error::NeedEquippable);
        }
        if payments.len() < 2 && to_unequip.len() == 0 {
            return Err(Error::NoOperationRequested);
        }
        if !bytes_eq(payments[0].token.token_id.as_slice(), self.equippable_token_id.as_slice()) {
            return Err(Error::FirstPaymentIsNotEquippable);
        }
        if payments[0].amount != 1 {
            return Err(Error::MoreThanOneEquippableReceived);
        }
        let attributes = match EquippableAttributes::top_decode(stored) {
            Err(e) => {
                return Err(e);
            },
            Ok(attributes) => attributes,
        };
        let items = slice_subrange(payments, 1, payments.len());
        assert(payments_view(items@) =~= payments_view(payments@).skip(1));
        self.customize_attributes(roles, &attributes, to_unequip, items)
    }
}

} // verus!
