//! What the contract stores, and how it is read.

use vstd::prelude::*;
use crate::error::Error;
use crate::structs::equippable_attributes::{entry_fault, validate_entry};
use crate::constants::{unequipped, ENTRY_SEPARATOR, SLOT_SEPARATOR};
use crate::structs::item::{lemma_unequipped_bytes, name_fault, validate_name, Item, ItemView};
use crate::structs::equippable_attributes_to_render::{EquippableAttributesToRender, RenderView};
use crate::structs::slot::Slot;
use crate::structs::token::{Token, TokenView};
use crate::utils::bytes::{bytes_eq, copy};
use crate::utils::case::is_normalized;
use crate::utils::search::{
    first_true, lemma_first_true, lemma_first_true_is, lemma_first_true_none,
};

verus! {

/// What a [`Registration`] stands for.
pub ghost struct RegistrationView {
    pub token: TokenView,
    pub slot: Seq<u8>,
    pub name: Seq<u8>,
}

/// One entry of the registry: a token, the slot that it goes into, and the name under which
/// it is displayed.
#[derive(Debug)]
pub struct Registration {
    pub token: Token,
    pub slot: Slot,
    pub name: Vec<u8>,
}

impl View for Registration {
    type V = RegistrationView;

    open spec fn view(&self) -> RegistrationView {
        RegistrationView { token: self.token@, slot: self.slot@, name: self.name@ }
    }
}

impl Clone for Registration {
    fn clone(&self) -> (r: Self)
        ensures
            r@ == self@,
    {
        Registration {
            token: self.token.clone(),
            slot: self.slot.clone(),
            name: copy(self.name.as_slice()),
        }
    }
}

/// What a [`UriEntry`] stands for.
pub ghost struct UriView {
    pub key: Seq<u8>,
    pub uri: Seq<u8>,
}

/// The address of a rendered image, under the text that the image is known by.
#[derive(Debug)]
pub struct UriEntry {
    pub key: Vec<u8>,
    pub uri: Vec<u8>,
}

impl View for UriEntry {
    type V = UriView;

    open spec fn view(&self) -> UriView {
        UriView { key: self.key@, uri: self.uri@ }
    }
}

/// What a [`Storage`] stands for.
pub ghost struct StorageView {
    pub owner: Seq<u8>,
    pub equippable_token_id: Seq<u8>,
    pub ipfs_gateway: Seq<u8>,
    pub registrations: Seq<RegistrationView>,
    pub images_to_render: Seq<RenderView>,
    pub uris: Seq<UriView>,
    pub authorized_addresses: Seq<Seq<u8>>,
}

/// Everything that the contract keeps from one call to the next. In each table the first
/// entry for a key is the one that counts.
#[derive(Debug)]
pub struct Storage {
    /// The address that may administer the contract.
    pub owner: Vec<u8>,
    /// The collection of the equippable tokens.
    pub equippable_token_id: Vec<u8>,
    /// What stands before the identifier of an image in its address.
    pub ipfs_gateway: Vec<u8>,
    /// The registry: which token goes into which slot, under which name.
    pub registrations: Vec<Registration>,
    /// The images that wait to be rendered, oldest first.
    pub images_to_render: Vec<EquippableAttributesToRender>,
    /// The addresses of the images that have been rendered.
    pub uris: Vec<UriEntry>,
    /// The addresses that may set image addresses, besides the owner.
    pub authorized_addresses: Vec<Vec<u8>>,
}

/// The registrations as mathematical values.
pub open spec fn registrations_view(s: Seq<Registration>) -> Seq<RegistrationView> {
    Seq::new(s.len(), |i: int| s[i]@)
}

/// The queued images as mathematical values.
pub open spec fn images_view(s: Seq<EquippableAttributesToRender>) -> Seq<RenderView> {
    Seq::new(s.len(), |i: int| s[i]@)
}

/// The image addresses as mathematical values.
pub open spec fn uris_view(s: Seq<UriEntry>) -> Seq<UriView> {
    Seq::new(s.len(), |i: int| s[i]@)
}

/// The addresses as mathematical values.
pub open spec fn addresses_view(s: Seq<Vec<u8>>) -> Seq<Seq<u8>> {
    Seq::new(s.len(), |i: int| s[i]@)
}

impl View for Storage {
    type V = StorageView;

    open spec fn view(&self) -> StorageView {
        StorageView {
            owner: self.owner@,
            equippable_token_id: self.equippable_token_id@,
            ipfs_gateway: self.ipfs_gateway@,
            registrations: registrations_view(self.registrations@),
            images_to_render: images_view(self.images_to_render@),
            uris: uris_view(self.uris@),
            authorized_addresses: addresses_view(self.authorized_addresses@),
        }
    }
}

/// For each registration, whether it is for `token`.
pub open spec fn token_flags(registrations: Seq<RegistrationView>, token: TokenView) -> Seq<bool> {
    Seq::new(registrations.len(), |i: int| registrations[i].token == token)
}

/// For each registration, whether it is for the slot `slot` and the name `name`.
pub open spec fn name_flags(
    registrations: Seq<RegistrationView>,
    slot: Seq<u8>,
    name: Seq<u8>,
) -> Seq<bool> {
    Seq::new(
        registrations.len(),
        |i: int| registrations[i].slot == slot && registrations[i].name == name,
    )
}

/// For each registration, whether it is for the slot `slot`.
pub open spec fn slot_flags(registrations: Seq<RegistrationView>, slot: Seq<u8>) -> Seq<bool> {
    Seq::new(registrations.len(), |i: int| registrations[i].slot == slot)
}

/// The registration of `token`, if it is registered.
pub open spec fn lookup(registrations: Seq<RegistrationView>, token: TokenView) -> Option<
    RegistrationView,
> {
    match first_true(token_flags(registrations, token)) {
        Some(i) => Some(registrations[i]),
        None => None,
    }
}

/// The token that is registered for `slot` under `name`: the first one, where there are
/// several.
pub open spec fn find_token(registrations: Seq<RegistrationView>, slot: Seq<u8>, name: Seq<u8>)
    -> Option<TokenView> {
    match first_true(name_flags(registrations, slot, name)) {
        Some(i) => Some(registrations[i].token),
        None => None,
    }
}

/// For each registration, whether it is for a token of the collection `token_id`.
pub open spec fn collection_flags(registrations: Seq<RegistrationView>, token_id: Seq<u8>) -> Seq<
    bool,
> {
    Seq::new(registrations.len(), |i: int| registrations[i].token.token_id == token_id)
}

/// Whether some token of the collection `token_id` is registered: only tokens of such a
/// collection count as items.
pub open spec fn knows_collection(registrations: Seq<RegistrationView>, token_id: Seq<u8>) -> bool {
    first_true(collection_flags(registrations, token_id)).is_some()
}

/// Whether some token is registered for `slot`: the registered slots are the known ones.
pub open spec fn knows_slot(registrations: Seq<RegistrationView>, slot: Seq<u8>) -> bool {
    first_true(slot_flags(registrations, slot)).is_some()
}

/// What is wrong with registering `token` for `slot` under `name`, if anything. The name is
/// looked at first, then the slot and the token's identifier, and last whether the token is
/// registered for another slot.
pub open spec fn register_fault(
    registrations: Seq<RegistrationView>,
    slot: Seq<u8>,
    name: Seq<u8>,
    token: TokenView,
) -> Option<Error> {
    match name_fault(name) {
        Some(e) => Some(e),
        None => match entry_fault(slot, Some(ItemView { name, token: Some(token) })) {
            Some(e) => Some(e),
            None => match lookup(registrations, token) {
                Some(registration) => if registration.slot != slot {
                    Some(Error::DuplicateRegistration)
                } else {
                    None
                },
                None => None,
            },
        },
    }
}

/// The registry with `entry` in it: in place of the registration of the same token, or as a
/// new last registration.
pub open spec fn registered(registrations: Seq<RegistrationView>, entry: RegistrationView) -> Seq<
    RegistrationView,
> {
    match first_true(token_flags(registrations, entry.token)) {
        Some(i) => registrations.update(i, entry),
        None => registrations.push(entry),
    }
}

/// A registration that [`Storage::register`] accepts: a lower-case slot and a name and a
/// token that the wire format can carry.
pub open spec fn valid_registration(registration: RegistrationView) -> bool {
    &&& is_normalized(registration.slot)
    &&& name_fault(registration.name).is_none()
    &&& entry_fault(
        registration.slot,
        Some(ItemView { name: registration.name, token: Some(registration.token) }),
    ).is_none()
}

/// What the operations of the contract keep of what is stored: every registration is one
/// that is accepted, no token is registered twice, no name is queued twice, no image has two
/// addresses, and no address is authorized twice.
pub open spec fn valid_storage(s: StorageView) -> bool {
    &&& forall|i: int|
        0 <= i < s.registrations.len() ==> valid_registration(#[trigger] s.registrations[i])
    &&& forall|i: int, j: int|
        0 <= i < j < s.registrations.len() ==> (#[trigger] s.registrations[i]).token != (
        #[trigger] s.registrations[j]).token
    &&& forall|i: int, j: int|
        0 <= i < j < s.images_to_render.len() ==> (#[trigger] s.images_to_render[i]).name != (
        #[trigger] s.images_to_render[j]).name
    &&& forall|i: int, j: int|
        0 <= i < j < s.uris.len() ==> (#[trigger] s.uris[i]).key != (#[trigger] s.uris[j]).key
    &&& s.authorized_addresses.no_duplicates()
}

/// Registering a token adds one accepted registration and registers no token twice.
pub proof fn lemma_registered_valid(s: StorageView, entry: RegistrationView)
    requires
        valid_storage(s),
        valid_registration(entry),
    ensures
        valid_storage(StorageView { registrations: registered(s.registrations, entry), ..s }),
{
    let flags = token_flags(s.registrations, entry.token);
    lemma_first_true(flags);
    let after = registered(s.registrations, entry);
    match first_true(flags) {
        Some(at) => {
            assert forall|i: int, j: int| 0 <= i < j < after.len() implies (#[trigger] after[i]).token
                != (#[trigger] after[j]).token by {
                assert(s.registrations[i].token != s.registrations[j].token);
            }
        },
        None => {
            assert forall|i: int, j: int| 0 <= i < j < after.len() implies (#[trigger] after[i]).token
                != (#[trigger] after[j]).token by {
                if j < s.registrations.len() {
                    assert(s.registrations[i].token != s.registrations[j].token);
                } else {
                    assert(!flags[i]);
                }
            }
        },
    }
}

/// Registering a token again for its slot and under its name changes nothing.
pub proof fn lemma_register_again(registrations: Seq<RegistrationView>, entry: RegistrationView)
    requires
        lookup(registrations, entry.token) == Some(entry),
    ensures
        registered(registrations, entry) == registrations,
{
    lemma_first_true(token_flags(registrations, entry.token));
    assert(registered(registrations, entry) =~= registrations);
}

/// A registered token's slot is a known one.
pub proof fn lemma_registered_slot_is_known(registrations: Seq<RegistrationView>, token: TokenView)
    requires
        lookup(registrations, token).is_some(),
    ensures
        knows_slot(registrations, lookup(registrations, token).unwrap().slot),
{
    lemma_first_true(token_flags(registrations, token));
    let i = first_true(token_flags(registrations, token)).unwrap();
    let flags = slot_flags(registrations, registrations[i].slot);
    assert(flags[i]);
    lemma_first_true(flags);
}

/// A token that is found under a slot and a name is of a registered collection.
pub proof fn lemma_found_token_is_of_item_collection(
    registrations: Seq<RegistrationView>,
    slot: Seq<u8>,
    name: Seq<u8>,
)
    requires
        find_token(registrations, slot, name).is_some(),
    ensures
        knows_collection(registrations, find_token(registrations, slot, name).unwrap().token_id),
{
    lemma_first_true(name_flags(registrations, slot, name));
    let i = first_true(name_flags(registrations, slot, name)).unwrap();
    let flags = collection_flags(registrations, registrations[i].token.token_id);
    assert(flags[i]);
    lemma_first_true(flags);
}

/// An item cannot be registered under the word that marks an empty slot, nor under a name
/// that holds `:` or `;`, whatever the slot and the token.
pub proof fn lemma_register_refuses_name(
    registrations: Seq<RegistrationView>,
    slot: Seq<u8>,
    name: Seq<u8>,
    token: TokenView,
)
    ensures
        name == unequipped() ==> register_fault(registrations, slot, name, token) == Some(
            Error::ReservedName,
        ),
        name.contains(SLOT_SEPARATOR) || name.contains(ENTRY_SEPARATOR) ==> register_fault(
            registrations,
            slot,
            name,
            token,
        ) == Some(Error::InvalidCharacter),
{
    lemma_unequipped_bytes();
}

/// Read access to what the contract stores.
pub trait StorageModule {
    /// What is stored.
    spec fn state(&self) -> StorageView;

    /// The collection of the equippable tokens.
    fn equippable_token_id(&self) -> (r: Vec<u8>)
        ensures
            r@ == self.state().equippable_token_id,
    ;

    /// What stands before the identifier of an image in its address.
    fn ipfs_gateway(&self) -> (r: Vec<u8>)
        ensures
            r@ == self.state().ipfs_gateway,
    ;

    /// The registration of `token`, if it is registered.
    fn get_item(&self, token: &Token) -> (r: Option<Registration>)
        ensures
            match lookup(self.state().registrations, token@) {
                Some(registration) => r.is_some() && r.unwrap()@ == registration,
                None => r.is_none(),
            },
    ;

    /// The slot that `token` is registered for, if it is registered.
    fn slot_of(&self, token: &Token) -> (r: Option<Slot>)
        ensures
            match lookup(self.state().registrations, token@) {
                Some(registration) => r.is_some() && r.unwrap()@ == registration.slot,
                None => r.is_none(),
            },
    ;

    /// Tells whether `token` is registered.
    fn has_slot(&self, token: &Token) -> (r: bool)
        ensures
            r == lookup(self.state().registrations, token@).is_some(),
    ;

    /// The token that is registered for `slot` under `name`.
    fn token_of(&self, slot: &Slot, name: &[u8]) -> (r: Option<Token>)
        ensures
            match find_token(self.state().registrations, slot@, name@) {
                Some(token) => r.is_some() && r.unwrap()@ == token,
                None => r.is_none(),
            },
    ;

    /// Tells whether some token is registered for `slot`.
    fn is_known_slot(&self, slot: &Slot) -> (r: bool)
        ensures
            r == knows_slot(self.state().registrations, slot@),
    ;

    /// Tells whether some token of the collection `token_id` is registered.
    fn is_item_collection(&self, token_id: &[u8]) -> (r: bool)
        ensures
            r == knows_collection(self.state().registrations, token_id@),
    ;
}

impl Storage {
    /// The storage of a contract that `owner` has just deployed for the collection
    /// `equippable_token_id`: nothing is registered, queued or rendered.
    pub fn new(owner: Vec<u8>, equippable_token_id: Vec<u8>, ipfs_gateway: Vec<u8>) -> (r: Self)
        ensures
            r@ == (StorageView {
                owner: owner@,
                equippable_token_id: equippable_token_id@,
                ipfs_gateway: ipfs_gateway@,
                registrations: Seq::empty(),
                images_to_render: Seq::empty(),
                uris: Seq::empty(),
                authorized_addresses: Seq::empty(),
            }),
            valid_storage(r@),
    {
        let r = Storage {
            owner,
            equippable_token_id,
            ipfs_gateway,
            registrations: Vec::new(),
            images_to_render: Vec::new(),
            uris: Vec::new(),
            authorized_addresses: Vec::new(),
        };
        assert(r@.registrations =~= Seq::empty());
        assert(r@.images_to_render =~= Seq::empty());
        assert(r@.uris =~= Seq::empty());
        assert(r@.authorized_addresses =~= Seq::empty());
        r
    }

    /// Where the registration of `token` stands.
    pub fn registration_index(&self, token: &Token) -> (r: Option<usize>)
        ensures
            match r {
                Some(i) => i < self.registrations@.len() && first_true(
                    token_flags(self@.registrations, token@),
                ) == Some(i as int),
                None => first_true(token_flags(self@.registrations, token@)).is_none(),
            },
    {
        let ghost flags = token_flags(self@.registrations, token@);
        let mut i: usize = 0;
        while i < self.registrations.len()
            invariant
                i <= self.registrations@.len(),
                flags == token_flags(self@.registrations, token@),
                forall|j: int| 0 <= j < i ==> !flags[j],
            decreases self.registrations@.len() - i,
        {
            if self.registrations[i].token == *token {
                proof {
                    lemma_first_true_is(flags, i as int);
                }
                return Some(i);
            }
            i += 1;
        }
        proof {
            lemma_first_true_none(flags);
        }
        None
    }
}

impl Storage {
    /// Registers `token` as an item for `slot`, displayed as `name`. A token that is
    /// registered for the same slot already is registered anew, under the name now given;
    /// one that is registered for another slot is refused. Where the registration is refused
    /// nothing changes.
    pub fn register(&mut self, slot: &Slot, name: &[u8], token: &Token) -> (r: Result<(), Error>)
        ensures
            match register_fault(old(self)@.registrations, slot@, name@, token@) {
                Some(e) => r == Err::<(), Error>(e) && final(self)@ == old(self)@,
                None => r.is_ok() && final(self)@ == (StorageView {
                    registrations: registered(
                        old(self)@.registrations,
                        RegistrationView { token: token@, slot: slot@, name: name@ },
                    ),
                    ..old(self)@
                }),
            },
            valid_storage(old(self)@) ==> valid_storage(final(self)@),
    {
        proof {
            use_type_invariant(slot);
            if valid_storage(self@) && register_fault(
                self@.registrations,
                slot@,
                name@,
                token@,
            ).is_none() {
                lemma_registered_valid(
                    self@,
                    RegistrationView { token: token@, slot: slot@, name: name@ },
                );
            }
        }
        match validate_name(name) {
            Err(e) => {
                return Err(e);
            },
            Ok(()) => {},
        }
        let item = Item::with_token(copy(name), token.clone());
        match validate_entry(slot, &Some(item)) {
            Err(e) => {
                return Err(e);
            },
            Ok(()) => {},
        }
        let entry = Registration { token: token.clone(), slot: slot.clone(), name: copy(name) };
        let ghost before = self.registrations@;
        match self.registration_index(token) {
            Some(i) => {
                if self.registrations[i].slot != *slot {
                    return Err(Error::DuplicateRegistration);
                }
                self.registrations.set(i, entry);
                assert(registrations_view(self.registrations@) =~= registrations_view(
                    before,
                ).update(i as int, entry@));
            },
            None => {
                self.registrations.push(entry);
                assert(registrations_view(self.registrations@) =~= registrations_view(before).push(
                    entry@,
                ));
            },
        }
        Ok(())
    }
}

impl StorageModule for Storage {
    open spec fn state(&self) -> StorageView {
        self@
    }

    fn equippable_token_id(&self) -> (r: Vec<u8>) {
        copy(self.equippable_token_id.as_slice())
    }

    fn ipfs_gateway(&self) -> (r: Vec<u8>) {
        copy(self.ipfs_gateway.as_slice())
    }

    fn get_item(&self, token: &Token) -> (r: Option<Registration>) {
        match self.registration_index(token) {
            Some(i) => Some(self.registrations[i].clone()),
            None => None,
        }
    }

    fn slot_of(&self, token: &Token) -> (r: Option<Slot>) {
        match self.registration_index(token) {
            Some(i) => Some(self.registrations[i].slot.clone()),
            None => None,
        }
    }

    fn has_slot(&self, token: &Token) -> (r: bool) {
        self.registration_index(token).is_some()
    }

    fn token_of(&self, slot: &Slot, name: &[u8]) -> (r: Option<Token>) {
        let ghost flags = name_flags(self@.registrations, slot@, name@);
        let mut i: usize = 0;
        while i < self.registrations.len()
            invariant
                i <= self.registrations@.len(),
                flags == name_flags(self@.registrations, slot@, name@),
                forall|j: int| 0 <= j < i ==> !flags[j],
            decreases self.registrations@.len() - i,
        {
            if self.registrations[i].slot == *slot && bytes_eq(
                self.registrations[i].name.as_slice(),
                name,
            ) {
                proof {
                    lemma_first_true_is(flags, i as int);
                }
                return Some(self.registrations[i].token.clone());
            }
            i += 1;
        }
        proof {
            lemma_first_true_none(flags);
        }
        None
    }

    fn is_known_slot(&self, slot: &Slot) -> (r: bool) {
        let ghost flags = slot_flags(self@.registrations, slot@);
        let mut i: usize = 0;
        while i < self.registrations.len()
            invariant
                i <= self.registrations@.len(),
                flags == slot_flags(self@.registrations, slot@),
                forall|j: int| 0 <= j < i ==> !flags[j],
            decreases self.registrations@.len() - i,
        {
            if self.registrations[i].slot == *slot {
                proof {
                    lemma_first_true_is(flags, i as int);
                }
                return true;
            }
            i += 1;
        }
        proof {
            lemma_first_true_none(flags);
        }
        false
    }

    fn is_item_collection(&self, token_id: &[u8]) -> (r: bool) {
        let ghost flags = collection_flags(self@.registrations, token_id@);
        let mut i: usize = 0;
        while i < self.registrations.len()
            invariant
                i <= self.registrations@.len(),
                flags == collection_flags(self@.registrations, token_id@),
                forall|j: int| 0 <= j < i ==> !flags[j],
            decreases self.registrations@.len() - i,
        {
            if bytes_eq(self.registrations[i].token.token_id.as_slice(), token_id) {
                proof {
                    lemma_first_true_is(flags, i as int);
                }
                return true;
            }
            i += 1;
        }
        proof {
            lemma_first_true_none(flags);
        }
        false
    }
}

} // verus!
