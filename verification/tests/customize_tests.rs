use customize_nft::equip::{Customization, Payment};
use customize_nft::error::Error;
use customize_nft::libs::equippable_minter::{balance, check_balances, LedgerAction};
use customize_nft::libs::storage::Storage;
use customize_nft::structs::equippable_attributes::EquippableAttributes;
use customize_nft::structs::item::Item;
use customize_nft::structs::roles::{LocalRoles, RoleTable};
use customize_nft::structs::slot::Slot;
use customize_nft::structs::token::Token;
use customize_nft::{Equip, EquippableUrisModule, MintEquippableModule, StorageModule};

const OWNER: &[u8] = b"owner";
const FIRST_USER: &[u8] = b"first user";
const EQUIPPABLE_TOKEN_ID: &[u8] = b"PENG-ae5a";

struct Setup {
    storage: Storage,
    roles: RoleTable,
}

fn setup() -> Setup {
    let storage = Storage::new(
        OWNER.to_vec(),
        EQUIPPABLE_TOKEN_ID.to_vec(),
        b"https://ipfs.io/ipfs/".to_vec(),
    );
    let mut roles = RoleTable::new();
    roles.grant(EQUIPPABLE_TOKEN_ID.to_vec(), LocalRoles::all());
    Setup { storage, roles }
}

impl Setup {
    fn register_item(&mut self, slot: &[u8], name: &[u8], token_id: &[u8], nonce: u64) {
        self.roles.grant(token_id.to_vec(), LocalRoles::all());
        self.storage
            .register_item(
                OWNER,
                &Slot::new_from_bytes(slot),
                name,
                &Token::new(token_id.to_vec(), nonce),
            )
            .unwrap();
    }

    fn customize(
        &self,
        payments: &[(&[u8], u64)],
        stored: &[u8],
        unequip_slots: &[&[u8]],
    ) -> Result<Customization, Error> {
        let payments: Vec<Payment> = payments
            .iter()
            .map(|(id, nonce)| Payment { token: Token::new(id.to_vec(), *nonce), amount: 1 })
            .collect();
        let slots: Vec<Slot> = unequip_slots.iter().map(|s| Slot::new_from_bytes(s)).collect();
        self.storage.customize(&self.roles, &payments, stored, &slots)
    }
}

fn token(id: &[u8], nonce: u64) -> Token {
    Token::new(id.to_vec(), nonce)
}

#[test]
fn customize_tests_customize_complete_flow() {
    const EQUIPPABLE_TOKEN_NONCE: u64 = 5;

    const ITEM_TO_UNEQUIP_SLOT: &[u8] = b"background";
    const ITEM_TO_UNEQUIP_ID: &[u8] = b"ITEM-a1a1a1";
    const ITEM_TO_UNEQUIP_NONCE: u64 = 30;

    const ITEM_TO_EQUIP_SLOT: &[u8] = b"hat";
    const ITEM_TO_EQUIP_ID: &[u8] = b"HAT-b2b2b2";
    const ITEM_TO_EQUIP_NONCE: u64 = 42;

    // 1. ARRANGE
    let mut setup = setup();
    setup.register_item(
        ITEM_TO_UNEQUIP_SLOT,
        ITEM_TO_UNEQUIP_ID,
        ITEM_TO_UNEQUIP_ID,
        ITEM_TO_UNEQUIP_NONCE,
    );
    setup.register_item(ITEM_TO_EQUIP_SLOT, ITEM_TO_EQUIP_ID, ITEM_TO_EQUIP_ID, ITEM_TO_EQUIP_NONCE);

    let attributes_before_custom = EquippableAttributes::new(&[(
        Slot::new_from_bytes(ITEM_TO_UNEQUIP_SLOT),
        Item::new(ITEM_TO_UNEQUIP_ID.to_vec()),
    )])
    .unwrap();
    let stored = attributes_before_custom.top_encode().unwrap();
    assert_eq!(stored, b"background:ITEM-a1a1a1".to_vec());

    // 2. ACT
    let outcome = setup
        .customize(
            &[
                (EQUIPPABLE_TOKEN_ID, EQUIPPABLE_TOKEN_NONCE),
                (ITEM_TO_EQUIP_ID, ITEM_TO_EQUIP_NONCE),
            ],
            &stored,
            &[ITEM_TO_UNEQUIP_SLOT],
        )
        .unwrap();

    // 3. ASSERT
    // the item unequipped goes back to the user
    assert_eq!(outcome.returned, vec![token(ITEM_TO_UNEQUIP_ID, ITEM_TO_UNEQUIP_NONCE)]);
    // the item sent is burned
    assert_eq!(outcome.burned, vec![token(ITEM_TO_EQUIP_ID, ITEM_TO_EQUIP_NONCE)]);

    let mut attributes_after_custom = EquippableAttributes::new(&[(
        Slot::new_from_bytes(ITEM_TO_EQUIP_SLOT),
        Item::with_token(
            ITEM_TO_EQUIP_ID.to_vec(),
            token(ITEM_TO_EQUIP_ID, ITEM_TO_EQUIP_NONCE),
        ),
    )])
    .unwrap();
    assert_eq!(outcome.attributes, attributes_after_custom);
    attributes_after_custom.empty_slot(&Slot::new_from_bytes(ITEM_TO_UNEQUIP_SLOT)).unwrap();
    assert_eq!(attributes_after_custom.top_encode().unwrap(), outcome.encoded);
    assert_eq!(
        outcome.encoded,
        b"background:unequipped;hat:HAT-b2b2b2 (HAT-b2b2b2-2a)".to_vec()
    );

    // the ledger is asked to hand back, burn, and replace the equippable token
    setup
        .storage
        .enqueue_image_to_render(
            customize_nft::constants::ENQUEUE_PRICE,
            &outcome.attributes,
            b"Equippable #5",
        )
        .unwrap();
    setup
        .storage
        .set_uri_of_attributes(
            OWNER,
            &outcome.attributes,
            b"Equippable #5",
            b"https://ipfs.io/ipfs/cid after custom".to_vec(),
        )
        .unwrap();
    let actions = setup
        .storage
        .settle_customization(
            FIRST_USER,
            EQUIPPABLE_TOKEN_NONCE,
            b"Equippable #5",
            &outcome,
            &[(token(ITEM_TO_UNEQUIP_ID, ITEM_TO_UNEQUIP_NONCE), 2)],
        )
        .unwrap();
    assert_eq!(actions.len(), 5);
    match &actions[0] {
        LedgerAction::MintAndSend { to, token: t } => {
            assert_eq!(to, FIRST_USER);
            assert_eq!(*t, token(ITEM_TO_UNEQUIP_ID, ITEM_TO_UNEQUIP_NONCE));
        }
        other => panic!("{:?}", other),
    }
    match &actions[1] {
        LedgerAction::Burn { token: t } => {
            assert_eq!(*t, token(ITEM_TO_EQUIP_ID, ITEM_TO_EQUIP_NONCE))
        }
        other => panic!("{:?}", other),
    }
    match &actions[2] {
        LedgerAction::Create { token_id, name, attributes, uri } => {
            assert_eq!(token_id, EQUIPPABLE_TOKEN_ID);
            assert_eq!(name, b"Equippable #5");
            assert_eq!(attributes, &outcome.encoded);
            assert_eq!(uri, b"https://ipfs.io/ipfs/cid after custom");
        }
        other => panic!("{:?}", other),
    }
    match &actions[3] {
        LedgerAction::Burn { token: t } => {
            assert_eq!(*t, token(EQUIPPABLE_TOKEN_ID, EQUIPPABLE_TOKEN_NONCE))
        }
        other => panic!("{:?}", other),
    }
    match &actions[4] {
        LedgerAction::SendCreated { to, token_id } => {
            assert_eq!(to, FIRST_USER);
            assert_eq!(token_id, EQUIPPABLE_TOKEN_ID);
        }
        other => panic!("{:?}", other),
    }
}

#[test]
fn customize_nothing_to_desequip_and_equip() {
    const NONCE: u64 = 30;
    let setup = setup();

    let result = setup.customize(&[(EQUIPPABLE_TOKEN_ID, NONCE)], b"", &[]);

    assert_eq!(result.unwrap_err(), Error::NoOperationRequested);
}

#[test]
fn customize_nothing_to_unequip_and_equip() {
    const NONCE: u64 = 30;
    let setup = setup();

    let attributes = EquippableAttributes::empty();
    let result = setup.storage.customize_attributes(&setup.roles, &attributes, &[], &[]);

    assert_eq!(result.unwrap_err(), Error::NoOperationRequested);
    let result = setup.customize(&[(EQUIPPABLE_TOKEN_ID, NONCE)], b"", &[]);
    assert_eq!(result.unwrap_err(), Error::NoOperationRequested);
}

#[test]
fn test_desequip() {
    const HAT_TOKEN_ID: &[u8] = b"HAT-a";
    const INIT_NONCE: u64 = 65535;

    let mut setup = setup();
    setup.register_item(b"hat", b"Hat", HAT_TOKEN_ID, INIT_NONCE);

    let hat = Slot::new_from_bytes(b"Hat");
    let mut attributes = EquippableAttributes::new(&[(
        hat.clone(),
        Item::with_token(b"Hat".to_vec(), token(HAT_TOKEN_ID, INIT_NONCE)),
    )])
    .unwrap();

    let result = setup.storage.desequip_slot(&setup.roles, &mut attributes, &hat);

    assert_eq!(result, Ok(token(HAT_TOKEN_ID, INIT_NONCE)));
    assert!(attributes.is_slot_empty(&hat));
    assert_eq!(attributes.top_encode().unwrap(), b"hat:unequipped".to_vec());
}

#[test]
fn customize_only_unequip() {
    let slot = b"background";
    const ITEM_TO_UNEQUIP_ID: &[u8] = b"BG-a1a1a1";
    const ITEM_TO_UNEQUIP_NAME: &[u8] = b"Some Item";
    const ITEM_TO_UNEQUIP_NONCE: u64 = 42;
    const EQUIPPABLE_NONCE: u64 = 30;

    // 1. ARRANGE
    let mut setup = setup();
    setup.register_item(slot, ITEM_TO_UNEQUIP_NAME, ITEM_TO_UNEQUIP_ID, ITEM_TO_UNEQUIP_NONCE);

    let attributes_before_custom = EquippableAttributes::new(&[(
        Slot::new_from_bytes(slot),
        Item::new(ITEM_TO_UNEQUIP_NAME.to_vec()),
    )])
    .unwrap();
    let mut attributes_after_custom = attributes_before_custom.clone();
    attributes_after_custom.empty_slot(&Slot::new_from_bytes(slot)).unwrap();

    // 2. ACT
    let outcome = setup
        .customize(
            &[(EQUIPPABLE_TOKEN_ID, EQUIPPABLE_NONCE)],
            &attributes_before_custom.top_encode().unwrap(),
            &[slot],
        )
        .unwrap();

    // 3. ASSERT
    assert_eq!(
        outcome.returned,
        vec![token(ITEM_TO_UNEQUIP_ID, ITEM_TO_UNEQUIP_NONCE)],
        "Item unequipped should be received"
    );
    assert!(outcome.burned.is_empty());
    assert_eq!(outcome.attributes, attributes_after_custom);
    assert_eq!(outcome.encoded, attributes_after_custom.top_encode().unwrap());
    assert_eq!(outcome.encoded, b"background:unequipped".to_vec());

    // The new equippable token shows the image of the attributes after the customization.
    for (attributes, uri) in [
        (&attributes_before_custom, &b"https://ipfs.io/ipfs/this is a cid"[..]),
        (&attributes_after_custom, &b"https://ipfs.io/ipfs/empty"[..]),
    ] {
        setup
            .storage
            .enqueue_image_to_render(
                customize_nft::constants::ENQUEUE_PRICE,
                attributes,
                EQUIPPABLE_TOKEN_ID,
            )
            .unwrap();
        setup
            .storage
            .set_uri_of_attributes(OWNER, attributes, EQUIPPABLE_TOKEN_ID, uri.to_vec())
            .unwrap();
    }
    let held = [(token(ITEM_TO_UNEQUIP_ID, ITEM_TO_UNEQUIP_NONCE), 2)];
    let actions = setup
        .storage
        .settle_customization(FIRST_USER, EQUIPPABLE_NONCE, EQUIPPABLE_TOKEN_ID, &outcome, &held)
        .unwrap();
    assert_eq!(actions.len(), 4);
    match &actions[0] {
        LedgerAction::MintAndSend { to, token: t } => {
            assert_eq!(to, FIRST_USER);
            assert_eq!(*t, token(ITEM_TO_UNEQUIP_ID, ITEM_TO_UNEQUIP_NONCE));
        }
        other => panic!("{:?}", other),
    }
    match &actions[1] {
        LedgerAction::Create { token_id, attributes, uri, .. } => {
            assert_eq!(token_id, EQUIPPABLE_TOKEN_ID);
            assert_eq!(attributes, &b"background:unequipped".to_vec());
            assert_eq!(uri, b"https://ipfs.io/ipfs/empty");
        }
        other => panic!("{:?}", other),
    }
    match &actions[2] {
        LedgerAction::Burn { token: t } => {
            assert_eq!(*t, token(EQUIPPABLE_TOKEN_ID, EQUIPPABLE_NONCE))
        }
        other => panic!("{:?}", other),
    }
    match &actions[3] {
        LedgerAction::SendCreated { to, token_id } => {
            assert_eq!(to, FIRST_USER);
            assert_eq!(token_id, EQUIPPABLE_TOKEN_ID);
        }
        other => panic!("{:?}", other),
    }
}

#[test]
fn settle_needs_a_unit_of_each_token_to_hand_back() {
    let mut setup = setup();
    setup.register_item(b"hat", b"Cap", b"CAP-1", 1);
    let stored = b"hat:Cap".to_vec();
    let outcome = setup.customize(&[(EQUIPPABLE_TOKEN_ID, 1)], &stored, &[b"hat"]).unwrap();
    assert_eq!(outcome.returned, vec![token(b"CAP-1", 1)]);

    // No unit held: nothing is asked of the ledger, whatever else holds.
    for held in [
        vec![],
        vec![(token(b"CAP-1", 1), 0)],
        vec![(token(b"CAP-1", 2), 5), (token(b"CAP-2", 1), 5)],
        vec![(token(b"CAP-1", 1), 0), (token(b"CAP-1", 1), 3)],
    ] {
        assert_eq!(
            setup.storage.settle_customization(FIRST_USER, 1, b"name", &outcome, &held).unwrap_err(),
            Error::NoUnitHeld
        );
        assert_eq!(check_balances(&outcome.returned, &held), Err(Error::NoUnitHeld));
    }
    let held = vec![(token(b"CAP-2", 1), 0), (token(b"CAP-1", 1), 1)];
    assert_eq!(check_balances(&outcome.returned, &held), Ok(()));
    assert_eq!(check_balances(&[], &[]), Ok(()));
    assert_eq!(balance(&held, &token(b"CAP-1", 1)), 1);
    assert_eq!(balance(&held, &token(b"CAP-2", 1)), 0);
    assert_eq!(balance(&held, &token(b"CAP-3", 1)), 0);
    // With the unit held, the image is asked for next.
    assert_eq!(
        setup.storage.settle_customization(FIRST_USER, 1, b"name", &outcome, &held).unwrap_err(),
        Error::NoUri
    );
}

#[test]
fn equip_does_not_fail_because_the_slot_is_occupied() {
    // Registered with no right looked at; equipping needs the rights.
    let mut storage = Storage::new(OWNER.to_vec(), EQUIPPABLE_TOKEN_ID.to_vec(), Vec::new());
    let hat = Slot::new_from_bytes(b"hat");
    storage.register_item(OWNER, &hat, b"Cap", &token(b"CAP-1", 1)).unwrap();
    storage.register_item(OWNER, &hat, b"Crown", &token(b"CROWN-1", 7)).unwrap();
    let mut roles = RoleTable::new();
    roles.grant(b"CAP-1".to_vec(), LocalRoles::all());
    roles.grant(b"CROWN-1".to_vec(), LocalRoles::all());

    let mut attributes = EquippableAttributes::empty();
    assert_eq!(storage.equip_slot(&roles, &mut attributes, &token(b"CAP-1", 1)), Ok(None));
    assert_eq!(
        storage.equip_slot(&roles, &mut attributes, &token(b"CROWN-1", 7)),
        Ok(Some(token(b"CAP-1", 1)))
    );
    assert_eq!(
        storage.equip_slot(&roles, &mut attributes, &token(b"CAP-1", 1)),
        Ok(Some(token(b"CROWN-1", 7)))
    );
    assert_eq!(attributes.top_encode().unwrap(), b"hat:Cap (CAP-1-01)".to_vec());
    assert_eq!(attributes.len(), 1);
}

#[test]
fn panic_when_unequip_twice_the_same_slot() {
    let slot = b"background";
    const ITEM_TO_UNEQUIP_ID: &[u8] = b"BG-a1a1a1";
    const ITEM_TO_UNEQUIP_NAME: &[u8] = b"Some Item";
    const ITEM_TO_UNEQUIP_NONCE: u64 = 42;
    const EQUIPPABLE_NONCE: u64 = 30;

    let mut setup = setup();
    setup.register_item(slot, ITEM_TO_UNEQUIP_NAME, ITEM_TO_UNEQUIP_ID, ITEM_TO_UNEQUIP_NONCE);

    let attributes_before_custom = EquippableAttributes::new(&[(
        Slot::new_from_bytes(slot),
        Item::new(ITEM_TO_UNEQUIP_NAME.to_vec()),
    )])
    .unwrap();

    // 2. ACT
    let result = setup.customize(
        &[(EQUIPPABLE_TOKEN_ID, EQUIPPABLE_NONCE)],
        &attributes_before_custom.top_encode().unwrap(),
        &[slot, slot],
    );

    // 3. ASSERT
    assert_eq!(result.unwrap_err(), Error::EmptySlotUnequip);
}

#[test]
fn panic_when_unequip_on_empty_slot() {
    let slot = b"background";
    const NONCE: u64 = 30;

    let setup = setup();
    let stored = EquippableAttributes::empty().top_encode().unwrap();

    let result = setup.customize(&[(EQUIPPABLE_TOKEN_ID, NONCE)], &stored, &[slot]);

    assert_eq!(result.unwrap_err(), Error::EmptySlotUnequip);
}

#[test]
fn equip_into_an_occupied_slot_displaces_what_was_there() {
    let mut setup = setup();
    setup.register_item(b"hat", b"Cap", b"CAP-1", 1);
    setup.register_item(b"hat", b"Crown", b"CROWN-1", 7);
    setup.register_item(b"beak", b"Long", b"BEAK-1", 2);

    let hat = Slot::new_from_bytes(b"hat");
    let beak = Slot::new_from_bytes(b"beak");
    let mut attributes = EquippableAttributes::empty();
    assert_eq!(
        setup.storage.equip_slot(&setup.roles, &mut attributes, &token(b"CAP-1", 1)),
        Ok(None)
    );
    assert_eq!(
        setup.storage.equip_slot(&setup.roles, &mut attributes, &token(b"BEAK-1", 2)),
        Ok(None)
    );
    let displaced = setup.storage.equip_slot(&setup.roles, &mut attributes, &token(b"CROWN-1", 7));

    assert_eq!(displaced, Ok(Some(token(b"CAP-1", 1))));
    assert_eq!(
        attributes.get_item(&hat),
        Some(Item::with_token(b"Crown".to_vec(), token(b"CROWN-1", 7)))
    );
    assert_eq!(
        attributes.get_item(&beak),
        Some(Item::with_token(b"Long".to_vec(), token(b"BEAK-1", 2)))
    );
    assert_eq!(
        attributes.top_encode().unwrap(),
        b"beak:Long (BEAK-1-02);hat:Crown (CROWN-1-07)".to_vec()
    );
}

#[test]
fn customize_equips_the_same_slot_twice_and_the_last_wins() {
    let mut setup = setup();
    setup.register_item(b"hat", b"Cap", b"CAP-1", 1);
    setup.register_item(b"hat", b"Crown", b"CROWN-1", 7);

    let outcome = setup
        .customize(&[(EQUIPPABLE_TOKEN_ID, 1), (b"CAP-1", 1), (b"CROWN-1", 7)], b"", &[])
        .unwrap();

    assert_eq!(outcome.encoded, b"hat:Crown (CROWN-1-07)".to_vec());
    assert_eq!(outcome.returned, vec![token(b"CAP-1", 1)]);
    assert_eq!(outcome.burned, vec![token(b"CAP-1", 1), token(b"CROWN-1", 7)]);
}

#[test]
fn equip_refuses_in_the_order_of_its_checks() {
    let mut setup = setup();
    setup.register_item(b"hat", b"Cap", b"CAP-1", 1);
    let mut attributes = EquippableAttributes::empty();

    // not registered
    assert_eq!(
        setup.storage.equip_slot(&setup.roles, &mut attributes, &token(b"CAP-1", 2)),
        Err(Error::UnregisteredItem)
    );
    assert_eq!(
        setup.storage.equip_slot(&setup.roles, &mut attributes, &token(EQUIPPABLE_TOKEN_ID, 1)),
        Err(Error::UnregisteredItem)
    );
    // the rights are gone
    let mut fewer = RoleTable::new();
    fewer.grant(b"CAP-1".to_vec(), LocalRoles { create: true, add_quantity: false, burn: true });
    assert_eq!(
        setup.storage.equip_slot(&fewer, &mut attributes, &token(b"CAP-1", 1)),
        Err(Error::MissingMintRole)
    );
    let mut fewer = RoleTable::new();
    fewer.grant(b"CAP-1".to_vec(), LocalRoles { create: false, add_quantity: true, burn: false });
    assert_eq!(
        setup.storage.equip_slot(&fewer, &mut attributes, &token(b"CAP-1", 1)),
        Err(Error::MissingBurnRole)
    );
    assert_eq!(attributes, EquippableAttributes::empty());
    assert_eq!(attributes.len(), 0);
}

#[test]
fn equip_refuses_the_equippable_token_itself() {
    // A registry that was filled before the collection was set can hold the equippable token.
    let mut storage = Storage::new(OWNER.to_vec(), b"OTHER-1".to_vec(), Vec::new());
    let mut roles = RoleTable::new();
    roles.grant(EQUIPPABLE_TOKEN_ID.to_vec(), LocalRoles::all());
    storage
        .register_item(
            OWNER,
            &Slot::new_from_bytes(b"hat"),
            b"Self",
            &token(EQUIPPABLE_TOKEN_ID, 1),
        )
        .unwrap();
    storage.init(EQUIPPABLE_TOKEN_ID.to_vec(), Vec::new());
    assert_eq!(storage.equippable_token_id(), EQUIPPABLE_TOKEN_ID.to_vec());

    let mut attributes = EquippableAttributes::empty();
    assert_eq!(
        storage.equip_slot(&roles, &mut attributes, &token(EQUIPPABLE_TOKEN_ID, 1)),
        Err(Error::SelfEquip)
    );
}

#[test]
fn unequip_refuses_in_the_order_of_its_checks() {
    let mut setup = setup();
    setup.register_item(b"hat", b"Cap", b"CAP-1", 1);
    let hat = Slot::new_from_bytes(b"hat");
    let beak = Slot::new_from_bytes(b"beak");

    let mut attributes = EquippableAttributes::new(&[
        (hat.clone(), Item::new(b"Crown".to_vec())),
        (beak.clone(), Item::new(b"Long".to_vec())),
    ])
    .unwrap();
    let before = attributes.clone();

    // a slot that nothing is registered for
    assert_eq!(
        setup.storage.desequip_slot(&setup.roles, &mut attributes, &beak),
        Err(Error::UnknownSlot)
    );
    // an item that no token is registered for under its name
    assert_eq!(
        setup.storage.desequip_slot(&setup.roles, &mut attributes, &hat),
        Err(Error::UnregisteredItem)
    );
    // an empty slot comes before an unknown one
    assert_eq!(
        setup.storage.desequip_slot(&setup.roles, &mut attributes, &Slot::new_from_bytes(b"eyes")),
        Err(Error::EmptySlotUnequip)
    );
    assert_eq!(attributes.top_encode(), before.top_encode());

    // missing rights on the collection of the item
    let mut attributes = EquippableAttributes::new(&[(hat.clone(), Item::new(b"Cap".to_vec()))])
        .unwrap();
    let mut fewer = RoleTable::new();
    fewer.grant(b"CAP-1".to_vec(), LocalRoles { create: true, add_quantity: true, burn: false });
    assert_eq!(
        setup.storage.desequip_slot(&fewer, &mut attributes, &hat),
        Err(Error::MissingBurnRole)
    );
    assert_eq!(
        setup.storage.desequip_slot(&RoleTable::new(), &mut attributes, &hat),
        Err(Error::MissingMintRole)
    );
    assert_eq!(attributes.top_encode().unwrap(), b"hat:Cap".to_vec());
}

#[test]
fn customize_checks_the_payments() {
    let mut setup = setup();
    setup.register_item(b"hat", b"Cap", b"CAP-1", 1);
    let slots = [Slot::new_from_bytes(b"hat")];
    let one = |id: &[u8], nonce: u64, amount: u64| Payment { token: token(id, nonce), amount };

    assert_eq!(
        setup.storage.customize(&setup.roles, &[], b"", &slots).unwrap_err(),
        Error::NeedEquippable
    );
    assert_eq!(
        setup
            .storage
            .customize(&setup.roles, &[one(b"CAP-1", 1, 1)], b"", &slots)
            .unwrap_err(),
        Error::FirstPaymentIsNotEquippable
    );
    assert_eq!(
        setup
            .storage
            .customize(&setup.roles, &[one(EQUIPPABLE_TOKEN_ID, 1, 2)], b"", &slots)
            .unwrap_err(),
        Error::MoreThanOneEquippableReceived
    );
    assert_eq!(
        setup
            .storage
            .customize(
                &setup.roles,
                &[one(EQUIPPABLE_TOKEN_ID, 1, 1), one(b"CAP-1", 1, 2)],
                b"",
                &[]
            )
            .unwrap_err(),
        Error::MoreThanOneItemReceived
    );
    assert_eq!(
        setup
            .storage
            .customize(&setup.roles, &[one(EQUIPPABLE_TOKEN_ID, 1, 1)], b"hat", &slots)
            .unwrap_err(),
        Error::MalformedAttributeEntry
    );
    assert_eq!(
        setup
            .storage
            .customize(&setup.roles, &[one(EQUIPPABLE_TOKEN_ID, 1, 1)], b"hat:a;hat:b", &slots)
            .unwrap_err(),
        Error::DuplicateSlot
    );
}

#[test]
fn customize_needs_the_rights_on_the_equippable_collection() {
    let mut setup = setup();
    setup.register_item(b"hat", b"Cap", b"CAP-1", 1);
    let payments =
        [Payment { token: token(EQUIPPABLE_TOKEN_ID, 1), amount: 1 }, Payment {
            token: token(b"CAP-1", 1),
            amount: 1,
        }];

    let mut roles = RoleTable::new();
    roles.grant(b"CAP-1".to_vec(), LocalRoles::all());
    assert_eq!(
        setup.storage.customize(&roles, &payments, b"", &[]).unwrap_err(),
        Error::MissingCreateRole
    );
    assert_eq!(setup.storage.require_penguin_roles_set(&roles), Err(Error::MissingCreateRole));
    roles.grant(
        EQUIPPABLE_TOKEN_ID.to_vec(),
        LocalRoles { create: true, add_quantity: false, burn: false },
    );
    assert_eq!(
        setup.storage.customize(&roles, &payments, b"", &[]).unwrap_err(),
        Error::MissingBurnRole
    );
    // Of two entries for one collection the first counts.
    roles.grant(EQUIPPABLE_TOKEN_ID.to_vec(), LocalRoles::all());
    assert_eq!(
        setup.storage.customize(&roles, &payments, b"", &[]).unwrap_err(),
        Error::MissingBurnRole
    );
    assert_eq!(setup.storage.require_item_roles_set(&roles, b"CAP-1"), Ok(()));
    assert_eq!(setup.storage.require_item_roles_set(&roles, b"CAP-2"), Err(Error::MissingMintRole));
}

#[test]
fn customize_fails_when_the_text_grows_too_long() {
    let mut setup = setup();
    let long_name = vec![b'n'; 300];
    setup.register_item(b"hat", &long_name, b"HAT-1", 1);
    setup.register_item(b"beak", &long_name, b"BEAK-1", 1);

    let result = setup.customize(
        &[(EQUIPPABLE_TOKEN_ID, 1), (b"HAT-1", 1), (b"BEAK-1", 1)],
        b"",
        &[],
    );
    assert_eq!(result.unwrap_err(), Error::BufferTooLarge);

    let outcome = setup.customize(&[(EQUIPPABLE_TOKEN_ID, 1), (b"HAT-1", 1)], b"", &[]).unwrap();
    assert_eq!(outcome.encoded.len(), 4 + 300 + 11);
}

#[test]
fn settle_needs_the_image_of_the_new_attributes() {
    let mut setup = setup();
    setup.register_item(b"hat", b"Cap", b"CAP-1", 1);
    let outcome = setup.customize(&[(EQUIPPABLE_TOKEN_ID, 1), (b"CAP-1", 1)], b"", &[]).unwrap();

    assert_eq!(
        setup.storage.settle_customization(FIRST_USER, 1, b"Equippable #1", &outcome, &[]).unwrap_err(),
        Error::NoUri
    );
    assert_eq!(
        setup.storage.mint_equippable(&outcome.attributes, b"Equippable #1").unwrap_err(),
        Error::NoUri
    );
    assert_eq!(
        setup
            .storage
            .update_equippable(FIRST_USER, 1, &outcome.attributes, b"Equippable #1")
            .unwrap_err(),
        Error::NoUri
    );
}

#[test]
fn token_to_return_only_reads_the_attributes() {
    let mut setup = setup();
    setup.register_item(b"hat", b"Cap", b"CAP-1", 1);
    let hat = Slot::new_from_bytes(b"hat");
    let attributes =
        EquippableAttributes::new(&[(hat.clone(), Item::new(b"Cap".to_vec()))]).unwrap();

    assert_eq!(
        setup.storage.token_to_return(&setup.roles, &attributes, &hat),
        Ok(token(b"CAP-1", 1))
    );
    assert_eq!(
        setup.storage.token_to_return(&setup.roles, &attributes, &Slot::new_from_bytes(b"beak")),
        Err(Error::EmptySlotUnequip)
    );
    assert_eq!(attributes.top_encode().unwrap(), b"hat:Cap".to_vec());

    // An item that carries its token is handed back as that token.
    let attributes = EquippableAttributes::new(&[(
        hat.clone(),
        Item::with_token(b"Cap".to_vec(), token(b"CAP-1", 9)),
    )])
    .unwrap();
    assert_eq!(
        setup.storage.token_to_return(&setup.roles, &attributes, &hat),
        Ok(token(b"CAP-1", 9))
    );
}

#[test]
fn unequip_refuses_a_token_of_a_collection_that_is_not_registered() {
    let mut setup = setup();
    setup.register_item(b"hat", b"Cap", b"CAP-1", 1);
    setup.roles.grant(b"GOLD-1".to_vec(), LocalRoles::all());
    let hat = Slot::new_from_bytes(b"hat");
    let mut attributes = EquippableAttributes::new(&[(
        hat.clone(),
        Item::with_token(b"Crown".to_vec(), token(b"GOLD-1", 1)),
    )])
    .unwrap();

    // The slot is known through CAP-1 and the rights on GOLD-1 are held, but no token of
    // GOLD-1 is registered as an item.
    assert!(setup.storage.is_known_slot(&hat));
    assert!(!setup.storage.is_item_collection(b"GOLD-1"));
    assert!(setup.storage.is_item_collection(b"CAP-1"));
    assert_eq!(
        setup.storage.token_to_return(&setup.roles, &attributes, &hat),
        Err(Error::UnregisteredItem)
    );
    assert_eq!(
        setup.storage.desequip_slot(&setup.roles, &mut attributes, &hat),
        Err(Error::UnregisteredItem)
    );
    assert_eq!(
        attributes.get_item(&hat),
        Some(Item::with_token(b"Crown".to_vec(), token(b"GOLD-1", 1)))
    );
    assert_eq!(attributes.top_encode().unwrap(), b"hat:Crown (GOLD-1-01)".to_vec());

    // The registration is looked at before the rights.
    assert_eq!(
        setup.storage.desequip_slot(&RoleTable::new(), &mut attributes, &hat),
        Err(Error::UnregisteredItem)
    );

    // Neither is it displaced by an equip, nor unequipped in a customization; nothing is
    // handed back.
    assert_eq!(
        setup.storage.equip_slot(&setup.roles, &mut attributes, &token(b"CAP-1", 1)),
        Err(Error::UnregisteredItem)
    );
    assert_eq!(
        setup
            .customize(&[(EQUIPPABLE_TOKEN_ID, 1)], b"hat:Crown (GOLD-1-01)", &[b"hat"])
            .unwrap_err(),
        Error::UnregisteredItem
    );
    assert_eq!(attributes.top_encode().unwrap(), b"hat:Crown (GOLD-1-01)".to_vec());

    // Once a token of the collection is registered, whatever its nonce, the item leaves.
    setup.register_item(b"hat", b"Crown", b"GOLD-1", 7);
    assert_eq!(
        setup.storage.desequip_slot(&setup.roles, &mut attributes, &hat),
        Ok(token(b"GOLD-1", 1))
    );
    assert!(attributes.is_slot_empty(&hat));
}
