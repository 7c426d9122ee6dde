use customize_nft::constants::UNEQUIPPED_ITEM_NAME;
use customize_nft::error::{Error, ErrorKind};
use customize_nft::structs::item::{validate_name, Item};
use customize_nft::structs::token::Token;

#[test]
fn item_top_decode_reads_name_token_and_nonce() {
    let item = Item::top_decode(b"Pirate Hat (HAT-a2b4e5-0a)").unwrap();
    assert_eq!(
        item,
        Item::with_token(b"Pirate Hat".to_vec(), Token::new(b"HAT-a2b4e5".to_vec(), 10))
    );
    assert_eq!(item.top_encode(), b"Pirate Hat (HAT-a2b4e5-0a)".to_vec());
}

#[test]
fn item_top_decode_reads_a_name_alone() {
    let item = Item::top_decode(b"Pirate Hat").unwrap();
    assert_eq!(item, Item::new(b"Pirate Hat".to_vec()));
    assert_eq!(item.top_encode(), b"Pirate Hat".to_vec());
    assert_eq!(Item::top_decode(b"").unwrap(), Item::new(Vec::new()));
    assert_eq!(Item::top_decode(b"a (b").unwrap(), Item::new(b"a (b".to_vec()));
    assert_eq!(Item::top_decode(b"x (T-01) ").unwrap(), Item::new(b"x (T-01) ".to_vec()));
}

#[test]
fn item_top_decode_refuses_what_is_no_item() {
    for text in [
        &b"unequipped"[..],
        b"a:b",
        b"x)",
        b"(T-01)",
        b"x  T-01)",
        b"x (T -01)",
        b"x (T-zz)",
        b"unequipped (T-01)",
    ] {
        assert_eq!(
            Item::top_decode(text).unwrap_err(),
            Error::MalformedAttributeEntry,
            "{:?}",
            std::str::from_utf8(text)
        );
    }
}

#[test]
fn item_with_an_empty_name_and_a_token_is_read_back() {
    let item = Item::with_token(Vec::new(), Token::new(b"T".to_vec(), 1));
    assert_eq!(item.top_encode(), b" (T-01)".to_vec());
    assert_eq!(Item::top_decode(b" (T-01)").unwrap(), item);
    let item = Item::with_token(b"x".to_vec(), Token::new(Vec::new(), 1));
    assert_eq!(item.top_encode(), b"x (-01)".to_vec());
    assert_eq!(Item::top_decode(b"x (-01)").unwrap(), item);
}

#[test]
fn item_validate_names_the_fault() {
    assert_eq!(Item::new(b"Pirate Hat".to_vec()).validate(), Ok(()));
    assert_eq!(Item::new(UNEQUIPPED_ITEM_NAME.to_vec()).validate(), Err(Error::ReservedName));
    assert_eq!(Item::new(b"Unequipped".to_vec()).validate(), Ok(()));
    assert_eq!(Item::new(b"My:Hat".to_vec()).validate(), Err(Error::InvalidCharacter));
    assert_eq!(Item::new(b"My;Hat".to_vec()).validate(), Err(Error::InvalidCharacter));
    assert_eq!(Item::new(b"My Hat)".to_vec()).validate(), Err(Error::InvalidCharacter));
    assert_eq!(
        Item::with_token(b"My Hat)".to_vec(), Token::new(b"T-1".to_vec(), 0)).validate(),
        Ok(())
    );
    for bad in [&b"T 1"[..], b"T;1", b"T:1"] {
        assert_eq!(
            Item::with_token(b"Hat".to_vec(), Token::new(bad.to_vec(), 0)).validate(),
            Err(Error::InvalidCharacter)
        );
    }
}

#[test]
fn validate_name_follows_the_two_rules() {
    assert_eq!(validate_name(b"Pirate Hat"), Ok(()));
    assert_eq!(validate_name(b""), Ok(()));
    assert_eq!(validate_name(b"Hat (red)"), Ok(()));
    assert_eq!(validate_name(b"unequipped"), Err(Error::ReservedName));
    assert_eq!(validate_name(b"unequipped "), Ok(()));
    assert_eq!(validate_name(b":"), Err(Error::InvalidCharacter));
    assert_eq!(validate_name(b"a;"), Err(Error::InvalidCharacter));
}

#[test]
fn errors_have_their_kind() {
    assert_eq!(Error::EmptySlotUnequip.kind(), ErrorKind::Validation);
    assert_eq!(Error::UnknownSlot.kind(), ErrorKind::Validation);
    assert_eq!(Error::SelfEquip.kind(), ErrorKind::Validation);
    assert_eq!(Error::UnregisteredItem.kind(), ErrorKind::Validation);
    assert_eq!(Error::ReservedName.kind(), ErrorKind::Validation);
    assert_eq!(Error::MalformedAttributeEntry.kind(), ErrorKind::Codec);
    assert_eq!(Error::BufferTooLarge.kind(), ErrorKind::Codec);
    assert_eq!(Error::DuplicateSlot.kind(), ErrorKind::Codec);
    assert_eq!(Error::MissingMintRole.kind(), ErrorKind::Permission);
    assert_eq!(Error::MissingBurnRole.kind(), ErrorKind::Permission);
    assert_eq!(Error::NotOwner.kind(), ErrorKind::Permission);
    assert_eq!(Error::DuplicateRegistration.kind(), ErrorKind::StateConflict);
    assert_eq!(Error::AlreadyInQueue.kind(), ErrorKind::StateConflict);
    assert_eq!(Error::AlreadyRendered.kind(), ErrorKind::StateConflict);
}
