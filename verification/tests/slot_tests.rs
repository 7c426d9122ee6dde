use std::cmp::Ordering;

use customize_nft::error::Error;
use customize_nft::structs::slot::Slot;

#[test]
fn slot_is_kept_in_lower_case() {
    assert_eq!(Slot::new_from_bytes(b"Hat").to_bytes(), b"hat".to_vec());
    assert_eq!(Slot::new_from_buffer(b"BACKGROUND".to_vec()).to_bytes(), b"background".to_vec());
    assert_eq!(Slot::new_from_bytes(b"h@T[`{Z").to_bytes(), b"h@t[`{z".to_vec());
    assert_eq!(Slot::new_from_bytes(b"").to_bytes(), b"".to_vec());
    assert_eq!(Slot::new_from_bytes(b"a;b:c").to_bytes(), b"a;b:c".to_vec());
    assert_eq!(Slot::new_from_bytes(&[0xC9, 0x41, 0xFF]).to_bytes(), vec![0xC9, 0x61, 0xFF]);
}

#[test]
fn slots_are_equal_without_regard_to_case() {
    assert_eq!(Slot::new_from_bytes(b"Hat"), Slot::new_from_bytes(b"hAT"));
    assert!(Slot::new_from_bytes(b"Hat") != Slot::new_from_bytes(b"hats"));
    assert_eq!(Slot::new_from_bytes(b"Hat").clone(), Slot::new_from_bytes(b"hat"));
}

#[test]
fn slot_capitalized_raises_the_first_letter_only() {
    assert_eq!(Slot::new_from_bytes(b"hat").capitalized(), b"Hat".to_vec());
    assert_eq!(Slot::new_from_bytes(b"HAT").capitalized(), b"Hat".to_vec());
    assert_eq!(Slot::new_from_bytes(b"").capitalized(), b"".to_vec());
    assert_eq!(Slot::new_from_bytes(b"9lives").capitalized(), b"9lives".to_vec());
    assert_eq!(Slot::new_from_bytes(b"z").capitalized(), b"Z".to_vec());
}

#[test]
fn slot_compare_is_lexicographic() {
    let slot = |s: &[u8]| Slot::new_from_bytes(s);
    assert_eq!(slot(b"hat").compare(&slot(b"weapon")), Ordering::Less);
    assert_eq!(slot(b"weapon").compare(&slot(b"hat")), Ordering::Greater);
    assert_eq!(slot(b"hat").compare(&slot(b"HAT")), Ordering::Equal);
    assert_eq!(slot(b"hat").compare(&slot(b"hats")), Ordering::Less);
    assert_eq!(slot(b"hats").compare(&slot(b"hat")), Ordering::Greater);
    assert_eq!(slot(b"").compare(&slot(b"a")), Ordering::Less);
    assert_eq!(slot(b"").compare(&slot(b"")), Ordering::Equal);
    assert_eq!(slot(b"Zebra").compare(&slot(b"apple")), Ordering::Greater);
    assert_eq!(slot(&[0x80]).compare(&slot(b"z")), Ordering::Greater);
}

#[test]
fn slot_codec_keeps_the_name() {
    let slot = Slot::top_decode(b"Hat").unwrap();
    assert_eq!(slot.top_encode().unwrap(), b"hat".to_vec());
    assert_eq!(slot.as_slice(), b"hat");

    let long = Slot::new_from_buffer(vec![b'A'; 513]);
    assert_eq!(long.top_encode(), Err(Error::BufferTooLarge));
    let fits = Slot::new_from_buffer(vec![b'A'; 512]);
    assert_eq!(fits.top_encode().unwrap(), vec![b'a'; 512]);
}
