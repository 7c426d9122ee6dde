use customize_nft::constants::ENQUEUE_PRICE;
use customize_nft::error::Error;
use customize_nft::libs::storage::Storage;
use customize_nft::structs::equippable_attributes::EquippableAttributes;
use customize_nft::structs::equippable_attributes_to_render::EquippableAttributesToRender;
use customize_nft::structs::item::Item;
use customize_nft::structs::slot::Slot;
use customize_nft::EquippableUrisModule;

const OWNER: &[u8] = b"owner";
const FIRST_USER: &[u8] = b"first user";
const EQUIPPABLE_TOKEN_ID: &[u8] = b"PENG-ae5a";

fn setup() -> Storage {
    Storage::new(OWNER.to_vec(), EQUIPPABLE_TOKEN_ID.to_vec(), b"https://ipfs.io/ipfs/".to_vec())
}

fn hat_attributes() -> EquippableAttributes {
    EquippableAttributes::new(&[(Slot::new_from_bytes(b"hat"), Item::new(b"item name".to_vec()))])
        .unwrap()
}

#[test]
fn render_image_works() {
    let mut storage = setup();
    let attributes = EquippableAttributes::empty();
    let name = b"Equippable #512";

    storage.enqueue_image_to_render(ENQUEUE_PRICE, &attributes, name).unwrap();

    assert_eq!(storage.images_to_render.len(), 1);
    assert_eq!(storage.images_to_render[0].name, name.to_vec());
}

#[test]
fn panic_if_dont_send_egld() {
    let mut storage = setup();
    let attributes = EquippableAttributes::empty();
    let name = b"Equippable #512";

    let result = storage.enqueue_image_to_render(0, &attributes, name);

    assert_eq!(result, Err(Error::WrongEnqueuePrice));
    assert_eq!(storage.images_to_render.len(), 0);
}

#[test]
fn panic_if_send_lesser_amount_of_egld() {
    let mut storage = setup();
    let attributes = EquippableAttributes::empty();
    let name = b"Equippable #512";

    let result = storage.enqueue_image_to_render(ENQUEUE_PRICE - 5, &attributes, name);

    assert_eq!(result, Err(Error::WrongEnqueuePrice));
    assert_eq!(storage.images_to_render.len(), 0);
}

#[test]
fn panic_if_send_greater_amount_of_egld() {
    let mut storage = setup();
    let attributes = EquippableAttributes::empty();
    let name = b"Equippable #512";

    let result = storage.enqueue_image_to_render(ENQUEUE_PRICE * 2, &attributes, name);

    assert_eq!(result, Err(Error::WrongEnqueuePrice));
    assert_eq!(storage.images_to_render.len(), 0);
}

#[test]
fn enqueue_image_to_render_works() {
    let mut storage = setup();
    let attributes = EquippableAttributes::empty();

    storage.enqueue_image_to_render(ENQUEUE_PRICE, &attributes, b"name").unwrap();

    assert_eq!(storage.images_to_render.len(), 1);
    assert_eq!(storage.images_to_render[0].attributes, attributes);
}

#[test]
fn enqueue_two_differents_attributes() {
    let mut storage = setup();
    let attributes_a = EquippableAttributes::empty();
    let attributes_b = EquippableAttributes::new(&[(
        Slot::new_from_bytes(b"hat"),
        Item::new(b"pirate hat".to_vec()),
    )])
    .unwrap();

    storage.enqueue_image_to_render(ENQUEUE_PRICE, &attributes_a, b"a").unwrap();
    storage.enqueue_image_to_render(ENQUEUE_PRICE, &attributes_b, b"b").unwrap();

    assert_eq!(storage.images_to_render.len(), 2);

    let mut iter = storage.get_images_to_render().into_iter();
    let first = iter.next().unwrap();
    assert_eq!(first.attributes, attributes_a);
    assert_eq!(first.name, b"a".to_vec());
    let second = iter.next().unwrap();
    assert_eq!(second.attributes, attributes_b);
    assert_eq!(second.name, b"b".to_vec());
    assert!(iter.next().is_none());
}

#[test]
fn panic_if_already_rendererer() {
    let mut storage = setup();
    assert_eq!(storage.images_to_render.len(), 0);
    let attributes = EquippableAttributes::empty();

    storage.enqueue_image_to_render(ENQUEUE_PRICE, &attributes, b"name").unwrap();
    storage
        .set_uri_of_attributes(OWNER, &attributes, b"name", b"https://ipfs.io/ipfs/cid".to_vec())
        .unwrap();

    let result = storage.enqueue_image_to_render(ENQUEUE_PRICE, &attributes, b"name");

    assert_eq!(result, Err(Error::AlreadyRendered));
    assert_eq!(storage.images_to_render.len(), 0);
}

#[test]
fn panic_if_already_in_queue() {
    let mut storage = setup();
    let attributes = EquippableAttributes::empty();

    storage.enqueue_image_to_render(ENQUEUE_PRICE, &attributes, b"name").unwrap();
    let result = storage.enqueue_image_to_render(ENQUEUE_PRICE, &attributes, b"name");

    assert_eq!(result, Err(Error::AlreadyInQueue));
    assert_eq!(storage.images_to_render.len(), 1);
    assert_eq!(storage.images_to_render[0].attributes, attributes);

    // Other attributes under the same name are refused as well.
    let result = storage.enqueue_image_to_render(ENQUEUE_PRICE, &hat_attributes(), b"name");
    assert_eq!(result, Err(Error::AlreadyInQueue));
}

#[test]
fn build_url_with_no_associated_cid() {
    let storage = setup();

    let result = storage.get_uri_of(&hat_attributes(), b"name");

    assert_eq!(result, Err(Error::NoUri));
    assert_eq!(storage.uris_of_attributes(&hat_attributes(), b"name"), Ok(Vec::new()));
    assert_eq!(
        EquippableAttributesToRender::new(hat_attributes(), b"name".to_vec()).display(),
        Ok(b"hat:item name@name".to_vec())
    );
}

#[test]
fn build_url_with_associated_cid() {
    let mut storage = setup();
    let attributes = hat_attributes();

    storage.enqueue_image_to_render(ENQUEUE_PRICE, &attributes, b"name").unwrap();
    storage
        .set_uri_of_attributes(
            OWNER,
            &attributes,
            b"name",
            b"https://ipfs.io/ipfs/this is a CID".to_vec(),
        )
        .unwrap();

    let url = storage.get_uri_of(&attributes, b"name");

    assert_eq!(url, Ok(b"https://ipfs.io/ipfs/this is a CID".to_vec()));
    // The image is known by its attributes and its name together.
    assert_eq!(storage.get_uri_of(&attributes, b"other name"), Err(Error::NoUri));
    assert_eq!(storage.get_uri_of(&EquippableAttributes::empty(), b"name"), Err(Error::NoUri));
}

#[test]
fn should_set_if_empty() {
    let mut storage = setup();
    let cid_bytes = b"https://ipfs.io/ipfs/some cid";
    let attributes = EquippableAttributes::empty();

    storage.enqueue_image_to_render(ENQUEUE_PRICE, &attributes, b"name").unwrap();
    storage.set_uri_of_attributes(OWNER, &attributes, b"name", cid_bytes.to_vec()).unwrap();

    assert_eq!(storage.uris_of_attributes(&attributes, b"name"), Ok(cid_bytes.to_vec()));
}

#[test]
fn panic_if_override_previously_set_uri() {
    let mut storage = setup();
    let first_cid_bytes = b"https://ipfs.io/ipfs/some cid";
    let second_cid_bytes = b"https://ipfs.io/ipfs/another cid";
    let attributes = EquippableAttributes::empty();

    storage.enqueue_image_to_render(ENQUEUE_PRICE, &attributes, b"name").unwrap();
    storage.set_uri_of_attributes(OWNER, &attributes, b"name", first_cid_bytes.to_vec()).unwrap();
    assert_eq!(storage.uris_of_attributes(&attributes, b"name"), Ok(first_cid_bytes.to_vec()));

    let result =
        storage.set_uri_of_attributes(OWNER, &attributes, b"name", second_cid_bytes.to_vec());

    assert_eq!(result, Err(Error::UriAlreadySet));
    assert_eq!(storage.uris_of_attributes(&attributes, b"name"), Ok(first_cid_bytes.to_vec()));
}

#[test]
fn should_fail_if_not_owner() {
    let mut storage = setup();
    let attributes = EquippableAttributes::empty();
    storage.enqueue_image_to_render(ENQUEUE_PRICE, &attributes, b"name").unwrap();

    let result = storage.set_uri_of_attributes(FIRST_USER, &attributes, b"name", b"uri".to_vec());

    assert_eq!(result, Err(Error::NotAuthorized));
    assert_eq!(storage.images_to_render.len(), 1);
    assert!(storage.uris.is_empty());
}

#[test]
fn should_remove_enqueued_image_to_render() {
    let mut storage = setup();
    let first_cid_bytes = b"https://ipfs.io/ipfs/some cid";
    let attributes = EquippableAttributes::empty();

    storage.enqueue_image_to_render(ENQUEUE_PRICE, &attributes, b"name").unwrap();
    assert_eq!(storage.images_to_render.len(), 1);
    assert_eq!(storage.images_to_render[0].attributes, attributes);

    storage.set_uri_of_attributes(OWNER, &attributes, b"name", first_cid_bytes.to_vec()).unwrap();

    assert_eq!(
        storage.images_to_render.len(),
        0,
        "The enqueud image to render should be has been removed."
    );
}

#[test]
fn set_uri_needs_the_image_in_the_queue_with_the_same_attributes() {
    let mut storage = setup();
    let attributes = hat_attributes();

    assert_eq!(
        storage.set_uri_of_attributes(OWNER, &attributes, b"name", b"uri".to_vec()),
        Err(Error::NotInQueue)
    );
    storage.enqueue_image_to_render(ENQUEUE_PRICE, &attributes, b"name").unwrap();
    assert_eq!(
        storage.set_uri_of_attributes(OWNER, &EquippableAttributes::empty(), b"name", b"uri".to_vec()),
        Err(Error::AttributesMismatch)
    );
    assert_eq!(storage.images_to_render.len(), 1);
    assert!(storage.uris.is_empty());

    // The queue keeps its order when an image in the middle leaves.
    storage.enqueue_image_to_render(ENQUEUE_PRICE, &attributes, b"second").unwrap();
    storage.enqueue_image_to_render(ENQUEUE_PRICE, &attributes, b"third").unwrap();
    storage.set_uri_of_attributes(OWNER, &attributes, b"second", b"uri".to_vec()).unwrap();
    let names: Vec<Vec<u8>> =
        storage.get_images_to_render().into_iter().map(|image| image.name).collect();
    assert_eq!(names, vec![b"name".to_vec(), b"third".to_vec()]);
}

#[test]
fn authorized_addresses_may_set_uris() {
    let mut storage = setup();
    let attributes = hat_attributes();
    storage.enqueue_image_to_render(ENQUEUE_PRICE, &attributes, b"name").unwrap();

    assert_eq!(
        storage.authorize_address_to_set_uris(FIRST_USER, FIRST_USER.to_vec()),
        Err(Error::NotOwner)
    );
    assert!(storage.authorized_addresses.is_empty());
    storage.authorize_address_to_set_uris(OWNER, FIRST_USER.to_vec()).unwrap();
    storage.authorize_address_to_set_uris(OWNER, FIRST_USER.to_vec()).unwrap();
    assert_eq!(storage.authorized_addresses, vec![FIRST_USER.to_vec()]);

    storage.set_uri_of_attributes(FIRST_USER, &attributes, b"name", b"uri".to_vec()).unwrap();
    assert_eq!(storage.get_uri_of(&attributes, b"name"), Ok(b"uri".to_vec()));
}

#[test]
fn attributes_too_long_to_write_have_no_image() {
    let mut storage = setup();
    let attributes = EquippableAttributes::new(&[(
        Slot::new_from_bytes(b"hat"),
        Item::new(vec![b'x'; 600]),
    )])
    .unwrap();

    assert_eq!(
        storage.enqueue_image_to_render(ENQUEUE_PRICE, &attributes, b"name"),
        Err(Error::BufferTooLarge)
    );
    assert_eq!(storage.get_uri_of(&attributes, b"name"), Err(Error::BufferTooLarge));
    assert_eq!(storage.uris_of_attributes(&attributes, b"name"), Err(Error::BufferTooLarge));
    assert_eq!(
        storage.set_uri_of_attributes(OWNER, &attributes, b"name", b"uri".to_vec()),
        Err(Error::BufferTooLarge)
    );
    assert_eq!(
        EquippableAttributesToRender::new(attributes, b"name".to_vec()).display(),
        Err(Error::BufferTooLarge)
    );
}
