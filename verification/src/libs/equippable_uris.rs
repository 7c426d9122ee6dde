//! The images of the equippable tokens: which ones wait to be rendered, and where the
//! rendered ones are found.

use vstd::prelude::*;
use crate::codec::{encode_spec, same_attributes, Attributes};
use crate::constants::{ENQUEUE_PRICE, MAX_ENCODED_LEN};
use crate::error::Error;
use crate::libs::storage::{
    addresses_view, images_view, uris_view, valid_storage, Storage, StorageModule, StorageView,
    UriEntry, UriView,
};
use crate::structs::equippable_attributes::EquippableAttributes;
use crate::structs::equippable_attributes_to_render::{
    render_key, EquippableAttributesToRender, RenderView,
};
use crate::utils::bytes::{bytes_eq, copy};
use crate::utils::search::{
    first_true, lemma_first_true, lemma_first_true_is, lemma_first_true_none,
};

verus! {

/// For each image address, whether it is stored under `key`.
pub open spec fn key_flags(uris: Seq<UriView>, key: Seq<u8>) -> Seq<bool> {
    Seq::new(uris.len(), |i: int| uris[i].key == key)
}

/// The address stored under `key`; the empty address where none is stored.
pub open spec fn uri_of(uris: Seq<UriView>, key: Seq<u8>) -> Seq<u8> {
    match first_true(key_flags(uris, key)) {
        Some(i) => uris[i].uri,
        None => Seq::empty(),
    }
}

/// The addresses with `uri` stored under `key`.
pub open spec fn with_uri(uris: Seq<UriView>, key: Seq<u8>, uri: Seq<u8>) -> Seq<UriView> {
    match first_true(key_flags(uris, key)) {
        Some(i) => uris.update(i, UriView { key, uri }),
        None => uris.push(UriView { key, uri }),
    }
}

/// For each queued image, whether it is queued under `name`.
pub open spec fn queue_flags(images: Seq<RenderView>, name: Seq<u8>) -> Seq<bool> {
    Seq::new(images.len(), |i: int| images[i].name == name)
}

/// Where the image queued under `name` stands in the queue, if one is queued.
pub open spec fn queued(images: Seq<RenderView>, name: Seq<u8>) -> Option<int> {
    first_true(queue_flags(images, name))
}

/// Whether `caller` may set image addresses: the owner may, and the authorized addresses.
pub open spec fn may_set_uris(state: StorageView, caller: Seq<u8>) -> bool {
    caller == state.owner || state.authorized_addresses.contains(caller)
}

/// What is wrong with asking for the image of `attributes` under `name`, if anything: the
/// price is looked at first, then whether the attributes can be written, whether the image
/// has an address already, and whether one is queued under the name.
pub open spec fn enqueue_fault(
    state: StorageView,
    payment: u64,
    attributes: Attributes,
    name: Seq<u8>,
) -> Option<Error> {
    if payment != ENQUEUE_PRICE {
        Some(Error::WrongEnqueuePrice)
    } else if encode_spec(attributes).len() > MAX_ENCODED_LEN {
        Some(Error::BufferTooLarge)
    } else if uri_of(state.uris, render_key(attributes, name)).len() > 0 {
        Some(Error::AlreadyRendered)
    } else if queued(state.images_to_render, name).is_some() {
        Some(Error::AlreadyInQueue)
    } else {
        None
    }
}

/// What is wrong with setting the address of the image of `attributes` under `name`, if
/// anything: the caller is looked at first, then whether the attributes can be written,
/// whether the image has an address already, whether an image is queued under the name, and
/// whether that image is for the same attributes.
pub open spec fn set_uri_fault(
    state: StorageView,
    caller: Seq<u8>,
    attributes: Attributes,
    name: Seq<u8>,
) -> Option<Error> {
    if !may_set_uris(state, caller) {
        Some(Error::NotAuthorized)
    } else if encode_spec(attributes).len() > MAX_ENCODED_LEN {
        Some(Error::BufferTooLarge)
    } else if uri_of(state.uris, render_key(attributes, name)).len() > 0 {
        Some(Error::UriAlreadySet)
    } else {
        match queued(state.images_to_render, name) {
            None => Some(Error::NotInQueue),
            Some(i) => if same_attributes(state.images_to_render[i].attributes, attributes) {
                None
            } else {
                Some(Error::AttributesMismatch)
            },
        }
    }
}

/// The address of the image of `attributes` under `name`.
pub open spec fn get_uri_spec(state: StorageView, attributes: Attributes, name: Seq<u8>) -> Result<
    Seq<u8>,
    Error,
> {
    if encode_spec(attributes).len() > MAX_ENCODED_LEN {
        Err(Error::BufferTooLarge)
    } else if uri_of(state.uris, render_key(attributes, name)).len() == 0 {
        Err(Error::NoUri)
    } else {
        Ok(uri_of(state.uris, render_key(attributes, name)))
    }
}

/// Queueing an image under a name that is not queued keeps what is stored valid.
pub proof fn lemma_enqueued_valid(s: StorageView, image: RenderView)
    requires
        valid_storage(s),
        queued(s.images_to_render, image.name).is_none(),
    ensures
        valid_storage(StorageView { images_to_render: s.images_to_render.push(image), ..s }),
{
    let flags = queue_flags(s.images_to_render, image.name);
    lemma_first_true(flags);
    let after = s.images_to_render.push(image);
    assert forall|i: int, j: int| 0 <= i < j < after.len() implies (#[trigger] after[i]).name != (
    #[trigger] after[j]).name by {
        if j < s.images_to_render.len() {
            assert(s.images_to_render[i].name != s.images_to_render[j].name);
        } else {
            assert(!flags[i]);
        }
    }
}

/// Storing the address of the image queued under `name`, and taking that image out of the
/// queue, keeps what is stored valid; and no image is then queued under `name`.
pub proof fn lemma_uri_set_valid(s: StorageView, key: Seq<u8>, uri: Seq<u8>, name: Seq<u8>)
    requires
        valid_storage(s),
        queued(s.images_to_render, name).is_some(),
    ensures
        valid_storage(
            StorageView {
                uris: with_uri(s.uris, key, uri),
                images_to_render: s.images_to_render.remove(
                    queued(s.images_to_render, name).unwrap(),
                ),
                ..s
            },
        ),
        queued(
            s.images_to_render.remove(queued(s.images_to_render, name).unwrap()),
            name,
        ).is_none(),
{
    let key_at = key_flags(s.uris, key);
    lemma_first_true(key_at);
    let uris = with_uri(s.uris, key, uri);
    assert forall|i: int, j: int| 0 <= i < j < uris.len() implies (#[trigger] uris[i]).key != (
    #[trigger] uris[j]).key by {
        if j < s.uris.len() {
            assert(s.uris[i].key != s.uris[j].key);
        } else {
            assert(!key_at[i]);
        }
    }
    let flags = queue_flags(s.images_to_render, name);
    lemma_first_true(flags);
    let place = queued(s.images_to_render, name).unwrap();
    let images = s.images_to_render.remove(place);
    assert forall|i: int, j: int| 0 <= i < j < images.len() implies (#[trigger] images[i]).name != (
    #[trigger] images[j]).name by {
        let a = if i < place {
            i
        } else {
            i + 1
        };
        let b = if j < place {
            j
        } else {
            j + 1
        };
        assert(s.images_to_render[a].name != s.images_to_render[b].name);
    }
    let left = queue_flags(images, name);
    assert forall|i: int| 0 <= i < left.len() implies !left[i] by {
        if i < place {
            assert(!flags[i]);
        } else {
            assert(s.images_to_render[place].name != s.images_to_render[i + 1].name);
        }
    }
    lemma_first_true_none(left);
}

/// The render queue and the addresses of the rendered images.
pub trait EquippableUrisModule: StorageModule {
    /// Lets `address` set image addresses. Only the owner may do so. An address that is
    /// authorized already stays so.
    fn authorize_address_to_set_uris(&mut self, caller: &[u8], address: Vec<u8>) -> (r: Result<
        (),
        Error,
    >)
        ensures
            valid_storage(old(self).state()) ==> valid_storage(final(self).state()),
            caller@ != old(self).state().owner ==> r == Err::<(), Error>(Error::NotOwner)
                && final(self).state() == old(self).state(),
            caller@ == old(self).state().owner ==> r.is_ok() && final(self).state() == (StorageView {
                authorized_addresses: if old(self).state().authorized_addresses.contains(address@) {
                    old(self).state().authorized_addresses
                } else {
                    old(self).state().authorized_addresses.push(address@)
                },
                ..old(self).state()
            }),
    ;

    /// Asks for the image of `attributes` under `name` to be rendered, against `payment`.
    /// The image joins the end of the queue. Where the call is refused nothing changes.
    fn enqueue_image_to_render(
        &mut self,
        payment: u64,
        attributes: &EquippableAttributes,
        name: &[u8],
    ) -> (r: Result<(), Error>)
        ensures
            valid_storage(old(self).state()) ==> valid_storage(final(self).state()),
            match enqueue_fault(old(self).state(), payment, attributes@, name@) {
                Some(e) => r == Err::<(), Error>(e) && final(self).state() == old(self).state(),
                None => r.is_ok() && final(self).state() == (StorageView {
                    images_to_render: old(self).state().images_to_render.push(
                        RenderView { attributes: attributes@, name: name@ },
                    ),
                    ..old(self).state()
                }),
            },
    ;

    /// The images that wait to be rendered, oldest first.
    fn get_images_to_render(&self) -> (r: Vec<EquippableAttributesToRender>)
        ensures
            images_view(r@) == self.state().images_to_render,
    ;

    /// Stores `uri` as the address of the image of `attributes` under `name`, and takes the
    /// image out of the queue. Where the call is refused nothing changes.
    fn set_uri_of_attributes(
        &mut self,
        caller: &[u8],
        attributes: &EquippableAttributes,
        name: &[u8],
        uri: Vec<u8>,
    ) -> (r: Result<(), Error>)
        ensures
            valid_storage(old(self).state()) ==> valid_storage(final(self).state()),
            valid_storage(old(self).state()) && r.is_ok() ==> queued(
                final(self).state().images_to_render,
                name@,
            ).is_none(),
            match set_uri_fault(old(self).state(), caller@, attributes@, name@) {
                Some(e) => r == Err::<(), Error>(e) && final(self).state() == old(self).state(),
                None => r.is_ok() && final(self).state() == (StorageView {
                    uris: with_uri(old(self).state().uris, render_key(attributes@, name@), uri@),
                    images_to_render: old(self).state().images_to_render.remove(
                        queued(old(self).state().images_to_render, name@).unwrap(),
                    ),
                    ..old(self).state()
                }),
            },
    ;

    /// The address stored for the image of `attributes` under `name`; the empty address
    /// where none is stored.
    fn uris_of_attributes(&self, attributes: &EquippableAttributes, name: &[u8]) -> (r: Result<
        Vec<u8>,
        Error,
    >)
        ensures
            encode_spec(attributes@).len() > MAX_ENCODED_LEN ==> r == Err::<Vec<u8>, Error>(
                Error::BufferTooLarge,
            ),
            encode_spec(attributes@).len() <= MAX_ENCODED_LEN ==> r.is_ok() && r.unwrap()@
                == uri_of(self.state().uris, render_key(attributes@, name@)),
    ;

    /// The address of the image of `attributes` under `name`, which must have one.
    fn get_uri_of(&self, attributes: &EquippableAttributes, name: &[u8]) -> (r: Result<
        Vec<u8>,
        Error,
    >)
        ensures
            match get_uri_spec(self.state(), attributes@, name@) {
                Ok(uri) => r.is_ok() && r.unwrap()@ == uri,
                Err(e) => r.is_err() && r.unwrap_err() == e,
            },
    ;
}

impl Storage {
    /// The text under which the image of `attributes` under `name` is known.
    fn image_key(attributes: &EquippableAttributes, name: &[u8]) -> (r: Result<Vec<u8>, Error>)
        ensures
            encode_spec(attributes@).len() > MAX_ENCODED_LEN ==> r == Err::<Vec<u8>, Error>(
                Error::BufferTooLarge,
            ),
            encode_spec(attributes@).len() <= MAX_ENCODED_LEN ==> r.is_ok() && r.unwrap()@
                == render_key(attributes@, name@),
    {
        let image = EquippableAttributesToRender::new(attributes.clone(), copy(name));
        image.display()
    }

    /// Where the address stored under `key` stands.
    fn uri_index(&self, key: &[u8]) -> (r: Option<usize>)
        ensures
            match r {
                Some(i) => i < self.uris@.len() && first_true(key_flags(self@.uris, key@)) == Some(
                    i as int,
                ),
                None => first_true(key_flags(self@.uris, key@)).is_none(),
            },
    {
        let ghost flags = key_flags(self@.uris, key@);
        let mut i: usize = 0;
        while i < self.uris.len()
            invariant
                i <= self.uris@.len(),
                flags == key_flags(self@.uris, key@),
                forall|j: int| 0 <= j < i ==> !flags[j],
            decreases self.uris@.len() - i,
        {
            if bytes_eq(self.uris[i].key.as_slice(), key) {
                proof {
                    lemma_first_true_is(flags, i as int);
                }
                return Some(i);
            }
            i += 1;
        }
        proof {
            lemma_first_true_none(flags);
        }
        None
    }

    /// Where the image queued under `name` stands.
    fn queue_index(&self, name: &[u8]) -> (r: Option<usize>)
        ensures
            match r {
                Some(i) => i < self.images_to_render@.len() && queued(
                    self@.images_to_render,
                    name@,
                ) == Some(i as int),
                None => queued(self@.images_to_render, name@).is_none(),
            },
    {
        let ghost flags = queue_flags(self@.images_to_render, name@);
        let mut i: usize = 0;
        while i < self.images_to_render.len()
            invariant
                i <= self.images_to_render@.len(),
                flags == queue_flags(self@.images_to_render, name@),
                forall|j: int| 0 <= j < i ==> !flags[j],
            decreases self.images_to_render@.len() - i,
        {
            if bytes_eq(self.images_to_render[i].name.as_slice(), name) {
                proof {
                    lemma_first_true_is(flags, i as int);
                }
                return Some(i);
            }
            i += 1;
        }
        proof {
            lemma_first_true_none(flags);
        }
        None
    }

    /// Tells whether `address` is among the authorized addresses.
    fn is_authorized(&self, address: &[u8]) -> (r: bool)
        ensures
            r == self@.authorized_addresses.contains(address@),
    {
        let mut i: usize = 0;
        while i < self.authorized_addresses.len()
            invariant
                i <= self.authorized_addresses@.len(),
                forall|j: int| 0 <= j < i ==> self@.authorized_addresses[j] != address@,
            decreases self.authorized_addresses@.len() - i,
        {
            if bytes_eq(self.authorized_addresses[i].as_slice(), address) {
                assert(self@.authorized_addresses[i as int] == address@);
                return true;
            }
            i += 1;
        }
        false
    }
}

impl EquippableUrisModule for Storage {
    fn authorize_address_to_set_uris(&mut self, caller: &[u8], address: Vec<u8>) -> (r: Result<
        (),
        Error,
    >) {
        if !bytes_eq(caller, self.owner.as_slice()) {
            return Err(Error::NotOwner);
        }
        if !self.is_authorized(address.as_slice()) {
            let ghost before = self.authorized_addresses@;
            self.authorized_addresses.push(address);
            assert(valid_storage(old(self)@) ==> addresses_view(before).push(
                address@,
            ).no_duplicates());
            assert(addresses_view(self.authorized_addresses@) =~= addresses_view(before).push(
                address@,
            ));
        }
        Ok(())
    }

    fn enqueue_image_to_render(
        &mut self,
        payment: u64,
        attributes: &EquippableAttributes,
        name: &[u8],
    ) -> (r: Result<(), Error>) {
        proof {
            if valid_storage(self@) && enqueue_fault(self@, payment, attributes@, name@).is_none() {
                lemma_enqueued_valid(self@, RenderView { attributes: attributes@, name: name@ });
            }
        }
        if payment != ENQUEUE_PRICE {
            return Err(Error::WrongEnqueuePrice);
        }
        let key = match Self::image_key(attributes, name) {
            Err(e) => {
                return Err(e);
            },
            Ok(key) => key,
        };
        match self.uri_index(key.as_slice()) {
            Some(i) => {
                if self.uris[i].uri.len() > 0 {
                    return Err(Error::AlreadyRendered);
                }
            },
            None => {},
        }
        if self.queue_index(name).is_some() {
            return Err(Error::AlreadyInQueue);
        }
        let ghost before = self.images_to_render@;
        let image = EquippableAttributesToRender::new(attributes.clone(), copy(name));
        self.images_to_render.push(image);
        assert(images_view(self.images_to_render@) =~= images_view(before).push(
            RenderView { attributes: attributes@, name: name@ },
        ));
        Ok(())
    }

    fn get_images_to_render(&self) -> (r: Vec<EquippableAttributesToRender>) {
        let mut out: Vec<EquippableAttributesToRender> = Vec::new();
        let mut i: usize = 0;
        while i < self.images_to_render.len()
            invariant
                i <= self.images_to_render@.len(),
                out@.len() == i,
                forall|j: int| 0 <= j < i ==> (#[trigger] out@[j])@ == self.images_to_render@[j]@,
            decreases self.images_to_render@.len() - i,
        {
            out.push(self.images_to_render[i].clone());
            i += 1;
        }
        out
    }

    fn set_uri_of_attributes(
        &mut self,
        caller: &[u8],
        attributes: &EquippableAttributes,
        name: &[u8],
        uri: Vec<u8>,
    ) -> (r: Result<(), Error>) {
        proof {
            if valid_storage(self@) && set_uri_fault(self@, caller@, attributes@, name@).is_none() {
                lemma_uri_set_valid(self@, render_key(attributes@, name@), uri@, name@);
            }
        }
        if !bytes_eq(caller, self.owner.as_slice()) && !self.is_authorized(caller) {
            return Err(Error::NotAuthorized);
        }
        let key = match Self::image_key(attributes, name) {
            Err(e) => {
                return Err(e);
            },
            Ok(key) => key,
        };
        let at = self.uri_index(key.as_slice());
        match at {
            Some(i) => {
                if self.uris[i].uri.len() > 0 {
                    return Err(Error::UriAlreadySet);
                }
            },
            None => {},
        }
        let place = match self.queue_index(name) {
            None => {
                return Err(Error::NotInQueue);
            },
            Some(place) => place,
        };
        if self.images_to_render[place].attributes != *attributes {
            return Err(Error::AttributesMismatch);
        }
        let ghost uris_before = self.uris@;
        let ghost images_before = self.images_to_render@;
        let entry = UriEntry { key, uri };
        match at {
            Some(i) => {
                self.uris.set(i, entry);
                assert(uris_view(self.uris@) =~= uris_view(uris_before).update(i as int, entry@));
            },
            None => {
                self.uris.push(entry);
                assert(uris_view(self.uris@) =~= uris_view(uris_before).push(entry@));
            },
        }
        let _ = self.images_to_render.remove(place);
        assert(images_view(self.images_to_render@) =~= images_view(images_before).remove(
            place as int,
        ));
        Ok(())
    }

    fn uris_of_attributes(&self, attributes: &EquippableAttributes, name: &[u8]) -> (r: Result<
        Vec<u8>,
        Error,
    >) {
        let key = match Self::image_key(attributes, name) {
            Err(e) => {
                return Err(e);
            },
            Ok(key) => key,
        };
        match self.uri_index(key.as_slice()) {
            Some(i) => Ok(copy(self.uris[i].uri.as_slice())),
            None => Ok(Vec::new()),
        }
    }

    fn get_uri_of(&self, attributes: &EquippableAttributes, name: &[u8]) -> (r: Result<
        Vec<u8>,
        Error,
    >) {
        let uri = match self.uris_of_attributes(attributes, name) {
            Err(e) => {
                return Err(e);
            },
            Ok(uri) => uri,
        };
        if uri.len() == 0 {
            return Err(Error::NoUri);
        }
        Ok(uri)
    }
}

} // verus!
