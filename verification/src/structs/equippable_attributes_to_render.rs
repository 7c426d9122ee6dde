//! Attributes together with the name of the token that shows them: what an image is
//! rendered for.

use vstd::prelude::*;
use crate::codec::{encode_spec, Attributes};
use crate::constants::{AT_SIGN, MAX_ENCODED_LEN};
use crate::error::Error;
use crate::structs::equippable_attributes::EquippableAttributes;
use crate::utils::bytes::{append, copy};

verus! {

/// What an [`EquippableAttributesToRender`] stands for.
pub ghost struct RenderView {
    pub attributes: Attributes,
    pub name: Seq<u8>,
}

/// The attributes of a token and the token's name.
#[derive(Debug)]
pub struct EquippableAttributesToRender {
    pub attributes: EquippableAttributes,
    pub name: Vec<u8>,
}

impl View for EquippableAttributesToRender {
    type V = RenderView;

    open spec fn view(&self) -> RenderView {
        RenderView { attributes: self.attributes@, name: self.name@ }
    }
}

/// The text under which an image is known: the canonical text of the attributes, `@`, the
/// name.
pub open spec fn render_key(attributes: Attributes, name: Seq<u8>) -> Seq<u8> {
    encode_spec(attributes) + seq![AT_SIGN] + name
}

impl EquippableAttributesToRender {
    /// The attributes `attributes` for the token named `name`.
    pub fn new(attributes: EquippableAttributes, name: Vec<u8>) -> (r: Self)
        ensures
            r@ == (RenderView { attributes: attributes@, name: name@ }),
    {
        Self { attributes, name }
    }

    /// The text under which the image is known and displayed. Attributes whose canonical
    /// text is too long have none.
    pub fn display(&self) -> (r: Result<Vec<u8>, Error>)
        ensures
            encode_spec(self@.attributes).len() <= MAX_ENCODED_LEN ==> r.is_ok() && r.unwrap()@
                == render_key(self@.attributes, self@.name),
            encode_spec(self@.attributes).len() > MAX_ENCODED_LEN ==> r == Err::<Vec<u8>, Error>(
                Error::BufferTooLarge,
            ),
    {
        match self.attributes.top_encode() {
            Err(e) => Err(e),
            Ok(text) => {
                let mut out = text;
                out.push(AT_SIGN);
                append(&mut out, self.name.as_slice());
                Ok(out)
            },
        }
    }
}

impl Clone for EquippableAttributesToRender {
    fn clone(&self) -> (r: Self)
        ensures
            r@ == self@,
    {
        Self { attributes: self.attributes.clone(), name: copy(self.name.as_slice()) }
    }
}

} // verus!
