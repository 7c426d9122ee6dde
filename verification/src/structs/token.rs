//! The identity of one token on the ledger.

use vstd::prelude::*;
use vstd::std_specs::cmp::PartialEqSpecImpl;
use crate::utils::bytes::{bytes_eq, copy};

verus! {

/// What a [`Token`] stands for: a collection identifier and a nonce within the collection.
pub ghost struct TokenView {
    pub token_id: Seq<u8>,
    pub nonce: u64,
}

/// A token of the ledger: the identifier of its collection and its nonce.
#[derive(Debug)]
pub struct Token {
    pub token_id: Vec<u8>,
    pub nonce: u64,
}

impl View for Token {
    type V = TokenView;

    open spec fn view(&self) -> TokenView {
        TokenView { token_id: self.token_id@, nonce: self.nonce }
    }
}

impl Token {
    /// The token with the given collection identifier and nonce.
    pub fn new(token_id: Vec<u8>, nonce: u64) -> (r: Self)
        ensures
            r@ == (TokenView { token_id: token_id@, nonce }),
    {
        Self { token_id, nonce }
    }
}

impl Clone for Token {
    fn clone(&self) -> (r: Self)
        ensures
            r@ == self@,
    {
        Self {
            token_id: copy(self.token_id.as_slice()),
            nonce: self.nonce,
        }
    }
}

impl PartialEq for Token {
    fn eq(&self, other: &Self) -> (r: bool) {
        self.nonce == other.nonce && bytes_eq(self.token_id.as_slice(), other.token_id.as_slice())
    }
}

impl PartialEqSpecImpl for Token {
    open spec fn obeys_eq_spec() -> bool {
        true
    }

    open spec fn eq_spec(&self, other: &Self) -> bool {
        self@ == other@
    }
}

} // verus!
