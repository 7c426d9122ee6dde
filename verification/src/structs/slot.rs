//! The name of an equipment position.

use std::cmp::Ordering;
use vstd::prelude::*;
use vstd::std_specs::cmp::PartialEqSpecImpl;
use crate::constants::MAX_ENCODED_LEN;
use crate::error::Error;
use crate::utils::bytes::{bytes_eq, copy};
use crate::utils::case::{capitalize, capitalize_seq, is_normalized, lemma_lower_seq_normalized, lower_seq, to_lowercase};
use crate::utils::order::{
    lemma_lex_asymmetric, lemma_lex_connected, lemma_lex_irreflexive, less_than, lex_lt,
};

verus! {

/// An equipment position, such as `hat`. Two slots are the same when their names agree
/// without regard to ASCII case: the name is kept in lower case.
#[derive(Debug)]
pub struct Slot {
    slot: Vec<u8>,
}

impl View for Slot {
    type V = Seq<u8>;

    /// The lower-case name.
    closed spec fn view(&self) -> Seq<u8> {
        self.slot@
    }
}

/// The slots as mathematical values.
pub open spec fn slots_view(s: Seq<Slot>) -> Seq<Seq<u8>> {
    Seq::new(s.len(), |i: int| s[i]@)
}

impl Slot {
    /// What holds of every slot: its name has no upper-case letter.
    #[verifier::type_invariant]
    pub open spec fn normalized(self) -> bool {
        is_normalized(self@)
    }

    /// The slot that `slot` names. No byte sequence is refused here.
    pub fn new_from_buffer(slot: Vec<u8>) -> (r: Self)
        ensures
            r@ == lower_seq(slot@),
            is_normalized(r@),
    {
        let lowered = to_lowercase(slot.as_slice());
        proof {
            lemma_lower_seq_normalized(slot@);
        }
        Self { slot: lowered }
    }

    /// The slot that `bytes` names. No byte sequence is refused here.
    pub fn new_from_bytes(bytes: &[u8]) -> (r: Self)
        ensures
            r@ == lower_seq(bytes@),
            is_normalized(r@),
    {
        let lowered = to_lowercase(bytes);
        proof {
            lemma_lower_seq_normalized(bytes@);
        }
        Self { slot: lowered }
    }

    /// The name with its first letter in upper case, for display.
    pub fn capitalized(&self) -> (r: Vec<u8>)
        ensures
            r@ == capitalize_seq(self@),
    {
        capitalize(self.slot.as_slice())
    }

    /// Orders two slots by their names, byte by byte.
    pub fn compare(&self, other: &Self) -> (r: Ordering)
        ensures
            r == Ordering::Less <==> lex_lt(self@, other@),
            r == Ordering::Equal <==> self@ == other@,
            r == Ordering::Greater <==> lex_lt(other@, self@),
    {
        if less_than(self.slot.as_slice(), other.slot.as_slice()) {
            proof {
                lemma_lex_asymmetric(self@, other@);
                lemma_lex_irreflexive(self@);
            }
            Ordering::Less
        } else if less_than(other.slot.as_slice(), self.slot.as_slice()) {
            proof {
                lemma_lex_irreflexive(self@);
            }
            Ordering::Greater
        } else {
            proof {
                if self@ != other@ {
                    lemma_lex_connected(self@, other@);
                }
            }
            Ordering::Equal
        }
    }

    /// Reads a slot from its stored bytes. Every input is a slot.
    pub fn top_decode(input: &[u8]) -> (r: Result<Self, Error>)
        ensures
            r.is_ok(),
            r.unwrap()@ == lower_seq(input@),
    {
        Ok(Self::new_from_bytes(input))
    }

    /// The bytes under which the slot is stored: its lower-case name, which must fit the
    /// wire format's buffer.
    pub fn top_encode(&self) -> (r: Result<Vec<u8>, Error>)
        ensures
            self@.len() <= MAX_ENCODED_LEN ==> r.is_ok() && r.unwrap()@ == self@,
            self@.len() > MAX_ENCODED_LEN ==> r == Err::<Vec<u8>, Error>(Error::BufferTooLarge),
    {
        if self.slot.len() > MAX_ENCODED_LEN {
            Err(Error::BufferTooLarge)
        } else {
            Ok(copy(self.slot.as_slice()))
        }
    }

    /// The lower-case name, borrowed.
    pub fn as_slice(&self) -> (r: &[u8])
        ensures
            r@ == self@,
            is_normalized(r@),
    {
        proof {
            use_type_invariant(self);
        }
        self.slot.as_slice()
    }

    /// The lower-case name.
    pub fn to_bytes(&self) -> (r: Vec<u8>)
        ensures
            r@ == self@,
            is_normalized(r@),
    {
        proof {
            use_type_invariant(self);
        }
        copy(self.slot.as_slice())
    }
}

impl Clone for Slot {
    fn clone(&self) -> (r: Self)
        ensures
            r@ == self@,
    {
        proof {
            use_type_invariant(self);
        }
        Self { slot: copy(self.slot.as_slice()) }
    }
}

impl PartialEq for Slot {
    fn eq(&self, other: &Self) -> (r: bool) {
        bytes_eq(self.slot.as_slice(), other.slot.as_slice())
    }
}

impl PartialEqSpecImpl for Slot {
    open spec fn obeys_eq_spec() -> bool {
        true
    }

    open spec fn eq_spec(&self, other: &Self) -> bool {
        self@ == other@
    }
}

} // verus!
