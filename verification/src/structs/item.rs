//! What a slot holds: a named item, with or without the token that it is.

use vstd::prelude::*;
use vstd::std_specs::cmp::PartialEqSpecImpl;
use crate::constants::{
    unequipped, CLOSE_PAREN, DASH, ENTRY_SEPARATOR, OPEN_PAREN, SLOT_SEPARATOR, SPACE,
    UNEQUIPPED_ITEM_NAME,
};
use crate::error::Error;
use crate::structs::token::{Token, TokenView};
use crate::utils::bytes::{
    append, bytes_eq, contains_byte, copy, last_index, lemma_contains_concat,
    lemma_last_index, lemma_last_index_is,
};
use crate::utils::hex::{
    hex_to_u64, lemma_to_hex, parse_hex, to_hex, u64_to_hex,
};
use crate::utils::split::{remove_first_and_last_char, split_last_occurence};

verus! {

/// What an [`Item`] stands for.
pub ghost struct ItemView {
    pub name: Seq<u8>,
    pub token: Option<TokenView>,
}

/// An item: the name under which it is displayed and, where it is known, the token that it is.
#[derive(Debug)]
pub struct Item {
    pub name: Vec<u8>,
    pub token: Option<Token>,
}

/// What an optional token stands for.
pub open spec fn token_view(token: Option<Token>) -> Option<TokenView> {
    match token {
        Some(t) => Some(t@),
        None => None,
    }
}

impl View for Item {
    type V = ItemView;

    open spec fn view(&self) -> ItemView {
        ItemView { name: self.name@, token: token_view(self.token) }
    }
}

/// A name that the wire format can carry: it holds neither `:` nor `;` and is not the word
/// that marks an empty slot.
pub open spec fn valid_name(name: Seq<u8>) -> bool {
    &&& !name.contains(SLOT_SEPARATOR)
    &&& !name.contains(ENTRY_SEPARATOR)
    &&& name != unequipped()
}

/// A token identifier that the wire format can carry: it holds none of `:`, `;` and space.
pub open spec fn valid_token_id(token_id: Seq<u8>) -> bool {
    &&& !token_id.contains(SLOT_SEPARATOR)
    &&& !token_id.contains(ENTRY_SEPARATOR)
    &&& !token_id.contains(SPACE)
}

/// `s` ends in `)`.
pub open spec fn ends_with_paren(s: Seq<u8>) -> bool {
    s.len() > 0 && s.last() == CLOSE_PAREN
}

/// An item that the wire format can carry and give back: its name is valid, its token
/// identifier is valid, and a name that stands alone does not end in `)`, which would read
/// as the end of an identity.
pub open spec fn valid_item(item: ItemView) -> bool {
    &&& valid_name(item.name)
    &&& match item.token {
        Some(t) => valid_token_id(t.token_id),
        None => !ends_with_paren(item.name),
    }
}

/// What is wrong with `name` as the name of an item, if anything: a reserved byte, or the
/// reserved word.
pub open spec fn name_fault(name: Seq<u8>) -> Option<Error> {
    if name.contains(SLOT_SEPARATOR) || name.contains(ENTRY_SEPARATOR) {
        Some(Error::InvalidCharacter)
    } else if name == unequipped() {
        Some(Error::ReservedName)
    } else {
        None
    }
}

/// What is wrong with `item`, if anything: the fault of its name or, with a sound name, a
/// byte that makes the item unreadable once written.
pub open spec fn item_fault(item: ItemView) -> Option<Error> {
    match name_fault(item.name) {
        Some(e) => Some(e),
        None => if valid_item(item) {
            None
        } else {
            Some(Error::InvalidCharacter)
        },
    }
}

/// `Ok` where there is no fault, the fault as an error where there is one.
pub open spec fn refusal(fault: Option<Error>) -> Result<(), Error> {
    match fault {
        Some(e) => Err(e),
        None => Ok(()),
    }
}

/// The text of a token behind an item's name: ` (`, the identifier, `-`, the nonce in
/// hexadecimal, `)`.
pub open spec fn render_identity(token: TokenView) -> Seq<u8> {
    seq![SPACE, OPEN_PAREN] + token.token_id + seq![DASH] + to_hex(token.nonce as nat)
        + seq![CLOSE_PAREN]
}

/// The text of an item: its name, followed by its identity where it has one.
pub open spec fn render_item(item: ItemView) -> Seq<u8> {
    match item.token {
        None => item.name,
        Some(t) => item.name + render_identity(t),
    }
}

/// The token written as `IDENTIFIER-NONCE`, cut at the last `-`.
pub open spec fn parse_identity(inner: Seq<u8>) -> Option<TokenView> {
    match last_index(inner, DASH) {
        None => None,
        Some(d) => match parse_hex(inner.skip(d + 1)) {
            None => None,
            Some(nonce) => Some(TokenView { token_id: inner.take(d), nonce }),
        },
    }
}

/// The item that `text` writes, before its validity is looked at. A text that ends in `)`
/// must hold an identity behind its last space; any other text is a name.
pub open spec fn parse_item_shape(text: Seq<u8>) -> Option<ItemView> {
    if ends_with_paren(text) {
        match last_index(text, SPACE) {
            None => None,
            Some(p) => {
                if 0 <= p && p + 2 < text.len() && text[p + 1] == OPEN_PAREN {
                    match parse_identity(text.subrange(p + 2, text.len() - 1)) {
                        Some(t) => Some(ItemView { name: text.take(p), token: Some(t) }),
                        None => None,
                    }
                } else {
                    None
                }
            },
        }
    } else {
        Some(ItemView { name: text, token: None })
    }
}

/// The item that `text` writes; `None` where `text` does not write a valid item.
pub open spec fn parse_item(text: Seq<u8>) -> Option<ItemView> {
    match parse_item_shape(text) {
        Some(item) => if valid_item(item) {
            Some(item)
        } else {
            None
        },
        None => None,
    }
}

/// The text of a valid item holds no `;` and is not the word that marks an empty slot.
pub proof fn lemma_render_item_free(item: ItemView)
    requires
        valid_item(item),
    ensures
        !render_item(item).contains(ENTRY_SEPARATOR),
        render_item(item) != unequipped(),
{
    match item.token {
        None => {},
        Some(t) => {
            let hex = to_hex(t.nonce as nat);
            lemma_to_hex(t.nonce as nat);
            let a = item.name + seq![SPACE, OPEN_PAREN];
            let b = a + t.token_id;
            let c = b + seq![DASH];
            let d = c + hex;
            lemma_contains_concat(item.name, seq![SPACE, OPEN_PAREN], ENTRY_SEPARATOR);
            lemma_contains_concat(a, t.token_id, ENTRY_SEPARATOR);
            lemma_contains_concat(b, seq![DASH], ENTRY_SEPARATOR);
            lemma_contains_concat(c, hex, ENTRY_SEPARATOR);
            lemma_contains_concat(d, seq![CLOSE_PAREN], ENTRY_SEPARATOR);
        },
    }
}

/// Reading the text of a valid item gives the item back.
pub proof fn lemma_parse_render_item(item: ItemView)
    requires
        valid_item(item),
    ensures
        parse_item(render_item(item)) == Some(item),
{
    match item.token {
        None => {},
        Some(t) => {
            let text = render_item(item);
            let hex = to_hex(t.nonce as nat);
            lemma_to_hex(t.nonce as nat);
            let p = item.name.len() as int;
            let inner = t.token_id + seq![DASH] + hex;
            // The last space is the one behind the name.
            lemma_contains_concat(t.token_id, seq![DASH], SPACE);
            lemma_contains_concat(t.token_id + seq![DASH], hex, SPACE);
            lemma_contains_concat(seq![OPEN_PAREN], inner, SPACE);
            lemma_contains_concat(seq![OPEN_PAREN] + inner, seq![CLOSE_PAREN], SPACE);
            lemma_last_index_is(text, SPACE, p);
            assert(text.subrange(p + 2, text.len() - 1) =~= inner);
            assert(text.take(p) =~= item.name);
            // The last dash is the one behind the identifier.
            let d = t.token_id.len() as int;
            assert(inner.skip(d + 1) =~= hex);
            lemma_last_index_is(inner, DASH, d);
            assert(inner.take(d) =~= t.token_id);
        },
    }
}

impl Item {
    /// An item that is known by its name alone.
    pub fn new(name: Vec<u8>) -> (r: Self)
        ensures
            r@ == (ItemView { name: name@, token: None }),
    {
        Self { name, token: None }
    }

    /// An item with the token that it is.
    pub fn with_token(name: Vec<u8>, token: Token) -> (r: Self)
        ensures
            r@ == (ItemView { name: name@, token: Some(token@) }),
    {
        Self { name, token: Some(token) }
    }

    /// Tells whether the wire format can carry the item. A name that is the word for an
    /// empty slot is reserved; any other fault is a byte where the format cannot have it.
    pub fn validate(&self) -> (r: Result<(), Error>)
        ensures
            r == refusal(item_fault(self@)),
            r.is_ok() <==> valid_item(self@),
    {
        match validate_name(self.name.as_slice()) {
            Err(e) => {
                return Err(e);
            },
            Ok(()) => {},
        }
        match &self.token {
            Some(t) => {
                if contains_byte(t.token_id.as_slice(), SLOT_SEPARATOR) || contains_byte(
                    t.token_id.as_slice(),
                    ENTRY_SEPARATOR,
                ) || contains_byte(t.token_id.as_slice(), SPACE) {
                    return Err(Error::InvalidCharacter);
                }
            },
            None => {
                let n = self.name.len();
                if n > 0 && self.name[n - 1] == CLOSE_PAREN {
                    return Err(Error::InvalidCharacter);
                }
            },
        }
        Ok(())
    }

    /// Writes the item: its name, followed by ` (IDENTIFIER-NONCE)` where its token is known.
    pub fn top_encode(&self) -> (r: Vec<u8>)
        ensures
            r@ == render_item(self@),
    {
        let mut out: Vec<u8> = copy(self.name.as_slice());
        match &self.token {
            None => {},
            Some(t) => {
                out.push(SPACE);
                out.push(OPEN_PAREN);
                append(&mut out, t.token_id.as_slice());
                out.push(DASH);
                let hex = u64_to_hex(t.nonce);
                append(&mut out, hex.as_slice());
                out.push(CLOSE_PAREN);
            },
        }
        out
    }

    /// Reads an item. A text that ends in `)` is a name, a space and an identity in
    /// parentheses, cut at the last space and, within the identity, at the last `-`; any other
    /// text is a name. The item that comes out is valid.
    pub fn top_decode(input: &[u8]) -> (r: Result<Self, Error>)
        ensures
            match parse_item(input@) {
                Some(item) => r.is_ok() && r.unwrap()@ == item,
                None => r == Err::<Self, Error>(Error::MalformedAttributeEntry),
            },
    {
        let n = input.len();
        let item = if n > 0 && input[n - 1] == CLOSE_PAREN {
            proof {
                lemma_last_index(input@, SPACE);
            }
            let (name, rest) = match split_last_occurence(input, SPACE) {
                None => {
                    return Err(Error::MalformedAttributeEntry);
                },
                Some(cut) => cut,
            };
            let ghost p = last_index(input@, SPACE).unwrap();
            if rest.len() < 2 || rest[0] != OPEN_PAREN {
                return Err(Error::MalformedAttributeEntry);
            }
            let identifier = match remove_first_and_last_char(rest.as_slice()) {
                None => {
                    return Err(Error::MalformedAttributeEntry);
                },
                Some(inner) => inner,
            };
            assert(identifier@ =~= input@.subrange(p + 2, input@.len() - 1));
            proof {
                lemma_last_index(identifier@, DASH);
            }
            let (token_id, nonce_text) = match split_last_occurence(identifier.as_slice(), DASH) {
                None => {
                    return Err(Error::MalformedAttributeEntry);
                },
                Some(cut) => cut,
            };
            let nonce = match hex_to_u64(nonce_text.as_slice()) {
                None => {
                    return Err(Error::MalformedAttributeEntry);
                },
                Some(nonce) => nonce,
            };
            Item { name, token: Some(Token { token_id, nonce }) }
        } else {
            Item { name: copy(input), token: None }
        };
        match item.validate() {
            Ok(()) => Ok(item),
            Err(_) => Err(Error::MalformedAttributeEntry),
        }
    }
}

/// Tells whether `name` may be the name of an item.
pub fn validate_name(name: &[u8]) -> (r: Result<(), Error>)
    ensures
        r == refusal(name_fault(name@)),
        r.is_ok() <==> valid_name(name@),
{
    if contains_byte(name, SLOT_SEPARATOR) || contains_byte(name, ENTRY_SEPARATOR) {
        return Err(Error::InvalidCharacter);
    }
    if bytes_eq(name, UNEQUIPPED_ITEM_NAME.as_slice()) {
        return Err(Error::ReservedName);
    }
    Ok(())
}

/// The word that marks an empty slot is made of lower-case letters.
pub proof fn lemma_unequipped_bytes()
    ensures
        forall|i: int| 0 <= i < unequipped().len() ==> 97 <= #[trigger] unequipped()[i] <= 122,
        unequipped().len() == 10,
{
}

impl Clone for Item {
    fn clone(&self) -> (r: Self)
        ensures
            r@ == self@,
    {
        let token = match &self.token {
            Some(t) => Some(t.clone()),
            None => None,
        };
        Self { name: copy(self.name.as_slice()), token }
    }
}

impl PartialEq for Item {
    fn eq(&self, other: &Self) -> (r: bool) {
        let same_token = match (&self.token, &other.token) {
            (Some(a), Some(b)) => a == b,
            (None, None) => true,
            _ => false,
        };
        same_token && bytes_eq(self.name.as_slice(), other.name.as_slice())
    }
}

impl PartialEqSpecImpl for Item {
    open spec fn obeys_eq_spec() -> bool {
        true
    }

    open spec fn eq_spec(&self, other: &Self) -> bool {
        self@ == other@
    }
}

} // verus!
