//! What the contract asks of the ledger once a customization has succeeded.
//!
//! The requests are values: whoever holds the ledger carries them out, in the order given.

use vstd::prelude::*;
use crate::codec::{encode_spec, Attributes};
use crate::equip::{tokens_view, Customization, CustomizationView};
use crate::error::Error;
use crate::libs::equippable_uris::{get_uri_spec, EquippableUrisModule};
use crate::libs::storage::{Storage, StorageView};
use crate::structs::equippable_attributes::EquippableAttributes;
use crate::structs::token::{Token, TokenView};
use crate::utils::bytes::copy;
use crate::utils::search::{first_true, lemma_first_true_is, lemma_first_true_none};

verus! {

/// What a [`LedgerAction`] stands for.
pub ghost enum LedgerActionView {
    Create { token_id: Seq<u8>, name: Seq<u8>, attributes: Seq<u8>, uri: Seq<u8> },
    Burn { token: TokenView },
    MintAndSend { to: Seq<u8>, token: TokenView },
    SendCreated { to: Seq<u8>, token_id: Seq<u8> },
}

/// One request to the ledger. Every request is for one unit.
#[derive(Debug)]
pub enum LedgerAction {
    /// Create a token in the collection `token_id`, named `name`, that carries `attributes`
    /// and shows the image at `uri`. The ledger picks its nonce.
    Create { token_id: Vec<u8>, name: Vec<u8>, attributes: Vec<u8>, uri: Vec<u8> },
    /// Burn one unit of `token`, which the contract holds.
    Burn { token: Token },
    /// Add one unit of `token`, of which the contract holds at least one, and send it to
    /// `to`.
    MintAndSend { to: Vec<u8>, token: Token },
    /// Send to `to` the token of the collection `token_id` that the last `Create` made.
    SendCreated { to: Vec<u8>, token_id: Vec<u8> },
}

impl View for LedgerAction {
    type V = LedgerActionView;

    open spec fn view(&self) -> LedgerActionView {
        match *self {
            LedgerAction::Create { token_id, name, attributes, uri } => LedgerActionView::Create {
                token_id: token_id@,
                name: name@,
                attributes: attributes@,
                uri: uri@,
            },
            LedgerAction::Burn { token } => LedgerActionView::Burn { token: token@ },
            LedgerAction::MintAndSend { to, token } => LedgerActionView::MintAndSend {
                to: to@,
                token: token@,
            },
            LedgerAction::SendCreated { to, token_id } => LedgerActionView::SendCreated {
                to: to@,
                token_id: token_id@,
            },
        }
    }
}

/// The requests as mathematical values.
pub open spec fn actions_view(s: Seq<LedgerAction>) -> Seq<LedgerActionView> {
    Seq::new(s.len(), |i: int| s[i]@)
}

/// The request that creates the equippable token named `name` with `attributes`. The
/// image of the attributes must have an address.
pub open spec fn mint_spec(state: StorageView, attributes: Attributes, name: Seq<u8>) -> Result<
    LedgerActionView,
    Error,
> {
    match get_uri_spec(state, attributes, name) {
        Err(e) => Err(e),
        Ok(uri) => Ok(
            LedgerActionView::Create {
                token_id: state.equippable_token_id,
                name,
                attributes: encode_spec(attributes),
                uri,
            },
        ),
    }
}

/// The requests that replace the equippable token of nonce `nonce` by one with
/// `attributes`: create the new token, burn the old one, send the new one to `caller`.
pub open spec fn update_spec(
    state: StorageView,
    caller: Seq<u8>,
    nonce: u64,
    attributes: Attributes,
    name: Seq<u8>,
) -> Result<Seq<LedgerActionView>, Error> {
    match mint_spec(state, attributes, name) {
        Err(e) => Err(e),
        Ok(create) => Ok(
            seq![
                create,
                LedgerActionView::Burn {
                    token: TokenView { token_id: state.equippable_token_id, nonce },
                },
                LedgerActionView::SendCreated { to: caller, token_id: state.equippable_token_id },
            ],
        ),
    }
}

/// One request for each token to hand back to `to`.
pub open spec fn hand_back(to: Seq<u8>, tokens: Seq<TokenView>) -> Seq<LedgerActionView> {
    Seq::new(tokens.len(), |i: int| LedgerActionView::MintAndSend { to, token: tokens[i] })
}

/// One request for each token to burn.
pub open spec fn burn_all(tokens: Seq<TokenView>) -> Seq<LedgerActionView> {
    Seq::new(tokens.len(), |i: int| LedgerActionView::Burn { token: tokens[i] })
}

/// The balances as mathematical values: each token with the units of it that are held.
pub open spec fn balances_view(s: Seq<(Token, u64)>) -> Seq<(TokenView, u64)> {
    Seq::new(s.len(), |i: int| (s[i].0@, s[i].1))
}

/// For each balance, whether it is that of `token`.
pub open spec fn balance_flags(held: Seq<(TokenView, u64)>, token: TokenView) -> Seq<bool> {
    Seq::new(held.len(), |i: int| held[i].0 == token)
}

/// The units of `token` that are held: what the first balance listed for it says, or none.
pub open spec fn balance_of(held: Seq<(TokenView, u64)>, token: TokenView) -> u64 {
    match first_true(balance_flags(held, token)) {
        Some(i) => held[i].1,
        None => 0,
    }
}

/// Whether at least one unit is held of each token to hand back. A token can only be added
/// to where one unit of it is held.
pub open spec fn all_held(returned: Seq<TokenView>, held: Seq<(TokenView, u64)>) -> bool {
    forall|i: int| 0 <= i < returned.len() ==> balance_of(held, #[trigger] returned[i]) > 0
}

/// Everything that a customization asks of the ledger: the tokens taken out are handed to
/// the caller, the tokens put in are burnt, and the equippable token is replaced. Nothing
/// is asked unless the whole can be asked: the contract, whose balances are `held`, must
/// hold a unit of each token to hand back, and the image of the new attributes must have an
/// address.
pub open spec fn settle_spec(
    state: StorageView,
    caller: Seq<u8>,
    nonce: u64,
    name: Seq<u8>,
    outcome: CustomizationView,
    held: Seq<(TokenView, u64)>,
) -> Result<Seq<LedgerActionView>, Error> {
    if !all_held(outcome.returned, held) {
        Err(Error::NoUnitHeld)
    } else {
        match update_spec(state, caller, nonce, outcome.attributes, name) {
            Err(e) => Err(e),
            Ok(update) => Ok(
                hand_back(caller, outcome.returned) + burn_all(outcome.burned) + update,
            ),
        }
    }
}

/// The units of `token` that `held` lists.
pub fn balance(held: &[(Token, u64)], token: &Token) -> (r: u64)
    ensures
        r == balance_of(balances_view(held@), token@),
{
    let ghost flags = balance_flags(balances_view(held@), token@);
    let mut i: usize = 0;
    while i < held.len()
        invariant
            i <= held@.len(),
            flags == balance_flags(balances_view(held@), token@),
            forall|j: int| 0 <= j < i ==> !flags[j],
        decreases held@.len() - i,
    {
        if held[i].0 == *token {
            proof {
                lemma_first_true_is(flags, i as int);
            }
            return held[i].1;
        }
        i += 1;
    }
    proof {
        lemma_first_true_none(flags);
    }
    0
}

/// Tells whether every token to hand back can be added to: the contract, whose balances
/// are `held`, must hold at least one unit of each.
pub fn check_balances(returned: &[Token], held: &[(Token, u64)]) -> (r: Result<(), Error>)
    ensures
        r.is_ok() <==> all_held(tokens_view(returned@), balances_view(held@)),
        r.is_err() ==> r == Err::<(), Error>(Error::NoUnitHeld),
{
    let mut i: usize = 0;
    while i < returned.len()
        invariant
            i <= returned@.len(),
            forall|j: int|
                0 <= j < i ==> balance_of(
                    balances_view(held@),
                    #[trigger] tokens_view(returned@)[j],
                ) > 0,
        decreases returned@.len() - i,
    {
        if balance(held, &returned[i]) == 0 {
            assert(tokens_view(returned@)[i as int] == returned@[i as int]@);
            return Err(Error::NoUnitHeld);
        }
        i += 1;
    }
    Ok(())
}

/// The requests to the ledger that replace an equippable token.
pub trait MintEquippableModule: EquippableUrisModule {
    /// The request that creates the equippable token named `name` with `attributes`.
    fn mint_equippable(&self, attributes: &EquippableAttributes, name: &[u8]) -> (r: Result<
        LedgerAction,
        Error,
    >)
        ensures
            match mint_spec(self.state(), attributes@, name@) {
                Ok(action) => r.is_ok() && r.unwrap()@ == action,
                Err(e) => r.is_err() && r.unwrap_err() == e,
            },
    ;

    /// The requests that burn the old equippable token and create and send the new one.
    fn update_equippable(
        &self,
        caller: &[u8],
        equippable_nonce: u64,
        attributes: &EquippableAttributes,
        name: &[u8],
    ) -> (r: Result<Vec<LedgerAction>, Error>)
        ensures
            match update_spec(self.state(), caller@, equippable_nonce, attributes@, name@) {
                Ok(actions) => r.is_ok() && actions_view(r.unwrap()@) == actions,
                Err(e) => r.is_err() && r.unwrap_err() == e,
            },
    ;

    /// Everything that the customization `outcome` of the equippable token of nonce
    /// `equippable_nonce`, named `name`, asks of the ledger on behalf of `caller`, where the
    /// contract holds the balances `held`.
    fn settle_customization(
        &self,
        caller: &[u8],
        equippable_nonce: u64,
        name: &[u8],
        outcome: &Customization,
        held: &[(Token, u64)],
    ) -> (r: Result<Vec<LedgerAction>, Error>)
        ensures
            match settle_spec(
                self.state(),
                caller@,
                equippable_nonce,
                name@,
                outcome@,
                balances_view(held@),
            ) {
                Ok(actions) => r.is_ok() && actions_view(r.unwrap()@) == actions,
                Err(e) => r.is_err() && r.unwrap_err() == e,
            },
    ;
}

impl MintEquippableModule for Storage {
    fn mint_equippable(&self, attributes: &EquippableAttributes, name: &[u8]) -> (r: Result<
        LedgerAction,
        Error,
    >) {
        let uri = match self.get_uri_of(attributes, name) {
            Err(e) => {
                return Err(e);
            },
            Ok(uri) => uri,
        };
        let text = match attributes.top_encode() {
            Err(e) => {
                return Err(e);
            },
            Ok(text) => text,
        };
        Ok(
            LedgerAction::Create {
                token_id: copy(self.equippable_token_id.as_slice()),
                name: copy(name),
                attributes: text,
                uri,
            },
        )
    }

    fn update_equippable(
        &self,
        caller: &[u8],
        equippable_nonce: u64,
        attributes: &EquippableAttributes,
        name: &[u8],
    ) -> (r: Result<Vec<LedgerAction>, Error>) {
        let create = match self.mint_equippable(attributes, name) {
            Err(e) => {
                return Err(e);
            },
            Ok(create) => create,
        };
        let mut actions: Vec<LedgerAction> = Vec::new();
        actions.push(create);
        actions.push(
            LedgerAction::Burn {
                token: Token::new(copy(self.equippable_token_id.as_slice()), equippable_nonce),
            },
        );
        actions.push(
            LedgerAction::SendCreated {
                to: copy(caller),
                token_id: copy(self.equippable_token_id.as_slice()),
            },
        );
        assert(actions_view(actions@) =~= update_spec(
            self@,
            caller@,
            equippable_nonce,
            attributes@,
            name@,
        ).unwrap());
        Ok(actions)
    }

    fn settle_customization(
        &self,
        caller: &[u8],
        equippable_nonce: u64,
        name: &[u8],
        outcome: &Customization,
        held: &[(Token, u64)],
    ) -> (r: Result<Vec<LedgerAction>, Error>) {
        match check_balances(outcome.returned.as_slice(), held) {
            Err(e) => {
                return Err(e);
            },
            Ok(()) => {},
        }
        let update = match self.update_equippable(
            caller,
            equippable_nonce,
            &outcome.attributes,
            name,
        ) {
            Err(e) => {
                return Err(e);
            },
            Ok(update) => update,
        };
        let ghost returned = tokens_view(outcome.returned@);
        let ghost burned = tokens_view(outcome.burned@);
        let mut actions: Vec<LedgerAction> = Vec::new();
        let mut i: usize = 0;
        while i < outcome.returned.len()
            invariant
                i <= outcome.returned@.len(),
                returned == tokens_view(outcome.returned@),
                actions_view(actions@) == hand_back(caller@, returned).take(i as int),
            decreases outcome.returned@.len() - i,
        {
            let ghost before = actions_view(actions@);
            let action = LedgerAction::MintAndSend {
                to: copy(caller),
                token: outcome.returned[i].clone(),
            };
            actions.push(action);
            assert(actions_view(actions@) =~= before.push(
                LedgerActionView::MintAndSend { to: caller@, token: returned[i as int] },
            ));
            i += 1;
        }
        assert(hand_back(caller@, returned).take(outcome.returned@.len() as int) =~= hand_back(
            caller@,
            returned,
        ));
        let mut j: usize = 0;
        while j < outcome.burned.len()
            invariant
                j <= outcome.burned@.len(),
                burned == tokens_view(outcome.burned@),
                actions_view(actions@) == hand_back(caller@, returned) + burn_all(burned).take(
                    j as int,
                ),
            decreases outcome.burned@.len() - j,
        {
            let ghost before = actions_view(actions@);
            let action = LedgerAction::Burn { token: outcome.burned[j].clone() };
            actions.push(action);
            assert(actions_view(actions@) =~= before.push(
                LedgerActionView::Burn { token: burned[j as int] },
            ));
            assert(actions_view(actions@) =~= hand_back(caller@, returned) + burn_all(burned).take(
                j + 1,
            ));
            j += 1;
        }
        assert(burn_all(burned).take(outcome.burned@.len() as int) =~= burn_all(burned));
        let mut update = update;
        actions.append(&mut update);
        Ok(actions)
    }
}

} // verus!
