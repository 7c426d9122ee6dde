//! The rights that the contract holds on a token collection.

use vstd::prelude::*;
use crate::error::Error;
use crate::utils::bytes::bytes_eq;

verus! {

/// A right on a token collection.
#[derive(Clone, Copy, Debug, PartialEq, Eq, Structural)]
pub enum Role {
    /// The right to create tokens of the collection.
    NftCreate,
    /// The right to add quantity to a token of the collection.
    NftAddQuantity,
    /// The right to burn tokens of the collection.
    NftBurn,
}

/// The rights held on one collection.
#[derive(Clone, Copy, Debug, PartialEq, Eq, Structural)]
pub struct LocalRoles {
    pub create: bool,
    pub add_quantity: bool,
    pub burn: bool,
}

impl LocalRoles {
    /// No right at all.
    pub fn none() -> (r: Self)
        ensures
            r == (LocalRoles { create: false, add_quantity: false, burn: false }),
    {
        LocalRoles { create: false, add_quantity: false, burn: false }
    }

    /// Every right.
    pub fn all() -> (r: Self)
        ensures
            r == (LocalRoles { create: true, add_quantity: true, burn: true }),
    {
        LocalRoles { create: true, add_quantity: true, burn: true }
    }

    /// Whether `role` is among the rights.
    pub open spec fn has(self, role: Role) -> bool {
        match role {
            Role::NftCreate => self.create,
            Role::NftAddQuantity => self.add_quantity,
            Role::NftBurn => self.burn,
        }
    }

    /// Tells whether `role` is among the rights.
    pub fn has_role(&self, role: &Role) -> (r: bool)
        ensures
            r == self.has(*role),
    {
        match role {
            Role::NftCreate => self.create,
            Role::NftAddQuantity => self.add_quantity,
            Role::NftBurn => self.burn,
        }
    }
}

/// What an item's collection lacks for its tokens to be equipped and given back, if
/// anything: the right to add quantity is looked at first, then the right to burn.
pub open spec fn item_roles_fault(roles: LocalRoles) -> Option<Error> {
    if !roles.add_quantity {
        Some(Error::MissingMintRole)
    } else if !roles.burn {
        Some(Error::MissingBurnRole)
    } else {
        None
    }
}

/// What the equippable collection lacks for a token to be replaced, if anything: the right
/// to create is looked at first, then the right to burn.
pub open spec fn equippable_roles_fault(roles: LocalRoles) -> Option<Error> {
    if !roles.create {
        Some(Error::MissingCreateRole)
    } else if !roles.burn {
        Some(Error::MissingBurnRole)
    } else {
        None
    }
}

/// The rights of one collection, as the ledger reported them.
#[derive(Debug)]
pub struct RoleEntry {
    pub token_id: Vec<u8>,
    pub roles: LocalRoles,
}

/// The rights that the contract holds, collection by collection. A collection that is not
/// listed grants no right; of two entries for one collection the first counts.
#[derive(Debug)]
pub struct RoleTable {
    pub entries: Vec<RoleEntry>,
}

/// The rights listed for `token_id` in `entries`: those of the first entry for it, or none.
pub open spec fn roles_in(entries: Seq<RoleEntry>, token_id: Seq<u8>) -> LocalRoles
    decreases entries.len(),
{
    if entries.len() == 0 {
        LocalRoles { create: false, add_quantity: false, burn: false }
    } else if entries[0].token_id@ == token_id {
        entries[0].roles
    } else {
        roles_in(entries.skip(1), token_id)
    }
}

impl RoleTable {
    /// The table without any entry.
    pub fn new() -> (r: Self)
        ensures
            r.entries@.len() == 0,
    {
        RoleTable { entries: Vec::new() }
    }

    /// The rights held on `token_id`.
    pub open spec fn of(&self, token_id: Seq<u8>) -> LocalRoles {
        roles_in(self.entries@, token_id)
    }

    /// Lists `roles` for `token_id`, behind the entries that are there.
    pub fn grant(&mut self, token_id: Vec<u8>, roles: LocalRoles)
        ensures
            final(self).entries@ == old(self).entries@.push(RoleEntry { token_id, roles }),
    {
        self.entries.push(RoleEntry { token_id, roles });
    }

    /// The rights held on `token_id`.
    pub fn roles_of(&self, token_id: &[u8]) -> (r: LocalRoles)
        ensures
            r == self.of(token_id@),
    {
        let mut i: usize = 0;
        assert(self.entries@.skip(0) =~= self.entries@);
        while i < self.entries.len()
            invariant
                i <= self.entries@.len(),
                roles_in(self.entries@, token_id@) == roles_in(
                    self.entries@.skip(i as int),
                    token_id@,
                ),
            decreases self.entries@.len() - i,
        {
            let ghost rest = self.entries@.skip(i as int);
            assert(rest.skip(1) =~= self.entries@.skip(i + 1));
            if bytes_eq(self.entries[i].token_id.as_slice(), token_id) {
                return self.entries[i].roles;
            }
            i += 1;
        }
        LocalRoles::none()
    }
}

} // verus!
