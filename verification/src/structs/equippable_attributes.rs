//! The attribute set of one equippable token: what each of its slots holds.

use vstd::prelude::*;
use crate::codec::{
    assemble, decode_entries, decode_spec, encode_spec, lemma_decode_encode,
    lemma_decode_entries_error_stays, lemma_parse_entry_valid, parse_entry, render_entries, render_entry, resolved,
    same_attributes, valid_attributes, valid_slot, Attributes,
};
use crate::constants::{
    ENTRY_SEPARATOR, MAX_ENCODED_LEN, SLOT_SEPARATOR, UNEQUIPPED_ITEM_NAME,
};
use crate::error::Error;
use crate::structs::item::{item_fault, refusal, valid_item, Item, ItemView};
use crate::structs::slot::{slots_view, Slot};
use crate::utils::bytes::{append, bytes_eq, contains_byte};
use crate::utils::order::{
    ascending, ascending_listing, is_ascending_listing, lemma_ascending_listing_unique,
    lemma_lex_connected, lemma_lex_transitive, less_than, lex_lt,
};
use crate::utils::bytes::lemma_first_index;
use crate::utils::split::{join, lemma_join_push, pieces, split, split_buffer, split_first_occurence};
use vstd::std_specs::cmp::PartialEqSpecImpl;

verus! {

/// One slot and what it holds.
#[derive(Debug)]
struct Entry {
    slot: Slot,
    item: Option<Item>,
}

/// What an optional item stands for.
pub open spec fn item_view(item: Option<Item>) -> Option<ItemView> {
    match item {
        Some(i) => Some(i@),
        None => None,
    }
}

/// What is wrong with setting `item` into `slot`, if anything: a reserved byte in the slot's
/// name, or the fault of the item.
pub open spec fn entry_fault(slot: Seq<u8>, item: Option<ItemView>) -> Option<Error> {
    if slot.contains(SLOT_SEPARATOR) || slot.contains(ENTRY_SEPARATOR) {
        Some(Error::InvalidSlotCharacter)
    } else {
        match item {
            Some(i) => item_fault(i),
            None => None,
        }
    }
}

/// Tells whether `item` may be set into `slot`.
pub fn validate_entry(slot: &Slot, item: &Option<Item>) -> (r: Result<(), Error>)
    ensures
        r == refusal(entry_fault(slot@, item_view(*item))),
{
    if contains_byte(slot.as_slice(), SLOT_SEPARATOR) || contains_byte(
        slot.as_slice(),
        ENTRY_SEPARATOR,
    ) {
        return Err(Error::InvalidSlotCharacter);
    }
    match item {
        Some(i) => i.validate(),
        None => Ok(()),
    }
}

/// The attribute set of an equippable token: for each slot, the item that it holds or
/// nothing. Each slot has at most one entry, whatever the case in which its name was given;
/// a slot without an entry holds nothing. The entries are kept in the order in which they
/// were made, which the canonical text does not show.
#[derive(Debug)]
pub struct EquippableAttributes {
    entries: Vec<Entry>,
}

spec fn has_slot(entries: Seq<Entry>, k: Seq<u8>, i: int) -> bool {
    0 <= i < entries.len() && entries[i].slot@ == k
}

spec fn entries_map(entries: Seq<Entry>) -> Attributes {
    Map::new(
        |k: Seq<u8>| exists|i: int| has_slot(entries, k, i),
        |k: Seq<u8>| item_view(entries[choose|i: int| has_slot(entries, k, i)].item),
    )
}

spec fn entries_distinct(entries: Seq<Entry>) -> bool {
    forall|i: int, j: int|
        0 <= i < j < entries.len() ==> (#[trigger] entries[i]).slot@ != (#[trigger] entries[j]).slot@
}

spec fn entries_valid(entries: Seq<Entry>) -> bool {
    forall|i: int|
        0 <= i < entries.len() ==> valid_slot((#[trigger] entries[i]).slot@) && (
        entries[i].item matches Some(item) ==> valid_item(item@))
}

spec fn slot_names(entries: Seq<Entry>) -> Seq<Seq<u8>> {
    Seq::new(entries.len(), |i: int| entries[i].slot@)
}

/// With one entry for each slot, the map holds for each entry's slot that entry's item, and
/// has no other slot.
proof fn lemma_entries_map(entries: Seq<Entry>)
    requires
        entries_distinct(entries),
    ensures
        forall|i: int|
            0 <= i < entries.len() ==> entries_map(entries).dom().contains(
                (#[trigger] entries[i]).slot@,
            ) && entries_map(entries)[entries[i].slot@] == item_view(entries[i].item),
        forall|k: Seq<u8>|
            entries_map(entries).dom().contains(k) ==> exists|i: int| has_slot(entries, k, i),
        entries_map(entries).dom().finite(),
        entries_map(entries).dom().len() == entries.len(),
        entries_valid(entries) ==> valid_attributes(entries_map(entries)),
{
    let m = entries_map(entries);
    assert forall|i: int| 0 <= i < entries.len() implies m.dom().contains(
        (#[trigger] entries[i]).slot@,
    ) && m[entries[i].slot@] == item_view(entries[i].item) by {
        let k = entries[i].slot@;
        assert(has_slot(entries, k, i));
        let j = choose|j: int| has_slot(entries, k, j);
        if j < i {
            assert(entries[j].slot@ != entries[i].slot@);
        } else if i < j {
            assert(entries[i].slot@ != entries[j].slot@);
        }
    }
    let names = slot_names(entries);
    assert(m.dom() =~= names.to_set()) by {
        assert forall|k: Seq<u8>| m.dom().contains(k) <==> names.to_set().contains(k) by {
            if m.dom().contains(k) {
                let i = choose|i: int| has_slot(entries, k, i);
                assert(names[i] == k);
            }
            if names.to_set().contains(k) {
                let i = choose|i: int| 0 <= i < names.len() && names[i] == k;
            }
        }
    }
    vstd::seq_lib::seq_to_set_is_finite(names);
    assert(names.no_duplicates()) by {
        assert forall|i: int, j: int|
            0 <= i < names.len() && 0 <= j < names.len() && i != j implies names[i] != names[j] by {
            if i < j {
                assert(entries[i].slot@ != entries[j].slot@);
            } else {
                assert(entries[j].slot@ != entries[i].slot@);
            }
        }
    }
    names.unique_seq_to_set();
}

/// The item, copied.
fn copy_item(item: &Option<Item>) -> (r: Option<Item>)
    ensures
        item_view(r) == item_view(*item),
{
    match item {
        Some(i) => Some(i.clone()),
        None => None,
    }
}

impl View for EquippableAttributes {
    type V = Attributes;

    /// For each slot with an entry, what the slot holds.
    closed spec fn view(&self) -> Attributes {
        entries_map(self.entries@)
    }
}

impl EquippableAttributes {
    /// What holds of every set of attributes: no slot has two entries, and every entry is
    /// one that the wire format can carry.
    #[verifier::type_invariant]
    pub closed spec fn well_formed(self) -> bool {
        entries_distinct(self.entries@) && entries_valid(self.entries@)
    }

    /// Well-formed attributes stand for valid ones.
    pub proof fn lemma_well_formed(self)
        requires
            self.well_formed(),
        ensures
            valid_attributes(self@),
    {
        lemma_entries_map(self.entries@);
    }

    /// The attributes without any entry: every slot holds nothing.
    pub fn empty() -> (r: Self)
        ensures
            r@ == Map::<Seq<u8>, Option<ItemView>>::empty(),
            valid_attributes(r@),
    {
        let r = Self { entries: Vec::new() };
        proof {
            lemma_entries_map(r.entries@);
        }
        r
    }

    /// The number of slots that have an entry.
    pub fn len(&self) -> (r: usize)
        ensures
            r == self@.dom().len(),
            valid_attributes(self@),
    {
        proof {
            use_type_invariant(self);
            lemma_entries_map(self.entries@);
        }
        self.entries.len()
    }

    /// Where the entry for `slot` stands, if there is one.
    fn position(&self, slot: &Slot) -> (r: Option<usize>)
        ensures
            match r {
                Some(i) => has_slot(self.entries@, slot@, i as int),
                None => forall|i: int| !has_slot(self.entries@, slot@, i),
            },
    {
        let mut i: usize = 0;
        while i < self.entries.len()
            invariant
                i <= self.entries.len(),
                forall|j: int| 0 <= j < i ==> !has_slot(self.entries@, slot@, j),
            decreases self.entries.len() - i,
        {
            if bytes_eq(self.entries[i].slot.as_slice(), slot.as_slice()) {
                return Some(i);
            }
            i += 1;
        }
        None
    }

    /// Tells whether `slot` has an entry, be it one that holds nothing.
    pub fn has_entry(&self, slot: &Slot) -> (r: bool)
        ensures
            r == self@.dom().contains(slot@),
            valid_attributes(self@),
    {
        proof {
            use_type_invariant(self);
            lemma_entries_map(self.entries@);
        }
        self.position(slot).is_some()
    }

    /// What `slot` holds.
    pub fn get_item(&self, slot: &Slot) -> (r: Option<Item>)
        ensures
            item_view(r) == resolved(self@, slot@),
            valid_attributes(self@),
    {
        proof {
            use_type_invariant(self);
            lemma_entries_map(self.entries@);
        }
        match self.position(slot) {
            Some(i) => {
                match &self.entries[i].item {
                    Some(item) => Some(item.clone()),
                    None => None,
                }
            },
            None => None,
        }
    }

    /// Tells whether `slot` holds nothing.
    pub fn is_slot_empty(&self, slot: &Slot) -> (r: bool)
        ensures
            r == resolved(self@, slot@).is_none(),
            valid_attributes(self@),
    {
        proof {
            use_type_invariant(self);
            lemma_entries_map(self.entries@);
        }
        match self.position(slot) {
            Some(i) => self.entries[i].item.is_none(),
            None => true,
        }
    }

    /// Puts `item` into `slot`, in place of what the slot held; `None` empties the slot and
    /// keeps its entry. A slot or an item that the wire format cannot carry is refused, and
    /// nothing changes.
    pub fn set_item(&mut self, slot: &Slot, item: Option<Item>) -> (r: Result<(), Error>)
        ensures
            match entry_fault(slot@, item_view(item)) {
                Some(e) => r == Err::<(), Error>(e) && final(self)@ == old(self)@,
                None => r.is_ok() && final(self)@ == old(self)@.insert(slot@, item_view(item)),
            },
            valid_attributes(final(self)@),
    {
        proof {
            use_type_invariant(&*self);
            lemma_entries_map(self.entries@);
        }
        match validate_entry(slot, &item) {
            Err(e) => {
                return Err(e);
            },
            Ok(()) => {},
        }
        let ghost before = self.entries@;
        proof {
            use_type_invariant(slot);
        }
        let at = self.position(slot);
        let entry = Entry { slot: slot.clone(), item };
        let mut taken = Self { entries: Vec::new() };
        core::mem::swap(self, &mut taken);
        let mut entries = taken.entries;
        match at {
            Some(i) => {
                entries.set(i, entry);
            },
            None => {
                entries.push(entry);
            },
        }
        proof {
            let after = entries@;
            let place = match at {
                Some(i) => i as int,
                None => before.len() as int,
            };
            assert(has_slot(after, slot@, place));
            assert forall|t: int| 0 <= t < before.len() && t != place implies after[t]
                == before[t] by {}
            assert(entries_distinct(after)) by {
                assert forall|a: int, b: int| 0 <= a < b < after.len() implies (#[trigger] after[a]).slot@
                    != (#[trigger] after[b]).slot@ by {
                    if a != place && b != place {
                        assert(before[a].slot@ != before[b].slot@);
                    } else if a == place {
                        assert(!has_slot(before, slot@, b) || at == Some(a as usize));
                    } else {
                        assert(!has_slot(before, slot@, a) || at == Some(b as usize));
                    }
                }
            }
            lemma_entries_map(after);
            assert(entries_map(after) =~= entries_map(before).insert(slot@, item_view(item)));
        }
        self.entries = entries;
        Ok(())
    }

    /// Empties `slot`: it then has an entry that holds nothing.
    pub fn empty_slot(&mut self, slot: &Slot) -> (r: Result<(), Error>)
        ensures
            match entry_fault(slot@, None) {
                Some(e) => r == Err::<(), Error>(e) && final(self)@ == old(self)@,
                None => r.is_ok() && final(self)@ == old(self)@.insert(slot@, None),
            },
            valid_attributes(final(self)@),
    {
        self.set_item(slot, None)
    }
}

/// Tells whether two optional items are the same.
fn same_item(a: &Option<Item>, b: &Option<Item>) -> (r: bool)
    ensures
        r == (item_view(*a) == item_view(*b)),
{
    match (a, b) {
        (Some(x), Some(y)) => x == y,
        (None, None) => true,
        _ => false,
    }
}

/// Reads one entry: the slot before the first `:` and the value behind it.
fn read_entry(entry: &[u8]) -> (r: Option<(Slot, Option<Item>)>)
    ensures
        match parse_entry(entry@) {
            Some((slot, value)) => r.is_some() && r.unwrap().0@ == slot && item_view(r.unwrap().1)
                == value,
            None => r.is_none(),
        },
{
    proof {
        lemma_first_index(entry@, SLOT_SEPARATOR);
    }
    let (slot_text, value_text) = match split_first_occurence(entry, SLOT_SEPARATOR) {
        None => {
            return None;
        },
        Some(cut) => cut,
    };
    let slot = Slot::new_from_buffer(slot_text);
    if contains_byte(slot.as_slice(), ENTRY_SEPARATOR) {
        return None;
    }
    if bytes_eq(value_text.as_slice(), UNEQUIPPED_ITEM_NAME.as_slice()) {
        return Some((slot, None));
    }
    match Item::top_decode(value_text.as_slice()) {
        Ok(item) => Some((slot, Some(item))),
        Err(_) => None,
    }
}

/// The pairs as mathematical values: each slot with the item set into it.
pub open spec fn pairs_view(pairs: Seq<(Slot, Item)>) -> Seq<(Seq<u8>, Option<ItemView>)> {
    Seq::new(pairs.len(), |i: int| (pairs[i].0@, Some(pairs[i].1@)))
}

/// The fault of the first pair that cannot be set, if there is one.
pub open spec fn pairs_fault(pairs: Seq<(Seq<u8>, Option<ItemView>)>) -> Option<Error>
    decreases pairs.len(),
{
    if pairs.len() == 0 {
        None
    } else {
        match pairs_fault(pairs.drop_last()) {
            Some(e) => Some(e),
            None => entry_fault(pairs.last().0, pairs.last().1),
        }
    }
}

/// Once a pair is at fault, further pairs do not change the fault.
proof fn lemma_pairs_fault_stays(pairs: Seq<(Seq<u8>, Option<ItemView>)>, k: int)
    requires
        0 <= k <= pairs.len(),
        pairs_fault(pairs.take(k)).is_some(),
    ensures
        pairs_fault(pairs) == pairs_fault(pairs.take(k)),
    decreases pairs.len() - k,
{
    if k == pairs.len() {
        assert(pairs.take(k) =~= pairs);
    } else {
        assert(pairs.drop_last().take(k) =~= pairs.take(k));
        lemma_pairs_fault_stays(pairs.drop_last(), k);
    }
}

/// The slot names of the entries that `order` points at, in that order.
spec fn names_in(entries: Seq<Entry>, order: Seq<usize>) -> Seq<Seq<u8>> {
    Seq::new(order.len(), |j: int| entries[order[j] as int].slot@)
}

/// `order` points at the entry at position `e`.
spec fn listed(order: Seq<usize>, e: int) -> bool {
    exists|j: int| 0 <= j < order.len() && #[trigger] order[j] == e
}

/// Positions that point at every entry once, in ascending order of the slots, name the slots
/// as the ascending listing does.
proof fn lemma_names_in_listing(entries: Seq<Entry>, order: Seq<usize>)
    requires
        entries_distinct(entries),
        forall|j: int| 0 <= j < order.len() ==> (#[trigger] order[j]) < entries.len(),
        ascending(names_in(entries, order)),
        forall|e: int| 0 <= e < entries.len() ==> #[trigger] listed(order, e),
    ensures
        names_in(entries, order) == ascending_listing(entries_map(entries).dom()),
{
    let listing = names_in(entries, order);
    let m = entries_map(entries);
    lemma_entries_map(entries);
    assert forall|k: Seq<u8>| m.dom().contains(k) <==> listing.contains(k) by {
        if m.dom().contains(k) {
            let e = choose|e: int| has_slot(entries, k, e);
            assert(listed(order, e));
            let j = choose|j: int| 0 <= j < order.len() && #[trigger] order[j] == e;
            assert(listing[j] == k);
        }
    }
    assert(is_ascending_listing(listing, m.dom()));
    lemma_ascending_listing_unique(listing, ascending_listing(m.dom()), m.dom());
}

impl EquippableAttributes {
    /// The slots that have an entry, in ascending order.
    pub fn slots(&self) -> (r: Vec<Slot>)
        ensures
            slots_view(r@) == ascending_listing(self@.dom()),
    {
        let order = self.ascending_order();
        proof {
            use_type_invariant(self);
            lemma_names_in_listing(self.entries@, order@);
        }
        let mut out: Vec<Slot> = Vec::new();
        let mut j: usize = 0;
        while j < order.len()
            invariant
                j <= order@.len(),
                forall|t: int| 0 <= t < order@.len() ==> (#[trigger] order@[t]) < self.entries@.len(),
                out@.len() == j,
                forall|t: int|
                    0 <= t < j ==> (#[trigger] out@[t])@ == names_in(self.entries@, order@)[t],
            decreases order@.len() - j,
        {
            out.push(self.entries[order[j]].slot.clone());
            j += 1;
        }
        out
    }

    /// The positions of the entries, in ascending order of their slots.
    fn ascending_order(&self) -> (order: Vec<usize>)
        ensures
            order@.len() == self.entries@.len(),
            forall|j: int| 0 <= j < order@.len() ==> (#[trigger] order@[j]) < self.entries@.len(),
            ascending(names_in(self.entries@, order@)),
            forall|e: int| 0 <= e < self.entries@.len() ==> #[trigger] listed(order@, e),
    {
        proof {
            use_type_invariant(self);
        }
        let n = self.entries.len();
        let mut order: Vec<usize> = Vec::new();
        let mut i: usize = 0;
        while i < n
            invariant
                i <= n,
                n == self.entries@.len(),
                entries_distinct(self.entries@),
                order@.len() == i,
                forall|j: int| 0 <= j < order@.len() ==> (#[trigger] order@[j]) < i,
                ascending(names_in(self.entries@, order@)),
                forall|e: int| 0 <= e < i ==> #[trigger] listed(order@, e),
            decreases n - i,
        {
            let ghost entries = self.entries@;
            let ghost before = order@;
            let ghost name = entries[i as int].slot@;
            let mut p: usize = 0;
            while p < order.len() && less_than(
                self.entries[order[p]].slot.as_slice(),
                self.entries[i].slot.as_slice(),
            )
                invariant
                    p <= order@.len(),
                    i < n,
                    n == self.entries@.len(),
                    order@ == before,
                    entries == self.entries@,
                    name == entries[i as int].slot@,
                    forall|j: int| 0 <= j < order@.len() ==> (#[trigger] order@[j]) < i,
                    forall|q: int| 0 <= q < p ==> lex_lt(#[trigger] names_in(entries, before)[q], name),
                decreases order@.len() - p,
            {
                p += 1;
            }
            order.insert(p, i);
            proof {
                let after = order@;
                let old_names = names_in(entries, before);
                let new_names = names_in(entries, after);
                assert forall|j: int| 0 <= j < after.len() implies (#[trigger] after[j]) < i + 1 by {
                    if j < p {
                        assert(after[j] == before[j]);
                    } else if j > p {
                        assert(after[j] == before[j - 1]);
                    }
                }
                // Every entry behind the place comes after the new one.
                assert forall|q: int| p <= q < before.len() implies lex_lt(
                    name,
                    #[trigger] old_names[q],
                ) by {
                    let at_p = old_names[p as int];
                    lemma_lex_connected(at_p, name);
                    if q > p {
                        lemma_lex_transitive(name, at_p, old_names[q]);
                    }
                }
                assert forall|a: int, b: int| 0 <= a < b < new_names.len() implies lex_lt(
                    #[trigger] new_names[a],
                    #[trigger] new_names[b],
                ) by {
                    let oa = if a < p {
                        a
                    } else {
                        a - 1
                    };
                    let ob = if b < p {
                        b
                    } else {
                        b - 1
                    };
                    if a != p {
                        assert(new_names[a] == old_names[oa]);
                    }
                    if b != p {
                        assert(new_names[b] == old_names[ob]);
                    }
                    if a != p && b != p {
                        assert(lex_lt(old_names[oa], old_names[ob]));
                    }
                }
                assert forall|e: int| 0 <= e < i + 1 implies #[trigger] listed(after, e) by {
                    if e == i {
                        assert(after[p as int] == e);
                    } else {
                        assert(listed(before, e));
                        let j = choose|j: int| 0 <= j < before.len() && #[trigger] before[j] == e;
                        if j < p {
                            assert(after[j] == e);
                        } else {
                            assert(after[j + 1] == e);
                        }
                    }
                }
            }
            i += 1;
        }
        order
    }

    /// Reads attributes from their text. The empty text gives the attributes without
    /// entries. Any other text is cut at every `;`; each entry is cut at its first `:` into a
    /// slot, taken in lower case, and a value, which is `unequipped` or an item. The entries
    /// may stand in any order. The first entry that is malformed, or names a slot again,
    /// decides the error.
    pub fn top_decode(input: &[u8]) -> (r: Result<Self, Error>)
        ensures
            match decode_spec(input@) {
                Ok(m) => r.is_ok() && r.unwrap()@ == m && valid_attributes(m),
                Err(e) => r.is_err() && r.unwrap_err() == e,
            },
    {
        let mut attributes = Self::empty();
        if input.len() == 0 {
            return Ok(attributes);
        }
        let entries = split_buffer(input, ENTRY_SEPARATOR);
        let ghost all = pieces(entries@);
        let mut i: usize = 0;
        while i < entries.len()
            invariant
                i <= entries@.len(),
                input@.len() > 0,
                all == pieces(entries@),
                all == split(input@, ENTRY_SEPARATOR),
                decode_entries(all.take(i as int)) == Ok::<Attributes, Error>(attributes@),
                valid_attributes(attributes@),
            decreases entries@.len() - i,
        {
            let ghost next = all.take(i + 1);
            proof {
                assert(next.drop_last() =~= all.take(i as int));
                lemma_parse_entry_valid(next.last());
            }
            let (slot, item) = match read_entry(entries[i].as_slice()) {
                None => {
                    proof {
                        assert(decode_entries(next) == Err::<Attributes, Error>(
                            Error::MalformedAttributeEntry,
                        ));
                        lemma_decode_entries_error_stays(all, i + 1);
                    }
                    return Err(Error::MalformedAttributeEntry);
                },
                Some(entry) => entry,
            };
            if attributes.has_entry(&slot) {
                proof {
                    lemma_decode_entries_error_stays(all, i + 1);
                }
                return Err(Error::DuplicateSlot);
            }
            match attributes.set_item(&slot, item) {
                Err(e) => {
                    return Err(e);
                },
                Ok(()) => {},
            }
            i += 1;
        }
        assert(all.take(entries@.len() as int) =~= all);
        Ok(attributes)
    }

    /// The attributes made by setting the pairs one after the other; a later pair replaces
    /// an earlier one for the same slot. The first pair that cannot be set decides the error.
    pub fn new(pairs: &[(Slot, Item)]) -> (r: Result<Self, Error>)
        ensures
            match pairs_fault(pairs_view(pairs@)) {
                Some(e) => r.is_err() && r.unwrap_err() == e,
                None => r.is_ok() && r.unwrap()@ == assemble(pairs_view(pairs@)),
            },
            r.is_ok() ==> valid_attributes(r.unwrap()@),
    {
        let mut attributes = Self::empty();
        let ghost all = pairs_view(pairs@);
        let mut i: usize = 0;
        while i < pairs.len()
            invariant
                i <= pairs@.len(),
                all == pairs_view(pairs@),
                pairs_fault(all.take(i as int)).is_none(),
                attributes@ == assemble(all.take(i as int)),
                valid_attributes(attributes@),
            decreases pairs@.len() - i,
        {
            let ghost next = all.take(i + 1);
            proof {
                assert(next.drop_last() =~= all.take(i as int));
            }
            match attributes.set_item(&pairs[i].0, Some(pairs[i].1.clone())) {
                Err(e) => {
                    proof {
                        lemma_pairs_fault_stays(all, i + 1);
                    }
                    return Err(e);
                },
                Ok(()) => {},
            }
            i += 1;
        }
        assert(all.take(pairs@.len() as int) =~= all);
        Ok(attributes)
    }

    /// Tells whether every slot with an entry here holds the same in `other`.
    fn agrees_with(&self, other: &Self) -> (r: bool)
        ensures
            r == forall|k: Seq<u8>| #[trigger]
                self@.dom().contains(k) ==> resolved(self@, k) == resolved(other@, k),
    {
        proof {
            use_type_invariant(self);
            use_type_invariant(other);
            lemma_entries_map(self.entries@);
            lemma_entries_map(other.entries@);
        }
        let mut i: usize = 0;
        while i < self.entries.len()
            invariant
                i <= self.entries@.len(),
                forall|e: int|
                    0 <= e < self.entries@.len() ==> self@.dom().contains(
                        (#[trigger] self.entries@[e]).slot@,
                    ) && self@[self.entries@[e].slot@] == item_view(self.entries@[e].item),
                forall|e: int|
                    0 <= e < other.entries@.len() ==> other@.dom().contains(
                        (#[trigger] other.entries@[e]).slot@,
                    ) && other@[other.entries@[e].slot@] == item_view(other.entries@[e].item),
                forall|k: Seq<u8>|
                    other@.dom().contains(k) ==> exists|e: int| has_slot(other.entries@, k, e),
                forall|e: int|
                    0 <= e < i ==> resolved(self@, (#[trigger] self.entries@[e]).slot@) == resolved(
                        other@,
                        self.entries@[e].slot@,
                    ),
            decreases self.entries@.len() - i,
        {
            let entry = &self.entries[i];
            let same = match other.position(&entry.slot) {
                Some(at) => same_item(&entry.item, &other.entries[at].item),
                None => entry.item.is_none(),
            };
            if !same {
                return false;
            }
            i += 1;
        }
        true
    }

    /// Writes the canonical text: the entries in ascending order of their slots, each as
    /// `slot:value`, with `;` between them. An empty slot is written `slot:unequipped`. The
    /// order in which the entries were made does not show. A text of more than
    /// [`MAX_ENCODED_LEN`] bytes is refused. The text that is written reads back as these
    /// attributes.
    pub fn top_encode(&self) -> (r: Result<Vec<u8>, Error>)
        ensures
            encode_spec(self@).len() <= MAX_ENCODED_LEN ==> r.is_ok() && r.unwrap()@ == encode_spec(
                self@,
            ),
            encode_spec(self@).len() > MAX_ENCODED_LEN ==> r == Err::<Vec<u8>, Error>(
                Error::BufferTooLarge,
            ),
            r.is_ok() ==> decode_spec(r.unwrap()@) == Ok::<Attributes, Error>(self@),
            valid_attributes(self@),
    {
        let order = self.ascending_order();
        let ghost entries = self.entries@;
        let ghost listing = names_in(entries, order@);
        let ghost rendered = render_entries(listing, self@);
        proof {
            use_type_invariant(self);
            lemma_entries_map(entries);
            lemma_names_in_listing(entries, order@);
            lemma_decode_encode(self@);
        }
        let mut out: Vec<u8> = Vec::new();
        let mut j: usize = 0;
        while j < order.len()
            invariant
                j <= order@.len(),
                entries == self.entries@,
                listing == names_in(entries, order@),
                rendered == render_entries(listing, self@),
                forall|t: int| 0 <= t < order@.len() ==> (#[trigger] order@[t]) < entries.len(),
                forall|e: int|
                    0 <= e < entries.len() ==> self@[(#[trigger] entries[e]).slot@] == item_view(
                        entries[e].item,
                    ),
                out@ == join(rendered.take(j as int), ENTRY_SEPARATOR),
            decreases order@.len() - j,
        {
            let entry = &self.entries[order[j]];
            if j > 0 {
                out.push(ENTRY_SEPARATOR);
            }
            append(&mut out, entry.slot.as_slice());
            out.push(SLOT_SEPARATOR);
            match &entry.item {
                None => {
                    append(&mut out, UNEQUIPPED_ITEM_NAME.as_slice());
                },
                Some(item) => {
                    let text = item.top_encode();
                    append(&mut out, text.as_slice());
                },
            }
            proof {
                let piece = render_entry(entry.slot@, item_view(entry.item));
                assert(rendered.take(j + 1) =~= rendered.take(j as int).push(piece));
                if j > 0 {
                    lemma_join_push(rendered.take(j as int), piece, ENTRY_SEPARATOR);
                } else {
                    assert(rendered.take(1)[0] == piece);
                }
            }
            j += 1;
        }
        assert(rendered.take(order@.len() as int) =~= rendered);
        if out.len() > MAX_ENCODED_LEN {
            Err(Error::BufferTooLarge)
        } else {
            Ok(out)
        }
    }
}

impl Clone for EquippableAttributes {
    fn clone(&self) -> (r: Self)
        ensures
            r@ == self@,
            valid_attributes(r@),
    {
        proof {
            use_type_invariant(self);
        }
        let mut next: Vec<Entry> = Vec::new();
        let mut j: usize = 0;
        while j < self.entries.len()
            invariant
                j <= self.entries@.len(),
                next@.len() == j,
                forall|t: int|
                    0 <= t < j ==> (#[trigger] next@[t]).slot@ == self.entries@[t].slot@
                        && item_view(next@[t].item) == item_view(self.entries@[t].item),
            decreases self.entries@.len() - j,
        {
            next.push(
                Entry { slot: self.entries[j].slot.clone(), item: copy_item(&self.entries[j].item) },
            );
            j += 1;
        }
        proof {
            assert(entries_distinct(next@)) by {
                assert forall|a: int, b: int| 0 <= a < b < next@.len() implies (#[trigger] next@[a]).slot@
                    != (#[trigger] next@[b]).slot@ by {
                    assert(self.entries@[a].slot@ != self.entries@[b].slot@);
                }
            }
            assert(entries_valid(next@)) by {
                assert forall|t: int| 0 <= t < next@.len() implies valid_slot(
                    (#[trigger] next@[t]).slot@,
                ) && (next@[t].item matches Some(item) ==> valid_item(item@)) by {
                    assert(valid_slot(self.entries@[t].slot@));
                }
            }
            lemma_entries_map(next@);
            assert(entries_map(next@) =~= entries_map(self.entries@)) by {
                lemma_entries_map(self.entries@);
                assert forall|k: Seq<u8>|
                    entries_map(next@).dom().contains(k) <==> entries_map(
                        self.entries@,
                    ).dom().contains(k) by {
                    if entries_map(next@).dom().contains(k) {
                        let e = choose|e: int| has_slot(next@, k, e);
                    }
                    if entries_map(self.entries@).dom().contains(k) {
                        let e = choose|e: int| has_slot(self.entries@, k, e);
                        assert(has_slot(next@, k, e));
                    }
                }
            }
        }
        Self { entries: next }
    }
}

impl PartialEq for EquippableAttributes {
    /// Two sets of attributes are equal when every slot holds the same in both. Neither the
    /// order of the entries counts nor an entry that holds nothing.
    fn eq(&self, other: &Self) -> (r: bool) {
        self.agrees_with(other) && other.agrees_with(self)
    }
}

impl PartialEqSpecImpl for EquippableAttributes {
    open spec fn obeys_eq_spec() -> bool {
        true
    }

    open spec fn eq_spec(&self, other: &Self) -> bool {
        same_attributes(self@, other@)
    }
}

} // verus!
