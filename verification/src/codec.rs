//! The canonical text form of a set of attributes, stated over mathematical values, and the
//! laws that hold of it.
//!
//! A set of attributes is a finite map from slot names to what each slot holds. Its text
//! lists the slots in ascending order, one entry `slot:value` for each, with `;` between
//! the entries.

use vstd::prelude::*;
use crate::constants::{unequipped, ENTRY_SEPARATOR, SLOT_SEPARATOR};
use crate::error::Error;
use crate::structs::item::{
    lemma_parse_render_item, lemma_render_item_free, parse_item, render_item, valid_item,
    ItemView,
};
use crate::utils::bytes::{first_index, lemma_contains_concat, lemma_first_index, lemma_first_index_is};
use crate::utils::case::{is_normalized, lemma_lower_seq_normalized, lower_seq};
use crate::utils::order::{
    ascending_listing, lemma_ascending_listing_exists, lemma_ascending_no_duplicates,
};
use crate::utils::split::{join, lemma_split_join, split};

verus! {

/// What a set of attributes stands for: each slot that it has an entry for, with the item
/// that the slot holds or `None`.
pub type Attributes = Map<Seq<u8>, Option<ItemView>>;

/// A slot name that the wire format can carry: lower case, with neither `:` nor `;`.
pub open spec fn valid_slot(slot: Seq<u8>) -> bool {
    &&& is_normalized(slot)
    &&& !slot.contains(SLOT_SEPARATOR)
    &&& !slot.contains(ENTRY_SEPARATOR)
}

/// Attributes that the wire format can carry: finitely many slots, each valid, each item
/// valid.
pub open spec fn valid_attributes(m: Attributes) -> bool {
    &&& m.dom().finite()
    &&& forall|k: Seq<u8>| #[trigger]
        m.dom().contains(k) ==> valid_slot(k) && (m[k] matches Some(item) ==> valid_item(item))
}

/// What `slot` holds in `m`. A slot without an entry holds nothing.
pub open spec fn resolved(m: Attributes, slot: Seq<u8>) -> Option<ItemView> {
    if m.dom().contains(slot) {
        m[slot]
    } else {
        None
    }
}

/// Two sets of attributes are the same when every slot holds the same in both.
pub open spec fn same_attributes(a: Attributes, b: Attributes) -> bool {
    forall|slot: Seq<u8>| resolved(a, slot) == resolved(b, slot)
}

/// The text of what a slot holds: the item's text, or `unequipped`.
pub open spec fn render_value(value: Option<ItemView>) -> Seq<u8> {
    match value {
        None => unequipped(),
        Some(item) => render_item(item),
    }
}

/// The text of one entry: the slot, `:`, the value.
pub open spec fn render_entry(slot: Seq<u8>, value: Option<ItemView>) -> Seq<u8> {
    slot + seq![SLOT_SEPARATOR] + render_value(value)
}

/// The entries of `m` for the slots of `order`, in that order.
pub open spec fn render_entries(order: Seq<Seq<u8>>, m: Attributes) -> Seq<Seq<u8>> {
    Seq::new(order.len(), |i: int| render_entry(order[i], m[order[i]]))
}

/// The canonical text of `m`: its entries in ascending order of their slots, joined by `;`.
/// The text of no entries is empty.
pub open spec fn encode_spec(m: Attributes) -> Seq<u8> {
    join(render_entries(ascending_listing(m.dom()), m), ENTRY_SEPARATOR)
}

/// What a value's text writes: `unequipped` writes an empty slot, any other text an item.
/// `None` where the text writes neither.
pub open spec fn parse_value(text: Seq<u8>) -> Option<Option<ItemView>> {
    if text == unequipped() {
        Some(None)
    } else {
        match parse_item(text) {
            Some(item) => Some(Some(item)),
            None => None,
        }
    }
}

/// What an entry's text writes: the slot before the first `:`, in lower case, and the value
/// behind it. `None` where there is no `:`, the slot holds `;`, or the value is malformed.
pub open spec fn parse_entry(entry: Seq<u8>) -> Option<(Seq<u8>, Option<ItemView>)> {
    match first_index(entry, SLOT_SEPARATOR) {
        None => None,
        Some(p) => {
            let slot = lower_seq(entry.take(p));
            if slot.contains(ENTRY_SEPARATOR) {
                None
            } else {
                match parse_value(entry.skip(p + 1)) {
                    None => None,
                    Some(value) => Some((slot, value)),
                }
            }
        },
    }
}

/// The attributes that the entries write, read from the first to the last. The first entry
/// that is malformed, or that names a slot again, decides the error.
pub open spec fn decode_entries(entries: Seq<Seq<u8>>) -> Result<Attributes, Error>
    decreases entries.len(),
{
    if entries.len() == 0 {
        Ok(Map::empty())
    } else {
        match decode_entries(entries.drop_last()) {
            Err(e) => Err(e),
            Ok(m) => match parse_entry(entries.last()) {
                None => Err(Error::MalformedAttributeEntry),
                Some((slot, value)) => if m.dom().contains(slot) {
                    Err(Error::DuplicateSlot)
                } else {
                    Ok(m.insert(slot, value))
                },
            },
        }
    }
}

/// The attributes that `bytes` write. The empty text writes the attributes without entries;
/// any other text is cut at every `;` into entries.
pub open spec fn decode_spec(bytes: Seq<u8>) -> Result<Attributes, Error> {
    if bytes.len() == 0 {
        Ok(Map::empty())
    } else {
        decode_entries(split(bytes, ENTRY_SEPARATOR))
    }
}

/// The attributes made by setting the pairs one after the other, a later pair replacing an
/// earlier one for the same slot.
pub open spec fn assemble(pairs: Seq<(Seq<u8>, Option<ItemView>)>) -> Attributes
    decreases pairs.len(),
{
    if pairs.len() == 0 {
        Map::empty()
    } else {
        assemble(pairs.drop_last()).insert(pairs.last().0, pairs.last().1)
    }
}

/// No two pairs are for the same slot.
pub open spec fn distinct_slots(pairs: Seq<(Seq<u8>, Option<ItemView>)>) -> bool {
    forall|i: int, j: int|
        0 <= i < j < pairs.len() ==> (#[trigger] pairs[i]).0 != (#[trigger] pairs[j]).0
}

/// Lower-casing moves no reserved byte in or out of a slot name.
pub proof fn lemma_lower_keeps_separators(s: Seq<u8>, b: u8)
    requires
        b == SLOT_SEPARATOR || b == ENTRY_SEPARATOR,
    ensures
        lower_seq(s).contains(b) <==> s.contains(b),
{
    let l = lower_seq(s);
    if l.contains(b) {
        let i = choose|i: int| 0 <= i < l.len() && l[i] == b;
    }
    if s.contains(b) {
        let i = choose|i: int| 0 <= i < s.len() && s[i] == b;
        assert(l[i] == b);
    }
}

/// What an entry writes is a valid slot with a valid value.
pub proof fn lemma_parse_entry_valid(entry: Seq<u8>)
    ensures
        match parse_entry(entry) {
            Some((slot, value)) => valid_slot(slot) && (value matches Some(item) ==> valid_item(
                item,
            )),
            None => true,
        },
{
    lemma_first_index(entry, SLOT_SEPARATOR);
    if let Some(p) = first_index(entry, SLOT_SEPARATOR) {
        lemma_lower_seq_normalized(entry.take(p));
        lemma_lower_keeps_separators(entry.take(p), SLOT_SEPARATOR);
    }
}

/// Whatever the entries decode to is valid.
pub proof fn lemma_decode_entries_valid(entries: Seq<Seq<u8>>)
    ensures
        decode_entries(entries) matches Ok(m) ==> valid_attributes(m),
    decreases entries.len(),
{
    if entries.len() > 0 {
        lemma_decode_entries_valid(entries.drop_last());
        lemma_parse_entry_valid(entries.last());
    }
}

/// Every text that decodes gives valid attributes.
pub proof fn lemma_decode_valid(bytes: Seq<u8>)
    ensures
        decode_spec(bytes) matches Ok(m) ==> valid_attributes(m),
{
    if bytes.len() > 0 {
        lemma_decode_entries_valid(split(bytes, ENTRY_SEPARATOR));
    }
}

/// Once reading has failed, further entries do not change the error.
pub proof fn lemma_decode_entries_error_stays(entries: Seq<Seq<u8>>, k: int)
    requires
        0 <= k <= entries.len(),
        decode_entries(entries.take(k)).is_err(),
    ensures
        decode_entries(entries) == decode_entries(entries.take(k)),
    decreases entries.len() - k,
{
    if k == entries.len() {
        assert(entries.take(k) =~= entries);
    } else {
        assert(entries.drop_last().take(k) =~= entries.take(k));
        lemma_decode_entries_error_stays(entries.drop_last(), k);
    }
}

/// The text of a valid entry holds no `;`.
pub proof fn lemma_render_entry_free(slot: Seq<u8>, value: Option<ItemView>)
    requires
        valid_slot(slot),
        value matches Some(item) ==> valid_item(item),
    ensures
        !render_entry(slot, value).contains(ENTRY_SEPARATOR),
        render_entry(slot, value).len() > 0,
{
    let v = render_value(value);
    match value {
        None => {},
        Some(item) => {
            lemma_render_item_free(item);
        },
    }
    lemma_contains_concat(slot, seq![SLOT_SEPARATOR], ENTRY_SEPARATOR);
    lemma_contains_concat(slot + seq![SLOT_SEPARATOR], v, ENTRY_SEPARATOR);
}

/// Reading the text of a valid entry gives the slot and the value back.
pub proof fn lemma_parse_render_entry(slot: Seq<u8>, value: Option<ItemView>)
    requires
        valid_slot(slot),
        value matches Some(item) ==> valid_item(item),
    ensures
        parse_entry(render_entry(slot, value)) == Some((slot, value)),
{
    let v = render_value(value);
    let entry = render_entry(slot, value);
    let p = slot.len() as int;
    assert(entry.skip(p + 1) =~= v);
    lemma_first_index_is(entry, SLOT_SEPARATOR, p);
    lemma_lower_seq_normalized(slot);
    match value {
        None => {},
        Some(item) => {
            lemma_render_item_free(item);
            lemma_parse_render_item(item);
        },
    }
}

/// The part of `m` that the first `j` slots of `order` cover.
pub open spec fn covered(order: Seq<Seq<u8>>, m: Attributes, j: int) -> Attributes {
    Map::new(|k: Seq<u8>| exists|i: int| 0 <= i < j && order[i] == k, |k: Seq<u8>| m[k])
}

proof fn lemma_decode_rendered(order: Seq<Seq<u8>>, m: Attributes, j: int)
    requires
        order.no_duplicates(),
        forall|i: int| 0 <= i < order.len() ==> m.dom().contains(#[trigger] order[i]),
        valid_attributes(m),
        0 <= j <= order.len(),
    ensures
        decode_entries(render_entries(order, m).take(j)) == Ok::<Attributes, Error>(
            covered(order, m, j),
        ),
    decreases j,
{
    let rendered = render_entries(order, m);
    if j == 0 {
        assert(covered(order, m, 0) =~= Map::<Seq<u8>, Option<ItemView>>::empty());
    } else {
        let prefix = rendered.take(j);
        assert(prefix.drop_last() =~= rendered.take(j - 1));
        lemma_decode_rendered(order, m, j - 1);
        lemma_parse_render_entry(order[j - 1], m[order[j - 1]]);
        let before = covered(order, m, j - 1);
        assert(before.insert(order[j - 1], m[order[j - 1]]) =~= covered(order, m, j));
    }
}

/// The text of one or more valid entries is not empty and is cut back into those entries.
proof fn lemma_split_rendered(order: Seq<Seq<u8>>, m: Attributes)
    requires
        order.len() > 0,
        forall|i: int| 0 <= i < order.len() ==> m.dom().contains(#[trigger] order[i]),
        valid_attributes(m),
    ensures
        join(render_entries(order, m), ENTRY_SEPARATOR).len() > 0,
        split(join(render_entries(order, m), ENTRY_SEPARATOR), ENTRY_SEPARATOR) == render_entries(
            order,
            m,
        ),
{
    let rendered = render_entries(order, m);
    assert forall|i: int| 0 <= i < rendered.len() implies !(#[trigger] rendered[i]).contains(
        ENTRY_SEPARATOR,
    ) by {
        lemma_render_entry_free(order[i], m[order[i]]);
    }
    lemma_split_join(rendered, ENTRY_SEPARATOR);
    lemma_render_entry_free(order[0], m[order[0]]);
}

/// Decoding the canonical text of valid attributes gives exactly those attributes back,
/// slot by slot, whatever the order in which they had been put together.
pub proof fn lemma_decode_encode(m: Attributes)
    requires
        valid_attributes(m),
    ensures
        decode_spec(encode_spec(m)) == Ok::<Attributes, Error>(m),
{
    let order = ascending_listing(m.dom());
    lemma_ascending_listing_exists(m.dom());
    lemma_ascending_no_duplicates(order);
    assert forall|i: int| 0 <= i < order.len() implies m.dom().contains(#[trigger] order[i]) by {
        assert(order.contains(order[i]));
    }
    let rendered = render_entries(order, m);
    if order.len() == 0 {
        assert forall|k: Seq<u8>| !m.dom().contains(k) by {
            if m.dom().contains(k) {
                assert(order.contains(k));
            }
        }
        assert(m =~= Map::<Seq<u8>, Option<ItemView>>::empty());
    } else {
        lemma_split_rendered(order, m);
        lemma_decode_rendered(order, m, order.len() as int);
        assert(rendered.take(order.len() as int) =~= rendered);
        assert(covered(order, m, order.len() as int) =~= m) by {
            assert forall|k: Seq<u8>| m.dom().contains(k) implies covered(
                order,
                m,
                order.len() as int,
            ).dom().contains(k) by {
                assert(order.contains(k));
            }
        }
    }
}

/// Different valid attributes have different canonical texts: no text can be read in two
/// ways.
pub proof fn lemma_encode_injective(a: Attributes, b: Attributes)
    requires
        valid_attributes(a),
        valid_attributes(b),
        encode_spec(a) == encode_spec(b),
    ensures
        a == b,
{
    lemma_decode_encode(a);
    lemma_decode_encode(b);
}

/// A slot has an entry in the assembled attributes exactly when a pair is for it, and with
/// pairs for different slots each pair's value is what its slot holds.
pub proof fn lemma_assemble(pairs: Seq<(Seq<u8>, Option<ItemView>)>)
    ensures
        forall|k: Seq<u8>|
            assemble(pairs).dom().contains(k) <==> exists|i: int|
                0 <= i < pairs.len() && (#[trigger] pairs[i]).0 == k,
        distinct_slots(pairs) ==> forall|i: int|
            0 <= i < pairs.len() ==> assemble(pairs)[(#[trigger] pairs[i]).0] == pairs[i].1,
    decreases pairs.len(),
{
    if pairs.len() > 0 {
        let head = pairs.drop_last();
        let last = pairs.last();
        lemma_assemble(head);
        assert forall|k: Seq<u8>|
            assemble(pairs).dom().contains(k) <==> exists|i: int|
                0 <= i < pairs.len() && (#[trigger] pairs[i]).0 == k by {
            if assemble(pairs).dom().contains(k) {
                if k == last.0 {
                    assert(pairs[pairs.len() - 1].0 == k);
                } else {
                    assert(assemble(pairs) == assemble(head).insert(last.0, last.1));
                    let i = choose|i: int| 0 <= i < head.len() && (#[trigger] head[i]).0 == k;
                }
            }
            if exists|i: int| 0 <= i < pairs.len() && (#[trigger] pairs[i]).0 == k {
                let i = choose|i: int| 0 <= i < pairs.len() && (#[trigger] pairs[i]).0 == k;
                if i < head.len() {
                    assert(head[i].0 == k);
                }
            }
        }
        if distinct_slots(pairs) {
            assert(distinct_slots(head)) by {
                assert forall|i: int, j: int| 0 <= i < j < head.len() implies (#[trigger] head[i]).0
                    != (#[trigger] head[j]).0 by {
                    assert(pairs[i].0 != pairs[j].0);
                }
            }
            assert forall|i: int| 0 <= i < pairs.len() implies assemble(pairs)[(
                #[trigger] pairs[i]).0] == pairs[i].1 by {
                if i < head.len() {
                    assert(head[i] == pairs[i]);
                }
            }
        }
    }
}

/// Putting the same pairs together in another order gives the same attributes, and so the
/// same canonical text, byte for byte. The pairs are for different slots.
pub proof fn lemma_encode_order_independent(
    a: Seq<(Seq<u8>, Option<ItemView>)>,
    b: Seq<(Seq<u8>, Option<ItemView>)>,
)
    requires
        distinct_slots(a),
        distinct_slots(b),
        forall|pair: (Seq<u8>, Option<ItemView>)| a.contains(pair) <==> b.contains(pair),
    ensures
        assemble(a) == assemble(b),
        encode_spec(assemble(a)) == encode_spec(assemble(b)),
{
    lemma_assemble(a);
    lemma_assemble(b);
    let ma = assemble(a);
    let mb = assemble(b);
    assert forall|k: Seq<u8>| ma.dom().contains(k) implies mb.dom().contains(k) && ma[k] == mb[k] by {
        let i = choose|i: int| 0 <= i < a.len() && (#[trigger] a[i]).0 == k;
        assert(a.contains(a[i]));
    }
    assert forall|k: Seq<u8>| mb.dom().contains(k) implies ma.dom().contains(k) by {
        let i = choose|i: int| 0 <= i < b.len() && (#[trigger] b[i]).0 == k;
        assert(b.contains(b[i]));
    }
    assert(ma =~= mb);
}

/// An empty slot is written as `slot:unequipped`, and that text is read as the slot holding
/// nothing, not as an item of that name.
pub proof fn lemma_empty_slot_literal(slot: Seq<u8>)
    requires
        valid_slot(slot),
    ensures
        render_entry(slot, None) == slot + seq![SLOT_SEPARATOR] + unequipped(),
        parse_entry(slot + seq![SLOT_SEPARATOR] + unequipped()) == Some(
            (slot, None::<ItemView>),
        ),
{
    lemma_parse_render_entry(slot, None);
}

} // verus!
