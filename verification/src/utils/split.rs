//! Cutting a byte string at a separator, and joining the pieces again.

use vstd::prelude::*;
use crate::utils::bytes::{copy_range, find_first, find_last, first_index, last_index, lemma_first_index, lemma_first_index_is, lemma_last_index};

verus! {

/// The pieces of `s` between the occurrences of `sep`. A string without `sep` is one piece;
/// so is the empty string.
pub open spec fn split(s: Seq<u8>, sep: u8) -> Seq<Seq<u8>>
    decreases s.len(),
{
    match first_index(s, sep) {
        None => seq![s],
        Some(i) => {
            if 0 <= i < s.len() {
                seq![s.take(i)] + split(s.skip(i + 1), sep)
            } else {
                seq![s]
            }
        },
    }
}

/// The pieces of `parts` with `sep` between each two neighbours.
pub open spec fn join(parts: Seq<Seq<u8>>, sep: u8) -> Seq<u8>
    decreases parts.len(),
{
    if parts.len() == 0 {
        Seq::empty()
    } else if parts.len() == 1 {
        parts[0]
    } else {
        parts[0] + seq![sep] + join(parts.skip(1), sep)
    }
}

/// No piece holds `sep`.
pub open spec fn free_of(parts: Seq<Seq<u8>>, sep: u8) -> bool {
    forall|i: int| 0 <= i < parts.len() ==> !(#[trigger] parts[i]).contains(sep)
}

/// Joining one more piece at the end.
pub proof fn lemma_join_push(parts: Seq<Seq<u8>>, last: Seq<u8>, sep: u8)
    requires
        parts.len() > 0,
    ensures
        join(parts.push(last), sep) == join(parts, sep) + seq![sep] + last,
    decreases parts.len(),
{
    let all = parts.push(last);
    if parts.len() == 1 {
        assert(join(all.skip(1), sep) == last);
    } else {
        assert(all.skip(1) =~= parts.skip(1).push(last));
        lemma_join_push(parts.skip(1), last, sep);
    }
}

/// Cutting a join at the separator gives the pieces back, when no piece holds the separator.
pub proof fn lemma_split_join(parts: Seq<Seq<u8>>, sep: u8)
    requires
        parts.len() > 0,
        free_of(parts, sep),
    ensures
        split(join(parts, sep), sep) == parts,
    decreases parts.len(),
{
    let joined = join(parts, sep);
    if parts.len() == 1 {
        lemma_first_index(joined, sep);
    } else {
        let head = parts[0];
        let rest = parts.skip(1);
        let tail = join(rest, sep);
        assert(joined.take(head.len() as int) =~= head);
        assert(joined.skip(head.len() as int + 1) =~= tail);
        lemma_first_index_is(joined, sep, head.len() as int);
        assert forall|i: int| 0 <= i < rest.len() implies !(#[trigger] rest[i]).contains(sep) by {
            assert(rest[i] == parts[i + 1]);
        }
        lemma_split_join(rest, sep);
    }
}

/// The bytes of `v`, piece by piece.
pub open spec fn pieces(v: Seq<Vec<u8>>) -> Seq<Seq<u8>> {
    Seq::new(v.len(), |i: int| v[i]@)
}

/// Cuts `s` at every `sep`.
pub fn split_buffer(s: &[u8], sep: u8) -> (r: Vec<Vec<u8>>)
    ensures
        pieces(r@) == split(s@, sep),
{
    let mut parts: Vec<Vec<u8>> = Vec::new();
    let mut start: usize = 0;
    let mut i: usize = 0;
    proof {
        assert(s@.skip(0) =~= s@);
    }
    while i < s.len()
        invariant
            start <= i <= s.len(),
            !s@.subrange(start as int, i as int).contains(sep),
            split(s@, sep) == pieces(parts@) + split(s@.skip(start as int), sep),
        decreases s.len() - i,
    {
        if s[i] == sep {
            let piece = copy_range(s, start, i);
            proof {
                let rest = s@.skip(start as int);
                assert(rest.take(i - start) =~= s@.subrange(start as int, i as int));
                lemma_first_index_is(rest, sep, i - start);
                assert(rest.skip(i - start + 1) =~= s@.skip(i + 1));
            }
            parts.push(piece);
            start = i + 1;
        } else {
            assert(s@.subrange(start as int, i + 1) == s@.subrange(start as int, i as int).push(
                s@[i as int],
            ));
        }
        i += 1;
    }
    let piece = copy_range(s, start, s.len());
    proof {
        let rest = s@.skip(start as int);
        lemma_first_index(rest, sep);
    }
    parts.push(piece);
    parts
}

/// Cuts `s` once, at the first `sep`: what stands before it and what stands after it.
pub fn split_first_occurence(s: &[u8], sep: u8) -> (r: Option<(Vec<u8>, Vec<u8>)>)
    ensures
        match first_index(s@, sep) {
            Some(i) => r.is_some() && r.unwrap().0@ == s@.take(i) && r.unwrap().1@ == s@.skip(
                i + 1,
            ),
            None => r.is_none(),
        },
{
    proof {
        lemma_first_index(s@, sep);
    }
    match find_first(s, sep) {
        Some(i) => {
            let before = copy_range(s, 0, i);
            let after = copy_range(s, i + 1, s.len());
            Some((before, after))
        },
        None => None,
    }
}

/// Cuts `s` once, at the last `sep`: what stands before it and what stands after it.
pub fn split_last_occurence(s: &[u8], sep: u8) -> (r: Option<(Vec<u8>, Vec<u8>)>)
    ensures
        match last_index(s@, sep) {
            Some(i) => r.is_some() && r.unwrap().0@ == s@.take(i) && r.unwrap().1@ == s@.skip(
                i + 1,
            ),
            None => r.is_none(),
        },
{
    proof {
        lemma_last_index(s@, sep);
    }
    match find_last(s, sep) {
        Some(i) => {
            let before = copy_range(s, 0, i);
            let after = copy_range(s, i + 1, s.len());
            Some((before, after))
        },
        None => None,
    }
}

/// `s` without its first and its last byte; `None` when `s` is shorter than two bytes.
pub fn remove_first_and_last_char(s: &[u8]) -> (r: Option<Vec<u8>>)
    ensures
        match r {
            Some(inner) => s@.len() >= 2 && inner@ == s@.subrange(1, s@.len() - 1),
            None => s@.len() < 2,
        },
{
    if s.len() < 2 {
        None
    } else {
        Some(copy_range(s, 1, s.len() - 1))
    }
}

} // verus!
