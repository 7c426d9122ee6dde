//! ASCII case conversion.

use vstd::prelude::*;

verus! {

/// True for the ASCII letters `A` to `Z`.
pub open spec fn is_upper(b: u8) -> bool {
    65 <= b <= 90
}

/// True for the ASCII letters `a` to `z`.
pub open spec fn is_lower(b: u8) -> bool {
    97 <= b <= 122
}

/// The lower-case form of one byte: `A`..`Z` become `a`..`z`, every other byte stays.
pub open spec fn lower(b: u8) -> u8 {
    if is_upper(b) {
        (b + 32) as u8
    } else {
        b
    }
}

/// The upper-case form of one byte: `a`..`z` become `A`..`Z`, every other byte stays.
pub open spec fn upper(b: u8) -> u8 {
    if is_lower(b) {
        (b - 32) as u8
    } else {
        b
    }
}

/// `s` with every byte lower-cased.
pub open spec fn lower_seq(s: Seq<u8>) -> Seq<u8> {
    Seq::new(s.len(), |i: int| lower(s[i]))
}

/// True when `s` holds no upper-case ASCII letter.
pub open spec fn is_normalized(s: Seq<u8>) -> bool {
    forall|i: int| 0 <= i < s.len() ==> !is_upper(#[trigger] s[i])
}

/// `s` with its first byte upper-cased.
pub open spec fn capitalize_seq(s: Seq<u8>) -> Seq<u8> {
    if s.len() == 0 {
        s
    } else {
        s.update(0, upper(s[0]))
    }
}

/// Lower-casing yields a string without upper-case letters, and leaves such a string as it is.
pub proof fn lemma_lower_seq_normalized(s: Seq<u8>)
    ensures
        is_normalized(lower_seq(s)),
        is_normalized(s) ==> lower_seq(s) == s,
        lower_seq(lower_seq(s)) == lower_seq(s),
{
    assert(is_normalized(s) ==> lower_seq(s) =~= s);
}

/// Lower-cases one byte.
pub fn lower_byte(b: u8) -> (r: u8)
    ensures
        r == lower(b),
{
    if b >= 65 && b <= 90 {
        b + 32
    } else {
        b
    }
}

/// Upper-cases one byte.
pub fn upper_byte(b: u8) -> (r: u8)
    ensures
        r == upper(b),
{
    if b >= 97 && b <= 122 {
        b - 32
    } else {
        b
    }
}

/// Lower-cases every byte of `s`.
pub fn to_lowercase(s: &[u8]) -> (r: Vec<u8>)
    ensures
        r@ == lower_seq(s@),
{
    let mut out: Vec<u8> = Vec::new();
    let mut i: usize = 0;
    while i < s.len()
        invariant
            i <= s.len(),
            out@ == lower_seq(s@.take(i as int)),
        decreases s.len() - i,
    {
        out.push(lower_byte(s[i]));
        i += 1;
    }
    out
}

/// Upper-cases the first byte of `s` and copies the rest.
pub fn capitalize(s: &[u8]) -> (r: Vec<u8>)
    ensures
        r@ == capitalize_seq(s@),
{
    let mut out: Vec<u8> = Vec::new();
    let mut i: usize = 0;
    while i < s.len()
        invariant
            i <= s.len(),
            out@ == capitalize_seq(s@).take(i as int),
        decreases s.len() - i,
    {
        let b = if i == 0 {
            upper_byte(s[i])
        } else {
            s[i]
        };
        out.push(b);
        assert(capitalize_seq(s@).take(i + 1) == capitalize_seq(s@).take(i as int).push(
            capitalize_seq(s@)[i as int],
        ));
        i += 1;
    }
    out
}

} // verus!
