//! Searching, cutting and joining byte strings.

use vstd::prelude::*;

verus! {

/// Position of the first `needle` in `s`, if there is one.
pub open spec fn first_index(s: Seq<u8>, needle: u8) -> Option<int> {
    s.index_of_first(needle)
}

/// Position of the last `needle` in `s`, if there is one.
pub open spec fn last_index(s: Seq<u8>, needle: u8) -> Option<int> {
    s.index_of_last(needle)
}

/// What [`first_index`] returns: the index holds `needle` and none before it does.
pub proof fn lemma_first_index(s: Seq<u8>, needle: u8)
    ensures
        match first_index(s, needle) {
            Some(i) => 0 <= i < s.len() && s[i] == needle && !s.take(i).contains(needle),
            None => !s.contains(needle),
        },
{
    s.index_of_first_ensures(needle);
}

/// What [`last_index`] returns: the index holds `needle` and none after it does.
pub proof fn lemma_last_index(s: Seq<u8>, needle: u8)
    ensures
        match last_index(s, needle) {
            Some(i) => 0 <= i < s.len() && s[i] == needle && !s.skip(i + 1).contains(needle),
            None => !s.contains(needle),
        },
{
    s.index_of_last_ensures(needle);
}

/// An index that holds `needle` and has none before it is the first index.
pub proof fn lemma_first_index_is(s: Seq<u8>, needle: u8, i: int)
    requires
        0 <= i < s.len(),
        s[i] == needle,
        !s.take(i).contains(needle),
    ensures
        first_index(s, needle) == Some(i),
{
    lemma_first_index(s, needle);
    let j = first_index(s, needle).unwrap();
    if j < i {
        assert(s.take(i)[j] == needle);
    } else if i < j {
        assert(s.take(j)[i] == needle);
    }
}

/// An index that holds `needle` and has none after it is the last index.
pub proof fn lemma_last_index_is(s: Seq<u8>, needle: u8, i: int)
    requires
        0 <= i < s.len(),
        s[i] == needle,
        !s.skip(i + 1).contains(needle),
    ensures
        last_index(s, needle) == Some(i),
{
    lemma_last_index(s, needle);
    let j = last_index(s, needle).unwrap();
    if j < i {
        assert(s.skip(j + 1)[i - j - 1] == needle);
    } else if i < j {
        assert(s.skip(i + 1)[j - i - 1] == needle);
    }
}

/// A byte occurs in a concatenation exactly when it occurs in one of the two parts.
pub proof fn lemma_contains_concat(a: Seq<u8>, b: Seq<u8>, needle: u8)
    ensures
        (a + b).contains(needle) <==> a.contains(needle) || b.contains(needle),
{
    let c = a + b;
    if c.contains(needle) {
        let i = choose|i: int| 0 <= i < c.len() && c[i] == needle;
        if i < a.len() {
            assert(a[i] == needle);
        } else {
            assert(b[i - a.len()] == needle);
        }
    }
    if a.contains(needle) {
        let i = choose|i: int| 0 <= i < a.len() && a[i] == needle;
        assert(c[i] == needle);
    }
    if b.contains(needle) {
        let i = choose|i: int| 0 <= i < b.len() && b[i] == needle;
        assert(c[a.len() + i] == needle);
    }
}

/// True when `a` and `b` hold the same bytes.
pub fn bytes_eq(a: &[u8], b: &[u8]) -> (r: bool)
    ensures
        r == (a@ == b@),
{
    if a.len() != b.len() {
        return false;
    }
    let mut i: usize = 0;
    while i < a.len()
        invariant
            i <= a.len(),
            a.len() == b.len(),
            a@.take(i as int) == b@.take(i as int),
        decreases a.len() - i,
    {
        if a[i] != b[i] {
            return false;
        }
        i += 1;
    }
    assert(a@.take(a.len() as int) == a@);
    assert(b@.take(b.len() as int) == b@);
    true
}

/// True when `needle` occurs in `s`.
pub fn contains_byte(s: &[u8], needle: u8) -> (r: bool)
    ensures
        r == s@.contains(needle),
{
    let mut i: usize = 0;
    while i < s.len()
        invariant
            i <= s.len(),
            !s@.take(i as int).contains(needle),
        decreases s.len() - i,
    {
        if s[i] == needle {
            return true;
        }
        i += 1;
    }
    assert(s@.take(s.len() as int) == s@);
    false
}

/// Position of the first `needle` in `s`.
pub fn find_first(s: &[u8], needle: u8) -> (r: Option<usize>)
    ensures
        match r {
            Some(i) => i < s.len() && first_index(s@, needle) == Some(i as int),
            None => first_index(s@, needle).is_none(),
        },
{
    let mut i: usize = 0;
    while i < s.len()
        invariant
            i <= s.len(),
            !s@.take(i as int).contains(needle),
        decreases s.len() - i,
    {
        if s[i] == needle {
            proof {
                lemma_first_index_is(s@, needle, i as int);
            }
            return Some(i);
        }
        i += 1;
    }
    assert(s@.take(s.len() as int) == s@);
    proof {
        lemma_first_index(s@, needle);
    }
    None
}

/// Position of the last `needle` in `s`.
pub fn find_last(s: &[u8], needle: u8) -> (r: Option<usize>)
    ensures
        match r {
            Some(i) => i < s.len() && last_index(s@, needle) == Some(i as int),
            None => last_index(s@, needle).is_none(),
        },
{
    let mut i: usize = s.len();
    while i > 0
        invariant
            i <= s.len(),
            !s@.skip(i as int).contains(needle),
        decreases i,
    {
        i -= 1;
        if s[i] == needle {
            proof {
                lemma_last_index_is(s@, needle, i as int);
            }
            return Some(i);
        }
        assert(s@.skip(i as int) == seq![s@[i as int]] + s@.skip(i + 1));
    }
    assert(s@.skip(0) == s@);
    proof {
        lemma_last_index(s@, needle);
    }
    None
}

/// Copies the bytes of `s` from `from` up to `to`.
pub fn copy_range(s: &[u8], from: usize, to: usize) -> (r: Vec<u8>)
    requires
        from <= to <= s.len(),
    ensures
        r@ == s@.subrange(from as int, to as int),
{
    let mut out: Vec<u8> = Vec::new();
    let mut i: usize = from;
    while i < to
        invariant
            from <= i <= to <= s.len(),
            out@ == s@.subrange(from as int, i as int),
        decreases to - i,
    {
        out.push(s[i]);
        assert(s@.subrange(from as int, i + 1) == s@.subrange(from as int, i as int).push(
            s@[i as int],
        ));
        i += 1;
    }
    out
}

/// Copies the bytes of `s`.
pub fn copy(s: &[u8]) -> (r: Vec<u8>)
    ensures
        r@ == s@,
{
    let out = copy_range(s, 0, s.len());
    out
}

/// Appends the bytes of `s` to `out`.
pub fn append(out: &mut Vec<u8>, s: &[u8])
    ensures
        final(out)@ == old(out)@ + s@,
{
    let mut i: usize = 0;
    while i < s.len()
        invariant
            i <= s.len(),
            out@ == old(out)@ + s@.take(i as int),
        decreases s.len() - i,
    {
        out.push(s[i]);
        i += 1;
    }
}

} // verus!
