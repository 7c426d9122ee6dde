//! The byte-wise lexicographic order and ascending listings under it.

use vstd::prelude::*;

verus! {

/// `a` and `b` agree on their first `k` bytes, and there `a` ends or holds the smaller byte.
pub open spec fn precedes_at(a: Seq<u8>, b: Seq<u8>, k: int) -> bool {
    &&& 0 <= k <= a.len()
    &&& k < b.len()
    &&& a.take(k) == b.take(k)
    &&& (k == a.len() || a[k] < b[k])
}

/// `a` comes strictly before `b`: `a` is a proper prefix of `b`, or at the first position
/// where they differ `a` holds the smaller byte.
pub open spec fn lex_lt(a: Seq<u8>, b: Seq<u8>) -> bool {
    exists|k: int| precedes_at(a, b, k)
}

/// `s` is strictly ascending.
pub open spec fn ascending(s: Seq<Seq<u8>>) -> bool {
    forall|i: int, j: int| 0 <= i < j < s.len() ==> lex_lt(#[trigger] s[i], #[trigger] s[j])
}

/// `s` lists exactly the members of `keys`, in strictly ascending order.
pub open spec fn is_ascending_listing(s: Seq<Seq<u8>>, keys: Set<Seq<u8>>) -> bool {
    &&& ascending(s)
    &&& forall|k: Seq<u8>| keys.contains(k) <==> s.contains(k)
}

/// The members of `keys` in strictly ascending order.
pub open spec fn ascending_listing(keys: Set<Seq<u8>>) -> Seq<Seq<u8>> {
    choose|s: Seq<Seq<u8>>| is_ascending_listing(s, keys)
}

proof fn lemma_take_agree(a: Seq<u8>, b: Seq<u8>, k: int, j: int)
    requires
        0 <= j < k <= a.len(),
        k <= b.len(),
        a.take(k) == b.take(k),
    ensures
        a[j] == b[j],
{
    assert(a.take(k)[j] == a[j]);
}

proof fn lemma_take_shorter(a: Seq<u8>, b: Seq<u8>, k: int, j: int)
    requires
        0 <= j <= k <= a.len(),
        k <= b.len(),
        a.take(k) == b.take(k),
    ensures
        a.take(j) == b.take(j),
{
    assert(a.take(j) =~= a.take(k).take(j));
}

/// No string comes before itself.
pub proof fn lemma_lex_irreflexive(a: Seq<u8>)
    ensures
        !lex_lt(a, a),
{
}

/// Of two strings at most one comes before the other.
pub proof fn lemma_lex_asymmetric(a: Seq<u8>, b: Seq<u8>)
    requires
        lex_lt(a, b),
    ensures
        !lex_lt(b, a),
{
    let k = choose|k: int| precedes_at(a, b, k);
    if lex_lt(b, a) {
        let m = choose|m: int| precedes_at(b, a, m);
        if k < m {
            lemma_take_agree(b, a, m, k);
        } else if m < k {
            lemma_take_agree(a, b, k, m);
        }
    }
}

/// The order is transitive.
pub proof fn lemma_lex_transitive(a: Seq<u8>, b: Seq<u8>, c: Seq<u8>)
    requires
        lex_lt(a, b),
        lex_lt(b, c),
    ensures
        lex_lt(a, c),
{
    let k = choose|k: int| precedes_at(a, b, k);
    let m = choose|m: int| precedes_at(b, c, m);
    if k < m {
        lemma_take_shorter(b, c, m, k);
        lemma_take_agree(b, c, m, k);
        assert(precedes_at(a, c, k));
    } else if k == m {
        assert(precedes_at(a, c, k));
    } else {
        lemma_take_shorter(a, b, k, m);
        lemma_take_agree(a, b, k, m);
        assert(precedes_at(a, c, m));
    }
}

proof fn lemma_lex_connected_from(a: Seq<u8>, b: Seq<u8>, k: int)
    requires
        a != b,
        0 <= k <= a.len(),
        k <= b.len(),
        a.take(k) == b.take(k),
    ensures
        lex_lt(a, b) || lex_lt(b, a),
    decreases a.len() - k,
{
    if k == a.len() {
        if k == b.len() {
            assert(a.take(k) == a);
            assert(b.take(k) == b);
        } else {
            assert(precedes_at(a, b, k));
        }
    } else if k == b.len() {
        assert(precedes_at(b, a, k));
    } else if a[k] < b[k] {
        assert(precedes_at(a, b, k));
    } else if b[k] < a[k] {
        assert(precedes_at(b, a, k));
    } else {
        assert(a.take(k + 1) == a.take(k).push(a[k]));
        assert(b.take(k + 1) == b.take(k).push(b[k]));
        lemma_lex_connected_from(a, b, k + 1);
    }
}

/// Of two different strings one comes before the other.
pub proof fn lemma_lex_connected(a: Seq<u8>, b: Seq<u8>)
    requires
        a != b,
    ensures
        lex_lt(a, b) || lex_lt(b, a),
{
    assert(a.take(0) == b.take(0));
    lemma_lex_connected_from(a, b, 0);
}

/// Without its last member, an ascending listing lists the set without that member.
pub proof fn lemma_listing_drop_last(s: Seq<Seq<u8>>, keys: Set<Seq<u8>>)
    requires
        is_ascending_listing(s, keys),
        s.len() > 0,
    ensures
        is_ascending_listing(s.drop_last(), keys.remove(s.last())),
        keys.contains(s.last()),
        forall|k: Seq<u8>| keys.contains(k) && k != s.last() ==> lex_lt(k, s.last()),
{
    let x = s.last();
    let s0 = s.drop_last();
    let rest = keys.remove(x);
    assert forall|k: Seq<u8>| rest.contains(k) <==> s0.contains(k) by {
        if rest.contains(k) {
            let p = choose|p: int| 0 <= p < s.len() && s[p] == k;
            assert(s0[p] == k);
        }
        if s0.contains(k) {
            lemma_lex_irreflexive(x);
        }
    }
    assert forall|i: int, j: int| 0 <= i < j < s0.len() implies lex_lt(
        #[trigger] s0[i],
        #[trigger] s0[j],
    ) by {
        assert(lex_lt(s[i], s[j]));
    }
}

/// A string that comes after every member may be put at the end of an ascending listing.
pub proof fn lemma_listing_push(s: Seq<Seq<u8>>, keys: Set<Seq<u8>>, x: Seq<u8>)
    requires
        is_ascending_listing(s, keys),
        forall|k: Seq<u8>| keys.contains(k) ==> lex_lt(k, x),
    ensures
        is_ascending_listing(s.push(x), keys.insert(x)),
{
    let t = s.push(x);
    assert forall|i: int, j: int| 0 <= i < j < t.len() implies lex_lt(
        #[trigger] t[i],
        #[trigger] t[j],
    ) by {
        if j < s.len() {
            assert(lex_lt(s[i], s[j]));
        } else {
            assert(s.contains(s[i]));
        }
    }
    assert forall|k: Seq<u8>| keys.insert(x).contains(k) <==> t.contains(k) by {
        if keys.insert(x).contains(k) {
            if k == x {
                assert(t[s.len() as int] == x);
            } else {
                let p = choose|p: int| 0 <= p < s.len() && s[p] == k;
                assert(t[p] == k);
            }
        }
        if t.contains(k) {
            let p = choose|p: int| 0 <= p < t.len() && t[p] == k;
            if p < s.len() {
                assert(s[p] == k);
            }
        }
    }
}

/// A set has at most one strictly ascending listing.
pub proof fn lemma_ascending_listing_unique(s: Seq<Seq<u8>>, t: Seq<Seq<u8>>, keys: Set<Seq<u8>>)
    requires
        is_ascending_listing(s, keys),
        is_ascending_listing(t, keys),
    ensures
        s == t,
    decreases s.len(),
{
    if s.len() == 0 {
        if t.len() > 0 {
            assert(t.contains(t[0]));
        }
    } else if t.len() == 0 {
        assert(s.contains(s[0]));
    } else {
        // Both listings end in the greatest member.
        let x = s.last();
        let y = t.last();
        lemma_listing_drop_last(s, keys);
        lemma_listing_drop_last(t, keys);
        if x != y {
            lemma_lex_asymmetric(x, y);
        }
        lemma_ascending_listing_unique(s.drop_last(), t.drop_last(), keys.remove(x));
        assert(s =~= s.drop_last().push(x));
    }
}

/// `x` put into the ascending sequence `s` at its place.
pub open spec fn insert_ascending(s: Seq<Seq<u8>>, x: Seq<u8>) -> Seq<Seq<u8>>
    decreases s.len(),
{
    if s.len() == 0 {
        seq![x]
    } else if lex_lt(s.last(), x) {
        s.push(x)
    } else {
        insert_ascending(s.drop_last(), x).push(s.last())
    }
}

/// Putting a new member at its place in an ascending listing gives the listing of the larger set.
pub proof fn lemma_insert_ascending(s: Seq<Seq<u8>>, keys: Set<Seq<u8>>, x: Seq<u8>)
    requires
        is_ascending_listing(s, keys),
        !keys.contains(x),
    ensures
        is_ascending_listing(insert_ascending(s, x), keys.insert(x)),
    decreases s.len(),
{
    if s.len() == 0 {
        assert forall|k: Seq<u8>| keys.contains(k) implies lex_lt(k, x) by {
            assert(s.contains(k));
        }
        lemma_listing_push(s, keys, x);
        assert(s.push(x) =~= seq![x]);
    } else {
        let y = s.last();
        lemma_listing_drop_last(s, keys);
        if lex_lt(y, x) {
            assert forall|k: Seq<u8>| keys.contains(k) implies lex_lt(k, x) by {
                if k != y {
                    lemma_lex_transitive(k, y, x);
                }
            }
            lemma_listing_push(s, keys, x);
        } else {
            lemma_lex_connected(x, y);
            let rest = keys.remove(y);
            lemma_insert_ascending(s.drop_last(), rest, x);
            let r = insert_ascending(s.drop_last(), x);
            lemma_listing_push(r, rest.insert(x), y);
        }
    }
}

/// Every finite set has a strictly ascending listing, and [`ascending_listing`] is it.
pub proof fn lemma_ascending_listing_exists(keys: Set<Seq<u8>>)
    requires
        keys.finite(),
    ensures
        is_ascending_listing(ascending_listing(keys), keys),
    decreases keys.len(),
{
    if keys.len() == 0 {
        let e = Seq::<Seq<u8>>::empty();
        assert forall|k: Seq<u8>| keys.contains(k) <==> e.contains(k) by {
            if keys.contains(k) {
                assert(keys.len() != 0);
            }
        }
        assert(is_ascending_listing(e, keys));
    } else {
        let x = keys.choose();
        let rest = keys.remove(x);
        lemma_ascending_listing_exists(rest);
        lemma_insert_ascending(ascending_listing(rest), rest, x);
    }
}

/// An ascending sequence holds no string twice.
pub proof fn lemma_ascending_no_duplicates(s: Seq<Seq<u8>>)
    requires
        ascending(s),
    ensures
        s.no_duplicates(),
{
    assert forall|i: int, j: int| 0 <= i < s.len() && 0 <= j < s.len() && i != j implies s[i]
        != s[j] by {
        if i < j {
            assert(lex_lt(s[i], s[j]));
        } else {
            assert(lex_lt(s[j], s[i]));
        }
        lemma_lex_irreflexive(s[i]);
    }
}

/// True when `a` comes strictly before `b` in the byte-wise lexicographic order.
pub fn less_than(a: &[u8], b: &[u8]) -> (r: bool)
    ensures
        r == lex_lt(a@, b@),
{
    let mut i: usize = 0;
    while i < a.len() && i < b.len()
        invariant
            i <= a.len(),
            i <= b.len(),
            a@.take(i as int) == b@.take(i as int),
        decreases a.len() - i,
    {
        if a[i] < b[i] {
            assert(precedes_at(a@, b@, i as int));
            return true;
        }
        if a[i] > b[i] {
            assert(precedes_at(b@, a@, i as int));
            proof {
                lemma_lex_asymmetric(b@, a@);
            }
            return false;
        }
        i += 1;
    }
    if i < b.len() {
        assert(precedes_at(a@, b@, i as int));
        true
    } else {
        proof {
            if a.len() == b.len() {
                assert(a@.take(i as int) == a@);
                lemma_lex_irreflexive(a@);
            } else {
                assert(precedes_at(b@, a@, i as int));
                lemma_lex_asymmetric(b@, a@);
            }
        }
        false
    }
}

} // verus!
