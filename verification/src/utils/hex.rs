//! Hexadecimal text of a 64-bit number.

use vstd::prelude::*;

verus! {

/// The lower-case hexadecimal digit for a value below sixteen.
pub open spec fn hex_digit(n: nat) -> u8 {
    if n < 10 {
        (48 + n) as u8
    } else {
        (87 + n) as u8
    }
}

/// The value of a hexadecimal digit, in either case; `None` for any other byte.
pub open spec fn digit_value(b: u8) -> Option<nat> {
    if 48 <= b <= 57 {
        Some((b - 48) as nat)
    } else if 97 <= b <= 102 {
        Some((b - 87) as nat)
    } else if 65 <= b <= 70 {
        Some((b - 55) as nat)
    } else {
        None
    }
}

/// Every byte of `s` is a hexadecimal digit.
pub open spec fn all_hex(s: Seq<u8>) -> bool {
    forall|i: int| 0 <= i < s.len() ==> digit_value(#[trigger] s[i]).is_some()
}

/// The text of `n`: its bytes from the most significant one that is not zero (or the one
/// byte zero), two lower-case digits each.
pub open spec fn to_hex(n: nat) -> Seq<u8>
    decreases n,
{
    if n < 256 {
        seq![hex_digit(n / 16), hex_digit(n % 16)]
    } else {
        to_hex(n / 256) + seq![hex_digit((n % 256) / 16), hex_digit(n % 16)]
    }
}

/// The number that the digits of `s` write, most significant digit first. A byte that is no
/// digit counts as zero.
pub open spec fn hex_value(s: Seq<u8>) -> nat
    decreases s.len(),
{
    if s.len() == 0 {
        0
    } else {
        hex_value(s.drop_last()) * 16 + match digit_value(s.last()) {
            Some(d) => d,
            None => 0,
        }
    }
}

/// The number that `s` writes: `s` is one or more hexadecimal digits whose value fits 64 bits.
pub open spec fn parse_hex(s: Seq<u8>) -> Option<u64> {
    if s.len() > 0 && all_hex(s) && hex_value(s) <= u64::MAX {
        Some(hex_value(s) as u64)
    } else {
        None
    }
}

/// The text of a number is an even, positive count of digits, and writes that number.
pub proof fn lemma_to_hex(n: nat)
    ensures
        to_hex(n).len() >= 2,
        to_hex(n).len() % 2 == 0,
        all_hex(to_hex(n)),
        hex_value(to_hex(n)) == n,
    decreases n,
{
    if n < 256 {
        let t = to_hex(n);
        assert(hex_value(t.drop_last().drop_last()) == 0);
        assert(hex_value(t.drop_last()) == (n % 256) / 16);
    } else {
        let head = to_hex(n / 256);
        lemma_to_hex(n / 256);
        let t = to_hex(n);
        assert(t.drop_last().drop_last() =~= head);
        assert(hex_value(t.drop_last()) == (n / 256) * 16 + (n % 256) / 16);
        assert forall|i: int| 0 <= i < t.len() implies digit_value(#[trigger] t[i]).is_some() by {
            if i < head.len() {
                assert(t[i] == head[i]);
            }
        }
    }
}

/// A prefix writes no more than the whole.
pub proof fn lemma_hex_value_prefix(s: Seq<u8>, k: int)
    requires
        0 <= k <= s.len(),
    ensures
        hex_value(s.take(k)) <= hex_value(s),
    decreases s.len() - k,
{
    if k == s.len() {
        assert(s.take(k) =~= s);
    } else {
        assert(s.drop_last().take(k) =~= s.take(k));
        lemma_hex_value_prefix(s.drop_last(), k);
    }
}

/// The lower-case digit for `n`.
pub fn hex_digit_of(n: u8) -> (r: u8)
    requires
        n < 16,
    ensures
        r == hex_digit(n as nat),
{
    if n < 10 {
        48 + n
    } else {
        87 + n
    }
}

/// The value of the digit `b`.
pub fn digit_value_of(b: u8) -> (r: Option<u8>)
    ensures
        match r {
            Some(d) => digit_value(b) == Some(d as nat) && d < 16,
            None => digit_value(b).is_none(),
        },
{
    if b >= 48 && b <= 57 {
        Some(b - 48)
    } else if b >= 97 && b <= 102 {
        Some(b - 87)
    } else if b >= 65 && b <= 70 {
        Some(b - 55)
    } else {
        None
    }
}

/// Writes `n` in lower-case hexadecimal, two digits for each byte, without leading zero bytes.
pub fn u64_to_hex(n: u64) -> (r: Vec<u8>)
    ensures
        r@ == to_hex(n as nat),
    decreases n,
{
    let mut out: Vec<u8> = if n >= 256 {
        u64_to_hex(n / 256)
    } else {
        Vec::new()
    };
    let low: u8 = (n % 256) as u8;
    out.push(hex_digit_of(low / 16));
    out.push(hex_digit_of(low % 16));
    proof {
        let m = n as nat;
        if n < 256 {
            assert((m % 256) / 16 == m / 16);
        } else {
            assert(out@ =~= to_hex(m / 256) + seq![hex_digit((m % 256) / 16), hex_digit(m % 16)]);
        }
    }
    out
}

/// Reads a number written in hexadecimal digits of either case.
pub fn hex_to_u64(s: &[u8]) -> (r: Option<u64>)
    ensures
        r == parse_hex(s@),
{
    if s.len() == 0 {
        return None;
    }
    let mut acc: u64 = 0;
    let mut i: usize = 0;
    while i < s.len()
        invariant
            i <= s.len(),
            all_hex(s@.take(i as int)),
            acc == hex_value(s@.take(i as int)),
        decreases s.len() - i,
    {
        let ghost next = s@.take(i + 1);
        assert(next.drop_last() =~= s@.take(i as int));
        match digit_value_of(s[i]) {
            None => {
                return None;
            },
            Some(d) => {
                if acc > (u64::MAX - d as u64) / 16 {
                    proof {
                        lemma_hex_value_prefix(s@, i + 1);
                    }
                    return None;
                }
                acc = acc * 16 + d as u64;
                assert forall|j: int| 0 <= j < next.len() implies digit_value(
                    #[trigger] next[j],
                ).is_some() by {
                    if j < i {
                        assert(next[j] == s@.take(i as int)[j]);
                    }
                }
            },
        }
        i += 1;
    }
    assert(s@.take(s.len() as int) =~= s@);
    Some(acc)
}

} // verus!
