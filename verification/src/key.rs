//! Encoded keys and the orders defined on them.
//!
//! A full key is a user key followed by an eight byte big-endian epoch. User
//! keys order bytewise; for one user key the larger epoch sorts first, so the
//! newest write of a key is met before the older ones.

use vstd::prelude::*;

verus! {

/// Number of bytes that the epoch takes at the end of an encoded full key.
pub const EPOCH_LEN: usize = 8;

/// Outcome of a three-way comparison.
#[derive(Clone, Copy, Debug, PartialEq, Eq, Structural)]
pub enum KeyOrder {
    Less,
    Equal,
    Greater,
}

impl KeyOrder {
    /// The outcome with both sides exchanged.
    pub open spec fn spec_reverse(self) -> KeyOrder {
        match self {
            KeyOrder::Less => KeyOrder::Greater,
            KeyOrder::Equal => KeyOrder::Equal,
            KeyOrder::Greater => KeyOrder::Less,
        }
    }

    #[verifier::when_used_as_spec(spec_reverse)]
    pub fn reverse(self) -> (r: KeyOrder)
        ensures
            r == self.spec_reverse(),
    {
        match self {
            KeyOrder::Less => KeyOrder::Greater,
            KeyOrder::Equal => KeyOrder::Equal,
            KeyOrder::Greater => KeyOrder::Less,
        }
    }
}

/// Bytewise lexicographic comparison of `a[i..]` with `b[i..]`.
pub open spec fn compare_bytes_from(a: Seq<u8>, b: Seq<u8>, i: int) -> KeyOrder
    decreases a.len() - i,
{
    if i < 0 {
        KeyOrder::Equal
    } else if i >= a.len() {
        if i >= b.len() {
            KeyOrder::Equal
        } else {
            KeyOrder::Less
        }
    } else if i >= b.len() {
        KeyOrder::Greater
    } else if a[i] < b[i] {
        KeyOrder::Less
    } else if a[i] > b[i] {
        KeyOrder::Greater
    } else {
        compare_bytes_from(a, b, i + 1)
    }
}

/// Bytewise lexicographic comparison, a proper prefix being smaller.
pub open spec fn compare_bytes(a: Seq<u8>, b: Seq<u8>) -> KeyOrder {
    compare_bytes_from(a, b, 0)
}

/// The user key part of an encoded full key of at least `EPOCH_LEN` bytes.
pub open spec fn user_key_of(full_key: Seq<u8>) -> Seq<u8> {
    full_key.subrange(0, full_key.len() - EPOCH_LEN as int)
}

/// The epoch bytes at the end of an encoded full key.
pub open spec fn epoch_bytes_of(full_key: Seq<u8>) -> Seq<u8> {
    full_key.subrange(full_key.len() - EPOCH_LEN as int, full_key.len() as int)
}

/// Order of two encoded full keys: user key ascending, then epoch descending.
pub open spec fn compare_full_key(a: Seq<u8>, b: Seq<u8>) -> KeyOrder {
    match compare_bytes(user_key_of(a), user_key_of(b)) {
        KeyOrder::Equal => compare_bytes(epoch_bytes_of(b), epoch_bytes_of(a)),
        o => o,
    }
}

/// Order of the user key parts of two encoded full keys.
pub open spec fn compare_user_key(a: Seq<u8>, b: Seq<u8>) -> KeyOrder {
    compare_bytes(user_key_of(a), user_key_of(b))
}

/// Compares `a[a_lo..a_hi]` with `b[b_lo..b_hi]` bytewise.
pub fn compare_slices(
    a: &Vec<u8>,
    a_lo: usize,
    a_hi: usize,
    b: &Vec<u8>,
    b_lo: usize,
    b_hi: usize,
) -> (r: KeyOrder)
    requires
        a_lo <= a_hi <= a.len(),
        b_lo <= b_hi <= b.len(),
    ensures
        r == compare_bytes(a@.subrange(a_lo as int, a_hi as int), b@.subrange(b_lo as int, b_hi as int)),
{
    let ghost sa = a@.subrange(a_lo as int, a_hi as int);
    let ghost sb = b@.subrange(b_lo as int, b_hi as int);
    let la: usize = a_hi - a_lo;
    let lb: usize = b_hi - b_lo;
    let mut i: usize = 0;
    while i < la && i < lb
        invariant
            a_lo <= a_hi <= a.len(),
            b_lo <= b_hi <= b.len(),
            la == a_hi - a_lo,
            lb == b_hi - b_lo,
            sa == a@.subrange(a_lo as int, a_hi as int),
            sb == b@.subrange(b_lo as int, b_hi as int),
            i <= la,
            i <= lb,
            compare_bytes(sa, sb) == compare_bytes_from(sa, sb, i as int),
        decreases la - i,
    {
        let x: u8 = a[a_lo + i];
        let y: u8 = b[b_lo + i];
        assert(sa[i as int] == x && sb[i as int] == y);
        if x < y {
            return KeyOrder::Less;
        }
        if x > y {
            return KeyOrder::Greater;
        }
        i += 1;
    }
    if la < lb {
        KeyOrder::Less
    } else if la > lb {
        KeyOrder::Greater
    } else {
        KeyOrder::Equal
    }
}

/// Compares two byte strings lexicographically.
pub fn compare_byte_strings(a: &Vec<u8>, b: &Vec<u8>) -> (r: KeyOrder)
    ensures
        r == compare_bytes(a@, b@),
{
    assert(a@.subrange(0, a@.len() as int) == a@);
    assert(b@.subrange(0, b@.len() as int) == b@);
    compare_slices(a, 0, a.len(), b, 0, b.len())
}

/// Compares the user key parts of two encoded full keys.
pub fn compare_encoded_user_key(a: &Vec<u8>, b: &Vec<u8>) -> (r: KeyOrder)
    requires
        a.len() >= EPOCH_LEN,
        b.len() >= EPOCH_LEN,
    ensures
        r == compare_user_key(a@, b@),
{
    compare_slices(a, 0, a.len() - EPOCH_LEN, b, 0, b.len() - EPOCH_LEN)
}

/// Compares two encoded full keys: user key ascending, then epoch descending.
pub fn compare_encoded_full_key(a: &Vec<u8>, b: &Vec<u8>) -> (r: KeyOrder)
    requires
        a.len() >= EPOCH_LEN,
        b.len() >= EPOCH_LEN,
    ensures
        r == compare_full_key(a@, b@),
{
    match compare_slices(a, 0, a.len() - EPOCH_LEN, b, 0, b.len() - EPOCH_LEN) {
        KeyOrder::Equal => compare_slices(b, b.len() - EPOCH_LEN, b.len(), a, a.len() - EPOCH_LEN, a.len()),
        o => o,
    }
}

} // verus!
