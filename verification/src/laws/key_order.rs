//! The bytewise order of keys is a total order.

use vstd::prelude::*;
use crate::iterator::{
    compare_full_keys, compare_user_keys, key_before, DirectionEnum, FullKeyView, UserKeyView,
};
use crate::key::{compare_bytes, compare_bytes_from, KeyOrder};

verus! {

/// Two byte strings that agree before `i` compare as their rests from `i`
/// compare; they compare equal exactly if they are equal.
pub proof fn lemma_compare_equal_from(a: Seq<u8>, b: Seq<u8>, i: int)
    requires
        0 <= i <= a.len(),
        i <= b.len(),
        forall|k: int| 0 <= k < i ==> a[k] == b[k],
    ensures
        compare_bytes_from(a, b, i) == KeyOrder::Equal <==> a == b,
    decreases a.len() - i,
{
    if i >= a.len() {
        if i >= b.len() {
            assert(a =~= b);
        }
    } else if i >= b.len() {
    } else if a[i] == b[i] {
        lemma_compare_equal_from(a, b, i + 1);
    }
}

/// Two byte strings compare equal exactly if they are equal.
pub proof fn lemma_compare_equal(a: Seq<u8>, b: Seq<u8>)
    ensures
        compare_bytes(a, b) == KeyOrder::Equal <==> a == b,
{
    lemma_compare_equal_from(a, b, 0);
}

/// Exchanging the sides of a comparison reverses its outcome.
pub proof fn lemma_compare_reverse_from(a: Seq<u8>, b: Seq<u8>, i: int)
    requires
        0 <= i,
    ensures
        compare_bytes_from(b, a, i) == compare_bytes_from(a, b, i).spec_reverse(),
    decreases a.len() - i,
{
    if i < a.len() && i < b.len() && a[i] == b[i] {
        lemma_compare_reverse_from(a, b, i + 1);
    }
}

/// "Below" is transitive.
pub proof fn lemma_less_transitive_from(a: Seq<u8>, b: Seq<u8>, c: Seq<u8>, i: int)
    requires
        0 <= i,
        compare_bytes_from(a, b, i) == KeyOrder::Less,
        compare_bytes_from(b, c, i) == KeyOrder::Less,
    ensures
        compare_bytes_from(a, c, i) == KeyOrder::Less,
    decreases a.len() - i,
{
    if i < a.len() && i < b.len() && i < c.len() {
        if a[i] == b[i] && b[i] == c[i] {
            lemma_less_transitive_from(a, b, c, i + 1);
        } else if a[i] == b[i] {
        } else if b[i] == c[i] {
        }
    }
}

/// From `a` not above `b` and `b` not above `c` follows `a` not above `c`;
/// where one of the two steps is strict, `a` is below `c`.
pub proof fn lemma_order_transitive(a: Seq<u8>, b: Seq<u8>, c: Seq<u8>)
    requires
        compare_bytes(a, b) != KeyOrder::Greater,
        compare_bytes(b, c) != KeyOrder::Greater,
    ensures
        compare_bytes(a, c) != KeyOrder::Greater,
        compare_bytes(a, b) == KeyOrder::Less || compare_bytes(b, c) == KeyOrder::Less
            ==> compare_bytes(a, c) == KeyOrder::Less,
        compare_bytes(a, b) == KeyOrder::Equal && compare_bytes(b, c) == KeyOrder::Equal
            ==> compare_bytes(a, c) == KeyOrder::Equal,
{
    lemma_compare_equal(a, b);
    lemma_compare_equal(b, c);
    lemma_compare_equal(a, c);
    if compare_bytes(a, b) == KeyOrder::Less && compare_bytes(b, c) == KeyOrder::Less {
        lemma_less_transitive_from(a, b, c, 0);
    }
}

/// Two user keys compare equal exactly if they are equal.
pub proof fn lemma_user_keys_equal(a: UserKeyView, b: UserKeyView)
    ensures
        compare_user_keys(a, b) == KeyOrder::Equal <==> a == b,
{
    lemma_compare_equal(a.table_key, b.table_key);
    if compare_user_keys(a, b) == KeyOrder::Equal {
        assert(a =~= b);
    }
}

/// Exchanging two user keys reverses the outcome of their comparison.
pub proof fn lemma_user_keys_reverse(a: UserKeyView, b: UserKeyView)
    ensures
        compare_user_keys(b, a) == compare_user_keys(a, b).spec_reverse(),
{
    lemma_compare_reverse_from(a.table_key, b.table_key, 0);
}

/// The order of user keys is transitive.
pub proof fn lemma_user_keys_transitive(a: UserKeyView, b: UserKeyView, c: UserKeyView)
    requires
        compare_user_keys(a, b) != KeyOrder::Greater,
        compare_user_keys(b, c) != KeyOrder::Greater,
    ensures
        compare_user_keys(a, c) != KeyOrder::Greater,
        compare_user_keys(a, b) == KeyOrder::Less || compare_user_keys(b, c) == KeyOrder::Less
            ==> compare_user_keys(a, c) == KeyOrder::Less,
{
    if a.table_id == b.table_id && b.table_id == c.table_id {
        lemma_order_transitive(a.table_key, b.table_key, c.table_key);
    }
}

/// Exchanging two full keys reverses the outcome of their comparison.
pub proof fn lemma_full_keys_reverse(a: FullKeyView, b: FullKeyView)
    ensures
        compare_full_keys(b, a) == compare_full_keys(a, b).spec_reverse(),
{
    lemma_user_keys_reverse(a.user_key, b.user_key);
}

/// The order of full keys is transitive.
pub proof fn lemma_full_keys_transitive(a: FullKeyView, b: FullKeyView, c: FullKeyView)
    requires
        compare_full_keys(a, b) != KeyOrder::Greater,
        compare_full_keys(b, c) != KeyOrder::Greater,
    ensures
        compare_full_keys(a, c) != KeyOrder::Greater,
        compare_full_keys(a, b) == KeyOrder::Less || compare_full_keys(b, c) == KeyOrder::Less
            ==> compare_full_keys(a, c) == KeyOrder::Less,
{
    lemma_user_keys_transitive(a.user_key, b.user_key, c.user_key);
    lemma_user_keys_equal(a.user_key, b.user_key);
    lemma_user_keys_equal(b.user_key, c.user_key);
    lemma_user_keys_equal(a.user_key, c.user_key);
}

/// "Before" is transitive in either direction.
pub proof fn lemma_before_transitive(d: DirectionEnum, a: FullKeyView, b: FullKeyView, c: FullKeyView)
    requires
        key_before(d, a, b),
        key_before(d, b, c),
    ensures
        key_before(d, a, c),
{
    match d {
        DirectionEnum::Forward => {
            lemma_full_keys_transitive(a, b, c);
        },
        DirectionEnum::Backward => {
            lemma_full_keys_reverse(a, b);
            lemma_full_keys_reverse(b, c);
            lemma_full_keys_reverse(a, c);
            lemma_full_keys_transitive(c, b, a);
        },
    }
}

/// "Not before" is transitive in either direction; where one step is
/// "after", so is the outcome.
pub proof fn lemma_not_before_transitive(
    d: DirectionEnum,
    a: FullKeyView,
    b: FullKeyView,
    c: FullKeyView,
)
    requires
        !key_before(d, a, b),
        !key_before(d, b, c),
    ensures
        !key_before(d, a, c),
        key_before(d, b, a) || key_before(d, c, b) ==> key_before(d, c, a),
{
    lemma_full_keys_reverse(a, b);
    lemma_full_keys_reverse(b, c);
    lemma_full_keys_reverse(a, c);
    match d {
        DirectionEnum::Forward => {
            lemma_full_keys_transitive(c, b, a);
        },
        DirectionEnum::Backward => {
            lemma_full_keys_transitive(a, b, c);
        },
    }
}

} // verus!
