//! Strictly ascending lists of integers, used where a set has to be walked
//! in one fixed order.

use vstd::prelude::*;

verus! {

/// Every element is below the one that follows it.
pub open spec fn is_ascending(s: Seq<u64>) -> bool {
    forall|i: int, j: int| 0 <= i < j < s.len() ==> s[i] < s[j]
}

/// The elements of `set` in ascending order.
pub open spec fn ascending_seq(set: Set<u64>) -> Seq<u64> {
    choose|s: Seq<u64>| is_ascending(s) && s.to_set() == set
}

/// A set has at most one ascending list of its elements.
pub proof fn lemma_ascending_unique(a: Seq<u64>, b: Seq<u64>)
    requires
        is_ascending(a),
        is_ascending(b),
        a.to_set() == b.to_set(),
    ensures
        a == b,
    decreases a.len(),
{
    if a.len() == 0 {
        if b.len() > 0 {
            assert(b.to_set().contains(b[0]));
            assert(a.to_set().contains(b[0]));
        }
        assert(a =~= b);
    } else {
        let x = a.last();
        assert(a.to_set().contains(x));
        assert(b.to_set().contains(x));
        let k = choose|k: int| 0 <= k < b.len() && b[k] == x;
        if k != b.len() - 1 {
            let y = b.last();
            assert(b.to_set().contains(y));
            assert(a.to_set().contains(y));
            let m = choose|m: int| 0 <= m < a.len() && a[m] == y;
            assert(a[m] <= x);
            assert(b[k] < y);
        }
        let a1 = a.drop_last();
        let b1 = b.drop_last();
        assert forall|v: u64| a1.to_set().contains(v) <==> b1.to_set().contains(v) by {
            if a1.to_set().contains(v) {
                let i = choose|i: int| 0 <= i < a1.len() && a1[i] == v;
                assert(a[i] == v && a[i] < x);
                assert(a.to_set().contains(v));
                assert(b.to_set().contains(v));
                let j = choose|j: int| 0 <= j < b.len() && b[j] == v;
                assert(b1[j] == v);
            }
            if b1.to_set().contains(v) {
                let i = choose|i: int| 0 <= i < b1.len() && b1[i] == v;
                assert(b[i] == v && b[i] < x);
                assert(b.to_set().contains(v));
                assert(a.to_set().contains(v));
                let j = choose|j: int| 0 <= j < a.len() && a[j] == v;
                assert(a1[j] == v);
            }
        }
        assert(a1.to_set() =~= b1.to_set());
        lemma_ascending_unique(a1, b1);
        assert(a =~= a1.push(x));
        assert(b =~= b1.push(x));
    }
}

/// An ascending list of the elements of a set is the list that
/// [`ascending_seq`] names.
pub proof fn lemma_ascending_seq_is(s: Seq<u64>, set: Set<u64>)
    requires
        is_ascending(s),
        s.to_set() == set,
    ensures
        ascending_seq(set) == s,
{
    let c = ascending_seq(set);
    lemma_ascending_unique(c, s);
}

/// Puts `x` into an ascending list unless it is there already.
pub fn insert_ascending(v: &mut Vec<u64>, x: u64)
    requires
        is_ascending(old(v)@),
    ensures
        is_ascending(final(v)@),
        final(v)@.to_set() == old(v)@.to_set().insert(x),
{
    let mut j: usize = 0;
    while j < v.len() && v[j] < x
        invariant
            j <= v.len(),
            v@ == old(v)@,
            is_ascending(v@),
            forall|k: int| 0 <= k < j ==> v[k] < x,
        decreases v.len() - j,
    {
        j += 1;
    }
    if j < v.len() && v[j] == x {
        assert(v@.to_set().contains(x));
        assert(v@.to_set() =~= old(v)@.to_set().insert(x));
        return ;
    }
    let ghost before = v@;
    v.insert(j, x);
    proof {
        assert forall|a: int, b: int| 0 <= a < b < v.len() implies v[a] < v[b] by {
            if b > j && a < j {
                assert(before[b - 1] >= before[j as int]);
            }
        }
        assert forall|y: u64| v@.to_set().contains(y) <==> before.to_set().insert(x).contains(y) by {
            if v@.to_set().contains(y) {
                let i = choose|i: int| 0 <= i < v.len() && v[i] == y;
                if i < j {
                    assert(before[i] == y);
                } else if i > j {
                    assert(before[i - 1] == y);
                }
            }
            if before.to_set().contains(y) {
                let i = choose|i: int| 0 <= i < before.len() && before[i] == y;
                if i < j {
                    assert(v[i] == y);
                } else {
                    assert(v[i + 1] == y);
                }
            }
            if y == x {
                assert(v[j as int] == x);
            }
        }
        assert(v@.to_set() =~= before.to_set().insert(x));
    }
}

/// Every element is below the one that follows it.
pub open spec fn is_ascending_u32(s: Seq<u32>) -> bool {
    forall|i: int, j: int| 0 <= i < j < s.len() ==> s[i] < s[j]
}

/// Puts `x` into an ascending list unless it is there already.
pub fn insert_ascending_u32(v: &mut Vec<u32>, x: u32)
    requires
        is_ascending_u32(old(v)@),
    ensures
        is_ascending_u32(final(v)@),
        final(v)@.to_set() == old(v)@.to_set().insert(x),
{
    let mut j: usize = 0;
    while j < v.len() && v[j] < x
        invariant
            j <= v.len(),
            v@ == old(v)@,
            is_ascending_u32(v@),
            forall|k: int| 0 <= k < j ==> v[k] < x,
        decreases v.len() - j,
    {
        j += 1;
    }
    if j < v.len() && v[j] == x {
        assert(v@.to_set().contains(x));
        assert(v@.to_set() =~= old(v)@.to_set().insert(x));
        return ;
    }
    let ghost before = v@;
    v.insert(j, x);
    proof {
        assert forall|a: int, b: int| 0 <= a < b < v.len() implies v[a] < v[b] by {
            if b > j && a < j {
                assert(before[b - 1] >= before[j as int]);
            }
        }
        assert forall|y: u32| v@.to_set().contains(y) <==> before.to_set().insert(x).contains(y) by {
            if v@.to_set().contains(y) {
                let i = choose|i: int| 0 <= i < v.len() && v[i] == y;
                if i < j {
                    assert(before[i] == y);
                } else if i > j {
                    assert(before[i - 1] == y);
                }
            }
            if before.to_set().contains(y) {
                let i = choose|i: int| 0 <= i < before.len() && before[i] == y;
                if i < j {
                    assert(v[i] == y);
                } else {
                    assert(v[i + 1] == y);
                }
            }
            if y == x {
                assert(v[j as int] == x);
            }
        }
        assert(v@.to_set() =~= before.to_set().insert(x));
    }
}

/// Filtering a list that ends in `x` filters the list before `x` and then
/// decides on `x`.
pub proof fn lemma_filter_push<A>(s: Seq<A>, x: A, p: spec_fn(A) -> bool)
    ensures
        s.push(x).filter(p) == if p(x) {
            s.filter(p).push(x)
        } else {
            s.filter(p)
        },
{
    reveal(Seq::filter);
    assert(s.push(x).drop_last() =~= s);
}

/// Filtering the empty list leaves it empty.
pub proof fn lemma_filter_empty<A>(p: spec_fn(A) -> bool)
    ensures
        Seq::<A>::empty().filter(p) == Seq::<A>::empty(),
{
    reveal(Seq::filter);
}

} // verus!
