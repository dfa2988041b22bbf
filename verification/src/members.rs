//! The member tables of a compaction group, kept as a sorted list.

use vstd::prelude::*;
use crate::delta::{GroupMetaChange, GroupMetaChangeView};
use crate::ordered::{lemma_filter_empty, lemma_filter_push};

verus! {

/// `s` with `x` put behind the last element that is not above it.
pub open spec fn insert_id(s: Seq<u32>, x: u32) -> Seq<u32>
    decreases s.len(),
{
    if s.len() == 0 {
        seq![x]
    } else if s.last() <= x {
        s.push(x)
    } else {
        insert_id(s.drop_last(), x).push(s.last())
    }
}

/// The elements of `s` in ascending order, repetitions kept.
pub open spec fn sort_ids(s: Seq<u32>) -> Seq<u32>
    decreases s.len(),
{
    if s.len() == 0 {
        s
    } else {
        insert_id(sort_ids(s.drop_last()), s.last())
    }
}

/// No element is above the one that follows it.
pub open spec fn is_sorted(s: Seq<u32>) -> bool {
    forall|i: int, j: int| 0 <= i <= j < s.len() ==> s[i] <= s[j]
}

/// `insert_id` places `x` at `j` when every element from `j` on is above `x`
/// and the element before `j` is not.
pub proof fn lemma_insert_id_at(s: Seq<u32>, x: u32, j: int)
    requires
        0 <= j <= s.len(),
        forall|k: int| j <= k < s.len() ==> s[k] > x,
        j > 0 ==> s[j - 1] <= x,
    ensures
        insert_id(s, x) == s.insert(j, x),
    decreases s.len(),
{
    if s.len() == 0 {
        assert(s.insert(j, x) =~= seq![x]);
    } else if j == s.len() {
        assert(s.insert(j, x) =~= s.push(x));
    } else {
        lemma_insert_id_at(s.drop_last(), x, j);
        assert(s.insert(j, x) =~= s.drop_last().insert(j, x).push(s.last()));
    }
}

/// Inserting into a sorted list leaves it sorted and adds one element.
pub proof fn lemma_insert_id_sorted(s: Seq<u32>, x: u32)
    requires
        is_sorted(s),
    ensures
        is_sorted(insert_id(s, x)),
        insert_id(s, x).len() == s.len() + 1,
        insert_id(s, x).to_multiset() == s.to_multiset().insert(x),
    decreases s.len(),
{
    broadcast use vstd::seq_lib::group_to_multiset_ensures;

    if s.len() == 0 {
    } else if s.last() <= x {
    } else {
        let t = insert_id(s.drop_last(), x);
        lemma_insert_id_sorted(s.drop_last(), x);
        assert(s =~= s.drop_last().push(s.last()));
        assert forall|i: int| 0 <= i < t.len() implies t[i] <= s.last() by {
            assert(t.to_multiset().count(t[i]) > 0);
            if t[i] != x {
                assert(s.drop_last().to_multiset().count(t[i]) > 0);
                assert(s.drop_last().contains(t[i]));
                let k = choose|k: int| 0 <= k < s.drop_last().len() && s.drop_last()[k] == t[i];
                assert(s[k] <= s[s.len() - 1]);
            }
        }
        assert(t.push(s.last()).to_multiset() =~= s.to_multiset().insert(x));
    }
}

/// The sorted list is sorted and holds what the input holds.
pub proof fn law_sort_ids_sorted(s: Seq<u32>)
    ensures
        is_sorted(sort_ids(s)),
        sort_ids(s).len() == s.len(),
        sort_ids(s).to_multiset() == s.to_multiset(),
    decreases s.len(),
{
    broadcast use vstd::seq_lib::group_to_multiset_ensures;

    if s.len() > 0 {
        law_sort_ids_sorted(s.drop_last());
        lemma_insert_id_sorted(sort_ids(s.drop_last()), s.last());
        assert(s =~= s.drop_last().push(s.last()));
    }
}

/// Sorts table ids in ascending order.
pub fn sort_table_ids(ids: &Vec<u32>) -> (r: Vec<u32>)
    ensures
        r@ == sort_ids(ids@),
{
    let mut out: Vec<u32> = Vec::new();
    let mut i: usize = 0;
    assert(ids@.subrange(0, 0) =~= Seq::<u32>::empty());
    while i < ids.len()
        invariant
            i <= ids.len(),
            out@ == sort_ids(ids@.subrange(0, i as int)),
        decreases ids.len() - i,
    {
        let x: u32 = ids[i];
        let mut j: usize = out.len();
        while j > 0 && out[j - 1] > x
            invariant
                j <= out.len(),
                forall|k: int| j <= k < out.len() ==> out[k] > x,
            decreases j,
        {
            j -= 1;
        }
        proof {
            lemma_insert_id_at(out@, x, j as int);
            assert(ids@.subrange(0, i + 1).drop_last() =~= ids@.subrange(0, i as int));
        }
        out.insert(j, x);
        i += 1;
    }
    assert(ids@.subrange(0, i as int) =~= ids@);
    out
}

/// Whether the table id is in the list.
pub fn contains_table(ids: &Vec<u32>, x: u32) -> (r: bool)
    ensures
        r == ids@.contains(x),
{
    let mut i: usize = 0;
    while i < ids.len()
        invariant
            i <= ids.len(),
            forall|k: int| 0 <= k < i ==> ids[k] != x,
        decreases ids.len() - i,
    {
        if ids[i] == x {
            return true;
        }
        i += 1;
    }
    false
}

/// The test that a table id passes when it is in the list.
pub open spec fn is_listed(ids: Seq<u32>) -> spec_fn(u32) -> bool {
    |t: u32| ids.contains(t)
}

/// The test that a table id passes when it is not in the list.
pub open spec fn is_not_listed(ids: Seq<u32>) -> spec_fn(u32) -> bool {
    |t: u32| !ids.contains(t)
}

/// Parts a list of table ids into those that are in `ids` and those that
/// are not, each part in its old order.
pub fn partition_tables(members: &Vec<u32>, ids: &Vec<u32>) -> (r: (Vec<u32>, Vec<u32>))
    ensures
        r.0@ == members@.filter(is_listed(ids@)),
        r.1@ == members@.filter(is_not_listed(ids@)),
{
    let mut listed: Vec<u32> = Vec::new();
    let mut rest: Vec<u32> = Vec::new();
    let mut i: usize = 0;
    proof {
        lemma_filter_empty::<u32>(is_listed(ids@));
        lemma_filter_empty::<u32>(is_not_listed(ids@));
        assert(members@.subrange(0, 0) =~= Seq::<u32>::empty());
    }
    while i < members.len()
        invariant
            i <= members.len(),
            listed@ == members@.subrange(0, i as int).filter(is_listed(ids@)),
            rest@ == members@.subrange(0, i as int).filter(is_not_listed(ids@)),
        decreases members.len() - i,
    {
        let t: u32 = members[i];
        proof {
            assert(members@.subrange(0, i + 1) =~= members@.subrange(0, i as int).push(t));
            lemma_filter_push(members@.subrange(0, i as int), t, is_listed(ids@));
            lemma_filter_push(members@.subrange(0, i as int), t, is_not_listed(ids@));
        }
        if contains_table(ids, t) {
            listed.push(t);
        } else {
            rest.push(t);
        }
        i += 1;
    }
    assert(members@.subrange(0, i as int) =~= members@);
    (listed, rest)
}

/// The member list after one change: the added tables join, the removed
/// ones leave, and the list is sorted.
pub open spec fn with_meta_change(members: Seq<u32>, change: GroupMetaChangeView) -> Seq<u32> {
    sort_ids((members + change.table_ids_add).filter(is_not_listed(change.table_ids_remove)))
}

/// The member list after a series of changes.
pub open spec fn with_meta_changes(members: Seq<u32>, changes: Seq<GroupMetaChangeView>) -> Seq<u32>
    decreases changes.len(),
{
    if changes.len() == 0 {
        members
    } else {
        with_meta_change(with_meta_changes(members, changes.drop_last()), changes.last())
    }
}

/// Applies a series of changes to a member list.
pub fn apply_meta_changes(members: &mut Vec<u32>, changes: &Vec<GroupMetaChange>)
    ensures
        final(members)@ == with_meta_changes(
            old(members)@,
            changes@.map_values(|m: GroupMetaChange| m@),
        ),
{
    let ghost cs = changes@.map_values(|m: GroupMetaChange| m@);
    let mut i: usize = 0;
    assert(cs.subrange(0, 0) =~= Seq::<GroupMetaChangeView>::empty());
    while i < changes.len()
        invariant
            i <= changes.len(),
            cs == changes@.map_values(|m: GroupMetaChange| m@),
            members@ == with_meta_changes(old(members)@, cs.subrange(0, i as int)),
        decreases changes.len() - i,
    {
        let change = &changes[i];
        let ghost before = members@;
        let mut added = crate::sstable::copy_table_ids(&change.table_ids_add);
        members.append(&mut added);
        assert(members@ =~= before + change@.table_ids_add);
        let (_, kept) = partition_tables(members, &change.table_ids_remove);
        *members = sort_table_ids(&kept);
        proof {
            assert(cs.subrange(0, i + 1).drop_last() =~= cs.subrange(0, i as int));
            assert(cs.subrange(0, i + 1).last() == change@);
        }
        i += 1;
    }
    assert(cs.subrange(0, i as int) =~= cs);
}

} // verus!
