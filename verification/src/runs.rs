//! Operations on lists of runs: size totals and ordering by key range.

use vstd::prelude::*;
use crate::key::KeyOrder;
use crate::sstable::{runs_sortable, runs_view, SstView, SstableInfo};

verus! {

/// Sum of the stored sizes of the runs.
pub open spec fn total_file_size(s: Seq<SstView>) -> int
    decreases s.len(),
{
    if s.len() == 0 {
        0
    } else {
        total_file_size(s.drop_last()) + s.last().file_size
    }
}

/// Sum of the uncompressed sizes of the runs.
pub open spec fn total_uncompressed_size(s: Seq<SstView>) -> int
    decreases s.len(),
{
    if s.len() == 0 {
        0
    } else {
        total_uncompressed_size(s.drop_last()) + s.last().uncompressed_file_size
    }
}

/// Neither total is negative.
pub proof fn lemma_totals_nonnegative(s: Seq<SstView>)
    ensures
        total_file_size(s) >= 0,
        total_uncompressed_size(s) >= 0,
    decreases s.len(),
{
    if s.len() > 0 {
        lemma_totals_nonnegative(s.drop_last());
    }
}

/// The totals of a concatenation are the sums of the totals of its parts.
pub proof fn lemma_totals_concat(a: Seq<SstView>, b: Seq<SstView>)
    ensures
        total_file_size(a + b) == total_file_size(a) + total_file_size(b),
        total_uncompressed_size(a + b) == total_uncompressed_size(a) + total_uncompressed_size(b),
    decreases b.len(),
{
    if b.len() == 0 {
        assert(a + b =~= a);
    } else {
        assert((a + b).drop_last() =~= a + b.drop_last());
        lemma_totals_concat(a, b.drop_last());
    }
}

/// Adds up both sizes of the runs; `None` once a total leaves `u64`.
pub fn sum_sizes(ssts: &Vec<SstableInfo>) -> (r: Option<(u64, u64)>)
    ensures
        match r {
            Some((file, uncompressed)) => file == total_file_size(runs_view(ssts@))
                && uncompressed == total_uncompressed_size(runs_view(ssts@)),
            None => total_file_size(runs_view(ssts@)) > u64::MAX || total_uncompressed_size(
                runs_view(ssts@),
            ) > u64::MAX,
        },
{
    let ghost s = runs_view(ssts@);
    let mut file: u64 = 0;
    let mut uncompressed: u64 = 0;
    let mut i: usize = 0;
    while i < ssts.len()
        invariant
            i <= ssts.len(),
            s == runs_view(ssts@),
            file == total_file_size(s.subrange(0, i as int)),
            uncompressed == total_uncompressed_size(s.subrange(0, i as int)),
        decreases ssts.len() - i,
    {
        proof {
            let next = s.subrange(0, i + 1);
            assert(next.drop_last() =~= s.subrange(0, i as int));
            assert(next.last() == ssts[i as int]@);
            assert(s =~= next + s.subrange(i + 1, s.len() as int));
            lemma_totals_concat(next, s.subrange(i + 1, s.len() as int));
            lemma_totals_nonnegative(s.subrange(i + 1, s.len() as int));
        }
        file = match file.checked_add(ssts[i].file_size) {
            Some(x) => x,
            None => {
                return None;
            },
        };
        uncompressed = match uncompressed.checked_add(ssts[i].uncompressed_file_size) {
            Some(x) => x,
            None => {
                return None;
            },
        };
        i += 1;
    }
    assert(s.subrange(0, i as int) =~= s);
    Some((file, uncompressed))
}

/// `a` does not come after `b` in the order of key ranges.
pub open spec fn run_not_after(a: SstView, b: SstView) -> bool {
    a.key_range->0.compare(b.key_range->0) != KeyOrder::Greater
}

/// `s` with `x` put behind the last run that does not come after it.
pub open spec fn insert_run(s: Seq<SstView>, x: SstView) -> Seq<SstView>
    decreases s.len(),
{
    if s.len() == 0 {
        seq![x]
    } else if run_not_after(s.last(), x) {
        s.push(x)
    } else {
        insert_run(s.drop_last(), x).push(s.last())
    }
}

/// The runs in the order of their key ranges; runs that compare equal keep
/// the order they came in.
pub open spec fn sort_runs(s: Seq<SstView>) -> Seq<SstView>
    decreases s.len(),
{
    if s.len() == 0 {
        s
    } else {
        insert_run(sort_runs(s.drop_last()), s.last())
    }
}

/// `insert_run` places `x` at `j` when every run from `j` on comes after `x`
/// and the run before `j` does not.
pub proof fn lemma_insert_run_at(s: Seq<SstView>, x: SstView, j: int)
    requires
        0 <= j <= s.len(),
        forall|k: int| j <= k < s.len() ==> !run_not_after(#[trigger] s[k], x),
        j > 0 ==> run_not_after(s[j - 1], x),
    ensures
        insert_run(s, x) == s.insert(j, x),
    decreases s.len(),
{
    if s.len() == 0 {
        assert(s.insert(j, x) =~= seq![x]);
    } else if j == s.len() {
        assert(s.insert(j, x) =~= s.push(x));
    } else {
        lemma_insert_run_at(s.drop_last(), x, j);
        assert(s.insert(j, x) =~= s.drop_last().insert(j, x).push(s.last()));
    }
}

/// Sorting keeps the runs: the sorted list is a rearrangement of the input.
pub proof fn lemma_sort_runs_permutes(s: Seq<SstView>)
    ensures
        sort_runs(s).to_multiset() == s.to_multiset(),
        sort_runs(s).len() == s.len(),
    decreases s.len(),
{
    broadcast use vstd::seq_lib::group_to_multiset_ensures;

    if s.len() > 0 {
        lemma_sort_runs_permutes(s.drop_last());
        lemma_insert_run_permutes(sort_runs(s.drop_last()), s.last());
        assert(s =~= s.drop_last().push(s.last()));
    }
}

/// Inserting a run adds exactly that run.
pub proof fn lemma_insert_run_permutes(s: Seq<SstView>, x: SstView)
    ensures
        insert_run(s, x).to_multiset() == s.to_multiset().insert(x),
        insert_run(s, x).len() == s.len() + 1,
    decreases s.len(),
{
    broadcast use vstd::seq_lib::group_to_multiset_ensures;

    if s.len() > 0 && !run_not_after(s.last(), x) {
        lemma_insert_run_permutes(s.drop_last(), x);
        assert(s =~= s.drop_last().push(s.last()));
        assert(insert_run(s, x).to_multiset() =~= s.to_multiset().insert(x));
    }
}

/// Sorting a list that holds fewer than two runs changes nothing.
pub proof fn lemma_sort_runs_short(s: Seq<SstView>)
    requires
        s.len() < 2,
    ensures
        sort_runs(s) == s,
{
    if s.len() == 1 {
        assert(s.drop_last().len() == 0);
        assert(sort_runs(s.drop_last()) =~= Seq::<SstView>::empty());
        assert(insert_run(Seq::<SstView>::empty(), s.last()) =~= s);
    }
}

/// Orders the runs by key range, stably.
pub fn sort_by_key_range(ssts: Vec<SstableInfo>) -> (r: Vec<SstableInfo>)
    requires
        runs_sortable(runs_view(ssts@)),
    ensures
        runs_view(r@) == sort_runs(runs_view(ssts@)),
{
    let ghost orig = runs_view(ssts@);
    if ssts.len() < 2 {
        proof {
            lemma_sort_runs_short(orig);
        }
        return ssts;
    }
    let mut rest = ssts;
    let mut out: Vec<SstableInfo> = Vec::new();
    let ghost mut done: int = 0;
    assert(orig.subrange(0, orig.len() as int) =~= orig);
    while rest.len() > 0
        invariant
            orig.len() >= 2,
            forall|i: int| 0 <= i < orig.len() ==> (#[trigger] orig[i]).is_sortable(),
            0 <= done <= orig.len(),
            runs_view(rest@) == orig.subrange(done, orig.len() as int),
            runs_view(out@) == sort_runs(orig.subrange(0, done)),
            forall|i: int| 0 <= i < out.len() ==> (#[trigger] out[i])@.is_sortable(),
        decreases rest.len(),
    {
        let ghost before = runs_view(out@);
        let ghost rest_before = runs_view(rest@);
        let ghost rest_vec = rest@;
        let x = rest.remove(0);
        proof {
            assert(rest_before.len() == orig.len() - done);
            assert(x@ == rest_before[0]);
            assert(x@ == orig[done]);
            assert forall|k: int| 0 <= k < rest.len() implies runs_view(rest@)[k] == orig[done + 1
                + k] by {
                assert(rest@[k] == rest_vec[k + 1]);
                assert(rest_before[k + 1] == orig[done + 1 + k]);
            }
            assert(runs_view(rest@) =~= orig.subrange(done + 1, orig.len() as int));
        }
        let mut j: usize = out.len();
        while j > 0 && run_is_after(&out[j - 1], &x)
            invariant
                j <= out.len(),
                x@.is_sortable(),
                before == runs_view(out@),
                forall|i: int| 0 <= i < out.len() ==> (#[trigger] out[i])@.is_sortable(),
                forall|k: int| j <= k < before.len() ==> !run_not_after(#[trigger] before[k], x@),
            decreases j,
        {
            j -= 1;
        }
        proof {
            lemma_insert_run_at(before, x@, j as int);
        }
        out.insert(j, x);
        proof {
            assert(runs_view(out@) =~= before.insert(j as int, x@));
            let next = orig.subrange(0, done + 1);
            assert(next.drop_last() =~= orig.subrange(0, done));
            assert(next.last() == x@);
            done = done + 1;
        }
    }
    assert(orig.subrange(0, done) =~= orig);
    out
}

/// Whether `a` comes after `b` in the order of key ranges.
fn run_is_after(a: &SstableInfo, b: &SstableInfo) -> (r: bool)
    requires
        a@.is_sortable(),
        b@.is_sortable(),
    ensures
        r == !run_not_after(a@, b@),
{
    match (&a.key_range, &b.key_range) {
        (Some(x), Some(y)) => x.compare(y) == KeyOrder::Greater,
        _ => false,
    }
}

} // verus!
