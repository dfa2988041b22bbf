//! Sorted runs and their key ranges.

use vstd::prelude::*;
use crate::key::{
    compare_encoded_full_key, compare_encoded_user_key, compare_full_key, compare_user_key,
    KeyOrder, EPOCH_LEN,
};

verus! {

/// The span of encoded full keys that a run covers. Two empty bounds stand
/// for the range that covers every key.
#[derive(Debug, Default, PartialEq, Eq)]
pub struct KeyRange {
    pub left: Vec<u8>,
    pub right: Vec<u8>,
    pub right_exclusive: bool,
}

/// Mathematical value of a [`KeyRange`].
#[verifier::ext_equal]
pub struct KeyRangeView {
    pub left: Seq<u8>,
    pub right: Seq<u8>,
    pub right_exclusive: bool,
}

impl KeyRangeView {
    /// The range that covers every key.
    pub open spec fn is_inf(self) -> bool {
        self.left.len() == 0 && self.right.len() == 0
    }

    /// Both bounds are long enough to hold an epoch, so both can be decoded.
    pub open spec fn has_bounds(self) -> bool {
        self.left.len() >= EPOCH_LEN && self.right.len() >= EPOCH_LEN
    }

    /// The left bound is long enough to hold an epoch, so it can be decoded.
    pub open spec fn has_left(self) -> bool {
        self.left.len() >= EPOCH_LEN
    }

    /// The right bound is long enough to hold an epoch, so it can be
    /// decoded.
    pub open spec fn has_right(self) -> bool {
        self.right.len() >= EPOCH_LEN
    }

    /// The range can take part in a comparison of ranges.
    pub open spec fn is_sortable(self) -> bool {
        self.is_inf() || self.left.len() >= EPOCH_LEN
    }

    /// The user key of the left bound is not above that of the right bound.
    pub open spec fn is_ordered(self) -> bool {
        self.has_bounds() && compare_user_key(self.left, self.right) != KeyOrder::Greater
    }

    /// Order of two ranges by their left bounds; the all-covering range is
    /// the greatest.
    pub open spec fn compare(self, other: KeyRangeView) -> KeyOrder {
        if self.is_inf() {
            if other.is_inf() {
                KeyOrder::Equal
            } else {
                KeyOrder::Greater
            }
        } else if other.is_inf() {
            KeyOrder::Less
        } else {
            compare_full_key(self.left, other.left)
        }
    }

    /// Order of the right bound against the user key of `full_key`; an
    /// exclusive right bound that meets the key lies below it.
    pub open spec fn compare_right_with(self, full_key: Seq<u8>) -> KeyOrder {
        let o = compare_user_key(self.right, full_key);
        if o == KeyOrder::Equal && self.right_exclusive {
            KeyOrder::Less
        } else {
            o
        }
    }
}

impl View for KeyRange {
    type V = KeyRangeView;

    open spec fn view(&self) -> KeyRangeView {
        KeyRangeView { left: self.left@, right: self.right@, right_exclusive: self.right_exclusive }
    }
}

/// Copies a byte string.
pub fn copy_bytes(v: &Vec<u8>) -> (r: Vec<u8>)
    ensures
        r@ == v@,
{
    let r = v.clone();
    assert(r@ =~= v@);
    r
}

/// Copies a list of table ids.
pub fn copy_table_ids(v: &Vec<u32>) -> (r: Vec<u32>)
    ensures
        r@ == v@,
{
    let r = v.clone();
    assert(r@ =~= v@);
    r
}

/// Copies a list of run or object ids.
pub fn copy_ids(v: &Vec<u64>) -> (r: Vec<u64>)
    ensures
        r@ == v@,
{
    let r = v.clone();
    assert(r@ =~= v@);
    r
}

impl Clone for KeyRange {
    fn clone(&self) -> (r: Self)
        ensures
            r@ == self@,
    {
        KeyRange {
            left: copy_bytes(&self.left),
            right: copy_bytes(&self.right),
            right_exclusive: self.right_exclusive,
        }
    }
}

impl KeyRange {
    /// A range from `left` to `right`, both inclusive.
    pub fn new(left: Vec<u8>, right: Vec<u8>) -> (r: Self)
        ensures
            r@ == (KeyRangeView { left: left@, right: right@, right_exclusive: false }),
    {
        KeyRange { left, right, right_exclusive: false }
    }

    /// The range that covers every key.
    pub fn inf() -> (r: Self)
        ensures
            r@.is_inf(),
            !r@.right_exclusive,
    {
        KeyRange { left: Vec::new(), right: Vec::new(), right_exclusive: false }
    }

    #[verifier::when_used_as_spec(spec_inf_key_range)]
    pub fn inf_key_range(&self) -> (r: bool)
        ensures
            r == self@.is_inf(),
    {
        self.left.len() == 0 && self.right.len() == 0
    }

    pub open spec fn spec_inf_key_range(&self) -> bool {
        self@.is_inf()
    }

    /// Whether both bounds can be decoded.
    pub fn has_bounds(&self) -> (r: bool)
        ensures
            r == self@.has_bounds(),
    {
        self.left.len() >= EPOCH_LEN && self.right.len() >= EPOCH_LEN
    }

    /// Orders two ranges by their left bounds.
    pub fn compare(&self, other: &KeyRange) -> (r: KeyOrder)
        requires
            self@.is_sortable(),
            other@.is_sortable(),
        ensures
            r == self@.compare(other@),
    {
        if self.inf_key_range() {
            if other.inf_key_range() {
                KeyOrder::Equal
            } else {
                KeyOrder::Greater
            }
        } else if other.inf_key_range() {
            KeyOrder::Less
        } else {
            compare_encoded_full_key(&self.left, &other.left)
        }
    }

    /// Orders the right bound against the user key of an encoded full key.
    pub fn compare_right_with(&self, full_key: &Vec<u8>) -> (r: KeyOrder)
        requires
            self.right.len() >= EPOCH_LEN,
            full_key.len() >= EPOCH_LEN,
        ensures
            r == self@.compare_right_with(full_key@),
    {
        let o = compare_encoded_user_key(&self.right, full_key);
        if o == KeyOrder::Equal && self.right_exclusive {
            KeyOrder::Less
        } else {
            o
        }
    }
}

/// One immutable sorted run. The object id names the stored bytes, the run
/// id names this reference to them: after a split two groups hold the same
/// object under different run ids.
#[derive(Debug, Default, PartialEq, Eq)]
pub struct SstableInfo {
    pub object_id: u64,
    pub sst_id: u64,
    pub key_range: Option<KeyRange>,
    pub file_size: u64,
    pub table_ids: Vec<u32>,
    pub meta_offset: u64,
    pub stale_key_count: u64,
    pub total_key_count: u64,
    pub min_epoch: u64,
    pub max_epoch: u64,
    pub uncompressed_file_size: u64,
    pub range_tombstone_count: u64,
    pub bloom_filter_kind: u32,
}

/// Mathematical value of an [`SstableInfo`].
#[verifier::ext_equal]
pub struct SstView {
    pub object_id: u64,
    pub sst_id: u64,
    pub key_range: Option<KeyRangeView>,
    pub file_size: u64,
    pub table_ids: Seq<u32>,
    pub meta_offset: u64,
    pub stale_key_count: u64,
    pub total_key_count: u64,
    pub min_epoch: u64,
    pub max_epoch: u64,
    pub uncompressed_file_size: u64,
    pub range_tombstone_count: u64,
    pub bloom_filter_kind: u32,
}

impl SstView {
    /// The run has a key range whose two bounds can be decoded.
    pub open spec fn has_bounds(self) -> bool {
        self.key_range is Some && self.key_range->0.has_bounds()
    }

    /// The run has a key range whose left bound can be decoded.
    pub open spec fn has_left(self) -> bool {
        self.key_range is Some && self.key_range->0.has_left()
    }

    /// The run has a key range whose right bound can be decoded.
    pub open spec fn has_right(self) -> bool {
        self.key_range is Some && self.key_range->0.has_right()
    }

    /// The run has a key range that can take part in a comparison of
    /// ranges.
    pub open spec fn is_sortable(self) -> bool {
        self.key_range is Some && self.key_range->0.is_sortable()
    }

    /// The run has a key range whose left bound is not above its right bound.
    pub open spec fn is_ordered(self) -> bool {
        self.key_range is Some && self.key_range->0.is_ordered()
    }

    /// The same run under another run id.
    pub open spec fn with_sst_id(self, sst_id: u64) -> SstView {
        SstView { sst_id, ..self }
    }

    /// The same run with another list of owning tables.
    pub open spec fn with_table_ids(self, table_ids: Seq<u32>) -> SstView {
        SstView { table_ids, ..self }
    }
}

impl View for SstableInfo {
    type V = SstView;

    open spec fn view(&self) -> SstView {
        SstView {
            object_id: self.object_id,
            sst_id: self.sst_id,
            key_range: match self.key_range {
                Some(kr) => Some(kr@),
                None => None,
            },
            file_size: self.file_size,
            table_ids: self.table_ids@,
            meta_offset: self.meta_offset,
            stale_key_count: self.stale_key_count,
            total_key_count: self.total_key_count,
            min_epoch: self.min_epoch,
            max_epoch: self.max_epoch,
            uncompressed_file_size: self.uncompressed_file_size,
            range_tombstone_count: self.range_tombstone_count,
            bloom_filter_kind: self.bloom_filter_kind,
        }
    }
}

impl Clone for SstableInfo {
    fn clone(&self) -> (r: Self)
        ensures
            r@ == self@,
    {
        SstableInfo {
            object_id: self.object_id,
            sst_id: self.sst_id,
            key_range: match &self.key_range {
                Some(kr) => Some(kr.clone()),
                None => None,
            },
            file_size: self.file_size,
            table_ids: copy_table_ids(&self.table_ids),
            meta_offset: self.meta_offset,
            stale_key_count: self.stale_key_count,
            total_key_count: self.total_key_count,
            min_epoch: self.min_epoch,
            max_epoch: self.max_epoch,
            uncompressed_file_size: self.uncompressed_file_size,
            range_tombstone_count: self.range_tombstone_count,
            bloom_filter_kind: self.bloom_filter_kind,
        }
    }
}

impl SstableInfo {
    pub fn get_object_id(&self) -> (r: u64)
        ensures
            r == self@.object_id,
    {
        self.object_id
    }

    pub fn get_sst_id(&self) -> (r: u64)
        ensures
            r == self@.sst_id,
    {
        self.sst_id
    }

    /// Whether the run has a key range whose two bounds can be decoded.
    pub fn has_bounds(&self) -> (r: bool)
        ensures
            r == self@.has_bounds(),
    {
        match &self.key_range {
            Some(kr) => kr.has_bounds(),
            None => false,
        }
    }

    /// Whether the run has a key range whose left bound can be decoded.
    pub fn has_left(&self) -> (r: bool)
        ensures
            r == self@.has_left(),
    {
        match &self.key_range {
            Some(kr) => kr.left.len() >= EPOCH_LEN,
            None => false,
        }
    }

    /// Whether the run has a key range whose right bound can be decoded.
    pub fn has_right(&self) -> (r: bool)
        ensures
            r == self@.has_right(),
    {
        match &self.key_range {
            Some(kr) => kr.right.len() >= EPOCH_LEN,
            None => false,
        }
    }

    /// Whether the run has a key range that can take part in a comparison
    /// of ranges.
    pub fn is_sortable(&self) -> (r: bool)
        ensures
            r == self@.is_sortable(),
    {
        match &self.key_range {
            Some(kr) => kr.inf_key_range() || kr.left.len() >= EPOCH_LEN,
            None => false,
        }
    }
}

/// The values of a list of runs.
pub open spec fn runs_view(s: Seq<SstableInfo>) -> Seq<SstView> {
    s.map_values(|x: SstableInfo| x@)
}

/// Every run in a list of two or more has a key range that can take part
/// in a comparison of ranges. A shorter list is never put in order, so it
/// asks nothing of its runs.
pub open spec fn runs_sortable(s: Seq<SstView>) -> bool {
    s.len() >= 2 ==> forall|i: int| 0 <= i < s.len() ==> (#[trigger] s[i]).is_sortable()
}

/// What the test for overlap reads can be decoded: the right bound of every
/// run but the last, and the left bound of every run but the first.
pub open spec fn runs_joinable(s: Seq<SstView>) -> bool {
    forall|i: int| 0 < i < s.len() ==> (#[trigger] s[i - 1]).has_right() && s[i].has_left()
}

/// Each run ends below the start of the next one, so the runs can be read
/// one after another as a single sorted run.
pub open spec fn runs_concatenable(s: Seq<SstView>) -> bool {
    forall|i: int|
        0 < i < s.len() ==> (#[trigger] s[i - 1]).key_range->0.compare_right_with(
            s[i].key_range->0.left,
        ) == KeyOrder::Less
}

/// Decides [`runs_sortable`].
pub fn check_runs_sortable(ssts: &Vec<SstableInfo>) -> (r: bool)
    ensures
        r == runs_sortable(runs_view(ssts@)),
{
    if ssts.len() < 2 {
        return true;
    }
    let ghost s = runs_view(ssts@);
    let mut i: usize = 0;
    while i < ssts.len()
        invariant
            2 <= ssts.len(),
            i <= ssts.len(),
            s == runs_view(ssts@),
            forall|j: int| 0 <= j < i ==> (#[trigger] s[j]).is_sortable(),
        decreases ssts.len() - i,
    {
        if !ssts[i].is_sortable() {
            assert(!s[i as int].is_sortable());
            return false;
        }
        i += 1;
    }
    true
}

/// Decides [`runs_joinable`].
pub fn check_runs_joinable(ssts: &Vec<SstableInfo>) -> (r: bool)
    ensures
        r == runs_joinable(runs_view(ssts@)),
{
    let ghost s = runs_view(ssts@);
    let mut i: usize = 1;
    while i < ssts.len()
        invariant
            1 <= i,
            s == runs_view(ssts@),
            forall|j: int| 0 < j < i && j < s.len() ==> (#[trigger] s[j - 1]).has_right() && s[j].has_left(),
        decreases ssts.len() - i,
    {
        assert(s[i as int - 1] == ssts[i as int - 1]@ && s[i as int] == ssts[i as int]@);
        if !ssts[i - 1].has_right() || !ssts[i].has_left() {
            assert(!(s[i as int - 1].has_right() && s[i as int].has_left()));
            return false;
        }
        i += 1;
    }
    true
}

/// Decides [`runs_concatenable`] for runs whose bounds can be decoded as
/// far as the test reads them.
pub fn can_concat(ssts: &Vec<SstableInfo>) -> (r: bool)
    requires
        runs_joinable(runs_view(ssts@)),
    ensures
        r == runs_concatenable(runs_view(ssts@)),
{
    let ghost s = runs_view(ssts@);
    let mut i: usize = 1;
    while i < ssts.len()
        invariant
            1 <= i,
            s == runs_view(ssts@),
            runs_joinable(s),
            forall|j: int|
                0 < j < i && j < s.len() ==> (#[trigger] s[j - 1]).key_range->0.compare_right_with(
                    s[j].key_range->0.left,
                ) == KeyOrder::Less,
        decreases ssts.len() - i,
    {
        assert(s[i as int - 1].has_right() && s[i as int].has_left());
        let prev = &ssts[i - 1];
        let cur = &ssts[i];
        assert(prev@ == s[i - 1] && cur@ == s[i as int]);
        match (&prev.key_range, &cur.key_range) {
            (Some(p), Some(c)) => {
                if p.compare_right_with(&c.left) != KeyOrder::Less {
                    return false;
                }
            },
            _ => {
                assert(false);
            },
        }
        i += 1;
    }
    true
}

} // verus!
