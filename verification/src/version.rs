//! The version: every compaction group with its levels, and the epochs that
//! bound what readers may see.

use vstd::prelude::*;
use std::collections::HashMap;
use vstd::std_specs::iter::IteratorSpec;
use crate::delta::CompactionConfig;
use crate::level::{Level, LevelType, LevelView, Levels, LevelsView, OverlappingLevel, L0View};
use crate::ordered::{ascending_seq, insert_ascending, is_ascending, lemma_ascending_seq_is};
use crate::split::NEW_COMPACTION_GROUP;
use crate::watermark::{TableWatermarks, WatermarksView};

verus! {

broadcast use vstd::std_specs::hash::group_hash_axioms;

/// The id that no version carries.
pub const INVALID_VERSION_ID: u64 = 0;

/// A snapshot of the storage layout.
#[derive(Debug, Default, PartialEq, Eq)]
pub struct HummockVersion {
    pub id: u64,
    pub levels: HashMap<u64, Levels>,
    pub max_committed_epoch: u64,
    pub safe_epoch: u64,
    pub table_watermarks: HashMap<u32, TableWatermarks>,
}

/// Mathematical value of a [`HummockVersion`].
#[verifier::ext_equal]
pub struct VersionView {
    pub id: u64,
    pub levels: Map<u64, LevelsView>,
    pub max_committed_epoch: u64,
    pub safe_epoch: u64,
    pub table_watermarks: Map<u32, WatermarksView>,
}

/// The values of the groups of a version.
pub open spec fn groups_view(m: Map<u64, Levels>) -> Map<u64, LevelsView> {
    m.map_values(|l: Levels| l@)
}

/// The values of the watermarks of a version.
pub open spec fn watermarks_view(m: Map<u32, TableWatermarks>) -> Map<u32, WatermarksView> {
    m.map_values(|w: TableWatermarks| w@)
}

impl View for HummockVersion {
    type V = VersionView;

    open spec fn view(&self) -> VersionView {
        VersionView {
            id: self.id,
            levels: groups_view(self.levels@),
            max_committed_epoch: self.max_committed_epoch,
            safe_epoch: self.safe_epoch,
            table_watermarks: watermarks_view(self.table_watermarks@),
        }
    }
}

/// Taking the values of the groups commutes with putting a group in.
pub proof fn lemma_groups_view_insert(m: Map<u64, Levels>, k: u64, v: Levels)
    ensures
        groups_view(m.insert(k, v)) == groups_view(m).insert(k, v@),
{
    assert(groups_view(m.insert(k, v)) =~= groups_view(m).insert(k, v@));
}

/// The keys of a map in ascending order.
pub fn sorted_keys<V>(m: &HashMap<u64, V>) -> (r: Vec<u64>)
    ensures
        r@ == ascending_seq(m@.dom()),
        is_ascending(r@),
        r@.to_set() == m@.dom(),
{
    let mut out: Vec<u64> = Vec::new();
    let ghost all: Seq<u64> = vstd::std_specs::hash::spec_keys_iter(m).remaining().unref();
    assert(all.subrange(0, 0).to_set() =~= out@.to_set());
    for k in it: m.keys()
        invariant
            it.seq().unref() == all,
            is_ascending(out@),
            out@.to_set() == all.subrange(0, it.index()).to_set(),
    {
        insert_ascending(&mut out, *k);
        proof {
            let a = all.subrange(0, it.index());
            let b = all.subrange(0, it.index() + 1);
            assert(b =~= a.push(*k));
            a.lemma_push_to_set_commute(*k);
        }
    }
    proof {
        assert(all.subrange(0, all.len() as int) =~= all);
        lemma_ascending_seq_is(out@, m@.dom());
    }
    out
}

/// An empty level below level zero.
pub open spec fn empty_level(level_idx: u32) -> LevelView {
    LevelView {
        level_idx,
        level_type: LevelType::Nonoverlapping,
        table_infos: Seq::empty(),
        total_file_size: 0,
        sub_level_id: 0,
        uncompressed_file_size: 0,
    }
}

/// The levels of a group that holds no run yet: an empty level zero and
/// `max_level` empty levels below it, numbered from one.
pub open spec fn initial_levels(group_id: u64, max_level: u64) -> LevelsView {
    LevelsView {
        levels: Seq::new(max_level as nat, |l: int| empty_level((l + 1) as u32)),
        l0: Some(L0View { sub_levels: Seq::empty(), total_file_size: 0, uncompressed_file_size: 0 }),
        group_id,
        parent_group_id: NEW_COMPACTION_GROUP,
        member_table_ids: Seq::empty(),
    }
}

/// Builds the levels of a new compaction group.
pub fn build_initial_compaction_group_levels(group_id: u64, compaction_config: &CompactionConfig) -> (r:
    Levels)
    requires
        compaction_config.max_level <= u32::MAX,
    ensures
        r@ == initial_levels(group_id, compaction_config.max_level),
{
    let mut levels: Vec<Level> = Vec::new();
    let mut l: u64 = 0;
    while l < compaction_config.max_level
        invariant
            l <= compaction_config.max_level <= u32::MAX,
            levels.len() == l,
            forall|k: int| 0 <= k < l ==> (#[trigger] levels[k])@ == empty_level((k + 1) as u32),
        decreases compaction_config.max_level - l,
    {
        let level = Level {
            level_idx: (l + 1) as u32,
            level_type: LevelType::Nonoverlapping,
            table_infos: Vec::new(),
            total_file_size: 0,
            sub_level_id: 0,
            uncompressed_file_size: 0,
        };
        assert(level@ =~~= empty_level((l + 1) as u32));
        levels.push(level);
        l += 1;
    }
    let r = Levels {
        levels,
        l0: Some(OverlappingLevel { sub_levels: Vec::new(), total_file_size: 0, uncompressed_file_size: 0 }),
        group_id,
        parent_group_id: NEW_COMPACTION_GROUP,
        member_table_ids: Vec::new(),
    };
    assert(r@ =~~= initial_levels(group_id, compaction_config.max_level));
    r
}

/// Number of levels of a compaction group, level zero included; zero for a
/// group that the version does not hold.
pub open spec fn spec_num_levels(v: VersionView, compaction_group_id: u64) -> nat {
    if v.levels.contains_key(compaction_group_id) {
        v.levels[compaction_group_id].levels.len() + 1
    } else {
        0
    }
}

impl HummockVersion {
    /// The levels of a compaction group that the version holds.
    pub fn get_compaction_group_levels(&self, compaction_group_id: u64) -> (r: &Levels)
        requires
            self@.levels.contains_key(compaction_group_id),
        ensures
            r@ == self@.levels[compaction_group_id],
    {
        let r = self.levels.get(&compaction_group_id);
        assert(self.levels@.contains_key(compaction_group_id));
        r.unwrap()
    }

    /// Number of levels of a compaction group, level zero included; zero for
    /// a group that the version does not hold. A count beyond `usize` is
    /// given as `usize::MAX`.
    pub fn num_levels(&self, compaction_group_id: u64) -> (r: usize)
        ensures
            r == if spec_num_levels(self@, compaction_group_id) <= usize::MAX {
                spec_num_levels(self@, compaction_group_id)
            } else {
                usize::MAX as nat
            },
    {
        match self.levels.get(&compaction_group_id) {
            Some(group) => {
                assert(self.levels@.contains_key(compaction_group_id));
                if group.levels.len() < usize::MAX {
                    group.levels.len() + 1
                } else {
                    usize::MAX
                }
            },
            None => {
                assert(!self.levels@.contains_key(compaction_group_id));
                0
            },
        }
    }
}

} // verus!
