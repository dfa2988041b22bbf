//! Levels of one compaction group, and the edits that deltas make to them.

use vstd::prelude::*;
use crate::sstable::{copy_table_ids, runs_view, SstView, SstableInfo};

verus! {

/// Whether the runs of a level may overlap each other.
#[derive(Clone, Copy, Debug, Default, PartialEq, Eq, Structural)]
pub enum LevelType {
    #[default]
    Unspecified,
    Overlapping,
    Nonoverlapping,
}

/// An ordered list of runs: one level below level zero, or one sub-level of
/// level zero.
#[derive(Debug, Default, PartialEq, Eq)]
pub struct Level {
    pub level_idx: u32,
    pub level_type: LevelType,
    pub table_infos: Vec<SstableInfo>,
    pub total_file_size: u64,
    pub sub_level_id: u64,
    pub uncompressed_file_size: u64,
}

/// Mathematical value of a [`Level`].
#[verifier::ext_equal]
pub struct LevelView {
    pub level_idx: u32,
    pub level_type: LevelType,
    pub table_infos: Seq<SstView>,
    pub total_file_size: u64,
    pub sub_level_id: u64,
    pub uncompressed_file_size: u64,
}

impl View for Level {
    type V = LevelView;

    open spec fn view(&self) -> LevelView {
        LevelView {
            level_idx: self.level_idx,
            level_type: self.level_type,
            table_infos: runs_view(self.table_infos@),
            total_file_size: self.total_file_size,
            sub_level_id: self.sub_level_id,
            uncompressed_file_size: self.uncompressed_file_size,
        }
    }
}

/// The values of a list of levels.
pub open spec fn levels_view(s: Seq<Level>) -> Seq<LevelView> {
    s.map_values(|x: Level| x@)
}

/// Level zero: sub-levels that may overlap each other, ordered by their id.
#[derive(Debug, Default, PartialEq, Eq)]
pub struct OverlappingLevel {
    pub sub_levels: Vec<Level>,
    pub total_file_size: u64,
    pub uncompressed_file_size: u64,
}

/// Mathematical value of an [`OverlappingLevel`].
#[verifier::ext_equal]
pub struct L0View {
    pub sub_levels: Seq<LevelView>,
    pub total_file_size: u64,
    pub uncompressed_file_size: u64,
}

impl View for OverlappingLevel {
    type V = L0View;

    open spec fn view(&self) -> L0View {
        L0View {
            sub_levels: levels_view(self.sub_levels@),
            total_file_size: self.total_file_size,
            uncompressed_file_size: self.uncompressed_file_size,
        }
    }
}

/// All levels of one compaction group.
#[derive(Debug, Default, PartialEq, Eq)]
pub struct Levels {
    pub levels: Vec<Level>,
    pub l0: Option<OverlappingLevel>,
    pub group_id: u64,
    pub parent_group_id: u64,
    pub member_table_ids: Vec<u32>,
}

/// Mathematical value of a [`Levels`].
#[verifier::ext_equal]
pub struct LevelsView {
    pub levels: Seq<LevelView>,
    pub l0: Option<L0View>,
    pub group_id: u64,
    pub parent_group_id: u64,
    pub member_table_ids: Seq<u32>,
}

impl View for Levels {
    type V = LevelsView;

    open spec fn view(&self) -> LevelsView {
        LevelsView {
            levels: levels_view(self.levels@),
            l0: match self.l0 {
                Some(l0) => Some(l0@),
                None => None,
            },
            group_id: self.group_id,
            parent_group_id: self.parent_group_id,
            member_table_ids: self.member_table_ids@,
        }
    }
}

/// Copies a list of runs.
pub fn copy_runs(v: &Vec<SstableInfo>) -> (r: Vec<SstableInfo>)
    ensures
        runs_view(r@) == runs_view(v@),
{
    let mut r: Vec<SstableInfo> = Vec::new();
    let mut i: usize = 0;
    while i < v.len()
        invariant
            i <= v.len(),
            r.len() == i,
            forall|j: int| 0 <= j < i ==> r[j]@ == v[j]@,
        decreases v.len() - i,
    {
        r.push(v[i].clone());
        i += 1;
    }
    assert(runs_view(r@) =~= runs_view(v@));
    r
}

impl Clone for Level {
    fn clone(&self) -> (r: Self)
        ensures
            r@ == self@,
    {
        Level {
            level_idx: self.level_idx,
            level_type: self.level_type,
            table_infos: copy_runs(&self.table_infos),
            total_file_size: self.total_file_size,
            sub_level_id: self.sub_level_id,
            uncompressed_file_size: self.uncompressed_file_size,
        }
    }
}

/// Copies a list of levels.
pub fn copy_levels(v: &Vec<Level>) -> (r: Vec<Level>)
    ensures
        levels_view(r@) == levels_view(v@),
{
    let mut r: Vec<Level> = Vec::new();
    let mut i: usize = 0;
    while i < v.len()
        invariant
            i <= v.len(),
            r.len() == i,
            forall|j: int| 0 <= j < i ==> r[j]@ == v[j]@,
        decreases v.len() - i,
    {
        r.push(v[i].clone());
        i += 1;
    }
    assert(levels_view(r@) =~= levels_view(v@));
    r
}

impl Clone for OverlappingLevel {
    fn clone(&self) -> (r: Self)
        ensures
            r@ == self@,
    {
        OverlappingLevel {
            sub_levels: copy_levels(&self.sub_levels),
            total_file_size: self.total_file_size,
            uncompressed_file_size: self.uncompressed_file_size,
        }
    }
}

impl Clone for Levels {
    fn clone(&self) -> (r: Self)
        ensures
            r@ == self@,
    {
        Levels {
            levels: copy_levels(&self.levels),
            l0: match &self.l0 {
                Some(l0) => Some(l0.clone()),
                None => None,
            },
            group_id: self.group_id,
            parent_group_id: self.parent_group_id,
            member_table_ids: copy_table_ids(&self.member_table_ids),
        }
    }
}

} // verus!
