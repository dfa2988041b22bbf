//! A version as a reader holds it.
//!
//! Pinning a version tells the ledger of pinned versions that the version
//! is in use; letting it go tells the ledger that one holder is gone. The
//! pinned version itself only names the report that is due: whoever owns
//! the channel to the ledger sends it.

use vstd::prelude::*;
use std::collections::HashMap;
use crate::level::Level;
use crate::pin_ledger::PinVersionAction;
use crate::queries::{
    get_table_compaction_group_id_mapping, group_levels_newest_first, level_refs_view,
    levels_newest_first, spec_table_groups,
};
use crate::level::LevelView;
use crate::version::{HummockVersion, VersionView, INVALID_VERSION_ID};

verus! {

broadcast use vstd::std_specs::hash::group_hash_axioms;

/// A version together with the index from its member tables to their
/// groups.
pub struct PinnedVersion {
    version: HummockVersion,
    compaction_group_index: HashMap<u32, u64>,
}

/// The levels that a read of `table_id` meets in a version with the given
/// index: those of the group of the table, newest first; none for a table
/// that the index does not know.
pub open spec fn spec_levels_of_table(v: VersionView, index: Map<u32, u64>, table_id: u32) -> Seq<
    LevelView,
> {
    if index.contains_key(table_id) && v.levels.contains_key(index[table_id]) {
        levels_newest_first(v.levels[index[table_id]])
    } else {
        Seq::empty()
    }
}

impl PinnedVersion {
    /// The version that is pinned.
    pub closed spec fn version_view(&self) -> VersionView {
        self.version@
    }

    /// The group of each member table of the pinned version.
    pub closed spec fn index_view(&self) -> Map<u32, u64> {
        self.compaction_group_index@
    }

    /// Pins a version. Returns the pinned version and the report that is
    /// due to the ledger.
    pub fn new(version: HummockVersion) -> (r: (Self, PinVersionAction))
        ensures
            r.0.version_view() == version@,
            r.0.index_view() == spec_table_groups(version@),
            r.1 == PinVersionAction::Pin(version.id),
    {
        let version_id = version.id;
        let compaction_group_index = get_table_compaction_group_id_mapping(&version);
        (PinnedVersion { version, compaction_group_index }, PinVersionAction::Pin(version_id))
    }

    /// Pins a version that is not older than this one.
    pub fn new_pin_version(&self, version: HummockVersion) -> (r: (Self, PinVersionAction))
        requires
            version.id >= self.version_view().id,
        ensures
            r.0.version_view() == version@,
            r.0.index_view() == spec_table_groups(version@),
            r.1 == PinVersionAction::Pin(version.id),
    {
        PinnedVersion::new(version)
    }

    /// The report that is due to the ledger when the last holder lets go.
    pub fn release(&self) -> (r: PinVersionAction)
        ensures
            r == PinVersionAction::Unpin(self.version_view().id),
    {
        PinVersionAction::Unpin(self.version.id)
    }

    pub fn id(&self) -> (r: u64)
        ensures
            r == self.version_view().id,
    {
        self.version.id
    }

    /// Whether the version carries an id that a version can carry.
    pub fn is_valid(&self) -> (r: bool)
        ensures
            r == (self.version_view().id != INVALID_VERSION_ID),
    {
        self.version.id != INVALID_VERSION_ID
    }

    pub fn max_committed_epoch(&self) -> (r: u64)
        ensures
            r == self.version_view().max_committed_epoch,
    {
        self.version.max_committed_epoch
    }

    pub fn safe_epoch(&self) -> (r: u64)
        ensures
            r == self.version_view().safe_epoch,
    {
        self.version.safe_epoch
    }

    /// The index from member tables to groups.
    pub fn compaction_group_index(&self) -> (r: &HashMap<u32, u64>)
        ensures
            r@ == self.index_view(),
    {
        &self.compaction_group_index
    }

    /// The levels that a read of the table meets, newest first.
    pub fn levels(&self, table_id: u32) -> (r: Vec<&Level>)
        ensures
            level_refs_view(r@) == spec_levels_of_table(
                self.version_view(),
                self.index_view(),
                table_id,
            ),
    {
        match self.compaction_group_index.get(&table_id) {
            Some(compaction_group_id) => {
                match self.version.levels.get(compaction_group_id) {
                    Some(levels) => {
                        assert(self.version@.levels[*compaction_group_id] == levels@);
                        group_levels_newest_first(levels)
                    },
                    None => {
                        let r: Vec<&Level> = Vec::new();
                        assert(level_refs_view(r@) =~= Seq::<LevelView>::empty());
                        assert(!self.version@.levels.contains_key(*compaction_group_id));
                        r
                    },
                }
            },
            None => {
                let r: Vec<&Level> = Vec::new();
                assert(level_refs_view(r@) =~= Seq::<LevelView>::empty());
                r
            },
        }
    }

    /// A copy of the pinned version, to apply deltas to.
    pub fn version(&self) -> (r: HummockVersion)
        ensures
            r@ == self.version_view(),
    {
        self.version.clone()
    }
}

} // verus!
