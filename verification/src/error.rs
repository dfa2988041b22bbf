//! The ways in which a version or a delta can break the update protocol.

use vstd::prelude::*;

verus! {

/// Why an operation on a version was refused.
#[derive(Clone, Copy, Debug, PartialEq, Eq, Structural)]
pub enum VersionError {
    /// A compaction group that the operation names is not in the version.
    GroupNotFound,
    /// A split names one group as both its source and its target.
    SplitIntoSameGroup,
    /// A compaction group has no level zero.
    MissingLevel0,
    /// A level index lies beyond the levels of the group.
    LevelOutOfRange,
    /// A position lies beyond the sub-levels of level zero.
    SubLevelOutOfRange,
    /// No sub-level carries the id that a compaction result is meant for.
    SubLevelNotFound,
    /// A newly committed sub-level is not newer than the newest one.
    SubLevelNotNewest,
    /// Runs that have to be ordered lack a key range that can be decoded.
    MalformedKeyRange,
    /// The runs of a level overlap after an insertion.
    NotConcatenable,
    /// A size counter left the range of its type.
    SizeOverflow,
    /// A fresh run id left the range of its type.
    RunIdOverflow,
    /// The delta would move the committed epoch backwards.
    EpochRegression,
    /// The delta would move the safe epoch backwards.
    SafeEpochRegression,
    /// A commit inserts runs below level zero.
    CommitBelowLevel0,
    /// A commit removes runs from a group that it does not destroy.
    CommitRemovesRuns,
    /// One group carries two constructions or two destructions.
    DuplicateGroupChange,
    /// A construction comes without a compaction config.
    MissingGroupConfig,
    /// One group holds two branches of one object.
    DuplicateBranch,
}

} // verus!
