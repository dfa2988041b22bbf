//! Version metadata of an LSM-tree storage layer.
//!
//! A version records which sorted runs belong to which level of which
//! compaction group. Version deltas move a version forward; readers pin a
//! version while they use it and merge its runs through iterators that hide
//! everything a read epoch must not see.

pub mod error;
pub mod estimated_lru;
pub mod iterator;
pub mod key;
pub mod laws;
pub mod apply;
pub mod branched;
pub mod compact;
pub mod delta;
pub mod delta_info;
pub mod level;
pub mod members;
pub mod ordered;
pub mod pin_ledger;
pub mod pinned;
pub mod queries;
pub mod runs;
pub mod split;
pub mod sstable;
pub mod store;
pub mod sub_level;
pub mod text;
pub mod validate;
pub mod version;
pub mod watermark;
