//! Laws that relate the operations of the library to one another.

pub mod commit;
pub mod concat;
pub mod epochs;
pub mod key_order;
pub mod membership;
pub mod overlap;
pub mod pins;
pub mod regroup;
pub mod run_order;
pub mod split;
pub mod visibility;
