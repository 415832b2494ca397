//! Collections and the versions of their DATs.

use vstd::prelude::*;

verus! {

/// A collection (for example "Nintendo - NES", "MAME").
#[derive(Clone, Debug)]
pub struct Collection {
    pub id: i64,
    pub name: String,
    pub source_type: String,
    pub created_at: String,
}

/// A specific version of a collection's DAT.
#[derive(Clone, Debug)]
pub struct CollectionVersion {
    pub id: i64,
    pub collection_id: i64,
    pub version: String,
    pub dat_path: String,
    pub is_active: bool,
    pub imported_at: String,
}

} // verus!
