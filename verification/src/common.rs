//! Identifiers and sizes shared by the whole engine.
use vstd::prelude::*;

verus! {

/// Page size in bytes (4 KB).
pub const PAGE_SIZE: usize = 4096;

/// Invalid page sentinel.
pub const INVALID_PAGE_ID: u32 = 0xffff_ffff;

/// A page identifier.
#[derive(Debug, Clone, Copy, PartialEq, Eq, Hash, Structural)]
pub struct PageId(pub u32);

/// A record identifier (page + slot).
#[derive(Debug, Clone, Copy, PartialEq, Eq, Hash, Structural)]
pub struct RID {
    pub page_id: PageId,
    pub slot_id: u16,
}

/// A table identifier.
#[derive(Debug, Clone, Copy, PartialEq, Eq, Hash, Structural)]
pub struct TableId(pub u32);

/// A transaction identifier.
#[derive(Debug, Clone, Copy, PartialEq, Eq, Hash, Structural)]
pub struct TxnId(pub u64);

/// An index identifier.
#[derive(Debug, Clone, Copy, PartialEq, Eq, Hash, Structural)]
pub struct IndexId(pub u32);

impl DeepView for RID {
    type V = RID;

    open spec fn deep_view(&self) -> RID {
        *self
    }
}

impl DeepView for TxnId {
    type V = TxnId;

    open spec fn deep_view(&self) -> TxnId {
        *self
    }
}

/// The record identifier of a row that no page holds.
pub open spec fn no_rid() -> RID {
    RID { page_id: PageId(0), slot_id: 0 }
}

/// Gives the record identifier of a row that no page holds.
pub fn dummy_rid() -> (r: RID)
    ensures
        r == no_rid(),
{
    RID { page_id: PageId(0), slot_id: 0 }
}

} // verus!
