//! The identifiers of stored values.

use vstd::prelude::*;

verus! {

pub type ContainerId = u16;

pub type SegmentId = u8;

pub type PageId = u16;

pub type SlotId = u16;

/// A transaction.
#[derive(Clone, Copy, Debug, PartialEq, Eq, Structural)]
pub struct TransactionId {
    pub id: u64,
}

/// Where a value is stored. Parts that are not known are left out.
#[derive(Clone, Copy, Debug, PartialEq, Eq)]
pub struct ValueId {
    pub container_id: ContainerId,
    pub segment_id: Option<SegmentId>,
    pub page_id: Option<PageId>,
    pub slot_id: Option<SlotId>,
}

} // verus!
