//! The events of the write-ahead log.

use vstd::prelude::*;

verus! {

/// What happened to a path.
#[derive(Clone, Debug)]
pub enum WalEventType {
    Added,
    Modified,
    Removed,
    Renamed { from: String },
}

/// One logged change.
#[derive(Clone, Debug)]
pub struct WalEvent {
    pub event_type: WalEventType,
    pub path: String,
    pub timestamp: String,
}

} // verus!
