use vstd::prelude::*;

verus! {

/// A stored start row, as read back from the store.
#[derive(Debug, Clone, Copy, PartialEq, Eq, Structural)]
pub struct StartingLog {
    pub id: i64,
    pub timestamp: Option<i64>,
}

/// A stored finish row, as read back from the store.
#[derive(Debug, Clone, Copy, PartialEq, Eq, Structural)]
pub struct FinishedLog {
    pub id: i64,
    pub timestamp: Option<i64>,
}

/// A start event, ready to be written.
#[derive(Debug, Clone, Copy, PartialEq, Eq, Structural)]
pub struct NewStartingLog {
    pub log_id: i64,
    pub timestamp: i64,
}

/// A finish event, ready to be written.
#[derive(Debug, Clone, Copy, PartialEq, Eq, Structural)]
pub struct NewFinishedLog {
    pub log_id: i64,
    pub timestamp: i64,
}

/// A classified record: an event tagged with its category.
#[derive(Debug, Clone, Copy, PartialEq, Eq, Structural)]
pub enum Entry {
    Start(NewStartingLog),
    Finish(NewFinishedLog),
}

} // verus!
