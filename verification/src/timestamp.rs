use vstd::prelude::*;

verus! {

/// A totally ordered instant, counted in microseconds since an arbitrary epoch.
///
/// Cursor matching compares timestamps exactly, so the value is kept as a
/// plain signed integer.
#[derive(Clone, Copy, Debug, PartialEq, Eq, Structural)]
pub struct Timestamp {
    pub micros: i64,
}

/// Capability required of items that can be paginated: each item yields a
/// timestamp, and an item can be duplicated without changing its value.
pub trait Timestamped: Sized {
    /// The item's timestamp, as specifications see it.
    spec fn ts(&self) -> i64;

    /// Returns the item's timestamp.
    fn timestamp(&self) -> (t: Timestamp)
        ensures
            t.micros == self.ts(),
    ;

    /// Returns a copy of the item equal to the original.
    fn duplicate(&self) -> (d: Self)
        ensures
            d == *self,
    ;
}

/// A minimal timestamped record: an identifier together with a creation time.
#[derive(Clone, Copy, Debug, PartialEq, Eq, Structural)]
pub struct TimedEntry {
    pub id: u64,
    pub created_at: Timestamp,
}

impl Timestamped for TimedEntry {
    open spec fn ts(&self) -> i64 {
        self.created_at.micros
    }

    fn timestamp(&self) -> (t: Timestamp) {
        self.created_at
    }

    fn duplicate(&self) -> (d: Self) {
        TimedEntry { id: self.id, created_at: self.created_at }
    }
}

} // verus!
