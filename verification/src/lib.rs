//! Cursor-based pagination over in-memory collections of time-stamped items.
//!
//! A page request names an optional exclusive cursor (`after_timestamp`), an
//! optional sort direction (ascending by default), and a maximum page length.
//! The paginator sorts a working copy of the supplied items by timestamp,
//! resumes just after the first item whose timestamp equals the cursor, and
//! returns a bounded contiguous slice.  A cursor that matches no item restarts
//! from the beginning; a cursor on the last item yields an empty page; the
//! input collection is never mutated.

pub mod order;
pub mod pagination;
pub mod timestamp;
