use vstd::prelude::*;

use crate::order::lemma_sort_by_ts_len;
use crate::order::lemma_sort_by_ts_multiset;
use crate::order::lemma_sort_by_ts_sorted;
use crate::order::sort_by_timestamp;
use crate::order::sort_by_ts;
use crate::order::sorted_by_ts;
use crate::timestamp::Timestamp;
use crate::timestamp::Timestamped;

verus! {

/// The direction in which items are ordered before slicing a page.
#[derive(Clone, Copy, Debug, PartialEq, Eq, Structural)]
pub enum SortDirection {
    Ascending,
    Descending,
}

/// One page request: an optional exclusive resume cursor, an optional sort
/// direction (ascending when absent), and the maximum page length.
#[derive(Clone, Copy, Debug)]
pub struct TimestampPagination {
    pub after_timestamp: Option<Timestamp>,
    pub direction: Option<SortDirection>,
    pub limit: usize,
}

/// Failure channel kept for the host's result convention.  Pagination itself
/// is total: no input ever produces this value.
#[derive(Clone, Copy, Debug, PartialEq, Eq, Structural)]
pub struct PaginationError;

/// An absent direction defaults to ascending.
pub open spec fn is_ascending(direction: Option<SortDirection>) -> bool {
    match direction {
        Some(SortDirection::Descending) => false,
        _ => true,
    }
}

/// Index of the first element of `s` whose timestamp is exactly `t`, or
/// `s.len()` when no element matches.
pub open spec fn first_at<T: Timestamped>(s: Seq<T>, t: i64) -> int
    decreases s.len(),
{
    if s.len() == 0 {
        0
    } else if s[0].ts() == t {
        0
    } else {
        1 + first_at(s.drop_first(), t)
    }
}

/// Where a page begins in the sorted sequence `q`: just after the first
/// element matching the cursor, or at the front when there is no cursor or
/// the cursor matches nothing.
pub open spec fn start_of<T: Timestamped>(q: Seq<T>, after: Option<Timestamp>) -> int {
    match after {
        None => 0,
        Some(cursor) => {
            let p = first_at(q, cursor.micros);
            if p < q.len() {
                p + 1
            } else {
                0
            }
        },
    }
}

/// The contiguous slice of `q` that begins at `start` and holds at most
/// `limit` elements, clipped to the end of `q`.
pub open spec fn clipped_slice<T>(q: Seq<T>, start: int, limit: int) -> Seq<T> {
    let end = if start + limit <= q.len() {
        start + limit
    } else {
        q.len() as int
    };
    q.subrange(start, end)
}

/// The page that a request selects: the items sorted in the requested
/// direction, sliced just after the cursor position and bounded by the limit.
pub open spec fn page_of<T: Timestamped>(s: Seq<T>, req: TimestampPagination) -> Seq<T> {
    let q = sort_by_ts(s, is_ascending(req.direction));
    clipped_slice(q, start_of(q, req.after_timestamp), req.limit as int)
}

/// `first_at` is the first matching index: it stays within bounds, it lands
/// on a match whenever one exists, and nothing before it matches.
pub proof fn lemma_first_at_props<T: Timestamped>(s: Seq<T>, t: i64)
    ensures
        0 <= first_at(s, t) <= s.len(),
        first_at(s, t) < s.len() ==> s[first_at(s, t)].ts() == t,
        forall|k: int| 0 <= k < first_at(s, t) ==> (#[trigger] s[k]).ts() != t,
    decreases s.len(),
{
    if s.len() != 0 && s[0].ts() != t {
        let rest = s.drop_first();
        lemma_first_at_props(rest, t);
        assert(forall|k: int| 0 <= k < first_at(rest, t) ==> (#[trigger] rest[k]).ts() != t);
        assert forall|k: int| 0 <= k < first_at(s, t) implies (#[trigger] s[k]).ts() != t by {
            if k > 0 {
                assert(s[k] == rest[k - 1]);
            }
        }
    }
}

/// A fresh copy of the items, equal to the input element for element.
fn duplicate_items<T: Timestamped>(items: &Vec<T>) -> (d: Vec<T>)
    ensures
        d@ == items@,
{
    let n = items.len();
    let mut d: Vec<T> = Vec::new();
    let mut i: usize = 0;
    while i < n
        invariant
            i <= n,
            n == items.len(),
            d@ == items@.subrange(0, i as int),
        decreases n - i,
    {
        d.push(items[i].duplicate());
        proof {
            assert(d@ =~= items@.subrange(0, i as int + 1));
        }
        i += 1;
    }
    proof {
        assert(items@.subrange(0, n as int) =~= items@);
    }
    d
}

/// Index just after the first element of `sorted` whose timestamp equals the
/// cursor, or zero when no element matches.
fn position_after<T: Timestamped>(sorted: &Vec<T>, cursor: Timestamp) -> (start: usize)
    ensures
        start as int == start_of(sorted@, Some(cursor)),
        start <= sorted.len(),
{
    proof {
        lemma_first_at_props(sorted@, cursor.micros);
    }
    let n = sorted.len();
    let mut j: usize = 0;
    while j < n
        invariant
            j <= n,
            n == sorted.len(),
            forall|k: int| 0 <= k < j ==> (#[trigger] sorted@[k]).ts() != cursor.micros,
        decreases n - j,
    {
        let t = sorted[j].timestamp();
        if t.micros == cursor.micros {
            proof {
                lemma_first_at_props(sorted@, cursor.micros);
                let p = first_at(sorted@, cursor.micros);
                assert(p >= j) by {
                    if p < j {
                        assert(sorted@[p].ts() != cursor.micros);
                    }
                }
                assert(p <= j) by {
                    if p > j {
                        assert(sorted@[j as int].ts() != cursor.micros);
                    }
                }
            }
            return j + 1;
        }
        j += 1;
    }
    proof {
        lemma_first_at_props(sorted@, cursor.micros);
        let p = first_at(sorted@, cursor.micros);
        assert(p == n) by {
            if p < n {
                assert(sorted@[p].ts() == cursor.micros);
            }
        }
    }
    0
}

/// At most `limit` elements of `sorted`, starting at `start` and clipped to
/// the end of the sequence.
fn take_page<T: Timestamped>(sorted: Vec<T>, start: usize, limit: usize) -> (page: Vec<T>)
    requires
        start <= sorted.len(),
    ensures
        page@ == clipped_slice(sorted@, start as int, limit as int),
{
    let n = sorted.len();
    let mut page: Vec<T> = Vec::new();
    let mut i: usize = start;
    while i < n && page.len() < limit
        invariant
            start <= i <= n,
            n == sorted.len(),
            page@ == sorted@.subrange(start as int, i as int),
            i - start <= limit,
        decreases n - i,
    {
        page.push(sorted[i].duplicate());
        proof {
            assert(page@ =~= sorted@.subrange(start as int, i as int + 1));
        }
        i += 1;
    }
    proof {
        assert(page@ =~= clipped_slice(sorted@, start as int, limit as int));
    }
    page
}

/// Returns one page of `items`.
///
/// Without a request the items come back unchanged, in their original order.
/// With a request the result is the items sorted by timestamp in the
/// requested direction (ascending by default), resumed just after the first
/// item whose timestamp equals the cursor (from the front when there is no
/// cursor or it matches nothing), and cut off after `limit` items.  Every
/// input yields a page: the error arm of the result is never taken.
pub fn get_by_timestamp_pagination<T: Timestamped>(
    items: &Vec<T>,
    page: Option<TimestampPagination>,
) -> (result: Result<Vec<T>, PaginationError>)
    ensures
        result is Ok,
        result matches Ok(p) ==> p@ == match page {
            None => items@,
            Some(req) => page_of(items@, req),
        },
{
    match page {
        None => Ok(duplicate_items(items)),
        Some(req) => {
            let asc = match req.direction {
                Some(SortDirection::Descending) => false,
                _ => true,
            };
            let sorted = sort_by_timestamp(items, asc);
            let start: usize = match req.after_timestamp {
                Some(cursor) => position_after(&sorted, cursor),
                None => 0,
            };
            Ok(take_page(sorted, start, req.limit))
        },
    }
}

/// No two items of the sequence share a timestamp.
pub open spec fn distinct_ts<T: Timestamped>(s: Seq<T>) -> bool {
    forall|i: int, j: int|
        0 <= i < j < s.len() ==> (#[trigger] s[i]).ts() != (#[trigger] s[j]).ts()
}

/// Ascending default: with no cursor and no explicit direction, the page is
/// the first `limit` items (clipped to the length) of the ascending
/// timestamp sort, which orders the input without adding, dropping, or
/// duplicating items.
pub proof fn lemma_ascending_default<T: Timestamped>(s: Seq<T>, limit: usize)
    ensures
        ({
            let req = TimestampPagination { after_timestamp: None, direction: None, limit };
            let q = sort_by_ts(s, true);
            &&& page_of(s, req) == clipped_slice(q, 0, limit as int)
            &&& sorted_by_ts(q, true)
            &&& q.to_multiset() == s.to_multiset()
            &&& q.len() == s.len()
        }),
{
    lemma_sort_by_ts_sorted(s, true);
    lemma_sort_by_ts_multiset(s, true);
    lemma_sort_by_ts_len(s, true);
}

/// Descending order: with direction `Descending` and no cursor, the page is
/// the first `limit` items (clipped to the length) of the descending
/// timestamp sort, which orders the input without adding, dropping, or
/// duplicating items.
pub proof fn lemma_descending_order<T: Timestamped>(s: Seq<T>, limit: usize)
    ensures
        ({
            let req = TimestampPagination {
                after_timestamp: None,
                direction: Some(SortDirection::Descending),
                limit,
            };
            let q = sort_by_ts(s, false);
            &&& page_of(s, req) == clipped_slice(q, 0, limit as int)
            &&& sorted_by_ts(q, false)
            &&& q.to_multiset() == s.to_multiset()
            &&& q.len() == s.len()
        }),
{
    lemma_sort_by_ts_sorted(s, false);
    lemma_sort_by_ts_multiset(s, false);
    lemma_sort_by_ts_len(s, false);
}

/// A cursor that matches no item restarts from the beginning: the page
/// equals the page of the same request without a cursor.
pub proof fn lemma_stale_cursor_restarts<T: Timestamped>(
    s: Seq<T>,
    cursor: Timestamp,
    direction: Option<SortDirection>,
    limit: usize,
)
    requires
        forall|k: int| 0 <= k < s.len() ==> (#[trigger] s[k]).ts() != cursor.micros,
    ensures
        ({
            let with_cursor = TimestampPagination {
                after_timestamp: Some(cursor),
                direction,
                limit,
            };
            let without = TimestampPagination { after_timestamp: None, direction, limit };
            page_of(s, with_cursor) == page_of(s, without)
        }),
{
    broadcast use vstd::seq_lib::group_to_multiset_ensures;

    let asc = is_ascending(direction);
    let q = sort_by_ts(s, asc);
    lemma_sort_by_ts_multiset(s, asc);
    assert forall|k: int| 0 <= k < q.len() implies (#[trigger] q[k]).ts() != cursor.micros by {
        assert(q.contains(q[k]));
        assert(s.to_multiset().count(q[k]) > 0);
        assert(s.contains(q[k]));
        let j = choose|j: int| 0 <= j < s.len() && s[j] == q[k];
        assert(s[j].ts() != cursor.micros);
    }
    lemma_first_at_props(q, cursor.micros);
    let p = first_at(q, cursor.micros);
    if p < q.len() {
        assert(q[p].ts() == cursor.micros);
    }
    assert(start_of(q, Some(cursor)) == 0);
}

/// Zero limit: whatever the cursor and direction, a request with limit `0`
/// selects the empty page.
pub proof fn lemma_zero_limit<T: Timestamped>(
    s: Seq<T>,
    after: Option<Timestamp>,
    direction: Option<SortDirection>,
)
    ensures
        ({
            let req = TimestampPagination { after_timestamp: after, direction, limit: 0 };
            page_of(s, req) == Seq::<T>::empty()
        }),
{
    let req = TimestampPagination { after_timestamp: after, direction, limit: 0 };
    let asc = is_ascending(direction);
    let q = sort_by_ts(s, asc);
    if after is Some {
        lemma_first_at_props(q, after->0.micros);
    }
    assert(0 <= start_of(q, after) <= q.len());
    assert(page_of(s, req) =~= Seq::<T>::empty());
}

/// Limit exceeds remainder: with no cursor and a limit at least the
/// collection's size, the page is the whole sorted collection.
pub proof fn lemma_limit_exceeds_remainder<T: Timestamped>(
    s: Seq<T>,
    direction: Option<SortDirection>,
    limit: usize,
)
    requires
        limit >= s.len(),
    ensures
        ({
            let req = TimestampPagination { after_timestamp: None, direction, limit };
            page_of(s, req) == sort_by_ts(s, is_ascending(direction))
        }),
{
    let req = TimestampPagination { after_timestamp: None, direction, limit };
    let asc = is_ascending(direction);
    lemma_sort_by_ts_len(s, asc);
    assert(page_of(s, req) =~= sort_by_ts(s, asc));
}

/// Cursor continuity: when timestamps are pairwise distinct, the cursor of
/// the sorted item at position `i` resumes the page exactly at position
/// `i + 1`, so consecutive pages chain without skipping or repeating items.
pub proof fn lemma_cursor_continuity<T: Timestamped>(
    s: Seq<T>,
    direction: Option<SortDirection>,
    limit: usize,
    i: int,
)
    requires
        distinct_ts(s),
        0 <= i < s.len(),
    ensures
        ({
            let q = sort_by_ts(s, is_ascending(direction));
            let cursor = (Timestamp { micros: q[i].ts() });
            let req = TimestampPagination { after_timestamp: Some(cursor), direction, limit };
            page_of(s, req) == clipped_slice(q, i + 1, limit as int)
        }),
{
    broadcast use vstd::seq_lib::group_to_multiset_ensures;

    let asc = is_ascending(direction);
    let q = sort_by_ts(s, asc);
    lemma_sort_by_ts_len(s, asc);
    lemma_sort_by_ts_multiset(s, asc);
    assert(s.no_duplicates()) by {
        assert forall|a: int, b: int|
            0 <= a < s.len() && 0 <= b < s.len() && a != b implies s[a] != s[b] by {
            if a < b {
                assert(s[a].ts() != s[b].ts());
            } else {
                assert(s[b].ts() != s[a].ts());
            }
        }
    }
    s.lemma_multiset_has_no_duplicates();
    q.lemma_multiset_has_no_duplicates_conv();
    assert(distinct_ts(q)) by {
        assert forall|a: int, b: int|
            0 <= a < b < q.len() implies (#[trigger] q[a]).ts() != (#[trigger] q[b]).ts() by {
            if q[a].ts() == q[b].ts() {
                assert(q[a] != q[b]);
                assert(q.contains(q[a]));
                assert(s.to_multiset().count(q[a]) > 0);
                assert(s.contains(q[a]));
                assert(q.contains(q[b]));
                assert(s.to_multiset().count(q[b]) > 0);
                assert(s.contains(q[b]));
                let ja = choose|j: int| 0 <= j < s.len() && s[j] == q[a];
                let jb = choose|j: int| 0 <= j < s.len() && s[j] == q[b];
                if ja < jb {
                    assert(s[ja].ts() != s[jb].ts());
                } else {
                    assert(s[jb].ts() != s[ja].ts());
                }
            }
        }
    }
    let t = q[i].ts();
    lemma_first_at_props(q, t);
    let p = first_at(q, t);
    assert(p <= i) by {
        if p > i {
            assert(q[i].ts() != t);
        }
    }
    assert(p == i) by {
        if p < i {
            assert(q[p].ts() != q[i].ts());
            assert(q[p].ts() == t);
        }
    }
}

} // verus!
