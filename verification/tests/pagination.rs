use timestamp_pagination::pagination::get_by_timestamp_pagination;
use timestamp_pagination::pagination::SortDirection;
use timestamp_pagination::pagination::TimestampPagination;
use timestamp_pagination::timestamp::TimedEntry;
use timestamp_pagination::timestamp::Timestamp;

fn entry(id: u64, micros: i64) -> TimedEntry {
    TimedEntry {
        id,
        created_at: Timestamp { micros },
    }
}

fn request(
    after_micros: Option<i64>,
    direction: Option<SortDirection>,
    limit: usize,
) -> TimestampPagination {
    TimestampPagination {
        after_timestamp: after_micros.map(|micros| Timestamp { micros }),
        direction,
        limit,
    }
}

#[test]
fn no_request_identity() {
    let items = vec![entry(1, 30), entry(2, 10), entry(3, 20)];
    let page = get_by_timestamp_pagination(&items, None).unwrap();
    assert_eq!(page, items);
}

#[test]
fn no_request_identity_empty() {
    let items: Vec<TimedEntry> = vec![];
    let page = get_by_timestamp_pagination(&items, None).unwrap();
    assert_eq!(page, items);
}

#[test]
fn ascending_default() {
    let items = vec![entry(1, 30), entry(2, 10), entry(3, 20)];
    let page = get_by_timestamp_pagination(&items, Some(request(None, None, 2))).unwrap();
    assert_eq!(page, vec![entry(2, 10), entry(3, 20)]);
}

#[test]
fn ascending_explicit() {
    let items = vec![entry(1, 30), entry(2, 10), entry(3, 20)];
    let req = request(None, Some(SortDirection::Ascending), 2);
    let page = get_by_timestamp_pagination(&items, Some(req)).unwrap();
    assert_eq!(page, vec![entry(2, 10), entry(3, 20)]);
}

#[test]
fn descending_order() {
    let items = vec![entry(1, 30), entry(2, 10), entry(3, 20)];
    let req = request(None, Some(SortDirection::Descending), 2);
    let page = get_by_timestamp_pagination(&items, Some(req)).unwrap();
    assert_eq!(page, vec![entry(1, 30), entry(3, 20)]);
}

#[test]
fn cursor_continuity() {
    // Distinct timestamps t1 < t2 < t3 < t4, supplied out of order.
    let items = vec![entry(3, 300), entry(1, 100), entry(4, 400), entry(2, 200)];

    let first = get_by_timestamp_pagination(&items, Some(request(None, None, 2))).unwrap();
    assert_eq!(first, vec![entry(1, 100), entry(2, 200)]);

    let second = get_by_timestamp_pagination(&items, Some(request(Some(200), None, 2))).unwrap();
    assert_eq!(second, vec![entry(3, 300), entry(4, 400)]);

    let third = get_by_timestamp_pagination(&items, Some(request(Some(400), None, 2))).unwrap();
    assert_eq!(third, vec![]);
}

#[test]
fn stale_cursor_restarts() {
    let items = vec![entry(1, 30), entry(2, 10), entry(3, 20)];
    let stale = get_by_timestamp_pagination(&items, Some(request(Some(999), None, 2))).unwrap();
    let fresh = get_by_timestamp_pagination(&items, Some(request(None, None, 2))).unwrap();
    assert_eq!(stale, fresh);
    assert_eq!(stale, vec![entry(2, 10), entry(3, 20)]);
}

#[test]
fn limit_exceeds_remainder() {
    let items = vec![entry(1, 30), entry(2, 10), entry(3, 20)];
    let page = get_by_timestamp_pagination(&items, Some(request(None, None, 10))).unwrap();
    assert_eq!(page, vec![entry(2, 10), entry(3, 20), entry(1, 30)]);
}

#[test]
fn zero_limit() {
    let items = vec![entry(1, 30), entry(2, 10), entry(3, 20)];
    let no_cursor = get_by_timestamp_pagination(&items, Some(request(None, None, 0))).unwrap();
    assert_eq!(no_cursor, vec![]);
    let cursor = get_by_timestamp_pagination(&items, Some(request(Some(10), None, 0))).unwrap();
    assert_eq!(cursor, vec![]);
    let stale = get_by_timestamp_pagination(&items, Some(request(Some(999), None, 0))).unwrap();
    assert_eq!(stale, vec![]);
}

#[test]
fn non_mutation() {
    let items = vec![entry(1, 30), entry(2, 10), entry(3, 20)];
    let before = items.clone();
    let req = request(Some(10), Some(SortDirection::Descending), 2);
    let _ = get_by_timestamp_pagination(&items, Some(req)).unwrap();
    let _ = get_by_timestamp_pagination(&items, None).unwrap();
    assert_eq!(items, before);
}

#[test]
fn empty_collection() {
    let items: Vec<TimedEntry> = vec![];
    let page = get_by_timestamp_pagination(&items, Some(request(Some(5), None, 3))).unwrap();
    assert_eq!(page, vec![]);
}

#[test]
fn equal_timestamps_keep_input_order() {
    // The sort is stable: items sharing a timestamp keep their relative order.
    let items = vec![entry(1, 5), entry(2, 5), entry(3, 1)];
    let asc = get_by_timestamp_pagination(&items, Some(request(None, None, 10))).unwrap();
    assert_eq!(asc, vec![entry(3, 1), entry(1, 5), entry(2, 5)]);
    let req = request(None, Some(SortDirection::Descending), 10);
    let desc = get_by_timestamp_pagination(&items, Some(req)).unwrap();
    assert_eq!(desc, vec![entry(1, 5), entry(2, 5), entry(3, 1)]);
}

#[test]
fn cursor_resumes_after_first_of_equal_timestamps() {
    // The cursor matches the first item with its timestamp; equal-timestamp
    // siblings after that match stay in the page.
    let items = vec![entry(1, 5), entry(2, 5), entry(3, 1)];
    let page = get_by_timestamp_pagination(&items, Some(request(Some(5), None, 10))).unwrap();
    assert_eq!(page, vec![entry(2, 5)]);
}

#[test]
fn cursor_on_last_item_gives_empty_page() {
    let items = vec![entry(1, 30), entry(2, 10), entry(3, 20)];
    let page = get_by_timestamp_pagination(&items, Some(request(Some(30), None, 2))).unwrap();
    assert_eq!(page, vec![]);
}

#[test]
fn largest_limit_is_safe() {
    let items = vec![entry(1, 30), entry(2, 10), entry(3, 20)];
    let req = request(Some(10), None, usize::MAX);
    let page = get_by_timestamp_pagination(&items, Some(req)).unwrap();
    assert_eq!(page, vec![entry(3, 20), entry(1, 30)]);
}

#[test]
fn descending_with_cursor() {
    let items = vec![entry(3, 300), entry(1, 100), entry(4, 400), entry(2, 200)];
    let req = request(Some(300), Some(SortDirection::Descending), 2);
    let page = get_by_timestamp_pagination(&items, Some(req)).unwrap();
    assert_eq!(page, vec![entry(2, 200), entry(1, 100)]);
}
