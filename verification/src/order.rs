use vstd::prelude::*;

use crate::timestamp::Timestamped;

verus! {

/// Timestamp comparison in the requested direction: ascending when `asc`
/// holds, descending otherwise.  This is a total preorder, not a total order:
/// distinct items may share a timestamp.
pub open spec fn key_le<T: Timestamped>(a: T, b: T, asc: bool) -> bool {
    if asc {
        a.ts() <= b.ts()
    } else {
        a.ts() >= b.ts()
    }
}

/// A sequence is ordered by timestamp in the given direction.
pub open spec fn sorted_by_ts<T: Timestamped>(s: Seq<T>, asc: bool) -> bool {
    forall|i: int, j: int| 0 <= i < j < s.len() ==> key_le(#[trigger] s[i], #[trigger] s[j], asc)
}

/// Insert `x` in front of the first element strictly greater than it (in the
/// requested direction).  Inserting behind every equal element is what makes
/// the sort below stable.
pub open spec fn insert_by_ts<T: Timestamped>(s: Seq<T>, x: T, asc: bool) -> Seq<T>
    decreases s.len(),
{
    if s.len() == 0 {
        seq![x]
    } else if key_le(s[0], x, asc) {
        seq![s[0]] + insert_by_ts(s.drop_first(), x, asc)
    } else {
        seq![x] + s
    }
}

/// Stable insertion sort by timestamp: each element is inserted after every
/// element it does not strictly precede, so elements with equal timestamps
/// keep their original relative order.
pub open spec fn sort_by_ts<T: Timestamped>(s: Seq<T>, asc: bool) -> Seq<T>
    decreases s.len(),
{
    if s.len() == 0 {
        Seq::empty()
    } else {
        insert_by_ts(sort_by_ts(s.drop_last(), asc), s.last(), asc)
    }
}

proof fn lemma_insert_by_ts_len<T: Timestamped>(s: Seq<T>, x: T, asc: bool)
    ensures
        insert_by_ts(s, x, asc).len() == s.len() + 1,
    decreases s.len(),
{
    if s.len() != 0 && key_le(s[0], x, asc) {
        lemma_insert_by_ts_len(s.drop_first(), x, asc);
    }
}

/// Sorting never adds or removes elements.
pub proof fn lemma_sort_by_ts_len<T: Timestamped>(s: Seq<T>, asc: bool)
    ensures
        sort_by_ts(s, asc).len() == s.len(),
    decreases s.len(),
{
    if s.len() != 0 {
        lemma_sort_by_ts_len(s.drop_last(), asc);
        lemma_insert_by_ts_len(sort_by_ts(s.drop_last(), asc), s.last(), asc);
    }
}

/// A common lower bound of a sequence and of an inserted element bounds the
/// insertion as well.
proof fn lemma_insert_by_ts_lower_bound<T: Timestamped>(s: Seq<T>, x: T, y: T, asc: bool)
    requires
        forall|k: int| 0 <= k < s.len() ==> key_le(y, #[trigger] s[k], asc),
        key_le(y, x, asc),
    ensures
        forall|k: int|
            0 <= k < insert_by_ts(s, x, asc).len() ==> key_le(
                y,
                #[trigger] insert_by_ts(s, x, asc)[k],
                asc,
            ),
    decreases s.len(),
{
    if s.len() != 0 && key_le(s[0], x, asc) {
        let rest = s.drop_first();
        assert(forall|k: int| 0 <= k < rest.len() ==> key_le(y, #[trigger] rest[k], asc)) by {
            assert(forall|k: int| 0 <= k < rest.len() ==> rest[k] == s[k + 1]);
        }
        lemma_insert_by_ts_lower_bound(rest, x, y, asc);
        let w = insert_by_ts(rest, x, asc);
        assert forall|k: int| 0 <= k < insert_by_ts(s, x, asc).len() implies key_le(
            y,
            #[trigger] insert_by_ts(s, x, asc)[k],
            asc,
        ) by {
            if k > 0 {
                assert(insert_by_ts(s, x, asc)[k] == w[k - 1]);
            }
        }
    }
}

/// Insertion keeps a sequence ordered.
proof fn lemma_insert_by_ts_sorted<T: Timestamped>(s: Seq<T>, x: T, asc: bool)
    requires
        sorted_by_ts(s, asc),
    ensures
        sorted_by_ts(insert_by_ts(s, x, asc), asc),
    decreases s.len(),
{
    if s.len() == 0 {
    } else if key_le(s[0], x, asc) {
        let rest = s.drop_first();
        assert(sorted_by_ts(rest, asc)) by {
            assert(forall|k: int| 0 <= k < rest.len() ==> rest[k] == s[k + 1]);
        }
        lemma_insert_by_ts_sorted(rest, x, asc);
        assert(forall|k: int| 0 <= k < rest.len() ==> key_le(s[0], #[trigger] rest[k], asc)) by {
            assert(forall|k: int| 0 <= k < rest.len() ==> rest[k] == s[k + 1]);
        }
        lemma_insert_by_ts_lower_bound(rest, x, s[0], asc);
        let w = insert_by_ts(rest, x, asc);
        let r = insert_by_ts(s, x, asc);
        assert forall|i: int, j: int| 0 <= i < j < r.len() implies key_le(r[i], r[j], asc) by {
            assert(r[j] == w[j - 1]);
            if i > 0 {
                assert(r[i] == w[i - 1]);
            }
        }
    } else {
        let r = insert_by_ts(s, x, asc);
        assert forall|i: int, j: int| 0 <= i < j < r.len() implies key_le(r[i], r[j], asc) by {
            assert(r[j] == s[j - 1]);
            if i > 0 {
                assert(r[i] == s[i - 1]);
                assert(key_le(s[i - 1], s[j - 1], asc));
            } else {
                if j - 1 > 0 {
                    assert(key_le(s[0], s[j - 1], asc));
                }
            }
        }
    }
}

/// The sort orders its result by timestamp in the requested direction.
pub proof fn lemma_sort_by_ts_sorted<T: Timestamped>(s: Seq<T>, asc: bool)
    ensures
        sorted_by_ts(sort_by_ts(s, asc), asc),
    decreases s.len(),
{
    if s.len() != 0 {
        lemma_sort_by_ts_sorted(s.drop_last(), asc);
        lemma_insert_by_ts_sorted(sort_by_ts(s.drop_last(), asc), s.last(), asc);
    }
}

/// Insertion adds exactly the inserted element to the contents.
proof fn lemma_insert_by_ts_multiset<T: Timestamped>(s: Seq<T>, x: T, asc: bool)
    ensures
        insert_by_ts(s, x, asc).to_multiset() == s.to_multiset().insert(x),
    decreases s.len(),
{
    broadcast use vstd::seq_lib::group_to_multiset_ensures;

    if s.len() == 0 {
        assert(seq![x] =~= Seq::<T>::empty().push(x));
        assert(insert_by_ts(s, x, asc).to_multiset() =~= s.to_multiset().insert(x));
    } else if key_le(s[0], x, asc) {
        let rest = s.drop_first();
        lemma_insert_by_ts_multiset(rest, x, asc);
        vstd::seq_lib::lemma_multiset_commutative(seq![s[0]], insert_by_ts(rest, x, asc));
        vstd::seq_lib::lemma_multiset_commutative(seq![s[0]], rest);
        assert(s =~= seq![s[0]] + rest);
        assert(seq![s[0]] =~= Seq::<T>::empty().push(s[0]));
        assert(insert_by_ts(s, x, asc).to_multiset() =~= s.to_multiset().insert(x));
    } else {
        vstd::seq_lib::lemma_multiset_commutative(seq![x], s);
        assert(seq![x] =~= Seq::<T>::empty().push(x));
        assert(insert_by_ts(s, x, asc).to_multiset() =~= s.to_multiset().insert(x));
    }
}

/// The sorted sequence holds exactly the input elements: nothing is added,
/// dropped, or duplicated.
pub proof fn lemma_sort_by_ts_multiset<T: Timestamped>(s: Seq<T>, asc: bool)
    ensures
        sort_by_ts(s, asc).to_multiset() == s.to_multiset(),
    decreases s.len(),
{
    broadcast use vstd::seq_lib::group_to_multiset_ensures;

    if s.len() != 0 {
        lemma_sort_by_ts_multiset(s.drop_last(), asc);
        lemma_insert_by_ts_multiset(sort_by_ts(s.drop_last(), asc), s.last(), asc);
        assert(s =~= s.drop_last().push(s.last()));
    }
}

/// The predicate selecting items that carry exactly the timestamp `t`.
pub open spec fn has_ts<T: Timestamped>(t: i64) -> spec_fn(T) -> bool {
    |y: T| y.ts() == t
}

/// Inserting into a sorted sequence places the new element behind every
/// element with an equal timestamp: among the items carrying any fixed
/// timestamp, the inserted one comes last.
proof fn lemma_insert_by_ts_filter<T: Timestamped>(s: Seq<T>, x: T, asc: bool, t: i64)
    requires
        sorted_by_ts(s, asc),
    ensures
        insert_by_ts(s, x, asc).filter(has_ts::<T>(t)) == if x.ts() == t {
            s.filter(has_ts::<T>(t)).push(x)
        } else {
            s.filter(has_ts::<T>(t))
        },
    decreases s.len(),
{
    broadcast use vstd::seq_lib::group_filter_ensures;

    let p = has_ts::<T>(t);
    assert(Seq::<T>::empty().filter(p) =~= Seq::<T>::empty()) by {
        Seq::<T>::empty().lemma_filter_len(p);
    }
    Seq::<T>::empty().lemma_filter_push(x, p);
    if s.len() == 0 {
        assert(insert_by_ts(s, x, asc) =~= Seq::<T>::empty().push(x));
    } else if key_le(s[0], x, asc) {
        let rest = s.drop_first();
        assert(sorted_by_ts(rest, asc)) by {
            assert(forall|k: int| 0 <= k < rest.len() ==> rest[k] == s[k + 1]);
        }
        lemma_insert_by_ts_filter(rest, x, asc, t);
        Seq::<T>::filter_distributes_over_add(seq![s[0]], insert_by_ts(rest, x, asc), p);
        Seq::<T>::filter_distributes_over_add(seq![s[0]], rest, p);
        assert(s =~= seq![s[0]] + rest);
        if x.ts() == t {
            assert(seq![s[0]].filter(p) + rest.filter(p).push(x) =~= (seq![s[0]].filter(p)
                + rest.filter(p)).push(x));
        }
    } else {
        Seq::<T>::filter_distributes_over_add(seq![x], s, p);
        assert(seq![x] =~= Seq::<T>::empty().push(x));
        if x.ts() == t {
            assert forall|k: int| 0 <= k < s.len() implies !p(s[k]) by {
                if k > 0 {
                    assert(key_le(s[0], s[k], asc));
                }
            }
            assert(s.all(|y: T| !p(y)));
            s.lemma_all_neg_filter_empty(p);
            assert(s.filter(p) =~= Seq::<T>::empty());
            assert(seq![x].filter(p) =~= Seq::<T>::empty().filter(p).push(x));
            assert(seq![x].filter(p) + s.filter(p) =~= s.filter(p).push(x));
        }
    }
}

/// Stability of the sort: for every timestamp value, the items that carry
/// exactly that timestamp appear in the sorted result in their original
/// relative order.
pub proof fn lemma_sort_by_ts_stable<T: Timestamped>(s: Seq<T>, asc: bool, t: i64)
    ensures
        sort_by_ts(s, asc).filter(has_ts::<T>(t)) == s.filter(has_ts::<T>(t)),
    decreases s.len(),
{
    broadcast use vstd::seq_lib::group_filter_ensures;

    let p = has_ts::<T>(t);
    if s.len() == 0 {
        assert(Seq::<T>::empty().filter(p) =~= Seq::<T>::empty()) by {
            Seq::<T>::empty().lemma_filter_len(p);
        }
    } else {
        let head = s.drop_last();
        lemma_sort_by_ts_stable(head, asc, t);
        lemma_sort_by_ts_sorted(head, asc);
        lemma_insert_by_ts_filter(sort_by_ts(head, asc), s.last(), asc, t);
        assert(s =~= head.push(s.last()));
        head.lemma_filter_push(s.last(), p);
        assert(head.push(s.last()).filter(p) == if p(s.last()) {
            head.filter(p).push(s.last())
        } else {
            head.filter(p)
        });
    }
}

/// Inserting in front of the first strictly greater element splits the
/// sequence at that position.
proof fn lemma_insert_by_ts_at<T: Timestamped>(s: Seq<T>, x: T, asc: bool, j: int)
    requires
        0 <= j <= s.len(),
        forall|k: int| 0 <= k < j ==> key_le(#[trigger] s[k], x, asc),
        j < s.len() ==> !key_le(s[j], x, asc),
    ensures
        insert_by_ts(s, x, asc) == s.subrange(0, j) + seq![x] + s.subrange(j, s.len() as int),
    decreases s.len(),
{
    if s.len() == 0 {
        assert(insert_by_ts(s, x, asc) =~= s.subrange(0, j) + seq![x] + s.subrange(
            j,
            s.len() as int,
        ));
    } else if j == 0 {
        assert(insert_by_ts(s, x, asc) =~= s.subrange(0, 0) + seq![x] + s.subrange(
            0,
            s.len() as int,
        ));
    } else {
        let rest = s.drop_first();
        assert(forall|k: int| 0 <= k < j - 1 ==> key_le(#[trigger] rest[k], x, asc)) by {
            assert(forall|k: int| 0 <= k < j - 1 ==> rest[k] == s[k + 1]);
        }
        lemma_insert_by_ts_at(rest, x, asc, j - 1);
        assert(insert_by_ts(s, x, asc) =~= s.subrange(0, j) + seq![x] + s.subrange(
            j,
            s.len() as int,
        ));
    }
}

/// Timestamp comparison in the requested direction.
fn le_by_key<T: Timestamped>(a: &T, b: &T, asc: bool) -> (r: bool)
    ensures
        r == key_le(*a, *b, asc),
{
    let ta = a.timestamp();
    let tb = b.timestamp();
    if asc {
        ta.micros <= tb.micros
    } else {
        ta.micros >= tb.micros
    }
}

/// Position in front of the first element of `sorted` strictly greater than
/// `x` in the requested direction, or `sorted.len()` when there is none.
fn insert_position<T: Timestamped>(sorted: &Vec<T>, x: &T, asc: bool) -> (j: usize)
    ensures
        j <= sorted.len(),
        forall|k: int| 0 <= k < j ==> key_le(#[trigger] sorted@[k], *x, asc),
        j < sorted.len() ==> !key_le(sorted@[j as int], *x, asc),
{
    let n = sorted.len();
    let mut j: usize = 0;
    while j < n
        invariant
            j <= n,
            n == sorted.len(),
            forall|k: int| 0 <= k < j ==> key_le(#[trigger] sorted@[k], *x, asc),
        decreases n - j,
    {
        if !le_by_key(&sorted[j], x, asc) {
            return j;
        }
        j += 1;
    }
    j
}

/// Stable insertion sort of a working copy of `items`, by timestamp in the
/// requested direction.  The input is only read.
pub fn sort_by_timestamp<T: Timestamped>(items: &Vec<T>, asc: bool) -> (sorted: Vec<T>)
    ensures
        sorted@ == sort_by_ts(items@, asc),
{
    let n = items.len();
    let mut sorted: Vec<T> = Vec::new();
    let mut i: usize = 0;
    while i < n
        invariant
            i <= n,
            n == items.len(),
            sorted@ == sort_by_ts(items@.subrange(0, i as int), asc),
        decreases n - i,
    {
        let x = items[i].duplicate();
        let ghost prev = sorted@;
        let j = insert_position(&sorted, &x, asc);
        sorted.insert(j, x);
        proof {
            lemma_insert_by_ts_at(prev, x, asc, j as int);
            assert(sorted@ =~= insert_by_ts(prev, x, asc));
            let grown = items@.subrange(0, i as int + 1);
            assert(grown.drop_last() =~= items@.subrange(0, i as int));
            assert(grown.last() == items@[i as int]);
        }
        i += 1;
    }
    proof {
        assert(items@.subrange(0, n as int) =~= items@);
    }
    sorted
}

} // verus!
