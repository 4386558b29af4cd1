//! Event records and the total order in which they are processed:
//! by case identifier, then timestamp, then activity name.
use std::cmp::Ordering;
use vstd::prelude::*;
use vstd::relations::{sorted_by, total_ordering};
use vstd::seq_lib::{lemma_sorted_unique, to_multiset_contains};
use vstd::utf8::{encode_utf8, encode_utf8_decode_utf8};

verus! {

/// A point in time: whole seconds since the epoch and the nanoseconds within that second.
#[derive(Clone, Copy, Debug, PartialEq, Eq, Structural)]
pub struct Timestamp {
    pub secs: i64,
    pub nanos: u32,
}

impl Timestamp {
    pub fn new(secs: i64, nanos: u32) -> (r: Timestamp)
        ensures
            r.secs == secs,
            r.nanos == nanos,
    {
        Timestamp { secs, nanos }
    }
}

/// One event of the log: case identifier, timestamp and activity name.
pub type Record = (String, Timestamp, String);

/// What the processing reads of a record.
pub type RecordView = (Seq<char>, Timestamp, Seq<char>);

pub open spec fn record_view(r: Record) -> RecordView {
    (r.0@, r.1, r.2@)
}

pub open spec fn records_view(v: Seq<Record>) -> Seq<RecordView> {
    v.map_values(|r: Record| record_view(r))
}

/// Lexicographic comparison of byte strings (a proper prefix comes first).
pub open spec fn bytes_cmp(a: Seq<u8>, b: Seq<u8>) -> Ordering
    decreases a.len(),
{
    if a.len() == 0 {
        if b.len() == 0 {
            Ordering::Equal
        } else {
            Ordering::Less
        }
    } else if b.len() == 0 {
        Ordering::Greater
    } else if a[0] < b[0] {
        Ordering::Less
    } else if a[0] > b[0] {
        Ordering::Greater
    } else {
        bytes_cmp(a.drop_first(), b.drop_first())
    }
}

/// Text is ordered as its UTF-8 bytes are.
pub open spec fn text_cmp(a: Seq<char>, b: Seq<char>) -> Ordering {
    bytes_cmp(encode_utf8(a), encode_utf8(b))
}

pub open spec fn int_cmp(a: int, b: int) -> Ordering {
    if a < b {
        Ordering::Less
    } else if a > b {
        Ordering::Greater
    } else {
        Ordering::Equal
    }
}

pub open spec fn then_cmp(first: Ordering, second: Ordering) -> Ordering {
    if first == Ordering::Equal {
        second
    } else {
        first
    }
}

pub open spec fn timestamp_cmp(a: Timestamp, b: Timestamp) -> Ordering {
    then_cmp(int_cmp(a.secs as int, b.secs as int), int_cmp(a.nanos as int, b.nanos as int))
}

/// Records compare by case identifier, then timestamp, then activity name.
pub open spec fn record_cmp(a: RecordView, b: RecordView) -> Ordering {
    then_cmp(text_cmp(a.0, b.0), then_cmp(timestamp_cmp(a.1, b.1), text_cmp(a.2, b.2)))
}

pub open spec fn record_le(a: RecordView, b: RecordView) -> bool {
    record_cmp(a, b) != Ordering::Greater
}

pub open spec fn record_leq() -> spec_fn(RecordView, RecordView) -> bool {
    |a: RecordView, b: RecordView| record_le(a, b)
}

/// The records in processing order.
pub open spec fn sorted_records(v: Seq<RecordView>) -> Seq<RecordView> {
    v.sort_by(record_leq())
}

proof fn lemma_bytes_cmp_props(a: Seq<u8>, b: Seq<u8>, c: Seq<u8>)
    ensures
        bytes_cmp(a, b) == Ordering::Equal <==> a == b,
        bytes_cmp(a, b) == Ordering::Less <==> bytes_cmp(b, a) == Ordering::Greater,
        bytes_cmp(a, b) == Ordering::Less && bytes_cmp(b, c) == Ordering::Less ==> bytes_cmp(a, c)
            == Ordering::Less,
    decreases a.len(),
{
    if a.len() > 0 && b.len() > 0 && c.len() > 0 {
        lemma_bytes_cmp_props(a.drop_first(), b.drop_first(), c.drop_first());
    } else if a.len() > 0 && b.len() > 0 {
        lemma_bytes_cmp_props(a.drop_first(), b.drop_first(), b.drop_first());
    }
    if a.len() > 0 && b.len() > 0 && a[0] == b[0] && a.drop_first() == b.drop_first() {
        assert forall|i: int| 0 <= i < a.len() implies a[i] == b[i] by {
            if i > 0 {
                assert(a[i] == a.drop_first()[i - 1]);
                assert(b[i] == b.drop_first()[i - 1]);
            }
        }
        assert(a =~= b);
    }
    if a.len() == 0 && b.len() == 0 {
        assert(a =~= b);
    }
}

pub(crate) proof fn lemma_text_cmp_props(a: Seq<char>, b: Seq<char>, c: Seq<char>)
    ensures
        text_cmp(a, b) == Ordering::Equal <==> a == b,
        text_cmp(a, b) == Ordering::Less <==> text_cmp(b, a) == Ordering::Greater,
        text_cmp(a, b) == Ordering::Less && text_cmp(b, c) == Ordering::Less ==> text_cmp(a, c)
            == Ordering::Less,
{
    lemma_bytes_cmp_props(encode_utf8(a), encode_utf8(b), encode_utf8(c));
    encode_utf8_decode_utf8(a);
    encode_utf8_decode_utf8(b);
}

pub(crate) proof fn lemma_record_cmp_props(a: RecordView, b: RecordView, c: RecordView)
    ensures
        record_cmp(a, b) == Ordering::Equal <==> a == b,
        record_cmp(a, b) == Ordering::Less <==> record_cmp(b, a) == Ordering::Greater,
        record_cmp(a, b) == Ordering::Less && record_cmp(b, c) == Ordering::Less ==> record_cmp(
            a,
            c,
        ) == Ordering::Less,
{
    lemma_text_cmp_props(a.0, b.0, c.0);
    lemma_text_cmp_props(b.0, c.0, a.0);
    lemma_text_cmp_props(a.0, c.0, b.0);
    lemma_text_cmp_props(b.0, a.0, c.0);
    lemma_text_cmp_props(a.2, b.2, c.2);
    lemma_text_cmp_props(b.2, c.2, a.2);
    lemma_text_cmp_props(a.2, c.2, b.2);
    lemma_text_cmp_props(b.2, a.2, c.2);
}

/// The order on records is total, so that the processing order is unique.
pub proof fn lemma_record_order_total()
    ensures
        total_ordering(record_leq()),
{
    assert forall|a: RecordView, b: RecordView, c: RecordView|
        #[trigger] record_le(a, b) && #[trigger] record_le(b, c) implies record_le(a, c) by {
        lemma_record_cmp_props(a, b, c);
        lemma_record_cmp_props(b, c, a);
        lemma_record_cmp_props(a, c, b);
    }
    assert forall|a: RecordView, b: RecordView|
        #[trigger] record_le(a, b) && #[trigger] record_le(b, a) implies a == b by {
        lemma_record_cmp_props(a, b, a);
    }
    assert forall|a: RecordView, b: RecordView|
        #[trigger] record_le(a, b) || #[trigger] record_le(b, a) by {
        lemma_record_cmp_props(a, b, a);
    }
    assert forall|a: RecordView| #[trigger] record_le(a, a) by {
        lemma_record_cmp_props(a, a, a);
    }
}

fn compare_bytes(a: &[u8], b: &[u8]) -> (r: Ordering)
    ensures
        r == bytes_cmp(a@, b@),
{
    let mut i: usize = 0;
    assert(a@.skip(0) =~= a@);
    assert(b@.skip(0) =~= b@);
    while i < a.len() && i < b.len()
        invariant
            0 <= i <= a@.len(),
            i <= b@.len(),
            bytes_cmp(a@, b@) == bytes_cmp(a@.skip(i as int), b@.skip(i as int)),
        decreases a@.len() - i,
    {
        if a[i] < b[i] {
            return Ordering::Less;
        } else if a[i] > b[i] {
            return Ordering::Greater;
        }
        assert(a@.skip(i as int).drop_first() == a@.skip(i + 1));
        assert(b@.skip(i as int).drop_first() == b@.skip(i + 1));
        i = i + 1;
    }
    if i < a.len() {
        Ordering::Greater
    } else if i < b.len() {
        Ordering::Less
    } else {
        Ordering::Equal
    }
}

fn compare_text(a: &String, b: &String) -> (r: Ordering)
    ensures
        r == text_cmp(a@, b@),
{
    compare_bytes(a.as_str().as_bytes(), b.as_str().as_bytes())
}

fn compare_ints(a: i64, b: i64) -> (r: Ordering)
    ensures
        r == int_cmp(a as int, b as int),
{
    if a < b {
        Ordering::Less
    } else if a > b {
        Ordering::Greater
    } else {
        Ordering::Equal
    }
}

/// Compares two records by case identifier, then timestamp, then activity name.
pub fn compare_records(a: &Record, b: &Record) -> (r: Ordering)
    ensures
        r == record_cmp(record_view(*a), record_view(*b)),
{
    let c = compare_text(&a.0, &b.0);
    if !matches!(c, Ordering::Equal) {
        return c;
    }
    let c = compare_ints(a.1.secs, b.1.secs);
    if !matches!(c, Ordering::Equal) {
        return c;
    }
    let c = compare_ints(a.1.nanos as i64, b.1.nanos as i64);
    if !matches!(c, Ordering::Equal) {
        return c;
    }
    compare_text(&a.2, &b.2)
}

/// A sorted rearrangement of `v` is its processing order, and holds the same records.
pub proof fn lemma_processing_order(v: Seq<RecordView>, s: Seq<RecordView>)
    requires
        s.to_multiset() == v.to_multiset(),
        sorted_by(s, record_leq()),
    ensures
        s == sorted_records(v),
        forall|x: RecordView| s.contains(x) <==> v.contains(x),
{
    lemma_record_order_total();
    v.lemma_sort_by_ensures(record_leq());
    lemma_sorted_unique(s, sorted_records(v), record_leq());
    assert forall|x: RecordView| s.contains(x) <==> v.contains(x) by {
        to_multiset_contains(s, x);
        to_multiset_contains(v, x);
    }
}

} // verus!
