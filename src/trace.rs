//! Traces: for each case of a case-ordered record sequence, the activity codes
//! of its events in order, with consecutive repeats collapsed.
use crate::activities::{activity_code, str_to_num};
use crate::record::{
    lemma_processing_order, record_leq, record_view, records_view, sorted_records, Record,
    RecordView,
};
use vstd::relations::sorted_by;
use crate::table::{add_variant, is_table_of, Variant};
use vstd::multiset::Multiset;
use vstd::prelude::*;

verus! {

broadcast use {
    vstd::multiset::group_multiset_axioms,
    vstd::multiset::lemma_update_same,
    vstd::multiset::lemma_update_different,
    vstd::seq_lib::group_to_multiset_ensures,
};

/// An activity name that the codec does not know.
#[derive(Clone, Debug, PartialEq, Eq)]
pub struct UnknownActivity {
    pub name: String,
}

/// Every record names a known activity.
pub open spec fn all_known(s: Seq<RecordView>) -> bool {
    forall|i: int| 0 <= i < s.len() ==> (#[trigger] activity_code(s[i].2)) is Some
}

/// The code of a record's activity (0 for an unknown one, which never reaches a trace).
pub open spec fn code_at(r: RecordView) -> u8 {
    match activity_code(r.2) {
        Some(c) => c,
        None => 0,
    }
}

/// The traces of the case runs of `s`, one per run of equal case identifiers, in order.
/// Each trace holds the codes of the run's records with consecutive repeats collapsed.
pub open spec fn case_traces(s: Seq<RecordView>) -> Seq<Seq<u8>>
    decreases s.len(),
{
    if s.len() == 0 {
        Seq::empty()
    } else {
        let prev = s.drop_last();
        let x = s.last();
        let ts = case_traces(prev);
        if prev.len() == 0 || prev.last().0 != x.0 {
            ts.push(seq![code_at(x)])
        } else if ts.last().last() == code_at(x) {
            ts
        } else {
            ts.update(ts.len() - 1, ts.last().push(code_at(x)))
        }
    }
}

/// Basic shape of the traces: one per run at most one per record, none empty,
/// and the last one ends with the code of the last record.
pub proof fn lemma_case_traces_shape(s: Seq<RecordView>)
    ensures
        case_traces(s).len() <= s.len(),
        s.len() > 0 ==> case_traces(s).len() > 0 && case_traces(s).last().len() > 0
            && case_traces(s).last().last() == code_at(s.last()),
        forall|i: int| 0 <= i < case_traces(s).len() ==> (#[trigger] case_traces(s)[i]).len() > 0,
    decreases s.len(),
{
    if s.len() > 0 {
        lemma_case_traces_shape(s.drop_last());
    }
}

/// Traces of two sequences that meet at a change of case are the traces of each, joined.
pub proof fn lemma_case_traces_concat(x: Seq<RecordView>, y: Seq<RecordView>)
    requires
        x.len() > 0,
        y.len() > 0,
        x.last().0 != y[0].0,
    ensures
        case_traces(x + y) == case_traces(x) + case_traces(y),
    decreases y.len(),
{
    let s = x + y;
    assert(s.last() == y.last());
    if y.len() == 1 {
        assert(s.drop_last() =~= x);
        assert(y.drop_last() =~= Seq::<RecordView>::empty());
        assert(case_traces(y.drop_last()) == Seq::<Seq<u8>>::empty());
        assert(case_traces(y) =~= seq![seq![code_at(y.last())]]);
        assert(case_traces(s) =~= case_traces(x) + case_traces(y));
    } else {
        let yp = y.drop_last();
        assert(s.drop_last() =~= x + yp);
        assert(yp[0] == y[0]);
        lemma_case_traces_concat(x, yp);
        lemma_case_traces_shape(yp);
        lemma_case_traces_shape(x);
        let a = case_traces(x);
        let b = case_traces(yp);
        assert((a + b).last() == b.last());
        assert((a + b).push(seq![code_at(y.last())]) =~= a + b.push(seq![code_at(y.last())]));
        assert((a + b).update((a + b).len() - 1, b.last().push(code_at(y.last()))) =~= a
            + b.update(b.len() - 1, b.last().push(code_at(y.last()))));
        assert(case_traces(s) =~= case_traces(x) + case_traces(y));
    }
}

/// Encodes the activities of `records`, in order; fails on the first unknown one.
pub fn encode_activities(records: &Vec<Record>) -> (r: Result<Vec<u8>, UnknownActivity>)
    ensures
        r is Ok <==> all_known(records_view(records@)),
        r matches Ok(codes) ==> codes@.len() == records@.len() && forall|i: int|
            0 <= i < records@.len() ==> activity_code(#[trigger] records@[i].2@) == Some(codes@[i]),
        r matches Err(e) ==> exists|i: int|
            0 <= i < records@.len() && activity_code(#[trigger] records@[i].2@) is None
                && e.name@ == records@[i].2@,
{
    let ghost rv = records_view(records@);
    let mut codes: Vec<u8> = Vec::new();
    let mut i: usize = 0;
    while i < records.len()
        invariant
            0 <= i <= records@.len(),
            rv == records_view(records@),
            codes@.len() == i,
            forall|j: int| 0 <= j < i ==> activity_code(#[trigger] records@[j].2@) == Some(codes@[j]),
        decreases records@.len() - i,
    {
        match str_to_num(records[i].2.as_str()) {
            Some(c) => codes.push(c),
            None => {
                assert(rv[i as int] == record_view(records@[i as int]));
                assert(activity_code(rv[i as int].2) is None);
                return Err(UnknownActivity { name: records[i].2.clone() });
            },
        }
        i = i + 1;
    }
    assert forall|j: int| 0 <= j < rv.len() implies (#[trigger] activity_code(rv[j].2)) is Some by {
        assert(rv[j] == record_view(records@[j]));
    }
    Ok(codes)
}

/// Builds the variant table of the records `lo..hi` of a case-ordered sequence whose
/// activity codes are `codes`.
pub fn count_range(records: &Vec<Record>, codes: &Vec<u8>, lo: usize, hi: usize) -> (r: Vec<
    Variant,
>)
    requires
        lo <= hi <= records@.len(),
        codes@.len() == records@.len(),
        forall|i: int|
            0 <= i < records@.len() ==> activity_code(#[trigger] records@[i].2@) == Some(codes@[i]),
    ensures
        is_table_of(r@, case_traces(records_view(records@).subrange(lo as int, hi as int)).to_multiset()),
{
    let ghost rv = records_view(records@);
    let mut table: Vec<Variant> = Vec::new();
    let mut current: Vec<u8> = Vec::new();
    let mut i: usize = lo;
    while i < hi
        invariant
            lo <= i <= hi <= records@.len(),
            codes@.len() == records@.len(),
            forall|j: int|
                0 <= j < records@.len() ==> activity_code(#[trigger] records@[j].2@) == Some(
                    codes@[j],
                ),
            rv == records_view(records@),
            i == lo ==> table@.len() == 0,
            i > lo ==> current@ == case_traces(rv.subrange(lo as int, i as int)).last()
                && is_table_of(
                table@,
                case_traces(rv.subrange(lo as int, i as int)).drop_last().to_multiset(),
            ),
        decreases hi - i,
    {
        let ghost s = rv.subrange(lo as int, i as int);
        let ghost ts = case_traces(s);
        let ghost s1 = rv.subrange(lo as int, i + 1);
        assert(s1.drop_last() =~= s);
        assert(s1.last() == rv[i as int]);
        assert(rv[i as int] == record_view(records@[i as int]));
        proof {
            lemma_case_traces_shape(s);
        }
        let code = codes[i];
        assert(code_at(rv[i as int]) == code);
        if i == lo || !(records[i].0 == records[i - 1].0) {
            if i > lo {
                assert(s.last() == rv[i - 1]);
                assert(rv[i - 1] == record_view(records@[i - 1]));
                let ghost m = ts.drop_last().to_multiset();
                proof {
                    assert(m.len() == ts.len() - 1);
                }
                add_variant(&mut table, current, 1, Ghost(m));
                assert(ts.drop_last().push(ts.last()) =~= ts);
                assert(m.update(ts.last(), (m.count(ts.last()) + 1) as nat) =~= ts.to_multiset());
            }
            current = Vec::new();
            current.push(code);
            assert(case_traces(s1).drop_last() =~= ts);
            assert(current@ =~= seq![code]);
        } else {
            assert(s.last() == rv[i - 1]);
            assert(rv[i - 1] == record_view(records@[i - 1]));
            let last = current[current.len() - 1];
            if last != code {
                current.push(code);
                assert(case_traces(s1).drop_last() =~= ts.drop_last());
            }
        }
        i = i + 1;
    }
    let ghost s = rv.subrange(lo as int, hi as int);
    let ghost ts = case_traces(s);
    if hi > lo {
        proof {
            lemma_case_traces_shape(s);
        }
        let ghost m = ts.drop_last().to_multiset();
        proof {
            assert(m.len() == ts.len() - 1);
        }
        add_variant(&mut table, current, 1, Ghost(m));
        assert(ts.drop_last().push(ts.last()) =~= ts);
        assert(m.update(ts.last(), (m.count(ts.last()) + 1) as nat) =~= ts.to_multiset());
    } else {
        assert(s =~= Seq::<RecordView>::empty());
        assert(ts.to_multiset() =~= Multiset::empty());
    }
    table
}

/// The variants of a record set: how many cases end up with each trace, with the
/// records taken in processing order.
pub open spec fn variants(v: Seq<RecordView>) -> Multiset<Seq<u8>> {
    case_traces(sorted_records(v)).to_multiset()
}

/// What holds of a sorted rearrangement of `v` holds of `v`: the same activities are
/// known and the traces are those of the processing order.
pub proof fn lemma_sorted_rearrangement(v: Seq<RecordView>, s: Seq<RecordView>)
    requires
        s.to_multiset() == v.to_multiset(),
        sorted_by(s, record_leq()),
    ensures
        all_known(s) <==> all_known(v),
        case_traces(s).to_multiset() == variants(v),
        forall|i: int| 0 <= i < s.len() ==> exists|j: int| 0 <= j < v.len() && v[j] == #[trigger] s[i],
{
    lemma_processing_order(v, s);
    if all_known(s) {
        assert forall|j: int| 0 <= j < v.len() implies (#[trigger] activity_code(v[j].2)) is Some by {
            assert(v.contains(v[j]));
            let i = choose|i: int| 0 <= i < s.len() && s[i] == v[j];
            assert(activity_code(s[i].2) is Some);
        }
    }
    if all_known(v) {
        assert forall|i: int| 0 <= i < s.len() implies (#[trigger] activity_code(s[i].2)) is Some by {
            assert(s.contains(s[i]));
            let j = choose|j: int| 0 <= j < v.len() && v[j] == s[i];
            assert(activity_code(v[j].2) is Some);
        }
    }
    assert forall|i: int| 0 <= i < s.len() implies exists|j: int| 0 <= j < v.len() && v[j] == #[trigger] s[i] by {
        assert(s.contains(s[i]));
    }
}

/// A log without records has no variants.
pub proof fn lemma_no_records(v: Seq<RecordView>)
    requires
        v.len() == 0,
    ensures
        variants(v) =~= Multiset::empty(),
{
    crate::record::lemma_record_order_total();
    v.lemma_sort_by_ensures(record_leq());
    vstd::seq_lib::to_multiset_len(sorted_records(v));
    assert(sorted_records(v) =~= Seq::<RecordView>::empty());
    assert(case_traces(sorted_records(v)) == Seq::<Seq<u8>>::empty());
}

} // verus!
