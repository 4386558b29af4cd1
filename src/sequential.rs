//! The single-threaded aggregation: sort, then one pass over all records.
use crate::activities::activity_code;
use crate::record::{compare_records, record_leq, record_view, records_view, Record};
use crate::table::{is_ranked, is_table_of, rank_variants, Variant};
use crate::trace::{
    all_known, count_range, encode_activities, lemma_no_records, lemma_sorted_rearrangement, variants,
    UnknownActivity,
};
use vstd::prelude::*;
use vstd::relations::sorted_by;

verus! {

/// Relies on std's `slice::sort_by`: the records end up rearranged, in the order that
/// `compare_records` gives.
#[verifier::external_body]
fn sort_records(records: &mut Vec<Record>)
    ensures
        records_view(final(records)@).to_multiset() == records_view(old(records)@).to_multiset(),
        sorted_by(records_view(final(records)@), record_leq()),
{
    records.sort_by(|a, b| compare_records(a, b));
}

/// Finds the variants of an event log in a single pass, ranked by count, largest first.
/// Fails when a record names an unknown activity.
pub fn process_cases(cases: Vec<Record>) -> (r: Result<Vec<Variant>, UnknownActivity>)
    ensures
        r is Ok <==> all_known(records_view(cases@)),
        r matches Err(e) ==> exists|i: int|
            0 <= i < cases@.len() && cases@[i].2@ == e.name@ && activity_code(e.name@) is None,
        r matches Ok(t) ==> is_table_of(t@, variants(records_view(cases@))) && is_ranked(t@),
        cases@.len() == 0 ==> (r matches Ok(t) && t@.len() == 0),
{
    let ghost v = records_view(cases@);
    let mut records = cases;
    sort_records(&mut records);
    let ghost s = records_view(records@);
    proof {
        lemma_sorted_rearrangement(v, s);
    }
    match encode_activities(&records) {
        Err(e) => {
            proof {
                let i = choose|i: int|
                    0 <= i < records@.len() && activity_code(#[trigger] records@[i].2@) is None
                        && e.name@ == records@[i].2@;
                assert(s[i] == record_view(records@[i]));
                let j = choose|j: int| 0 <= j < v.len() && v[j] == s[i];
                assert(v[j] == record_view(cases@[j]));
            }
            Err(e)
        },
        Ok(codes) => {
            let n = records.len();
            let table = count_range(&records, &codes, 0, n);
            assert(s.subrange(0, n as int) =~= s);
            let ranked = rank_variants(table, Ghost(variants(v)));
            proof {
                if v.len() == 0 {
                    lemma_no_records(v);
                    if ranked@.len() > 0 {
                        assert(ranked@[0].1 == variants(v).count(ranked@[0].0@));
                    }
                }
            }
            Ok(ranked)
        },
    }
}

} // verus!
