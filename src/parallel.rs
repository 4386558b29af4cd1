//! The partitioned aggregation: sort, cut the records into case-aligned ranges,
//! count each range on its own worker, then merge the partial tables.
use crate::activities::activity_code;
use crate::record::{compare_records, record_leq, record_view, records_view, Record, RecordView};
use crate::table::{add_variant, is_ranked, is_table_of, rank_variants, Variant};
use crate::trace::{
    all_known, case_traces, count_range, encode_activities, lemma_case_traces_concat,
    lemma_case_traces_shape, lemma_no_records, lemma_sorted_rearrangement, variants, UnknownActivity,
};
use rayon::iter::{IntoParallelRefIterator, ParallelIterator};
use rayon::slice::ParallelSliceMut;
use vstd::multiset::Multiset;
use vstd::prelude::*;
use vstd::relations::sorted_by;

verus! {

broadcast use {
    vstd::multiset::group_multiset_axioms,
    vstd::multiset::lemma_update_same,
    vstd::multiset::lemma_update_different,
    vstd::seq_lib::group_to_multiset_ensures,
};

/// Below this many records the work is not split.
pub const PARALLEL_THRESHOLD: usize = 256;

/// `b` cuts `s` into non-empty ranges `b[j]..b[j + 1]` that never split a run of
/// equal case identifiers.
pub open spec fn is_partition(s: Seq<RecordView>, b: Seq<usize>) -> bool {
    &&& b.len() >= 2
    &&& b[0] == 0
    &&& b.last() == s.len()
    &&& forall|i: int, j: int| 0 <= i < j < b.len() ==> b[i] < b[j]
    &&& forall|i: int| 0 < i < b.len() - 1 ==> s[b[i] - 1].0 != s[#[trigger] b[i] as int].0
}

/// The variants of the range `j` of partition `b`.
pub open spec fn range_variants(s: Seq<RecordView>, b: Seq<usize>, j: int) -> Multiset<Seq<u8>> {
    case_traces(s.subrange(b[j] as int, b[j + 1] as int)).to_multiset()
}

/// The variants of the ranges before `j`.
pub open spec fn prefix_variants(s: Seq<RecordView>, b: Seq<usize>, j: int) -> Multiset<Seq<u8>> {
    case_traces(s.subrange(0, b[j] as int)).to_multiset()
}

proof fn lemma_prefix_step(s: Seq<RecordView>, b: Seq<usize>, j: int)
    requires
        is_partition(s, b),
        0 <= j < b.len() - 1,
    ensures
        prefix_variants(s, b, j + 1) == prefix_variants(s, b, j).add(range_variants(s, b, j)),
{
    let x = s.subrange(0, b[j] as int);
    let y = s.subrange(b[j] as int, b[j + 1] as int);
    assert(s.subrange(0, b[j + 1] as int) =~= x + y);
    if j == 0 {
        assert(x =~= Seq::<RecordView>::empty());
        assert(x + y =~= y);
        assert(case_traces(x) == Seq::<Seq<u8>>::empty());
        assert(case_traces(x).to_multiset() =~= Multiset::empty());
        assert(prefix_variants(s, b, j).add(range_variants(s, b, j)) =~= range_variants(s, b, j));
    } else {
        assert(b[0] < b[j]);
        assert(b[j] < b[j + 1]);
        assert(x.last() == s[b[j] - 1]);
        assert(y[0] == s[b[j] as int]);
        lemma_case_traces_concat(x, y);
        vstd::seq_lib::lemma_multiset_commutative(case_traces(x), case_traces(y));
    }
}

/// A change of case at `k`: either end, or two neighbours with different case identifiers.
pub open spec fn is_case_boundary(s: Seq<RecordView>, k: int) -> bool {
    k == 0 || k == s.len() || (0 < k < s.len() && s[k - 1].0 != s[k].0)
}

/// `q` is the first change of case at or after `p`.
pub open spec fn next_boundary(s: Seq<RecordView>, p: int, q: int) -> bool {
    &&& p <= q <= s.len()
    &&& is_case_boundary(s, q)
    &&& forall|k: int| p <= k < q ==> !is_case_boundary(s, k)
}

/// The `i`-th even cut point of `n` records over `workers` ranges.
pub open spec fn cut_candidate(n: int, workers: int, i: int) -> int {
    i * (n / workers)
}

proof fn lemma_next_boundary_unique(s: Seq<RecordView>, p: int, q1: int, q2: int)
    requires
        next_boundary(s, p, q1),
        next_boundary(s, p, q2),
    ensures
        q1 == q2,
{
    if q1 < q2 {
        assert(!is_case_boundary(s, q1));
    } else if q2 < q1 {
        assert(!is_case_boundary(s, q2));
    }
}

/// Cuts the sorted `records` into at most `workers` ranges at changes of case:
/// each of the even cut points `i * (len / workers)`, `0 < i < workers`, moves forward to
/// the next change of case, and the inner cuts are exactly those changes that fall
/// strictly inside the records.
pub fn split_points(records: &Vec<Record>, workers: usize) -> (r: Vec<usize>)
    requires
        records@.len() > 0,
        workers >= 1,
    ensures
        is_partition(records_view(records@), r@),
        r@.len() <= workers + 1,
        forall|j: int|
            #![trigger r@[j]]
            0 < j < r@.len() - 1 ==> exists|i: int|
                1 <= i < workers && next_boundary(
                    records_view(records@),
                    #[trigger] cut_candidate(records@.len() as int, workers as int, i),
                    r@[j] as int,
                ),
        forall|i: int, q: int|
            1 <= i < workers && #[trigger] next_boundary(
                records_view(records@),
                cut_candidate(records@.len() as int, workers as int, i),
                q,
            ) && 0 < q < records@.len() ==> r@.contains(q as usize),
{
    let ghost s = records_view(records@);
    let n = records.len();
    let chunk = n / workers;
    let mut splits: Vec<usize> = Vec::new();
    splits.push(0);
    let ghost mut prev_c: int = 0;
    let mut i: usize = 1;
    assert(cut_candidate(n as int, workers as int, 1) == chunk);
    while i < workers
        invariant
            s == records_view(records@),
            n == records@.len(),
            n > 0,
            chunk == n / workers,
            1 <= i <= workers,
            1 <= splits@.len() <= i,
            splits@[0] == 0,
            splits@.last() < n,
            forall|p: int, q: int| 0 <= p < q < splits@.len() ==> splits@[p] < splits@[q],
            forall|p: int|
                0 < p < splits@.len() ==> s[splits@[p] - 1].0 != s[#[trigger] splits@[p] as int].0,
            0 <= prev_c <= cut_candidate(n as int, workers as int, i as int),
            forall|k: int| prev_c <= k < splits@.last() ==> !is_case_boundary(s, k),
            forall|j: int|
                #![trigger splits@[j]]
                0 < j < splits@.len() ==> exists|i2: int|
                    1 <= i2 < i && next_boundary(
                        s,
                        #[trigger] cut_candidate(n as int, workers as int, i2),
                        splits@[j] as int,
                    ),
            forall|i2: int, q: int|
                1 <= i2 < i && #[trigger] next_boundary(
                    s,
                    cut_candidate(n as int, workers as int, i2),
                    q,
                ) && 0 < q < n ==> splits@.contains(q as usize),
        decreases workers - i,
    {
        assert(i * chunk <= n) by (nonlinear_arith)
            requires
                i < workers,
                chunk == n / workers,
                workers >= 1,
        ;
        assert(i * chunk <= (i + 1) * chunk) by (nonlinear_arith);
        let ghost c = cut_candidate(n as int, workers as int, i as int);
        assert(c == i * chunk);
        let mut p = i * chunk;
        while p > 0 && p < n && records[p].0 == records[p - 1].0
            invariant
                s == records_view(records@),
                n == records@.len(),
                c <= p <= n,
                forall|k: int| c <= k < p ==> !is_case_boundary(s, k),
            decreases n - p,
        {
            assert(s[p - 1] == record_view(records@[p - 1]));
            assert(s[p as int] == record_view(records@[p as int]));
            p = p + 1;
        }
        proof {
            if 0 < p < n {
                assert(s[p - 1] == record_view(records@[p - 1]));
                assert(s[p as int] == record_view(records@[p as int]));
            }
        }
        assert(next_boundary(s, c, p as int));
        let last = splits[splits.len() - 1];
        assert(p >= last) by {
            if p < last {
                if p >= prev_c {
                    assert(!is_case_boundary(s, p as int));
                }
            }
        }
        let ghost old_splits = splits@;
        if p > last && p < n {
            splits.push(p);
            proof {
                prev_c = c;
            }
            assert forall|q: usize| old_splits.contains(q) implies splits@.contains(q) by {
                let j = choose|j: int| 0 <= j < old_splits.len() && old_splits[j] == q;
                assert(splits@[j] == q);
            }
            assert(splits@[splits@.len() - 1] == p);
        }
        assert forall|j: int| #![trigger splits@[j]] 0 < j < splits@.len() implies exists|i2: int|
            1 <= i2 < i + 1 && next_boundary(
                s,
                #[trigger] cut_candidate(n as int, workers as int, i2),
                splits@[j] as int,
            ) by {
            if j < old_splits.len() {
                assert(splits@[j] == old_splits[j]);
            } else {
                assert(splits@[j] == p);
                assert(cut_candidate(n as int, workers as int, i as int) == c);
            }
        }
        assert forall|i2: int, q: int|
            1 <= i2 < i + 1 && #[trigger] next_boundary(
                s,
                cut_candidate(n as int, workers as int, i2),
                q,
            ) && 0 < q < n implies splits@.contains(q as usize) by {
            if i2 == i {
                lemma_next_boundary_unique(s, c, p as int, q);
                if p > last {
                    assert(splits@[splits@.len() - 1] == p);
                } else {
                    assert(splits@[splits@.len() - 1] == p);
                }
            } else {
                assert(old_splits.contains(q as usize));
            }
        }
        i = i + 1;
    }
    let ghost old_splits = splits@;
    splits.push(n);
    assert forall|q: usize| old_splits.contains(q) implies splits@.contains(q) by {
        let j = choose|j: int| 0 <= j < old_splits.len() && old_splits[j] == q;
        assert(splits@[j] == q);
    }
    assert forall|j: int| #![trigger splits@[j]] 0 < j < splits@.len() - 1 implies exists|i2: int|
        1 <= i2 < workers && next_boundary(
            s,
            #[trigger] cut_candidate(n as int, workers as int, i2),
            splits@[j] as int,
        ) by {
        assert(splits@[j] == old_splits[j]);
    }
    splits
}

/// Relies on rayon's `current_num_threads`: the size of the thread pool, which depends
/// on the machine; nothing is assumed of it.
#[verifier::external_body]
fn pool_size() -> (r: usize) {
    rayon::current_num_threads()
}

/// Relies on rayon's `par_sort_unstable_by`: the records end up rearranged, in the
/// order that `compare_records` gives.
#[verifier::external_body]
fn par_sort_records(records: &mut Vec<Record>)
    ensures
        records_view(final(records)@).to_multiset() == records_view(old(records)@).to_multiset(),
        sorted_by(records_view(final(records)@), record_leq()),
{
    records.par_sort_unstable_by(|a, b| compare_records(a, b));
}

/// Relies on rayon's `par_iter`, `map` and indexed `collect`: one result per range of
/// `splits`, in the order of the ranges, each the table that `count_range` returns.
#[verifier::external_body]
fn count_ranges(records: &Vec<Record>, codes: &Vec<u8>, splits: &Vec<usize>) -> (r: Vec<
    Vec<Variant>,
>)
    requires
        is_partition(records_view(records@), splits@),
        codes@.len() == records@.len(),
        forall|i: int|
            0 <= i < records@.len() ==> activity_code(#[trigger] records@[i].2@) == Some(codes@[i]),
    ensures
        r@.len() == splits@.len() - 1,
        forall|j: int|
            0 <= j < r@.len() ==> is_table_of(
                #[trigger] r@[j]@,
                range_variants(records_view(records@), splits@, j),
            ),
{
    splits.windows(2).collect::<Vec<_>>().par_iter().map(|w| count_range(records, codes, w[0], w[1])).collect()
}

/// Some entry among the first `k` of `t` has trace `x`.
pub open spec fn key_among(t: Seq<Variant>, k: int, x: Seq<u8>) -> bool {
    exists|p: int| 0 <= p < k && t[p].0@ == x
}

/// Merges the tables of the ranges of `b` into the table of all of `s`.
fn merge_tables(partials: &Vec<Vec<Variant>>, Ghost(s): Ghost<Seq<RecordView>>, Ghost(b): Ghost<
    Seq<usize>,
>) -> (r: Vec<Variant>)
    requires
        is_partition(s, b),
        s.len() <= usize::MAX,
        partials@.len() == b.len() - 1,
        forall|j: int|
            0 <= j < partials@.len() ==> is_table_of(#[trigger] partials@[j]@, range_variants(s, b, j)),
    ensures
        is_table_of(r@, case_traces(s).to_multiset()),
{
    let mut merged: Vec<Variant> = Vec::new();
    assert(s.subrange(0, 0) =~= Seq::<RecordView>::empty());
    assert(case_traces(s.subrange(0, 0)) == Seq::<Seq<u8>>::empty());
    assert(prefix_variants(s, b, 0) =~= Multiset::empty());
    let mut j: usize = 0;
    while j < partials.len()
        invariant
            is_partition(s, b),
            s.len() <= usize::MAX,
            partials@.len() == b.len() - 1,
            forall|q: int|
                0 <= q < partials@.len() ==> is_table_of(
                    #[trigger] partials@[q]@,
                    range_variants(s, b, q),
                ),
            0 <= j <= partials@.len(),
            is_table_of(merged@, prefix_variants(s, b, j as int)),
        decreases partials@.len() - j,
    {
        let part = &partials[j];
        let ghost base = prefix_variants(s, b, j as int);
        let ghost mj = range_variants(s, b, j as int);
        proof {
            lemma_prefix_step(s, b, j as int);
            lemma_case_traces_shape(s.subrange(0, b[j + 1] as int));
            assert(b[j + 1] <= b.last()) by {
                if j + 1 < b.len() - 1 {
                    assert(b[j + 1] < b[b.len() - 1]);
                }
            }
        }
        assert(mj.filter(|x: Seq<u8>| key_among(part@, 0, x)) =~= Multiset::empty());
        assert(base.add(Multiset::empty()) =~= base);
        let mut k: usize = 0;
        while k < part.len()
            invariant
                is_partition(s, b),
                s.len() <= usize::MAX,
                0 <= j < partials@.len(),
                partials@.len() == b.len() - 1,
                *part == partials@[j as int],
                is_table_of(part@, mj),
                base == prefix_variants(s, b, j as int),
                mj == range_variants(s, b, j as int),
                base.add(mj) == prefix_variants(s, b, j + 1),
                base.add(mj).len() <= usize::MAX,
                0 <= k <= part@.len(),
                is_table_of(merged@, base.add(mj.filter(|x: Seq<u8>| key_among(part@, k as int, x)))),
            decreases part@.len() - k,
        {
            let ghost acc = base.add(mj.filter(|x: Seq<u8>| key_among(part@, k as int, x)));
            let ghost key = part@[k as int].0@;
            let n = part[k].1;
            assert(!key_among(part@, k as int, key)) by {
                if key_among(part@, k as int, key) {
                    let p = choose|p: int| 0 <= p < k && part@[p].0@ == key;
                    assert(part@[p].0@ != part@[k as int].0@);
                }
            }
            assert(acc.count(key) + n == base.add(mj).count(key));
            add_variant(&mut merged, part[k].0.clone(), n, Ghost(acc));
            assert(key_among(part@, k + 1, key));
            assert(acc.update(key, (acc.count(key) + n) as nat) =~= base.add(
                mj.filter(|x: Seq<u8>| key_among(part@, k + 1, x)),
            )) by {
                assert forall|x: Seq<u8>| x != key implies key_among(part@, k + 1, x) == key_among(
                    part@,
                    k as int,
                    x,
                ) by {
                    if key_among(part@, k + 1, x) {
                        let p = choose|p: int| 0 <= p < k + 1 && part@[p].0@ == x;
                        assert(p < k);
                    }
                }
            }
            k = k + 1;
        }
        assert(mj.filter(|x: Seq<u8>| key_among(part@, part@.len() as int, x)) =~= mj) by {
            assert forall|x: Seq<u8>| mj.count(x) > 0 implies key_among(
                part@,
                part@.len() as int,
                x,
            ) by {
                let p = choose|p: int| 0 <= p < part@.len() && part@[p].0@ == x;
            }
        }
        j = j + 1;
    }
    assert(s.subrange(0, b[b.len() - 1] as int) =~= s);
    merged
}

/// Finds the variants of an event log with the work split over `workers` ranges (one
/// where there are fewer than `PARALLEL_THRESHOLD` records), ranked by count, largest
/// first. Fails when a record names an unknown activity.
pub fn process_cases_with_workers(cases: Vec<Record>, workers: usize) -> (r: Result<
    Vec<Variant>,
    UnknownActivity,
>)
    ensures
        r is Ok <==> all_known(records_view(cases@)),
        r matches Err(e) ==> exists|i: int|
            0 <= i < cases@.len() && cases@[i].2@ == e.name@ && activity_code(e.name@) is None,
        r matches Ok(t) ==> is_table_of(t@, variants(records_view(cases@))) && is_ranked(t@),
        cases@.len() == 0 ==> (r matches Ok(t) && t@.len() == 0),
{
    let ghost v = records_view(cases@);
    if cases.len() == 0 {
        assert(v =~= Seq::<RecordView>::empty());
        proof {
            lemma_no_records(v);
        }
        return Ok(Vec::new());
    }
    let mut records = cases;
    par_sort_records(&mut records);
    let ghost s = records_view(records@);
    proof {
        lemma_sorted_rearrangement(v, s);
        vstd::seq_lib::to_multiset_len(s);
        vstd::seq_lib::to_multiset_len(v);
    }
    match encode_activities(&records) {
        Err(e) => {
            proof {
                let i = choose|i: int|
                    0 <= i < records@.len() && activity_code(#[trigger] records@[i].2@) is None
                        && e.name@ == records@[i].2@;
                assert(s[i] == record_view(records@[i]));
                let j = choose|j: int| 0 <= j < v.len() && v[j] == s[i];
                assert(v[j] == record_view(cases@[j]));
            }
            Err(e)
        },
        Ok(codes) => {
            let w = if records.len() < PARALLEL_THRESHOLD || workers == 0 {
                1
            } else {
                workers
            };
            let splits = split_points(&records, w);
            let partials = count_ranges(&records, &codes, &splits);
            let merged = merge_tables(&partials, Ghost(s), Ghost(splits@));
            Ok(rank_variants(merged, Ghost(variants(v))))
        },
    }
}

/// Finds the variants of an event log with the work split over the threads of the
/// pool, ranked by count, largest first. Fails when a record names an unknown activity.
pub fn process_cases(cases: Vec<Record>) -> (r: Result<Vec<Variant>, UnknownActivity>)
    ensures
        r is Ok <==> all_known(records_view(cases@)),
        r matches Err(e) ==> exists|i: int|
            0 <= i < cases@.len() && cases@[i].2@ == e.name@ && activity_code(e.name@) is None,
        r matches Ok(t) ==> is_table_of(t@, variants(records_view(cases@))) && is_ranked(t@),
        cases@.len() == 0 ==> (r matches Ok(t) && t@.len() == 0),
{
    let workers = pool_size();
    process_cases_with_workers(cases, workers)
}

} // verus!
