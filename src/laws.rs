//! Laws that relate the entry points and the traces to each other.
use crate::record::{
    lemma_processing_order, lemma_record_cmp_props, lemma_record_order_total, lemma_text_cmp_props,
    record_cmp, record_le, record_leq, sorted_records, timestamp_cmp, RecordView,
};
use crate::trace::code_at;
use std::cmp::Ordering;
use crate::table::{is_table_of, Variant};
use crate::trace::{case_traces, lemma_case_traces_shape, variants};
use vstd::multiset::Multiset;
use vstd::prelude::*;
use vstd::relations::sorted_by;

verus! {

broadcast use {
    vstd::seq_lib::group_seq_properties,
    vstd::multiset::group_multiset_axioms,
    vstd::set::group_set_axioms,
    vstd::seq_lib::group_to_multiset_ensures,
};

pub open spec fn table_keys(t: Seq<Variant>) -> Seq<Seq<u8>> {
    t.map_values(|e: Variant| e.0@)
}

/// The single-pass and the partitioned aggregation agree, for every number of workers:
/// both promise a table of `variants(v)`, and any two such tables list the same traces
/// with the same counts (their order may differ only among equal counts).
pub proof fn lemma_tables_agree(v: Seq<RecordView>, t1: Seq<Variant>, t2: Seq<Variant>)
    requires
        is_table_of(t1, variants(v)),
        is_table_of(t2, variants(v)),
    ensures
        t1.len() == t2.len(),
        forall|i: int|
            0 <= i < t1.len() ==> exists|j: int|
                0 <= j < t2.len() && t2[j].0@ == (#[trigger] t1[i]).0@ && t2[j].1 == t1[i].1,
{
    let m = variants(v);
    assert forall|i: int| 0 <= i < t1.len() implies exists|j: int|
        0 <= j < t2.len() && t2[j].0@ == (#[trigger] t1[i]).0@ && t2[j].1 == t1[i].1 by {
        assert(m.count(t1[i].0@) > 0);
        let j = choose|j: int| 0 <= j < t2.len() && t2[j].0@ == t1[i].0@;
        assert(t2[j].1 == m.count(t2[j].0@));
    }
    let k1 = table_keys(t1);
    let k2 = table_keys(t2);
    assert(k1.no_duplicates());
    assert(k2.no_duplicates());
    k1.unique_seq_to_set();
    k2.unique_seq_to_set();
    assert forall|x: Seq<u8>| k1.to_set().contains(x) <==> k2.to_set().contains(x) by {
        if k1.contains(x) {
            let i = choose|i: int| 0 <= i < k1.len() && k1[i] == x;
            assert(m.count(t1[i].0@) > 0);
            let j = choose|j: int| 0 <= j < t2.len() && t2[j].0@ == x;
            assert(k2[j] == x);
        }
        if k2.contains(x) {
            let j = choose|j: int| 0 <= j < k2.len() && k2[j] == x;
            assert(m.count(t2[j].0@) > 0);
            let i = choose|i: int| 0 <= i < t1.len() && t1[i].0@ == x;
            assert(k1[i] == x);
        }
    }
    assert(k1.to_set() =~= k2.to_set());
}

/// Repeating the last activity of a case right after it leaves every trace as it was.
pub proof fn lemma_repeat_keeps_traces(s: Seq<RecordView>, x: RecordView)
    requires
        s.len() > 0,
        x.0 == s.last().0,
        x.2 == s.last().2,
    ensures
        case_traces(s.push(x)) == case_traces(s),
{
    lemma_case_traces_shape(s);
    assert(s.push(x).drop_last() =~= s);
}

/// The sum of the counts of a table.
pub open spec fn table_total(t: Seq<Variant>) -> int
    decreases t.len(),
{
    if t.len() == 0 {
        0
    } else {
        table_total(t.drop_last()) + t.last().1
    }
}

/// The distinct case identifiers of a record set.
pub open spec fn case_ids(v: Seq<RecordView>) -> Set<Seq<char>> {
    v.map_values(|r: RecordView| r.0).to_set()
}

/// `n` copies of `k`.
pub open spec fn copies(k: Seq<u8>, n: nat) -> Multiset<Seq<u8>>
    decreases n,
{
    if n == 0 {
        Multiset::empty()
    } else {
        copies(k, (n - 1) as nat).insert(k)
    }
}

proof fn lemma_copies(k: Seq<u8>, n: nat)
    ensures
        copies(k, n).len() == n,
        copies(k, n).count(k) == n,
        forall|x: Seq<u8>| x != k ==> copies(k, n).count(x) == 0,
    decreases n,
{
    if n > 0 {
        lemma_copies(k, (n - 1) as nat);
    }
}

/// The counts of a table of `m` add up to the size of `m`.
pub proof fn lemma_table_total(t: Seq<Variant>, m: Multiset<Seq<u8>>)
    requires
        is_table_of(t, m),
    ensures
        table_total(t) == m.len(),
    decreases t.len(),
{
    if t.len() == 0 {
        assert(m =~= Multiset::empty()) by {
            assert forall|x: Seq<u8>| m.count(x) == 0 by {
                if m.count(x) > 0 {
                    let i = choose|i: int| 0 <= i < t.len() && t[i].0@ == x;
                }
            }
        }
    } else {
        let n = t.len() - 1;
        let k = t[n].0@;
        let c = t[n].1 as nat;
        lemma_copies(k, c);
        let rest = m.sub(copies(k, c));
        assert(copies(k, c).subset_of(m)) by {
            assert(m.count(k) == c);
        }
        let u = t.drop_last();
        assert forall|i: int| 0 <= i < u.len() implies u[i].1 > 0 && u[i].1 == rest.count(
            #[trigger] u[i].0@,
        ) by {
            assert(t[i].0@ != t[n].0@);
            assert(t[i].1 == m.count(t[i].0@));
        }
        assert forall|x: Seq<u8>| #[trigger] rest.count(x) > 0 implies exists|i: int|
            0 <= i < u.len() && u[i].0@ == x by {
            assert(x != k);
            assert(m.count(x) > 0);
            let i = choose|i: int| 0 <= i < t.len() && t[i].0@ == x;
            assert(i != n);
            assert(u[i].0@ == x);
        }
        lemma_table_total(u, rest);
    }
}

/// In a sequence sorted in processing order, the runs of equal case identifiers are as
/// many as the distinct identifiers.
proof fn lemma_runs_are_cases(s: Seq<RecordView>)
    requires
        sorted_by(s, record_leq()),
    ensures
        case_traces(s).len() == case_ids(s).len(),
    decreases s.len(),
{
    if s.len() == 0 {
        assert(case_ids(s) =~= Set::empty());
    } else {
        let p = s.drop_last();
        let x = s.last();
        assert(sorted_by(p, record_leq()));
        lemma_runs_are_cases(p);
        let ids = p.map_values(|r: RecordView| r.0);
        assert(s.map_values(|r: RecordView| r.0) =~= ids.push(x.0));
        ids.lemma_push_to_set_commute(x.0);
        if p.len() > 0 && p.last().0 == x.0 {
            assert(ids[p.len() - 1] == x.0);
            assert(case_ids(p).contains(x.0));
            assert(case_ids(s) =~= case_ids(p));
        } else {
            assert(!case_ids(p).contains(x.0)) by {
                if case_ids(p).contains(x.0) {
                    let i = choose|i: int| 0 <= i < ids.len() && ids[i] == x.0;
                    let l = p.len() - 1;
                    assert(record_leq()(s[i], s[l]));
                    assert(record_leq()(s[l], s[s.len() - 1]));
                    lemma_text_cmp_props(x.0, s[l].0, x.0);
                    lemma_text_cmp_props(s[l].0, x.0, x.0);
                    assert(s[i].0 == x.0);
                }
            }
        }
    }
}

/// Every case contributes exactly one count: the counts of a variant table add up to
/// the number of distinct case identifiers of the record set.
pub proof fn lemma_count_conservation(v: Seq<RecordView>, t: Seq<Variant>)
    requires
        is_table_of(t, variants(v)),
    ensures
        table_total(t) == case_ids(v).len(),
{
    let s = sorted_records(v);
    lemma_record_order_total();
    v.lemma_sort_by_ensures(record_leq());
    lemma_processing_order(v, s);
    lemma_table_total(t, variants(v));
    lemma_runs_are_cases(s);
    assert(case_ids(s) =~= case_ids(v)) by {
        let a = s.map_values(|r: RecordView| r.0);
        let b = v.map_values(|r: RecordView| r.0);
        assert forall|x: Seq<char>| a.contains(x) implies b.contains(x) by {
            let i = choose|i: int| 0 <= i < a.len() && a[i] == x;
            assert(s.contains(s[i]));
            let j = choose|j: int| 0 <= j < v.len() && v[j] == s[i];
            assert(b[j] == x);
        }
        assert forall|x: Seq<char>| b.contains(x) implies a.contains(x) by {
            let j = choose|j: int| 0 <= j < b.len() && b[j] == x;
            assert(v.contains(v[j]));
            let i = choose|i: int| 0 <= i < s.len() && s[i] == v[j];
            assert(a[i] == x);
        }
    }
}

/// An extra record that repeats the record before it (same case, same activity) changes
/// no trace, wherever the rest of the sequence goes on.
proof fn lemma_repeat_inside_keeps_traces(a: Seq<RecordView>, x: RecordView, b: Seq<RecordView>)
    requires
        a.len() > 0,
        x.0 == a.last().0,
        code_at(x) == code_at(a.last()),
    ensures
        case_traces(a.push(x) + b) == case_traces(a + b),
    decreases b.len(),
{
    if b.len() == 0 {
        assert(a.push(x) + b =~= a.push(x));
        assert(a + b =~= a);
        lemma_case_traces_shape(a);
        assert(a.push(x).drop_last() =~= a);
    } else {
        let bp = b.drop_last();
        let y = b.last();
        lemma_repeat_inside_keeps_traces(a, x, bp);
        assert((a.push(x) + b).drop_last() =~= a.push(x) + bp);
        assert((a + b).drop_last() =~= a + bp);
        assert((a.push(x) + b).last() == y);
        assert((a + b).last() == y);
        if bp.len() == 0 {
            assert(a.push(x) + bp =~= a.push(x));
            assert(a + bp =~= a);
        } else {
            assert((a.push(x) + bp).last() == bp.last());
            assert((a + bp).last() == bp.last());
        }
    }
}

proof fn lemma_last_index(s: Seq<RecordView>, l: RecordView, k: int) -> (r: int)
    requires
        0 <= k < s.len(),
        s[k] == l,
    ensures
        k <= r < s.len(),
        s[r] == l,
        forall|j: int| r < j < s.len() ==> s[j] != l,
    decreases s.len() - k,
{
    if exists|j: int| k < j < s.len() && s[j] == l {
        let j = choose|j: int| k < j < s.len() && s[j] == l;
        lemma_last_index(s, l, j)
    } else {
        k
    }
}

/// Adding a record that repeats the last activity of a case (`l`, the greatest record of
/// its case in processing order) at the same or a later time changes no variant.
pub proof fn lemma_repeat_keeps_variants(v: Seq<RecordView>, l: RecordView, x: RecordView)
    requires
        v.contains(l),
        forall|r: RecordView| #[trigger] v.contains(r) && r.0 == l.0 ==> record_le(r, l),
        x.0 == l.0,
        x.2 == l.2,
        timestamp_cmp(l.1, x.1) != Ordering::Greater,
    ensures
        variants(v.push(x)) == variants(v),
{
    let s = sorted_records(v);
    lemma_record_order_total();
    v.lemma_sort_by_ensures(record_leq());
    lemma_processing_order(v, s);
    let k0 = choose|k: int| 0 <= k < s.len() && s[k] == l;
    let k = lemma_last_index(s, l, k0);
    let s2 = s.insert(k + 1, x);
    vstd::seq_lib::to_multiset_insert(s, k + 1, x);
    assert(s2.to_multiset() == v.push(x).to_multiset());
    lemma_record_cmp_props(l, x, l);
    assert(record_le(l, x));
    assert forall|p: int, q: int| 0 <= p < q < s2.len() implies #[trigger] record_leq()(
        s2[p],
        s2[q],
    ) by {
        if q < k + 1 {
            assert(s2[p] == s[p] && s2[q] == s[q]);
        } else if q == k + 1 {
            assert(s2[p] == s[p]);
            if p < k {
                assert(record_leq()(s[p], s[k]));
            }
            lemma_record_cmp_props(s[p], l, x);
            assert(record_le(s[p], l));
        } else if p > k + 1 {
            assert(s2[p] == s[p - 1] && s2[q] == s[q - 1]);
        } else if p == k + 1 {
            let y = s[q - 1];
            assert(s2[q] == y);
            assert(record_leq()(s[k], y));
            assert(y != l);
            assert(s.contains(y));
            lemma_record_cmp_props(l, y, l);
            lemma_text_cmp_props(l.0, y.0, l.0);
            if y.0 == l.0 {
                assert(v.contains(y));
                assert(record_le(y, l));
            }
            assert(record_cmp(x, y) == Ordering::Less);
        } else {
            assert(s2[p] == s[p] && s2[q] == s[q - 1]);
            assert(record_leq()(s[p], s[q - 1]));
        }
    }
    lemma_processing_order(v.push(x), s2);
    let a = s.subrange(0, k + 1);
    let b = s.subrange(k + 1, s.len() as int);
    assert(s2 =~= a.push(x) + b);
    assert(s =~= a + b);
    assert(a.last() == l);
    lemma_repeat_inside_keeps_traces(a, x, b);
}

} // verus!
