//! Variant tables: each distinct trace with the number of cases that produced it.
//!
//! A table is a `Vec` of `(trace, count)` pairs rather than a hash map keyed by trace:
//! Verus gives `HashMap` a usable specification only for keys whose hashing and
//! equality it models, which a `Vec<u8>` key is not. What the map gave for free is
//! stated instead as the invariant `is_table_of`: traces are unique, every count is
//! positive and equals the trace's multiplicity, and every trace of the multiset is
//! listed. Looking a trace up is a linear scan, so counting costs time proportional to
//! the number of cases times the number of distinct variants.
use crate::activities::bytes_eq;
use vstd::multiset::Multiset;
use vstd::prelude::*;

verus! {

broadcast use {
    vstd::multiset::group_multiset_axioms,
    vstd::multiset::lemma_update_same,
    vstd::multiset::lemma_update_different,
};

/// One variant: a trace of activity codes and its number of cases.
pub type Variant = (Vec<u8>, usize);

/// `t` lists the distinct elements of `m`, each once, with its multiplicity.
pub open spec fn is_table_of(t: Seq<Variant>, m: Multiset<Seq<u8>>) -> bool {
    &&& forall|i: int, j: int| 0 <= i < j < t.len() ==> t[i].0@ != t[j].0@
    &&& forall|i: int| 0 <= i < t.len() ==> t[i].1 > 0 && t[i].1 == m.count(#[trigger] t[i].0@)
    &&& forall|k: Seq<u8>| #[trigger] m.count(k) > 0 ==> exists|i: int| 0 <= i < t.len() && t[i].0@ == k
}

/// Counts never increase along `t`.
pub open spec fn is_ranked(t: Seq<Variant>) -> bool {
    forall|i: int, j: int| 0 <= i < j < t.len() ==> t[i].1 >= t[j].1
}

/// Position of `trace` in `table`, if it is there.
fn find_variant(table: &Vec<Variant>, trace: &Vec<u8>) -> (r: Option<usize>)
    ensures
        match r {
            Some(i) => i < table@.len() && table@[i as int].0@ == trace@,
            None => forall|i: int| 0 <= i < table@.len() ==> table@[i].0@ != trace@,
        },
{
    let mut i: usize = 0;
    while i < table.len()
        invariant
            0 <= i <= table@.len(),
            forall|j: int| 0 <= j < i ==> table@[j].0@ != trace@,
        decreases table@.len() - i,
    {
        if bytes_eq(table[i].0.as_slice(), trace.as_slice()) {
            return Some(i);
        }
        i = i + 1;
    }
    None
}

/// Adds `n` cases of `trace` to a table of `m`.
pub(crate) fn add_variant(table: &mut Vec<Variant>, trace: Vec<u8>, n: usize, Ghost(m): Ghost<
    Multiset<Seq<u8>>,
>)
    requires
        is_table_of(old(table)@, m),
        n > 0,
        m.count(trace@) + n <= usize::MAX,
    ensures
        is_table_of(final(table)@, m.update(trace@, (m.count(trace@) + n) as nat)),
{
    let ghost m2 = m.update(trace@, (m.count(trace@) + n) as nat);
    let ghost key = trace@;
    match find_variant(table, &trace) {
        Some(i) => {
            let c = table[i].1;
            let old_t = table[i].0.clone();
            let ghost before = table@;
            table.set(i, (old_t, c + n));
            assert forall|j: int| 0 <= j < table@.len() implies table@[j].1 > 0 && table@[j].1
                == m2.count(#[trigger] table@[j].0@) by {
                if j != i {
                    assert(before[j].0@ != before[i as int].0@);
                }
            }
            assert forall|k: Seq<u8>| #[trigger] m2.count(k) > 0 implies exists|j: int|
                0 <= j < table@.len() && table@[j].0@ == k by {
                if k != key {
                    let j = choose|j: int| 0 <= j < before.len() && before[j].0@ == k;
                    assert(table@[j].0@ == k);
                } else {
                    assert(table@[i as int].0@ == k);
                }
            }
        },
        None => {
            let ghost before = table@;
            assert(m.count(key) == 0) by {
                if m.count(key) > 0 {
                    let j = choose|j: int| 0 <= j < before.len() && before[j].0@ == key;
                }
            }
            table.push((trace, n));
            assert forall|j: int| 0 <= j < table@.len() implies table@[j].1 > 0 && table@[j].1
                == m2.count(#[trigger] table@[j].0@) by {
                if j < before.len() {
                    assert(before[j].0@ != key);
                }
            }
            assert forall|k: Seq<u8>| #[trigger] m2.count(k) > 0 implies exists|j: int|
                0 <= j < table@.len() && table@[j].0@ == k by {
                if k != key {
                    let j = choose|j: int| 0 <= j < before.len() && before[j].0@ == k;
                    assert(table@[j].0@ == k);
                } else {
                    assert(table@[before.len() as int].0@ == k);
                }
            }
        },
    }
}

/// Position `p` of a sequence after positions `i` and `j` trade places.
pub open spec fn swapped_index(p: int, i: int, j: int) -> int {
    if p == i {
        j
    } else if p == j {
        i
    } else {
        p
    }
}

proof fn lemma_swap_keeps_table(t: Seq<Variant>, u: Seq<Variant>, i: int, j: int, m: Multiset<Seq<u8>>)
    requires
        is_table_of(t, m),
        0 <= i < t.len(),
        0 <= j < t.len(),
        u.len() == t.len(),
        forall|p: int|
            0 <= p < u.len() ==> (#[trigger] u[p]).0@ == t[swapped_index(p, i, j)].0@ && u[p].1
                == t[swapped_index(p, i, j)].1,
    ensures
        is_table_of(u, m),
{
    assert forall|p: int, q: int| 0 <= p < q < u.len() implies u[p].0@ != u[q].0@ by {
        let a = swapped_index(p, i, j);
        let b = swapped_index(q, i, j);
        if a < b {
            assert(t[a].0@ != t[b].0@);
        } else {
            assert(t[b].0@ != t[a].0@);
        }
    }
    assert forall|p: int| 0 <= p < u.len() implies u[p].1 > 0 && u[p].1 == m.count(
        #[trigger] u[p].0@,
    ) by {
        let a = swapped_index(p, i, j);
        assert(t[a].1 == m.count(t[a].0@));
    }
    assert forall|k: Seq<u8>| #[trigger] m.count(k) > 0 implies exists|p: int|
        0 <= p < u.len() && u[p].0@ == k by {
        let a = choose|a: int| 0 <= a < t.len() && t[a].0@ == k;
        let p = swapped_index(a, i, j);
        assert(u[p].0@ == k);
    }
}

/// Orders a table of `m` by count, largest first (a selection sort, verified here in
/// place of std's `sort_by`; equal counts come in no promised order).
pub(crate) fn rank_variants(table: Vec<Variant>, Ghost(m): Ghost<Multiset<Seq<u8>>>) -> (r: Vec<
    Variant,
>)
    requires
        is_table_of(table@, m),
    ensures
        is_table_of(r@, m),
        is_ranked(r@),
{
    let mut t = table;
    let n = t.len();
    let mut i: usize = 0;
    while i < n
        invariant
            n == t@.len(),
            0 <= i <= n,
            is_table_of(t@, m),
            forall|p: int, q: int| 0 <= p < q < i ==> t@[p].1 >= t@[q].1,
            forall|p: int, q: int| 0 <= p < i <= q < n ==> t@[p].1 >= t@[q].1,
        decreases n - i,
    {
        let mut best: usize = i;
        let mut k: usize = i + 1;
        while k < n
            invariant
                n == t@.len(),
                i < n,
                i <= best < n,
                i < k <= n,
                forall|q: int| i <= q < k ==> t@[best as int].1 >= t@[q].1,
            decreases n - k,
        {
            if t[k].1 > t[best].1 {
                best = k;
            }
            k = k + 1;
        }
        if best != i {
            let ghost before = t@;
            let a = (t[i].0.clone(), t[i].1);
            let b = (t[best].0.clone(), t[best].1);
            t.set(i, b);
            t.set(best, a);
            proof {
                assert forall|p: int| 0 <= p < t@.len() implies (#[trigger] t@[p]).0@
                    == before[swapped_index(p, i as int, best as int)].0@ && t@[p].1 == before[swapped_index(
                    p,
                    i as int,
                    best as int,
                )].1 by {}
                lemma_swap_keeps_table(before, t@, i as int, best as int, m);
                assert forall|p: int, q: int| 0 <= p < i + 1 <= q < n implies t@[p].1 >= t@[q].1 by {
                    assert(t@[q].1 == before[swapped_index(q, i as int, best as int)].1);
                }
            }
        }
        i = i + 1;
    }
    t
}

} // verus!
