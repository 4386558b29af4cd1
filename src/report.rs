//! Views of a ranked variant list for reporting: the first `k`, and traces by name.
use crate::activities::{activity_name, num_to_str, ACTIVITY_COUNT};
use crate::table::Variant;
use vstd::prelude::*;

verus! {

/// The first `min(k, len)` variants of a ranked list.
pub fn top_k(variants: &Vec<Variant>, k: usize) -> (r: Vec<Variant>)
    ensures
        r@.len() == if k < variants@.len() {
            k as int
        } else {
            variants@.len() as int
        },
        forall|i: int|
            0 <= i < r@.len() ==> (#[trigger] r@[i]).0@ == variants@[i].0@ && r@[i].1
                == variants@[i].1,
{
    let mut r: Vec<Variant> = Vec::new();
    let mut i: usize = 0;
    while i < k && i < variants.len()
        invariant
            0 <= i <= variants@.len(),
            i <= k,
            r@.len() == i,
            forall|j: int|
                0 <= j < i ==> (#[trigger] r@[j]).0@ == variants@[j].0@ && r@[j].1
                    == variants@[j].1,
        decreases variants@.len() - i,
    {
        r.push((variants[i].0.clone(), variants[i].1));
        i = i + 1;
    }
    r
}

/// Every code of every trace is one the codec knows.
pub open spec fn codes_known(variants: Seq<Variant>) -> bool {
    forall|i: int, j: int|
        0 <= i < variants.len() && 0 <= j < variants[i].0@.len() ==> #[trigger] variants[i].0@[j]
            < ACTIVITY_COUNT
}

/// The traces spelled out with activity names, counts unchanged.
pub fn convert_variants_to_strings(variants: &Vec<Variant>) -> (r: Vec<(Vec<String>, usize)>)
    requires
        codes_known(variants@),
    ensures
        r@.len() == variants@.len(),
        forall|i: int|
            0 <= i < r@.len() ==> (#[trigger] r@[i]).1 == variants@[i].1 && r@[i].0@.len()
                == variants@[i].0@.len() && forall|j: int|
                0 <= j < r@[i].0@.len() ==> (#[trigger] r@[i].0@[j])@ == activity_name(
                    variants@[i].0@[j],
                ),
{
    let mut r: Vec<(Vec<String>, usize)> = Vec::new();
    let mut i: usize = 0;
    while i < variants.len()
        invariant
            0 <= i <= variants@.len(),
            codes_known(variants@),
            r@.len() == i,
            forall|p: int|
                0 <= p < i ==> (#[trigger] r@[p]).1 == variants@[p].1 && r@[p].0@.len()
                    == variants@[p].0@.len() && forall|j: int|
                    0 <= j < r@[p].0@.len() ==> (#[trigger] r@[p].0@[j])@ == activity_name(
                        variants@[p].0@[j],
                    ),
        decreases variants@.len() - i,
    {
        let trace = &variants[i].0;
        let mut names: Vec<String> = Vec::new();
        let mut j: usize = 0;
        while j < trace.len()
            invariant
                0 <= i < variants@.len(),
                *trace == variants@[i as int].0,
                codes_known(variants@),
                0 <= j <= trace@.len(),
                names@.len() == j,
                forall|q: int| 0 <= q < j ==> (#[trigger] names@[q])@ == activity_name(trace@[q]),
            decreases trace@.len() - j,
        {
            assert(variants@[i as int].0@[j as int] < ACTIVITY_COUNT);
            let name = num_to_str(trace[j]);
            names.push(name.to_string());
            j = j + 1;
        }
        r.push((names, variants[i].1));
        i = i + 1;
    }
    r
}

} // verus!
