//! The activity codec: a fixed table between the names of the procure-to-pay
//! activities and small numeric codes, one code per name.
use crate::record::Record;
use vstd::prelude::*;
use vstd::utf8::encode_utf8_decode_utf8;

verus! {

/// Number of activities that the codec knows; codes range over `0..ACTIVITY_COUNT`.
pub const ACTIVITY_COUNT: u8 = 30;

/// The name that stands for `code` (meaningful for `code < ACTIVITY_COUNT`).
pub open spec fn activity_name(code: u8) -> Seq<char> {
    if code == 0 {
        "Create purchase order item"@
    } else if code == 1 {
        "Create MM invoice by vendor"@
    } else if code == 2 {
        "Reduce purchase order item net value"@
    } else if code == 3 {
        "Change purchase order item"@
    } else if code == 4 {
        "Clear open item"@
    } else if code == 5 {
        "Remove payment block"@
    } else if code == 6 {
        "Enter goods receipt"@
    } else if code == 7 {
        "Post invoice in FI"@
    } else if code == 8 {
        "Post invoice in MM"@
    } else if code == 9 {
        "Create FI invoice by vendor"@
    } else if code == 10 {
        "Reduce purchase order item quantity"@
    } else if code == 11 {
        "Increase purchase order item quantity"@
    } else if code == 12 {
        "Record order confirmation"@
    } else if code == 13 {
        "Reduce purchase order item price"@
    } else if code == 14 {
        "Increase purchase order item price"@
    } else if code == 15 {
        "Change cash discount days 1"@
    } else if code == 16 {
        "Increase purchase order item net value"@
    } else if code == 17 {
        "Set final delivery indicator"@
    } else if code == 18 {
        "Change payment method"@
    } else if code == 19 {
        "Change purchase order (purchasing group)"@
    } else if code == 20 {
        "Change terms of payment key"@
    } else if code == 21 {
        "Change cash discount percentage 1"@
    } else if code == 22 {
        "Unblock purchase order item"@
    } else if code == 23 {
        "Change purchase order (other)"@
    } else if code == 24 {
        "Change cash discount days 2"@
    } else if code == 25 {
        "Change item text"@
    } else if code == 26 {
        "Set payment block"@
    } else if code == 27 {
        "Change purchase order (currency)"@
    } else if code == 28 {
        "Block purchase order item"@
    } else {
        "Change baseline date for payment"@
    }
}

/// The code of an activity name, or `None` for a name the codec does not know.
pub open spec fn activity_code(name: Seq<char>) -> Option<u8> {
    if name == "Reduce purchase order item quantity"@ {
        Some(10)
    } else if name == "Change cash discount days 2"@ {
        Some(24)
    } else if name == "Change purchase order (currency)"@ {
        Some(27)
    } else if name == "Unblock purchase order item"@ {
        Some(22)
    } else if name == "Change terms of payment key"@ {
        Some(20)
    } else if name == "Change item text"@ {
        Some(25)
    } else if name == "Reduce purchase order item price"@ {
        Some(13)
    } else if name == "Increase purchase order item quantity"@ {
        Some(11)
    } else if name == "Create purchase order item"@ {
        Some(0)
    } else if name == "Create MM invoice by vendor"@ {
        Some(1)
    } else if name == "Change purchase order item"@ {
        Some(3)
    } else if name == "Change payment method"@ {
        Some(18)
    } else if name == "Increase purchase order item net value"@ {
        Some(16)
    } else if name == "Change cash discount percentage 1"@ {
        Some(21)
    } else if name == "Change purchase order (other)"@ {
        Some(23)
    } else if name == "Create FI invoice by vendor"@ {
        Some(9)
    } else if name == "Enter goods receipt"@ {
        Some(6)
    } else if name == "Post invoice in MM"@ {
        Some(8)
    } else if name == "Set final delivery indicator"@ {
        Some(17)
    } else if name == "Set payment block"@ {
        Some(26)
    } else if name == "Change baseline date for payment"@ {
        Some(29)
    } else if name == "Post invoice in FI"@ {
        Some(7)
    } else if name == "Record order confirmation"@ {
        Some(12)
    } else if name == "Change purchase order (purchasing group)"@ {
        Some(19)
    } else if name == "Increase purchase order item price"@ {
        Some(14)
    } else if name == "Block purchase order item"@ {
        Some(28)
    } else if name == "Remove payment block"@ {
        Some(5)
    } else if name == "Clear open item"@ {
        Some(4)
    } else if name == "Change cash discount days 1"@ {
        Some(15)
    } else if name == "Reduce purchase order item net value"@ {
        Some(2)
    } else {
        None
    }
}

/// Compares two byte slices for equality.
pub(crate) fn bytes_eq(a: &[u8], b: &[u8]) -> (r: bool)
    ensures
        r == (a@ == b@),
{
    if a.len() != b.len() {
        return false;
    }
    let mut i: usize = 0;
    while i < a.len()
        invariant
            a@.len() == b@.len(),
            0 <= i <= a@.len(),
            a@.subrange(0, i as int) == b@.subrange(0, i as int),
        decreases a@.len() - i,
    {
        if a[i] != b[i] {
            assert(a@[i as int] != b@[i as int]);
            return false;
        }
        assert(a@.subrange(0, i + 1) == a@.subrange(0, i as int).push(a@[i as int]));
        assert(b@.subrange(0, i + 1) == b@.subrange(0, i as int).push(b@[i as int]));
        i = i + 1;
    }
    assert(a@ == a@.subrange(0, i as int));
    assert(b@ == b@.subrange(0, i as int));
    true
}

/// Tells whether the string `s` is the name `lit`.
fn same_name(s: &str, lit: &str) -> (r: bool)
    ensures
        r == (s@ == lit@),
{
    proof {
        encode_utf8_decode_utf8(s@);
        encode_utf8_decode_utf8(lit@);
    }
    bytes_eq(s.as_bytes(), lit.as_bytes())
}

/// Encodes an activity name; `None` where the name is not a known activity.
pub fn str_to_num(activity: &str) -> (r: Option<u8>)
    ensures
        r == activity_code(activity@),
{
    if same_name(activity, "Reduce purchase order item quantity") {
        Some(10)
    } else if same_name(activity, "Change cash discount days 2") {
        Some(24)
    } else if same_name(activity, "Change purchase order (currency)") {
        Some(27)
    } else if same_name(activity, "Unblock purchase order item") {
        Some(22)
    } else if same_name(activity, "Change terms of payment key") {
        Some(20)
    } else if same_name(activity, "Change item text") {
        Some(25)
    } else if same_name(activity, "Reduce purchase order item price") {
        Some(13)
    } else if same_name(activity, "Increase purchase order item quantity") {
        Some(11)
    } else if same_name(activity, "Create purchase order item") {
        Some(0)
    } else if same_name(activity, "Create MM invoice by vendor") {
        Some(1)
    } else if same_name(activity, "Change purchase order item") {
        Some(3)
    } else if same_name(activity, "Change payment method") {
        Some(18)
    } else if same_name(activity, "Increase purchase order item net value") {
        Some(16)
    } else if same_name(activity, "Change cash discount percentage 1") {
        Some(21)
    } else if same_name(activity, "Change purchase order (other)") {
        Some(23)
    } else if same_name(activity, "Create FI invoice by vendor") {
        Some(9)
    } else if same_name(activity, "Enter goods receipt") {
        Some(6)
    } else if same_name(activity, "Post invoice in MM") {
        Some(8)
    } else if same_name(activity, "Set final delivery indicator") {
        Some(17)
    } else if same_name(activity, "Set payment block") {
        Some(26)
    } else if same_name(activity, "Change baseline date for payment") {
        Some(29)
    } else if same_name(activity, "Post invoice in FI") {
        Some(7)
    } else if same_name(activity, "Record order confirmation") {
        Some(12)
    } else if same_name(activity, "Change purchase order (purchasing group)") {
        Some(19)
    } else if same_name(activity, "Increase purchase order item price") {
        Some(14)
    } else if same_name(activity, "Block purchase order item") {
        Some(28)
    } else if same_name(activity, "Remove payment block") {
        Some(5)
    } else if same_name(activity, "Clear open item") {
        Some(4)
    } else if same_name(activity, "Change cash discount days 1") {
        Some(15)
    } else if same_name(activity, "Reduce purchase order item net value") {
        Some(2)
    } else {
        None
    }
}

/// Decodes an activity code into its name.
pub fn num_to_str(num: u8) -> (r: &'static str)
    requires
        num < ACTIVITY_COUNT,
    ensures
        r@ == activity_name(num),
{
    if num == 0 {
        "Create purchase order item"
    } else if num == 1 {
        "Create MM invoice by vendor"
    } else if num == 2 {
        "Reduce purchase order item net value"
    } else if num == 3 {
        "Change purchase order item"
    } else if num == 4 {
        "Clear open item"
    } else if num == 5 {
        "Remove payment block"
    } else if num == 6 {
        "Enter goods receipt"
    } else if num == 7 {
        "Post invoice in FI"
    } else if num == 8 {
        "Post invoice in MM"
    } else if num == 9 {
        "Create FI invoice by vendor"
    } else if num == 10 {
        "Reduce purchase order item quantity"
    } else if num == 11 {
        "Increase purchase order item quantity"
    } else if num == 12 {
        "Record order confirmation"
    } else if num == 13 {
        "Reduce purchase order item price"
    } else if num == 14 {
        "Increase purchase order item price"
    } else if num == 15 {
        "Change cash discount days 1"
    } else if num == 16 {
        "Increase purchase order item net value"
    } else if num == 17 {
        "Set final delivery indicator"
    } else if num == 18 {
        "Change payment method"
    } else if num == 19 {
        "Change purchase order (purchasing group)"
    } else if num == 20 {
        "Change terms of payment key"
    } else if num == 21 {
        "Change cash discount percentage 1"
    } else if num == 22 {
        "Unblock purchase order item"
    } else if num == 23 {
        "Change purchase order (other)"
    } else if num == 24 {
        "Change cash discount days 2"
    } else if num == 25 {
        "Change item text"
    } else if num == 26 {
        "Set payment block"
    } else if num == 27 {
        "Change purchase order (currency)"
    } else if num == 28 {
        "Block purchase order item"
    } else {
        "Change baseline date for payment"
    }
}

fn position_of(names: &Vec<String>, name: &String) -> (r: Option<usize>)
    ensures
        match r {
            Some(k) => k < names@.len() && names@[k as int]@ == name@,
            None => forall|q: int| 0 <= q < names@.len() ==> names@[q]@ != name@,
        },
{
    let mut k: usize = 0;
    while k < names.len()
        invariant
            0 <= k <= names@.len(),
            forall|q: int| 0 <= q < k ==> names@[q]@ != name@,
        decreases names@.len() - k,
    {
        if names[k] == *name {
            return Some(k);
        }
        k = k + 1;
    }
    None
}

pub open spec fn name_views(v: Seq<String>) -> Seq<Seq<char>> {
    v.map_values(|s: String| s@)
}

pub open spec fn activity_views(v: Seq<Record>) -> Seq<Seq<char>> {
    v.map_values(|r: Record| r.2@)
}

/// `a` occurs in `all` before `b` first does.
pub open spec fn first_seen_before(all: Seq<Seq<char>>, a: Seq<char>, b: Seq<char>) -> bool {
    exists|i: int| 0 <= i < all.len() && all[i] == a && forall|j: int| 0 <= j <= i ==> all[j] != b
}

/// The distinct activity names of `cases`, in order of first appearance; a name's
/// position is the code a freshly built table would give it.
pub fn distinct_activities(cases: &Vec<Record>) -> (r: Vec<String>)
    ensures
        name_views(r@).no_duplicates(),
        name_views(r@).to_set() == activity_views(cases@).to_set(),
        forall|p: int, q: int|
            0 <= p < q < r@.len() ==> first_seen_before(
                activity_views(cases@),
                #[trigger] name_views(r@)[p],
                #[trigger] name_views(r@)[q],
            ),
{
    let ghost all = activity_views(cases@);
    let mut names: Vec<String> = Vec::new();
    let mut i: usize = 0;
    assert(name_views(names@) =~= Seq::<Seq<char>>::empty());
    assert(all.subrange(0, 0) =~= Seq::<Seq<char>>::empty());
    while i < cases.len()
        invariant
            0 <= i <= cases@.len(),
            all == activity_views(cases@),
            name_views(names@).no_duplicates(),
            name_views(names@).to_set() == all.subrange(0, i as int).to_set(),
            forall|p: int, q: int|
                0 <= p < q < names@.len() ==> first_seen_before(
                    all,
                    #[trigger] name_views(names@)[p],
                    #[trigger] name_views(names@)[q],
                ),
        decreases cases@.len() - i,
    {
        let name = &cases[i].2;
        let ghost before = name_views(names@);
        assert(all.subrange(0, i + 1) =~= all.subrange(0, i as int).push(name@));
        let found = position_of(&names, name);
        if found.is_none() {
            names.push(name.clone());
            assert(name_views(names@) =~= before.push(name@));
            proof {
                before.lemma_push_to_set_commute(name@);
            }
            assert(!before.contains(name@)) by {
                if before.contains(name@) {
                    let j = choose|j: int| 0 <= j < before.len() && before[j] == name@;
                    assert(names@[j]@ == name@);
                }
            }
            let ghost nv = name_views(names@);
            assert(all[i as int] == name@);
            assert forall|p: int, q: int| 0 <= p < q < nv.len() implies first_seen_before(
                all,
                #[trigger] nv[p],
                #[trigger] nv[q],
            ) by {
                if q == nv.len() - 1 {
                    assert(nv[p] == before[p]);
                    assert(before.to_set().contains(before[p]));
                    assert(all.subrange(0, i as int).to_set().contains(before[p]));
                    assert(all.subrange(0, i as int).contains(before[p]));
                    let k = choose|k: int| 0 <= k < i && all.subrange(0, i as int)[k] == before[p];
                    assert forall|j: int| 0 <= j <= k implies all[j] != nv[q] by {
                        if all[j] == nv[q] {
                            assert(all.subrange(0, i as int)[j] == name@);
                            assert(all.subrange(0, i as int).to_set().contains(name@));
                        }
                    }
                    assert(all[k] == nv[p]);
                } else {
                    assert(nv[p] == before[p] && nv[q] == before[q]);
                }
            }
        } else {
            let k = found.unwrap();
            assert(before[k as int] == name@);
            assert(before.to_set().contains(name@));
            assert(before.to_set().insert(name@) =~= before.to_set());
        }
        proof {
            all.subrange(0, i as int).lemma_push_to_set_commute(name@);
        }
        assert(name_views(names@).to_set() =~= all.subrange(0, i + 1).to_set());
        i = i + 1;
    }
    assert(all.subrange(0, i as int) =~= all);
    names
}

} // verus!
