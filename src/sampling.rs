//! Thinning an input for test runs.
use vstd::prelude::*;

verus! {

/// Drops every `n`-th element (the elements at positions `n - 1`, `2n - 1`, ...);
/// `n == 0` keeps everything.
pub open spec fn kept(n: nat, index: int) -> bool {
    n == 0 || (index + 1) % (n as int) != 0
}

/// The elements of `v` kept by `kept(n, _)`, in order.
pub open spec fn decimated<T>(v: Seq<T>, n: nat) -> Seq<T>
    decreases v.len(),
{
    if v.len() == 0 {
        Seq::empty()
    } else if kept(n, v.len() - 1) {
        decimated(v.drop_last(), n).push(v.last())
    } else {
        decimated(v.drop_last(), n)
    }
}

/// Removes every `n`-th element of `vec`; `n == 0` returns it unchanged.
pub fn decimate_vec<T>(vec: Vec<T>, n: usize) -> (r: Vec<T>)
    ensures
        r@ == decimated(vec@, n as nat),
{
    let ghost v = vec@;
    let mut rest = vec;
    let mut tail: Vec<T> = Vec::new();
    // Walk from the back so each element can be moved out with `pop`.
    while rest.len() > 0
        invariant
            v.len() >= rest@.len(),
            rest@ == v.subrange(0, rest@.len() as int),
            decimated(v, n as nat) == decimated(rest@, n as nat) + tail@.reverse(),
        decreases rest@.len(),
    {
        let ghost before = rest@;
        let idx = rest.len() - 1;
        let x = rest.pop().unwrap();
        assert(rest@ == before.drop_last());
        if n == 0 || (idx + 1) % n != 0 {
            assert(tail@.push(x).reverse() =~= seq![x] + tail@.reverse());
            assert(decimated(before, n as nat) == decimated(rest@, n as nat).push(x));
            assert(decimated(rest@, n as nat).push(x) + tail@.reverse() =~= decimated(rest@, n as nat) + tail@.push(x).reverse());
            tail.push(x);
        }
        assert(rest@ =~= v.subrange(0, rest@.len() as int));
    }
    assert(decimated(rest@, n as nat) =~= Seq::<T>::empty());
    let mut r: Vec<T> = Vec::new();
    while tail.len() > 0
        invariant
            decimated(v, n as nat) == r@ + tail@.reverse(),
        decreases tail@.len(),
    {
        let ghost before = tail@;
        let x = tail.pop().unwrap();
        assert(before.reverse() =~= seq![x] + tail@.reverse());
        assert(r@ + before.reverse() =~= r@.push(x) + tail@.reverse());
        r.push(x);
    }
    assert(tail@.reverse() =~= Seq::<T>::empty());
    assert(r@ + tail@.reverse() =~= r@);
    r
}

} // verus!
